//! The wire codec.
//!
//! Messages are encoded as an address string (`/avatar/parameters/<name>`),
//! a type-tag string and one argument, each string padded with one to four
//! zero bytes up to a multiple of four; bundles carry an eight-byte marker,
//! an eight-byte time tag, and size-prefixed sub-packets. Decoding yields the
//! parameters of the recognized messages in listed order: other addresses,
//! missing arguments, unsupported argument types and malformed packets yield
//! nothing and are never an error.
use vstd::prelude::*;

verus! {

use vstd::slice::{slice_index_get, slice_subrange};
use vstd::utf8::{valid_utf8, decode_utf8, encode_utf8, encode_utf8_valid_utf8, encode_utf8_decode_utf8};
use crate::float_bits::{
    trunc_f32_bits, f32_bits_of_i32, f32_bits_gt_half, trunc_f32, f32_from_i32, f32_gt_half,
    F32_ONE_BITS,
};
use crate::osc::{Parameter, ParameterType, ParamView};

/// The bytes of the address prefix `/avatar/parameters/`.
pub open spec fn prefix_bytes() -> Seq<u8> {
    seq![47u8, 97, 118, 97, 116, 97, 114, 47, 112, 97, 114, 97, 109, 101, 116, 101, 114, 115, 47]
}

/// The bytes of the bundle marker `#bundle` with its terminating zero.
pub open spec fn bundle_marker() -> Seq<u8> {
    seq![35u8, 98, 117, 110, 100, 108, 101, 0]
}

/// Size a string of `l` bytes occupies on the wire: `l` plus one to four
/// zero bytes of termination and padding, up to a multiple of four.
pub open spec fn osc_padded_len(l: int) -> int {
    l + 4 - (l % 4)
}

pub open spec fn zero_pad(l: int) -> Seq<u8> {
    Seq::new((osc_padded_len(l) - l) as nat, |i: int| 0u8)
}

/// A 32-bit big-endian word read from four bytes.
pub open spec fn be32(b: Seq<u8>) -> int {
    (((b[0] as int) * 0x100 + (b[1] as int)) * 0x100 + (b[2] as int)) * 0x100 + (b[3] as int)
}

/// The four big-endian bytes of a 32-bit word.
pub open spec fn be32_bytes(x: int) -> Seq<u8> {
    let r1 = x / 0x100;
    let r2 = r1 / 0x100;
    let r3 = r2 / 0x100;
    seq![(r3 % 0x100) as u8, (r2 % 0x100) as u8, (r1 % 0x100) as u8, (x % 0x100) as u8]
}

/// The unsigned word that carries the two's-complement value `t`.
pub open spec fn u32_carrying_i32(t: int) -> int {
    if t >= 0 {
        t
    } else {
        t + 0x1_0000_0000
    }
}

/// The two's-complement value of the unsigned word `u`.
pub open spec fn i32_carried_by_u32(u: int) -> int {
    if u < 0x8000_0000 {
        u
    } else {
        u - 0x1_0000_0000
    }
}

pub open spec fn starts_with(s: Seq<u8>, p: Seq<u8>) -> bool {
    s.len() >= p.len() && s.subrange(0, p.len() as int) == p
}

/// Index of the first zero byte at or after `i`, or `-1`.
pub open spec fn first_nul_from(bytes: Seq<u8>, i: int) -> int
    decreases bytes.len() - i,
{
    if i < 0 || i >= bytes.len() {
        -1
    } else if bytes[i] == 0 {
        i
    } else {
        first_nul_from(bytes, i + 1)
    }
}

pub open spec fn first_nul(bytes: Seq<u8>) -> int {
    first_nul_from(bytes, 0)
}

/// The type-tag string of the single argument, padded to four bytes.
pub open spec fn tag_bytes(kind: ParameterType, bits: u32) -> Seq<u8> {
    match kind {
        ParameterType::Float => seq![44u8, 102, 0, 0],
        ParameterType::Int => seq![44u8, 105, 0, 0],
        ParameterType::Bool => if f32_bits_gt_half(bits) {
            seq![44u8, 84, 0, 0]
        } else {
            seq![44u8, 70, 0, 0]
        },
    }
}

/// The argument payload: the float pattern itself, the truncated integer,
/// or nothing for a boolean, which lives in its type tag.
pub open spec fn payload_bytes(kind: ParameterType, bits: u32) -> Seq<u8> {
    match kind {
        ParameterType::Float => be32_bytes(bits as int),
        ParameterType::Int => be32_bytes(u32_carrying_i32(trunc_f32_bits(bits))),
        ParameterType::Bool => Seq::empty(),
    }
}

/// A single message with the given address bytes and one typed argument.
pub open spec fn encode_message_spec(addr: Seq<u8>, kind: ParameterType, bits: u32) -> Seq<u8> {
    addr + zero_pad(addr.len() as int) + tag_bytes(kind, bits) + payload_bytes(kind, bits)
}

/// A single message addressed at `/avatar/parameters/<name>`.
pub open spec fn encode_param_spec(name: Seq<char>, kind: ParameterType, bits: u32) -> Seq<u8> {
    encode_message_spec(prefix_bytes() + encode_utf8(name), kind, bits)
}

/// The value pattern a parameter holds after travelling the wire: floats are
/// carried exactly; integers lose the fraction; booleans collapse to the
/// patterns of `0.0` and `1.0`.
pub open spec fn canon_bits(kind: ParameterType, bits: u32) -> u32 {
    match kind {
        ParameterType::Float => bits,
        ParameterType::Int => f32_bits_of_i32(trunc_f32_bits(bits) as i32) as u32,
        ParameterType::Bool => if f32_bits_gt_half(bits) {
            F32_ONE_BITS
        } else {
            0
        },
    }
}

/// The parameter a single message carries, if it is addressed under the
/// avatar prefix and its first argument is a float, an integer or a boolean.
pub open spec fn parse_message(bytes: Seq<u8>) -> Option<ParamView> {
    let n = first_nul(bytes);
    if n < 0 {
        None
    } else {
        let a_end = osc_padded_len(n);
        let addr = bytes.subrange(0, n);
        if a_end > bytes.len() {
            None
        } else if !starts_with(addr, prefix_bytes()) {
            None
        } else {
            let name_b = addr.subrange(19, n);
            if !valid_utf8(name_b) {
                None
            } else {
                let name = decode_utf8(name_b);
                let rest = bytes.subrange(a_end, bytes.len() as int);
                let tn = first_nul(rest);
                if tn < 2 || rest[0] != 44 {
                    None
                } else {
                    let t = rest[1];
                    let d = osc_padded_len(tn);
                    if t == 102 {
                        if d + 4 <= rest.len() {
                            Some(
                                ParamView {
                                    name,
                                    kind: ParameterType::Float,
                                    bits: be32(rest.subrange(d, d + 4)) as u32,
                                },
                            )
                        } else {
                            None
                        }
                    } else if t == 105 {
                        if d + 4 <= rest.len() {
                            Some(
                                ParamView {
                                    name,
                                    kind: ParameterType::Int,
                                    bits: f32_bits_of_i32(
                                        i32_carried_by_u32(be32(rest.subrange(d, d + 4))) as i32,
                                    ) as u32,
                                },
                            )
                        } else {
                            None
                        }
                    } else if t == 84 {
                        Some(ParamView { name, kind: ParameterType::Bool, bits: F32_ONE_BITS })
                    } else if t == 70 {
                        Some(ParamView { name, kind: ParameterType::Bool, bits: 0 })
                    } else {
                        None
                    }
                }
            }
        }
    }
}

/// Every parameter a packet carries, in listed order, recursing through
/// bundles.
pub open spec fn decode_packet_spec(bytes: Seq<u8>) -> Seq<ParamView>
    decreases bytes.len(), 1int, 0int,
{
    if starts_with(bytes, bundle_marker()) && bytes.len() >= 16 {
        decode_elements_spec(bytes, 16)
    } else {
        match parse_message(bytes) {
            Some(p) => seq![p],
            None => Seq::empty(),
        }
    }
}

/// The parameters of the size-prefixed bundle elements from offset `i` on.
pub open spec fn decode_elements_spec(bytes: Seq<u8>, i: int) -> Seq<ParamView>
    decreases bytes.len(), 0int, bytes.len() - i,
{
    if 0 <= i && i + 4 <= bytes.len() {
        let size = be32(bytes.subrange(i, i + 4));
        if i + 4 + size <= bytes.len() {
            decode_packet_spec(bytes.subrange(i + 4, i + 4 + size)) + decode_elements_spec(
                bytes,
                i + 4 + size,
            )
        } else {
            Seq::empty()
        }
    } else {
        Seq::empty()
    }
}

pub open spec fn views_of(s: Seq<Parameter>) -> Seq<ParamView> {
    s.map_values(|p: Parameter| p@)
}

pub open spec fn opt_view(r: Option<Parameter>) -> Option<ParamView> {
    match r {
        Some(p) => Some(p@),
        None => None,
    }
}

proof fn lemma_first_nul_skip(bytes: Seq<u8>, k: int)
    requires
        0 <= k <= bytes.len(),
        forall|j: int| 0 <= j < k ==> bytes[j] != 0,
    ensures
        first_nul(bytes) == first_nul_from(bytes, k),
    decreases k,
{
    if k > 0 {
        lemma_first_nul_skip(bytes, k - 1);
    }
}

proof fn lemma_be32_bytes(x: int)
    requires
        0 <= x < 0x1_0000_0000,
    ensures
        be32(be32_bytes(x)) == x,
        forall|k: int| 0 <= k < 4 ==> 0 <= #[trigger] (be32_bytes(x)[k] as int) < 0x100,
        be32_bytes(x).len() == 4,
{
    let r1 = x / 0x100;
    let r2 = r1 / 0x100;
    let r3 = r2 / 0x100;
    assert(x == r1 * 0x100 + (x % 0x100));
    assert(r1 == r2 * 0x100 + (r1 % 0x100));
    assert(r2 == r3 * 0x100 + (r2 % 0x100));
    assert(r3 < 0x100);
    assert(r3 % 0x100 == r3);
}

proof fn lemma_be32_bound(b: Seq<u8>)
    ensures
        0 <= be32(b) < 0x1_0000_0000,
{
    assert(0 <= b[0] < 0x100);
    assert(0 <= b[1] < 0x100);
    assert(0 <= b[2] < 0x100);
    assert(0 <= b[3] < 0x100);
}

proof fn lemma_message_shape(addr: Seq<u8>, kind: ParameterType, bits: u32)
    requires
        forall|j: int| 0 <= j < addr.len() ==> addr[j] != 0,
    ensures
        ({
            let enc = encode_message_spec(addr, kind, bits);
            let ln = addr.len() as int;
            &&& first_nul(enc) == ln
            &&& osc_padded_len(ln) <= enc.len()
            &&& enc.subrange(0, ln) == addr
            &&& enc.subrange(osc_padded_len(ln), enc.len() as int) == tag_bytes(kind, bits)
                + payload_bytes(kind, bits)
            &&& addr.len() > 0 ==> enc[0] == addr[0]
        }),
{
    let enc = encode_message_spec(addr, kind, bits);
    let ln = addr.len() as int;
    let a_end = osc_padded_len(ln);
    let pad = zero_pad(ln);
    let tag = tag_bytes(kind, bits);
    let payload = payload_bytes(kind, bits);
    assert(1 <= pad.len() <= 4);
    assert(tag.len() == 4);
    assert(enc.len() == ln + pad.len() + tag.len() + payload.len());
    assert forall|j: int| 0 <= j < ln implies enc[j] != 0 by {
        assert(enc[j] == addr[j]);
    }
    assert(enc[ln] == pad[0]);
    assert(enc[ln] == 0);
    lemma_first_nul_skip(enc, ln);
    assert(first_nul_from(enc, ln) == ln);
    assert(enc.subrange(0, ln) =~= addr);
    assert(enc.subrange(a_end, enc.len() as int) =~= tag + payload);
}

/// Law: a message whose address does not begin with `/avatar/parameters/`
/// decodes to nothing, whatever its argument.
pub proof fn lemma_foreign_address_ignored(addr: Seq<u8>, kind: ParameterType, bits: u32)
    requires
        addr.len() > 0,
        addr[0] == 47,
        forall|j: int| 0 <= j < addr.len() ==> addr[j] != 0,
        !starts_with(addr, prefix_bytes()),
    ensures
        decode_packet_spec(encode_message_spec(addr, kind, bits)) =~= Seq::<ParamView>::empty(),
{
    let enc = encode_message_spec(addr, kind, bits);
    let ln = addr.len() as int;
    lemma_message_shape(addr, kind, bits);
    if starts_with(enc, bundle_marker()) {
        assert(enc.subrange(0, 8)[0] == bundle_marker()[0]);
        assert(enc[0] == 35);
        assert(false);
    }
    assert(first_nul(enc) == ln);
    assert(enc.subrange(0, ln) == addr);
    assert(parse_message(enc) is None);
}

/// Law: encoding a parameter and decoding the bytes yields that parameter
/// back — the name and the kind exactly, and the value up to what the kind's
/// wire representation keeps: floats are exact, integers keep the truncated
/// value, booleans keep only which side of one half the value lay on.
pub proof fn lemma_codec_round_trip(name: Seq<char>, kind: ParameterType, bits: u32)
    requires
        forall|j: int| 0 <= j < encode_utf8(name).len() ==> encode_utf8(name)[j] != 0,
    ensures
        decode_packet_spec(encode_param_spec(name, kind, bits)) =~= seq![
            ParamView { name, kind, bits: canon_bits(kind, bits) },
        ],
{
    let nb = encode_utf8(name);
    let addr = prefix_bytes() + nb;
    let ln = addr.len() as int;
    let enc = encode_param_spec(name, kind, bits);
    let a_end = osc_padded_len(ln);
    let tag = tag_bytes(kind, bits);
    let payload = payload_bytes(kind, bits);
    assert(forall|j: int| 0 <= j < 19 ==> prefix_bytes()[j] != 0);
    assert forall|j: int| 0 <= j < addr.len() implies addr[j] != 0 by {
        if j < 19 {
            assert(addr[j] == prefix_bytes()[j]);
        } else {
            assert(addr[j] == nb[j - 19]);
        }
    }
    lemma_message_shape(addr, kind, bits);
    assert(enc[0] == 47);
    if starts_with(enc, bundle_marker()) {
        assert(enc.subrange(0, 8)[0] == bundle_marker()[0]);
        assert(false);
    }
    assert(first_nul(enc) == ln);
    let addr_p = enc.subrange(0, ln);
    assert(addr_p == addr);
    assert(addr.subrange(0, 19) =~= prefix_bytes());
    assert(starts_with(addr_p, prefix_bytes()));
    assert(addr.subrange(19, ln) =~= nb);
    encode_utf8_valid_utf8(name);
    encode_utf8_decode_utf8(name);
    assert(decode_utf8(nb) == name);
    let rest = enc.subrange(a_end, enc.len() as int);
    assert(rest == tag + payload);
    assert(rest[0] == tag[0] && rest[1] == tag[1] && rest[2] == tag[2]);
    assert(rest[0] == 44 && rest[1] != 0 && rest[2] == 0);
    lemma_first_nul_skip(rest, 2);
    assert(first_nul(rest) == 2);
    assert(osc_padded_len(2) == 4);
    match kind {
        ParameterType::Float => {
            assert(rest.len() == 8);
            assert(rest.subrange(4, 8) =~= payload);
            lemma_be32_bytes(bits as int);
            assert(be32(rest.subrange(4, 8)) == bits);
            assert(parse_message(enc) == Some(
                ParamView { name, kind, bits: canon_bits(kind, bits) },
            ));
        },
        ParameterType::Int => {
            assert(rest.len() == 8);
            assert(rest.subrange(4, 8) =~= payload);
            let t = trunc_f32_bits(bits);
            crate::float_bits::lemma_trunc_f32_bits_range(bits);
            assert(-0x8000_0000 <= t < 0x8000_0000);
            let u = u32_carrying_i32(t);
            assert(0 <= u < 0x1_0000_0000);
            lemma_be32_bytes(u);
            assert(be32(rest.subrange(4, 8)) == u);
            assert(i32_carried_by_u32(u) == t);
            assert(f32_bits_of_i32(t as i32) == f32_bits_of_i32(trunc_f32_bits(bits) as i32));
            assert(parse_message(enc) == Some(
                ParamView { name, kind, bits: canon_bits(kind, bits) },
            ));
        },
        ParameterType::Bool => {
            assert(rest.len() == 4);
            assert(rest[1] == 84 || rest[1] == 70);
            assert(parse_message(enc) == Some(
                ParamView { name, kind, bits: canon_bits(kind, bits) },
            ));
        },
    }
    assert(decode_packet_spec(enc) == seq![ParamView { name, kind, bits: canon_bits(kind, bits) }]);
}

/// The bytes of the address prefix, as a vector.
fn osc_prefix() -> (v: Vec<u8>)
    ensures
        v@ == prefix_bytes(),
{
    let mut v: Vec<u8> = Vec::new();
    v.push(47u8);
    v.push(97u8);
    v.push(118u8);
    v.push(97u8);
    v.push(116u8);
    v.push(97u8);
    v.push(114u8);
    v.push(47u8);
    v.push(112u8);
    v.push(97u8);
    v.push(114u8);
    v.push(97u8);
    v.push(109u8);
    v.push(101u8);
    v.push(116u8);
    v.push(101u8);
    v.push(114u8);
    v.push(115u8);
    v.push(47u8);
    assert(v@ =~= prefix_bytes());
    v
}

fn bundle_marker_vec() -> (v: Vec<u8>)
    ensures
        v@ == bundle_marker(),
{
    let mut v: Vec<u8> = Vec::new();
    v.push(35u8);
    v.push(98u8);
    v.push(117u8);
    v.push(110u8);
    v.push(100u8);
    v.push(108u8);
    v.push(101u8);
    v.push(0u8);
    assert(v@ =~= bundle_marker());
    v
}

/// Relies on `core::str::from_utf8`: it succeeds exactly on valid UTF-8 and
/// returns the string those bytes spell.
#[verifier::external_body]
fn utf8_to_str<'a>(v: &'a [u8]) -> (r: Option<&'a str>)
    ensures
        r is Some <==> valid_utf8(v@),
        r matches Some(s) ==> s@ == decode_utf8(v@),
{
    core::str::from_utf8(v).ok()
}

fn find_first_nul(data: &[u8]) -> (r: Option<usize>)
    ensures
        r matches Some(i) ==> first_nul(data@) == i && i < data@.len(),
        r is None ==> first_nul(data@) == -1,
{
    let mut i: usize = 0;
    while i < data.len()
        invariant
            0 <= i <= data@.len(),
            first_nul(data@) == first_nul_from(data@, i as int),
        decreases data@.len() - i,
    {
        if *slice_index_get(data, i) == 0 {
            return Some(i);
        }
        i = i + 1;
    }
    None
}

fn read_be32(s: &[u8], i: usize) -> (x: u32)
    requires
        i + 4 <= s@.len(),
        s@.len() <= usize::MAX,
    ensures
        x as int == be32(s@.subrange(i as int, i as int + 4)),
{
    let b0 = *slice_index_get(s, i);
    let b1 = *slice_index_get(s, i + 1);
    let b2 = *slice_index_get(s, i + 2);
    let b3 = *slice_index_get(s, i + 3);
    let x: u32 = (((b0 as u32) * 0x100 + (b1 as u32)) * 0x100 + (b2 as u32)) * 0x100 + (b3 as u32);
    proof {
        let sub = s@.subrange(i as int, i as int + 4);
        assert(sub[0] == b0 && sub[1] == b1 && sub[2] == b2 && sub[3] == b3);
    }
    x
}

fn push_be32(v: &mut Vec<u8>, x: u32)
    ensures
        final(v)@ == old(v)@ + be32_bytes(x as int),
{
    let r1: u32 = x / 0x100;
    let r2: u32 = r1 / 0x100;
    let r3: u32 = r2 / 0x100;
    v.push((r3 % 0x100) as u8);
    v.push((r2 % 0x100) as u8);
    v.push((r1 % 0x100) as u8);
    v.push((x % 0x100) as u8);
    assert(v@ =~= old(v)@ + be32_bytes(x as int));
}

/// The parameter carried by a single message, if any.
fn parse_message_exec(data: &[u8]) -> (r: Option<Parameter>)
    ensures
        opt_view(r) == parse_message(data@),
{
    let n = match find_first_nul(data) {
        Some(n) => n,
        None => {
            return None;
        },
    };
    if n < 19 {
        proof {
            let addr = data@.subrange(0, n as int);
            assert(addr.len() < prefix_bytes().len());
        }
        return None;
    }
    let pad: usize = 4 - n % 4;
    if data.len() - n < pad {
        return None;
    }
    let a_end: usize = n + pad;
    let pre = osc_prefix();
    let mut k: usize = 0;
    while k < 19
        invariant
            0 <= k <= 19,
            19 <= n < data@.len(),
            pre@ == prefix_bytes(),
            forall|j: int| 0 <= j < k ==> data@[j] == prefix_bytes()[j],
        decreases 19 - k,
    {
        if *slice_index_get(data, k) != pre[k] {
            proof {
                let addr = data@.subrange(0, n as int);
                assert(addr[k as int] != prefix_bytes()[k as int]);
                assert(addr.subrange(0, 19) != prefix_bytes());
            }
            return None;
        }
        k = k + 1;
    }
    proof {
        let addr = data@.subrange(0, n as int);
        assert(addr.subrange(0, 19) =~= prefix_bytes());
        assert(starts_with(addr, prefix_bytes()));
    }
    let name_slice = slice_subrange(data, 19, n);
    proof {
        assert(data@.subrange(19, n as int) =~= data@.subrange(0, n as int).subrange(19, n as int));
    }
    let name_str = match utf8_to_str(name_slice) {
        Some(s) => s,
        None => {
            return None;
        },
    };
    let name: String = name_str.to_owned();
    let rest = slice_subrange(data, a_end, data.len());
    let tn = match find_first_nul(rest) {
        Some(tn) => tn,
        None => {
            return None;
        },
    };
    if tn < 2 {
        return None;
    }
    if *slice_index_get(rest, 0) != 44 {
        return None;
    }
    let t = *slice_index_get(rest, 1);
    if t == 84 {
        return Some(
            Parameter { name, parameter_type: ParameterType::Bool, value_bits: F32_ONE_BITS },
        );
    }
    if t == 70 {
        return Some(Parameter { name, parameter_type: ParameterType::Bool, value_bits: 0 });
    }
    if t != 102 && t != 105 {
        return None;
    }
    let tpad: usize = 4 - tn % 4;
    if rest.len() - tn < tpad {
        return None;
    }
    let d: usize = tn + tpad;
    if rest.len() < 4 || d > rest.len() - 4 {
        return None;
    }
    let w = read_be32(rest, d);
    if t == 102 {
        Some(Parameter { name, parameter_type: ParameterType::Float, value_bits: w })
    } else {
        let iv: i32 = if w < 0x8000_0000 {
            w as i32
        } else {
            ((w as i64) - 0x1_0000_0000) as i32
        };
        proof {
            lemma_be32_bound(rest@.subrange(d as int, d as int + 4));
            assert(iv as int == i32_carried_by_u32(be32(rest@.subrange(d as int, d as int + 4))));
        }
        let bits = f32_from_i32(iv);
        Some(Parameter { name, parameter_type: ParameterType::Int, value_bits: bits })
    }
}

/// Every parameter a datagram carries, in listed order.
pub fn decode_packet(data: &[u8]) -> (r: Vec<Parameter>)
    ensures
        views_of(r@) == decode_packet_spec(data@),
    decreases data@.len(), 1int, 0int,
{
    let mut is_bundle = false;
    if data.len() >= 16 {
        let marker = bundle_marker_vec();
        let mut k: usize = 0;
        let mut all = true;
        while k < 8
            invariant
                0 <= k <= 8,
                data@.len() >= 16,
                marker@ == bundle_marker(),
                all <==> (forall|j: int| 0 <= j < k ==> data@[j] == bundle_marker()[j]),
            decreases 8 - k,
        {
            if *slice_index_get(data, k) != marker[k] {
                all = false;
            }
            k = k + 1;
        }
        is_bundle = all;
        proof {
            if all {
                assert(data@.subrange(0, 8) =~= bundle_marker());
            } else {
                assert(data@.subrange(0, 8) != bundle_marker());
            }
        }
    }
    if is_bundle {
        decode_elements(data, 16)
    } else {
        let mut out: Vec<Parameter> = Vec::new();
        match parse_message_exec(data) {
            Some(p) => {
                proof {
                    assert(parse_message(data@) == Some(p@));
                }
                out.push(p);
                assert(views_of(out@) =~= seq![p@]);
            },
            None => {
                assert(views_of(out@) =~= Seq::<ParamView>::empty());
            },
        }
        out
    }
}

fn decode_elements(data: &[u8], start: usize) -> (r: Vec<Parameter>)
    ensures
        views_of(r@) == decode_elements_spec(data@, start as int),
    decreases data@.len(), 0int, data@.len() - start,
{
    if data.len() < 4 || start > data.len() - 4 {
        let out: Vec<Parameter> = Vec::new();
        assert(views_of(out@) =~= Seq::<ParamView>::empty());
        return out;
    }
    let size32 = read_be32(data, start);
    proof {
        lemma_be32_bound(data@.subrange(start as int, start as int + 4));
    }
    let size = size32 as usize;
    if size > data.len() - start - 4 {
        let out: Vec<Parameter> = Vec::new();
        assert(views_of(out@) =~= Seq::<ParamView>::empty());
        return out;
    }
    let sub = slice_subrange(data, start + 4, start + 4 + size);
    let mut out = decode_packet(sub);
    let mut tail = decode_elements(data, start + 4 + size);
    let ghost pre = out@;
    let ghost tl = tail@;
    out.append(&mut tail);
    proof {
        assert(views_of(pre + tl) =~= views_of(pre) + views_of(tl));
    }
    out
}

/// Encode one parameter update as a single message addressed at
/// `/avatar/parameters/<name>`, typed per `kind`: the float pattern is
/// carried as it is, an integer argument is the value truncated toward
/// zero, and a boolean argument is true exactly when the value exceeds
/// one half.
pub fn encode_parameter(name: &str, kind: ParameterType, value_bits: u32) -> (r: Vec<u8>)
    ensures
        r@ == encode_param_spec(name@, kind, value_bits),
{
    let mut v = osc_prefix();
    let nb = name.as_bytes_vec();
    let ghost addr = prefix_bytes() + encode_utf8(name@);
    let mut j: usize = 0;
    while j < nb.len()
        invariant
            0 <= j <= nb@.len(),
            nb@ == encode_utf8(name@),
            v@ == prefix_bytes() + nb@.take(j as int),
        decreases nb@.len() - j,
    {
        let b = nb[j];
        v.push(b);
        assert(v@ =~= prefix_bytes() + nb@.take(j as int + 1));
        j = j + 1;
    }
    assert(nb@.take(nb@.len() as int) =~= nb@);
    assert(v@ == addr);
    let pad: usize = 4 - v.len() % 4;
    let ghost alen = addr.len() as int;
    let mut c: usize = 0;
    while c < pad
        invariant
            0 <= c <= pad,
            pad == 4 - alen % 4,
            alen == addr.len(),
            v@ == addr + Seq::new(c as nat, |i: int| 0u8),
        decreases pad - c,
    {
        v.push(0u8);
        assert(v@ =~= addr + Seq::new((c + 1) as nat, |i: int| 0u8));
        c = c + 1;
    }
    assert(Seq::new(pad as nat, |i: int| 0u8) =~= zero_pad(alen));
    assert(v@ == addr + zero_pad(alen));
    let ghost with_addr = addr + zero_pad(alen);
    v.push(44u8);
    let tagb: u8 = match kind {
        ParameterType::Float => 102,
        ParameterType::Int => 105,
        ParameterType::Bool => if f32_gt_half(value_bits) {
            84
        } else {
            70
        },
    };
    v.push(tagb);
    v.push(0u8);
    v.push(0u8);
    assert(v@ =~= with_addr + tag_bytes(kind, value_bits));
    let ghost with_tag = with_addr + tag_bytes(kind, value_bits);
    match kind {
        ParameterType::Float => {
            push_be32(&mut v, value_bits);
        },
        ParameterType::Int => {
            let t = trunc_f32(value_bits);
            let u: u32 = if t >= 0 {
                t as u32
            } else {
                ((t as i64) + 0x1_0000_0000) as u32
            };
            assert(u as int == u32_carrying_i32(trunc_f32_bits(value_bits)));
            push_be32(&mut v, u);
        },
        ParameterType::Bool => {},
    }
    assert(v@ =~= with_tag + payload_bytes(kind, value_bits));
    assert(v@ =~= encode_param_spec(name@, kind, value_bits));
    v
}

} // verus!
