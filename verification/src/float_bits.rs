//! Arithmetic on IEEE-754 single-precision bit patterns.
//!
//! Parameter values travel on the wire as 32-bit floats. This crate keeps
//! them as their bit patterns (`u32`) and performs the three conversions the
//! bridge needs — truncation to a 32-bit integer, conversion from a 32-bit
//! integer, and the `> 0.5` threshold — in integer arithmetic, each proved
//! against a specification written over the sign, exponent and fraction
//! fields of the pattern.
use vstd::prelude::*;

verus! {

use vstd::arithmetic::power2::{pow2, lemma_pow2_strictly_increases, lemma_pow2_adds, lemma2_to64};

/// Bit pattern of `1.0f32`.
pub const F32_ONE_BITS: u32 = 0x3F80_0000;

/// Bit pattern of `0.0f32`.
pub const F32_ZERO_BITS: u32 = 0;

pub open spec fn f32_sign(b: u32) -> int {
    (b as int) / 0x8000_0000
}

pub open spec fn f32_exp(b: u32) -> int {
    ((b as int) / 0x0080_0000) % 0x100
}

pub open spec fn f32_frac(b: u32) -> int {
    (b as int) % 0x0080_0000
}

pub open spec fn f32_is_nan(b: u32) -> bool {
    f32_exp(b) == 0xff && f32_frac(b) != 0
}

/// The value of the pattern `b`, rounded toward zero and saturated to the
/// range of `i32`, with NaN going to zero — the semantics of casting the
/// float to `i32`.
pub open spec fn trunc_f32_bits(b: u32) -> int {
    let s = f32_sign(b);
    let e = f32_exp(b);
    let m = f32_frac(b);
    if e == 0xff {
        if m != 0 {
            0
        } else if s == 0 {
            0x7fff_ffff
        } else {
            -0x8000_0000
        }
    } else if e < 127 {
        0
    } else if e >= 158 {
        if s == 0 {
            0x7fff_ffff
        } else {
            -0x8000_0000
        }
    } else {
        let u = e - 127;
        let sig = 0x0080_0000 + m;
        let mag = if u >= 23 {
            sig * pow2((u - 23) as nat)
        } else {
            sig / pow2((23 - u) as nat) as int
        };
        if s == 0 {
            mag
        } else {
            -mag
        }
    }
}

/// Number of binary digits of `m`.
pub open spec fn bit_len(m: nat) -> nat
    decreases m,
{
    if m == 0 {
        0
    } else {
        (1 + bit_len((m / 2) as nat)) as nat
    }
}

/// The pattern of the float nearest to the integer `i`, ties going to even —
/// the semantics of casting `i` to a 32-bit float.
pub open spec fn f32_bits_of_i32(i: i32) -> int {
    if i == 0 {
        0
    } else {
        let s: int = if i < 0 {
            0x8000_0000
        } else {
            0
        };
        let mag = (if i < 0 {
            -(i as int)
        } else {
            i as int
        }) as nat;
        let p = (bit_len(mag) - 1) as nat;
        if p <= 23 {
            s + (p + 127) * 0x0080_0000 + (mag * pow2((23 - p) as nat) - 0x0080_0000)
        } else {
            let sh = (p - 23) as nat;
            let keep = mag / pow2(sh);
            let rem = mag % pow2(sh);
            let half = pow2((sh - 1) as nat);
            let rounded: nat = if rem > half || (rem == half && keep % 2 == 1) {
                (keep + 1) as nat
            } else {
                keep
            };
            if rounded == 0x0100_0000 {
                s + (p + 128) * 0x0080_0000
            } else {
                s + (p + 127) * 0x0080_0000 + (rounded - 0x0080_0000)
            }
        }
    }
}

/// Whether the value of the pattern `b` is strictly greater than one half —
/// the semantics of comparing the float against `0.5`. Among non-negative
/// non-NaN patterns the bit patterns order as the values do, and one half is
/// `0x3F00_0000`.
pub open spec fn f32_bits_gt_half(b: u32) -> bool {
    if f32_is_nan(b) {
        false
    } else if f32_sign(b) != 0 {
        false
    } else {
        (b as int) > 0x3F00_0000
    }
}

/// Truncation toward zero always lands in the range of `i32`.
pub proof fn lemma_trunc_f32_bits_range(b: u32)
    ensures
        -0x8000_0000 <= trunc_f32_bits(b) <= 0x7fff_ffff,
{
    lemma2_to64();
    let e = f32_exp(b);
    let m = f32_frac(b);
    if e == 0xff || e < 127 || e >= 158 {
    } else {
        let u = e - 127;
        let sig = 0x0080_0000 + m;
        assert(0 <= m < 0x0080_0000);
        if u >= 23 {
            if ((u - 23) as nat) < 7 {
                lemma_pow2_strictly_increases((u - 23) as nat, 7);
            }
            assert(pow2((u - 23) as nat) <= 128);
            assert(sig * pow2((u - 23) as nat) <= 0x00ff_ffff * 128) by (nonlinear_arith)
                requires
                    sig <= 0x00ff_ffff,
                    0 <= pow2((u - 23) as nat) <= 128,
            ;
            assert(sig * pow2((u - 23) as nat) >= 0) by (nonlinear_arith)
                requires
                    sig >= 0,
                    pow2((u - 23) as nat) >= 0,
            ;
        } else {
            vstd::arithmetic::power2::lemma_pow2_pos((23 - u) as nat);
            assert(0 <= sig / (pow2((23 - u) as nat) as int) <= sig) by (nonlinear_arith)
                requires
                    sig > 0,
                    pow2((23 - u) as nat) >= 1,
            ;
        }
    }
}

proof fn lemma_bit_len_bounds(m: nat)
    requires
        m > 0,
    ensures
        bit_len(m) >= 1,
        pow2((bit_len(m) - 1) as nat) <= m < pow2(bit_len(m)),
    decreases m,
{
    lemma2_to64();
    if m / 2 == 0 {
        assert(m == 1);
        assert(bit_len(0nat) == 0);
        assert(bit_len(1nat) == 1);
    } else {
        lemma_bit_len_bounds((m / 2) as nat);
        let l = bit_len((m / 2) as nat);
        lemma_pow2_adds((l - 1) as nat, 1);
        lemma_pow2_adds(l, 1);
        assert(2 * (m / 2) <= m);
        assert(m <= 2 * (m / 2) + 1);
        assert(pow2((l - 1) as nat) * 2 <= m) by (nonlinear_arith)
            requires
                pow2((l - 1) as nat) <= m / 2,
                2 * (m / 2) <= m,
        ;
        assert(m < pow2(l) * 2) by (nonlinear_arith)
            requires
                m / 2 < pow2(l),
                m <= 2 * (m / 2) + 1,
        ;
    }
}

proof fn lemma_bit_len_le(m: nat, k: nat)
    requires
        m < pow2(k),
    ensures
        bit_len(m) <= k,
{
    if m > 0 {
        lemma_bit_len_bounds(m);
        if bit_len(m) > k {
            if k < bit_len(m) - 1 {
                lemma_pow2_strictly_increases(k, (bit_len(m) - 1) as nat);
            }
            assert(pow2(k) <= pow2((bit_len(m) - 1) as nat));
            assert(false);
        }
    }
}

/// `pow2` as an executable function.
pub fn pow2_u32(e: u32) -> (r: u32)
    requires
        e < 32,
    ensures
        r as nat == pow2(e as nat),
        r >= 1,
{
    proof {
        lemma2_to64();
    }
    let mut i: u32 = 0;
    let mut r: u32 = 1;
    while i < e
        invariant
            i <= e < 32,
            r as nat == pow2(i as nat),
        decreases e - i,
    {
        proof {
            lemma2_to64();
            if (i as nat) < 31 {
                lemma_pow2_strictly_increases(i as nat, 31);
            }
            lemma_pow2_adds(i as nat, 1);
        }
        r = r * 2;
        i = i + 1;
    }
    proof {
        vstd::arithmetic::power2::lemma_pow2_pos(e as nat);
    }
    r
}

/// Truncate the value of the pattern `b` toward zero, saturating to `i32`
/// and sending NaN to zero, exactly as casting the float to `i32` would.
pub fn trunc_f32(b: u32) -> (r: i32)
    ensures
        r as int == trunc_f32_bits(b),
{
    let s: u32 = b / 0x8000_0000;
    let e: u32 = (b / 0x0080_0000) % 0x100;
    let m: u32 = b % 0x0080_0000;
    if e == 0xff {
        if m != 0 {
            0
        } else if s == 0 {
            0x7fff_ffff
        } else {
            i32::MIN
        }
    } else if e < 127 {
        0
    } else if e >= 158 {
        if s == 0 {
            0x7fff_ffff
        } else {
            i32::MIN
        }
    } else {
        let u: u32 = e - 127;
        let mag: u32;
        let sig: u32 = 0x0080_0000 + m;
        if u >= 23 {
            let p: u32 = pow2_u32(u - 23);
            proof {
                lemma2_to64();
                if ((u - 23) as nat) < 7 {
                    lemma_pow2_strictly_increases((u - 23) as nat, 7);
                }
                assert(sig * p <= 0x00ff_ffff * 128) by (nonlinear_arith)
                    requires
                        sig <= 0x00ff_ffff,
                        0 <= p <= 128,
                ;
            }
            mag = sig * p;
        } else {
            mag = sig / pow2_u32(23 - u);
        }
        assert(mag <= 0x7fff_ff80);
        if s == 0 {
            mag as i32
        } else {
            -(mag as i32)
        }
    }
}

/// The pattern of the float nearest to `i`, as casting `i` to a 32-bit
/// float would produce it.
pub fn f32_from_i32(i: i32) -> (r: u32)
    ensures
        r as int == f32_bits_of_i32(i),
{
    if i == 0 {
        return 0;
    }
    let s_bits: u32 = if i < 0 {
        0x8000_0000
    } else {
        0
    };
    let mag64: i64 = if i < 0 {
        -(i as i64)
    } else {
        i as i64
    };
    let mag: u32 = mag64 as u32;
    assert(mag as int == (if i < 0 {
        -(i as int)
    } else {
        i as int
    }));
    let ghost gl: nat = bit_len(mag as nat);
    proof {
        lemma2_to64();
        lemma_bit_len_le(mag as nat, 32);
    }
    let mut t: u32 = mag;
    let mut l: u32 = 0;
    while t > 0
        invariant
            l as nat + bit_len(t as nat) == gl,
            gl <= 32,
        decreases t,
    {
        t = t / 2;
        l = l + 1;
    }
    proof {
        lemma2_to64();
        lemma_bit_len_bounds(mag as nat);
    }
    assert(l as nat == gl);
    let p: u32 = l - 1;
    assert(pow2(p as nat) <= (mag as nat) && (mag as nat) < pow2(l as nat));
    if p <= 23 {
        let scale: u32 = pow2_u32(23 - p);
        proof {
            lemma2_to64();
            lemma_pow2_adds((p + 1) as nat, (23 - p) as nat);
            lemma_pow2_adds(p as nat, (23 - p) as nat);
            assert((mag as nat) * (scale as nat) < pow2((p + 1) as nat) * pow2((23 - p) as nat))
                by (nonlinear_arith)
                requires
                    (mag as nat) < pow2((p + 1) as nat),
                    scale as nat == pow2((23 - p) as nat),
                    scale >= 1,
            ;
            assert((mag as nat) * (scale as nat) >= pow2(p as nat) * pow2((23 - p) as nat))
                by (nonlinear_arith)
                requires
                    pow2(p as nat) <= mag as nat,
                    scale as nat == pow2((23 - p) as nat),
            ;
        }
        let wide: u32 = mag * scale;
        let mantissa: u32 = wide - 0x0080_0000;
        s_bits + (p + 127) * 0x0080_0000 + mantissa
    } else {
        let sh: u32 = p - 23;
        let div: u32 = pow2_u32(sh);
        let half: u32 = pow2_u32(sh - 1);
        proof {
            lemma2_to64();
            lemma_pow2_adds(24, sh as nat);
            lemma_pow2_adds(23, sh as nat);
            lemma_pow2_adds((sh - 1) as nat, 1);
            assert(pow2((p + 1) as nat) == 0x0100_0000 * pow2(sh as nat));
            assert(pow2(p as nat) == 0x0080_0000 * pow2(sh as nat));
            assert((mag as nat) / (div as nat) < 0x0100_0000) by (nonlinear_arith)
                requires
                    (mag as nat) < 0x0100_0000 * (div as nat),
                    div >= 1,
            ;
            assert((mag as nat) / (div as nat) >= 0x0080_0000) by (nonlinear_arith)
                requires
                    (mag as nat) >= 0x0080_0000 * (div as nat),
                    div >= 1,
            ;
        }
        let keep: u32 = mag / div;
        let rem: u32 = mag % div;
        let rounded: u32 = if rem > half || (rem == half && keep % 2 == 1) {
            keep + 1
        } else {
            keep
        };
        if rounded == 0x0100_0000 {
            s_bits + (p + 128) * 0x0080_0000
        } else {
            s_bits + (p + 127) * 0x0080_0000 + (rounded - 0x0080_0000)
        }
    }
}

/// Whether the value of the pattern `b` is strictly greater than one half.
pub fn f32_gt_half(b: u32) -> (r: bool)
    ensures
        r == f32_bits_gt_half(b),
{
    let e: u32 = (b / 0x0080_0000) % 0x100;
    let m: u32 = b % 0x0080_0000;
    if e == 0xff && m != 0 {
        false
    } else if b / 0x8000_0000 != 0 {
        false
    } else {
        b > 0x3F00_0000
    }
}

} // verus!
