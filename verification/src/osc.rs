//! Avatar parameters, endpoint configuration, and the bridge state: the
//! parameter store and the listener lifecycle decisions.
//!
//! [`OscState`] owns the mirror of the peer's parameters, the endpoint
//! configuration, and the running flag of the listener. The surrounding
//! application owns the socket and the worker thread; every decision — when
//! to bind, when to restart, what a datagram updates — is taken here.
use vstd::prelude::*;

verus! {

use vstd::string::StringExecFns;
use crate::codec::{decode_packet, decode_packet_spec, encode_parameter, encode_param_spec};
use crate::text::str_eq;

/// The argument types the peer exposes on its avatar parameters.
#[derive(Debug, Clone, Copy, PartialEq, Eq, Structural)]
pub enum ParameterType {
    Float,
    Int,
    Bool,
}

/// A mirrored avatar parameter. The value is the IEEE-754 bit pattern of the
/// 32-bit float that travelled on the wire; booleans are represented as the
/// patterns of `0.0` and `1.0`.
#[derive(Debug)]
pub struct Parameter {
    pub name: String,
    pub parameter_type: ParameterType,
    pub value_bits: u32,
}

/// Mathematical image of a [`Parameter`].
pub struct ParamView {
    pub name: Seq<char>,
    pub kind: ParameterType,
    pub bits: u32,
}

impl View for Parameter {
    type V = ParamView;

    open spec fn view(&self) -> ParamView {
        ParamView { name: self.name@, kind: self.parameter_type, bits: self.value_bits }
    }
}

impl Clone for Parameter {
    fn clone(&self) -> (r: Self)
        ensures
            r@ == self@,
    {
        Parameter {
            name: self.name.clone(),
            parameter_type: self.parameter_type,
            value_bits: self.value_bits,
        }
    }
}

pub open spec fn views_of(s: Seq<Parameter>) -> Seq<ParamView> {
    s.map_values(|p: Parameter| p@)
}

/// Errors of the bridge that are reported to the caller.
#[derive(Debug, Clone, Copy, PartialEq, Eq, Structural)]
pub enum OscError {
    /// A value was set on a name the store has never seen.
    ParameterNotFound,
    /// A kind label was none of `Float`, `Int` and `Bool`.
    InvalidParameterType,
}

/// Where outbound packets go and where the inbound socket binds.
#[derive(Debug)]
pub struct OscConfig {
    pub target_address: String,
    pub target_port: u16,
    pub listen_address: String,
    pub listen_port: u16,
}

/// Mathematical image of an [`OscConfig`].
pub struct ConfigView {
    pub target_address: Seq<char>,
    pub target_port: u16,
    pub listen_address: Seq<char>,
    pub listen_port: u16,
}

impl View for OscConfig {
    type V = ConfigView;

    open spec fn view(&self) -> ConfigView {
        ConfigView {
            target_address: self.target_address@,
            target_port: self.target_port,
            listen_address: self.listen_address@,
            listen_port: self.listen_port,
        }
    }
}

pub open spec fn spec_default_config() -> ConfigView {
    ConfigView {
        target_address: "127.0.0.1"@,
        target_port: 9000,
        listen_address: "127.0.0.1"@,
        listen_port: 9001,
    }
}

/// A material change: any field differs.
pub open spec fn config_changed(a: ConfigView, b: ConfigView) -> bool {
    a.target_address != b.target_address || a.target_port != b.target_port
        || a.listen_address != b.listen_address || a.listen_port != b.listen_port
}

impl Clone for OscConfig {
    fn clone(&self) -> (r: Self)
        ensures
            r@ == self@,
    {
        OscConfig {
            target_address: self.target_address.clone(),
            target_port: self.target_port,
            listen_address: self.listen_address.clone(),
            listen_port: self.listen_port,
        }
    }
}

impl Default for OscConfig {
    /// The conventional loopback endpoints: send to 9000, listen on 9001.
    fn default() -> (c: Self)
        ensures
            c@ == spec_default_config(),
    {
        OscConfig {
            target_address: String::from_str("127.0.0.1"),
            target_port: 9000,
            listen_address: String::from_str("127.0.0.1"),
            listen_port: 9001,
        }
    }
}

impl OscConfig {
    /// Whether any field differs — the change that forces a listener restart.
    pub fn differs_from(&self, other: &OscConfig) -> (r: bool)
        ensures
            r == config_changed(self@, other@),
    {
        self.target_address != other.target_address || self.target_port != other.target_port
            || self.listen_address != other.listen_address || self.listen_port != other.listen_port
    }
}

/// Index of the first parameter named `name` at or after `i`, or `-1`.
pub open spec fn param_index_from(s: Seq<ParamView>, name: Seq<char>, i: int) -> int
    decreases s.len() - i,
{
    if i < 0 || i >= s.len() {
        -1
    } else if s[i].name == name {
        i
    } else {
        param_index_from(s, name, i + 1)
    }
}

pub open spec fn param_index(s: Seq<ParamView>, name: Seq<char>) -> int {
    param_index_from(s, name, 0)
}

pub proof fn lemma_param_index_props(s: Seq<ParamView>, name: Seq<char>, i: int)
    requires
        0 <= i <= s.len(),
    ensures
        ({
            let r = param_index_from(s, name, i);
            &&& r == -1 || (0 <= r < s.len())
            &&& r == -1 ==> forall|j: int| i <= j < s.len() ==> (#[trigger] s[j].name) != name
            &&& r >= 0 ==> i <= r < s.len() && s[r].name == name && forall|j: int|
                i <= j < r ==> (#[trigger] s[j].name) != name
        }),
    decreases s.len() - i,
{
    if i < s.len() && s[i].name != name {
        lemma_param_index_props(s, name, i + 1);
    }
}

/// Create or fully replace: on a known name the entry is replaced in place,
/// otherwise the parameter is appended.
pub open spec fn upsert_param(s: Seq<ParamView>, p: ParamView) -> Seq<ParamView> {
    let i = param_index(s, p.name);
    if i >= 0 {
        s.update(i, p)
    } else {
        s.push(p)
    }
}

pub open spec fn upsert_all(s: Seq<ParamView>, ps: Seq<ParamView>) -> Seq<ParamView>
    decreases ps.len(),
{
    if ps.len() == 0 {
        s
    } else {
        upsert_all(upsert_param(s, ps[0]), ps.drop_first())
    }
}

/// Law: a packet that decodes to nothing leaves the store exactly as it
/// was.
pub proof fn lemma_upsert_all_empty(s: Seq<ParamView>)
    ensures
        upsert_all(s, Seq::<ParamView>::empty()) == s,
{
}

proof fn lemma_upsert_all_snoc(s: Seq<ParamView>, ps: Seq<ParamView>, i: int)
    requires
        0 <= i < ps.len(),
    ensures
        upsert_all(s, ps.take(i + 1)) == upsert_param(upsert_all(s, ps.take(i)), ps[i]),
    decreases i,
{
    let a = ps.take(i + 1);
    assert(a.len() == i + 1);
    assert(a[0] == ps[0]);
    assert(upsert_all(s, a) == upsert_all(upsert_param(s, a[0]), a.drop_first()));
    if i == 0 {
        assert(a.drop_first() =~= ps.take(0));
        assert(ps.take(0).len() == 0);
        assert(upsert_all(s, ps.take(0)) == s);
        assert(upsert_all(upsert_param(s, ps[0]), ps.take(0)) == upsert_param(s, ps[0]));
    } else {
        let d = ps.drop_first();
        assert(a.drop_first() =~= d.take(i));
        assert(ps.take(i).len() == i);
        assert(ps.take(i)[0] == ps[0]);
        assert(upsert_all(s, ps.take(i)) == upsert_all(
            upsert_param(s, ps.take(i)[0]),
            ps.take(i).drop_first(),
        ));
        assert(ps.take(i).drop_first() =~= d.take(i - 1));
        lemma_upsert_all_snoc(upsert_param(s, ps[0]), d, i - 1);
        assert(d[i - 1] == ps[i]);
    }
}

proof fn lemma_upsert_param_wf(s: Seq<ParamView>, p: ParamView)
    requires
        forall|i: int, j: int| 0 <= i < j < s.len() ==> s[i].name != s[j].name,
    ensures
        forall|i: int, j: int|
            0 <= i < j < upsert_param(s, p).len() ==> upsert_param(s, p)[i].name != upsert_param(
                s,
                p,
            )[j].name,
{
    lemma_param_index_props(s, p.name, 0);
    let r = param_index(s, p.name);
    let up = upsert_param(s, p);
    if r >= 0 {
        assert(s[r].name == p.name);
        assert forall|i: int, j: int| 0 <= i < j < up.len() implies up[i].name != up[j].name by {
            if i == r {
                assert(up[i].name == s[r].name && up[j] == s[j]);
            } else if j == r {
                assert(up[j].name == s[r].name && up[i] == s[i]);
            } else {
                assert(up[i] == s[i] && up[j] == s[j]);
            }
        }
    } else {
        assert forall|i: int, j: int| 0 <= i < j < up.len() implies up[i].name != up[j].name by {
            if j == s.len() {
                assert(up[i] == s[i] && up[j] == p);
                assert(s[i].name != p.name);
            } else {
                assert(up[i] == s[i] && up[j] == s[j]);
            }
        }
    }
}

/// The bridge state: the parameter mirror, the endpoint configuration, and
/// whether the listener worker is meant to be running.
#[derive(Debug)]
pub struct OscState {
    parameters: Vec<Parameter>,
    config: OscConfig,
    running: bool,
}

impl OscState {
    pub closed spec fn params(&self) -> Seq<ParamView> {
        views_of(self.parameters@)
    }

    pub closed spec fn config_v(&self) -> ConfigView {
        self.config@
    }

    pub closed spec fn is_running(&self) -> bool {
        self.running
    }

    /// No two entries share a name.
    pub open spec fn wf(&self) -> bool {
        forall|i: int, j: int|
            0 <= i < j < self.params().len() ==> self.params()[i].name != self.params()[j].name
    }

    /// An empty mirror under the default endpoints, not running.
    pub fn new() -> (s: Self)
        ensures
            s.wf(),
            s.params() == Seq::<ParamView>::empty(),
            s.config_v() == spec_default_config(),
            !s.is_running(),
    {
        let s = OscState { parameters: Vec::new(), config: OscConfig::default(), running: false };
        proof {
            assert(s.params() =~= Seq::<ParamView>::empty());
        }
        s
    }

    fn find_index(&self, name: &str) -> (r: Option<usize>)
        ensures
            r matches Some(i) ==> param_index(self.params(), name@) == i && i < self.params().len(),
            r is None ==> param_index(self.params(), name@) == -1,
    {
        let mut i: usize = 0;
        while i < self.parameters.len()
            invariant
                0 <= i <= self.params().len(),
                param_index(self.params(), name@) == param_index_from(
                    self.params(),
                    name@,
                    i as int,
                ),

            decreases self.params().len() - i,
        {
            if str_eq(self.parameters[i].name.as_str(), name) {
                return Some(i);
            }
            i = i + 1;
        }
        None
    }

    /// A point-in-time copy of every known parameter.
    pub fn get_parameters(&self) -> (r: Vec<Parameter>)
        ensures
            views_of(r@) == self.params(),
    {
        let mut r: Vec<Parameter> = Vec::new();
        let mut i: usize = 0;
        while i < self.parameters.len()
            invariant
                0 <= i <= self.parameters@.len(),
                r@.len() == i,
                views_of(r@) =~= self.params().take(i as int),
            decreases self.parameters@.len() - i,
        {
            let p = self.parameters[i].clone();
            proof {
                assert(p@ == self.params()[i as int]);
            }
            r.push(p);
            proof {
                assert(r@.len() == i as int + 1);
                assert forall|j: int| 0 <= j < i + 1 implies views_of(r@)[j] == self.params().take(
                    i as int + 1,
                )[j] by {
                    assert(views_of(r@)[j] == r@[j]@);
                }
                assert(views_of(r@) =~= self.params().take(i as int + 1));
            }
            i = i + 1;
        }
        proof {
            assert(self.params().take(self.params().len() as int) =~= self.params());
        }
        r
    }

    /// The kind under which `name` is known, if it is.
    pub fn get_parameter_kind(&self, name: &str) -> (r: Option<ParameterType>)
        ensures
            ({
                let i = param_index(self.params(), name@);
                match r {
                    Some(k) => i >= 0 && k == self.params()[i].kind,
                    None => i == -1,
                }
            }),
    {
        match self.find_index(name) {
            Some(i) => Some(self.parameters[i].parameter_type),
            None => None,
        }
    }

    /// Set the value of a known parameter; a name never registered is
    /// refused and nothing changes.
    pub fn set_parameter(&mut self, name: &str, value_bits: u32) -> (r: Result<(), OscError>)
        ensures
            ({
                let o = old(self).params();
                let i = param_index(o, name@);
                let np = final(self).params();
                &&& i >= 0 ==> r == Ok::<(), OscError>(()) && np == o.update(
                    i,
                    ParamView { name: o[i].name, kind: o[i].kind, bits: value_bits },
                )
                &&& i == -1 ==> r == Err::<(), OscError>(OscError::ParameterNotFound) && np == o
            }),
            final(self).config_v() == old(self).config_v(),
            final(self).is_running() == old(self).is_running(),
            old(self).wf() ==> final(self).wf(),
    {
        match self.find_index(name) {
            Some(i) => {
                let p = self.parameters.remove(i);
                let np = Parameter {
                    name: p.name,
                    parameter_type: p.parameter_type,
                    value_bits,
                };
                self.parameters.insert(i, np);
                proof {
                    let o = old(self).params();
                    assert(self.params() =~= o.update(
                        param_index(o, name@),
                        ParamView {
                            name: o[param_index(o, name@)].name,
                            kind: o[param_index(o, name@)].kind,
                            bits: value_bits,
                        },
                    ));
                }
                Ok(())
            },
            None => Err(OscError::ParameterNotFound),
        }
    }

    /// Create or fully replace a parameter. The caller publishes the new
    /// snapshot to the host afterwards; absence of a subscriber never fails
    /// the mutation.
    pub fn update_parameter(&mut self, param: Parameter)
        ensures
            final(self).params() == upsert_param(old(self).params(), param@),
            final(self).config_v() == old(self).config_v(),
            final(self).is_running() == old(self).is_running(),
            old(self).wf() ==> final(self).wf(),
    {
        proof {
            if old(self).wf() {
                lemma_upsert_param_wf(old(self).params(), param@);
            }
        }
        let name = param.name.clone();
        match self.find_index(name.as_str()) {
            Some(i) => {
                self.parameters.remove(i);
                self.parameters.insert(i, param);
                proof {
                    assert(self.params() =~= upsert_param(old(self).params(), param@));
                }
            },
            None => {
                self.parameters.push(param);
                proof {
                    assert(self.params() =~= upsert_param(old(self).params(), param@));
                }
            },
        }
    }

    /// A copy of the current endpoint configuration.
    pub fn get_config(&self) -> (c: OscConfig)
        ensures
            c@ == self.config_v(),
    {
        self.config.clone()
    }

    /// Replace the configuration atomically. The result says whether the
    /// caller must cycle the listener: true exactly when some field changed
    /// while the listener was running.
    pub fn update_config(&mut self, new_config: OscConfig) -> (restart: bool)
        ensures
            final(self).config_v() == new_config@,
            final(self).params() == old(self).params(),
            final(self).is_running() == old(self).is_running(),
            old(self).wf() ==> final(self).wf(),
            restart == (config_changed(old(self).config_v(), new_config@) && old(
                self,
            ).is_running()),
    {
        let changed = self.config.differs_from(&new_config);
        self.config = new_config;
        changed && self.running
    }

    /// The configuration to bind, if the listener is not already running;
    /// starting while running is a no-op, not an error.
    pub fn listener_start_config(&self) -> (r: Option<OscConfig>)
        ensures
            r is Some <==> !self.is_running(),
            r matches Some(c) ==> c@ == self.config_v(),
    {
        if self.running {
            None
        } else {
            Some(self.config.clone())
        }
    }

    /// Note that the worker was spawned after a successful bind.
    pub fn mark_listener_started(&mut self)
        ensures
            final(self).is_running(),
            final(self).params() == old(self).params(),
            final(self).config_v() == old(self).config_v(),
            old(self).wf() ==> final(self).wf(),
    {
        self.running = true;
    }

    /// Whether the listener worker is meant to be running.
    pub fn running(&self) -> (r: bool)
        ensures
            r == self.is_running(),
    {
        self.running
    }

    /// Flip the cancellation flag. The result says whether a worker was
    /// running, and so must be joined; stopping while stopped is a no-op.
    pub fn stop_listener(&mut self) -> (was_running: bool)
        ensures
            !final(self).is_running(),
            was_running == old(self).is_running(),
            final(self).params() == old(self).params(),
            final(self).config_v() == old(self).config_v(),
            old(self).wf() ==> final(self).wf(),
    {
        let was = self.running;
        self.running = false;
        was
    }

    /// Apply one received datagram: every parameter the packet carries is
    /// upserted, in listed order. The result says whether anything was
    /// decoded, and so whether the host is to be notified.
    pub fn handle_datagram(&mut self, data: &[u8]) -> (notify: bool)
        ensures
            final(self).params() == upsert_all(old(self).params(), decode_packet_spec(data@)),
            notify == (decode_packet_spec(data@).len() > 0),
            final(self).config_v() == old(self).config_v(),
            final(self).is_running() == old(self).is_running(),
            old(self).wf() ==> final(self).wf(),
    {
        let decoded = decode_packet(data);
        let ghost dec = decode_packet_spec(data@);
        let notify = decoded.len() > 0;
        proof {
            assert(dec.take(0) =~= Seq::<ParamView>::empty());
        }
        let mut i: usize = 0;
        while i < decoded.len()
            invariant
                views_of(decoded@) == dec,
                decoded@.len() == dec.len(),
                0 <= i <= dec.len(),
                self.params() == upsert_all(old(self).params(), dec.take(i as int)),
                self.config_v() == old(self).config_v(),
                self.is_running() == old(self).is_running(),
                old(self).wf() ==> self.wf(),
            decreases dec.len() - i,
        {
            proof {
                lemma_upsert_all_snoc(old(self).params(), dec, i as int);
            }
            let p = decoded[i].clone();
            assert(p@ == dec[i as int]);
            self.update_parameter(p);
            i = i + 1;
        }
        proof {
            assert(dec.take(dec.len() as int) =~= dec);
        }
        notify
    }
}

impl Default for OscState {
    /// Same as [`OscState::new`].
    fn default() -> (s: Self)
        ensures
            s.wf(),
            s.params() == Seq::<ParamView>::empty(),
            s.config_v() == spec_default_config(),
            !s.is_running(),
    {
        OscState::new()
    }
}

/// The kind a label of the command surface names: `Float`, `Int` or `Bool`,
/// and nothing else.
pub open spec fn kind_of_label(l: Seq<char>) -> Option<ParameterType> {
    if l == "Float"@ {
        Some(ParameterType::Float)
    } else if l == "Int"@ {
        Some(ParameterType::Int)
    } else if l == "Bool"@ {
        Some(ParameterType::Bool)
    } else {
        None
    }
}

/// The kind named by a label of the command surface: `Float`, `Int` or
/// `Bool`, and nothing else.
pub fn parse_parameter_kind(label: &str) -> (r: Option<ParameterType>)
    ensures
        r == kind_of_label(label@),
{
    if str_eq(label, "Float") {
        Some(ParameterType::Float)
    } else if str_eq(label, "Int") {
        Some(ParameterType::Int)
    } else if str_eq(label, "Bool") {
        Some(ParameterType::Bool)
    } else {
        None
    }
}

/// An explicit set from the command surface: validate the kind label, then
/// encode the packet to send. A label that names no kind is a validation
/// error and nothing is encoded; the caller transmits the packet and then
/// records the value in the store.
pub fn set_parameter_value_plan(name: &str, value_bits: u32, kind_label: &str) -> (r: Result<
    Vec<u8>,
    OscError,
>)
    ensures
        kind_of_label(kind_label@) is None ==> r == Err::<Vec<u8>, OscError>(
            OscError::InvalidParameterType,
        ),
        kind_of_label(kind_label@) matches Some(k) ==> r matches Ok(b) && b@ == encode_param_spec(
            name@,
            k,
            value_bits,
        ),
{
    match parse_parameter_kind(kind_label) {
        Some(kind) => Ok(encode_parameter(name, kind, value_bits)),
        None => Err(OscError::InvalidParameterType),
    }
}

} // verus!
