//! The speech-command registry and the matcher.
//!
//! The registry maps a language to an ordered list of phrase-to-parameter
//! mappings; within one language no two mappings share the pair of command
//! text and parameter name, and an upsert on a known pair replaces the entry
//! in place. The matcher lower-cases the input once and plans one send per
//! mapping whose lower-cased command text occurs in it, in registry order.
//! Persistence of the registry is the surrounding application's: it reads
//! and writes the snapshot that [`SpeechState::entries`] and
//! [`SpeechState::from_entries`] exchange.
use vstd::prelude::*;

verus! {

use crate::codec::{encode_parameter, encode_param_spec};
use crate::osc::{OscState, ParamView, ParameterType, param_index};
use crate::text::{lowercase, lower_of, str_contains, str_eq, is_substring_of};

/// A spoken phrase and the parameter update it triggers. The value is the
/// bit pattern of the 32-bit float to send.
#[derive(Debug)]
pub struct CommandMapping {
    pub command_text: String,
    pub parameter_name: String,
    pub value_bits: u32,
}

/// Mathematical image of a [`CommandMapping`].
pub struct MappingView {
    pub command_text: Seq<char>,
    pub parameter_name: Seq<char>,
    pub bits: u32,
}

impl View for CommandMapping {
    type V = MappingView;

    open spec fn view(&self) -> MappingView {
        MappingView {
            command_text: self.command_text@,
            parameter_name: self.parameter_name@,
            bits: self.value_bits,
        }
    }
}

impl Clone for CommandMapping {
    fn clone(&self) -> (r: Self)
        ensures
            r@ == self@,
    {
        CommandMapping {
            command_text: self.command_text.clone(),
            parameter_name: self.parameter_name.clone(),
            value_bits: self.value_bits,
        }
    }
}

pub open spec fn mviews_of(s: Seq<CommandMapping>) -> Seq<MappingView> {
    s.map_values(|m: CommandMapping| m@)
}

pub open spec fn entry_views(es: Seq<(String, Vec<CommandMapping>)>) -> Seq<
    (Seq<char>, Seq<MappingView>),
> {
    es.map_values(|e: (String, Vec<CommandMapping>)| (e.0@, mviews_of(e.1@)))
}

/// The registry as mathematics: language, then its mappings, in order.
pub type RegistryView = Seq<(Seq<char>, Seq<MappingView>)>;

pub open spec fn same_key(m: MappingView, ct: Seq<char>, pn: Seq<char>) -> bool {
    m.command_text == ct && m.parameter_name == pn
}

/// Index of the first mapping with the pair `(ct, pn)` at or after `i`, or `-1`.
pub open spec fn key_index_from(s: Seq<MappingView>, ct: Seq<char>, pn: Seq<char>, i: int) -> int
    decreases s.len() - i,
{
    if i < 0 || i >= s.len() {
        -1
    } else if same_key(s[i], ct, pn) {
        i
    } else {
        key_index_from(s, ct, pn, i + 1)
    }
}

pub open spec fn key_index(s: Seq<MappingView>, ct: Seq<char>, pn: Seq<char>) -> int {
    key_index_from(s, ct, pn, 0)
}

pub proof fn lemma_key_index_props(s: Seq<MappingView>, ct: Seq<char>, pn: Seq<char>, i: int)
    requires
        0 <= i <= s.len(),
    ensures
        ({
            let r = key_index_from(s, ct, pn, i);
            &&& r == -1 || (0 <= r < s.len())
            &&& r == -1 ==> forall|j: int| i <= j < s.len() ==> !same_key(#[trigger] s[j], ct, pn)
            &&& r >= 0 ==> i <= r < s.len() && same_key(s[r], ct, pn) && forall|j: int|
                i <= j < r ==> !same_key(#[trigger] s[j], ct, pn)
        }),
    decreases s.len() - i,
{
    if i < s.len() && !same_key(s[i], ct, pn) {
        lemma_key_index_props(s, ct, pn, i + 1);
    }
}

/// Replace in place on a key match, else append.
pub open spec fn upsert_mapping(s: Seq<MappingView>, m: MappingView) -> Seq<MappingView> {
    let i = key_index(s, m.command_text, m.parameter_name);
    if i >= 0 {
        s.update(i, m)
    } else {
        s.push(m)
    }
}

/// Drop every mapping with the pair `(ct, pn)`, keeping the order of the
/// rest.
pub open spec fn remove_key(s: Seq<MappingView>, ct: Seq<char>, pn: Seq<char>) -> Seq<MappingView>
    decreases s.len(),
{
    if s.len() == 0 {
        Seq::empty()
    } else {
        let rest = remove_key(s.drop_first(), ct, pn);
        if same_key(s[0], ct, pn) {
            rest
        } else {
            seq![s[0]] + rest
        }
    }
}

/// Index of the first entry for `lang` at or after `i`, or `-1`.
pub open spec fn lang_index_from(reg: RegistryView, lang: Seq<char>, i: int) -> int
    decreases reg.len() - i,
{
    if i < 0 || i >= reg.len() {
        -1
    } else if reg[i].0 == lang {
        i
    } else {
        lang_index_from(reg, lang, i + 1)
    }
}

pub open spec fn lang_index(reg: RegistryView, lang: Seq<char>) -> int {
    lang_index_from(reg, lang, 0)
}

pub proof fn lemma_lang_index_props(reg: RegistryView, lang: Seq<char>, i: int)
    requires
        0 <= i <= reg.len(),
    ensures
        ({
            let r = lang_index_from(reg, lang, i);
            &&& r == -1 || (0 <= r < reg.len())
            &&& r == -1 ==> forall|j: int| i <= j < reg.len() ==> (#[trigger] reg[j].0) != lang
            &&& r >= 0 ==> i <= r < reg.len() && reg[r].0 == lang && forall|j: int|
                i <= j < r ==> (#[trigger] reg[j].0) != lang
        }),
    decreases reg.len() - i,
{
    if i < reg.len() && reg[i].0 != lang {
        lemma_lang_index_props(reg, lang, i + 1);
    }
}

/// The mappings of a language; an unknown language has none, which is no
/// error.
pub open spec fn lookup(reg: RegistryView, lang: Seq<char>) -> Seq<MappingView> {
    let i = lang_index(reg, lang);
    if i >= 0 {
        reg[i].1
    } else {
        Seq::empty()
    }
}

/// Upsert one mapping under a language, creating the language on first use.
pub open spec fn registry_add(reg: RegistryView, lang: Seq<char>, m: MappingView) -> RegistryView {
    let i = lang_index(reg, lang);
    if i >= 0 {
        reg.update(i, (reg[i].0, upsert_mapping(reg[i].1, m)))
    } else {
        reg.push((lang, seq![m]))
    }
}

/// Remove every mapping with the key under the language; an unknown
/// language changes nothing. The language entry itself stays, even empty.
pub open spec fn registry_remove(
    reg: RegistryView,
    lang: Seq<char>,
    ct: Seq<char>,
    pn: Seq<char>,
) -> RegistryView {
    let i = lang_index(reg, lang);
    if i >= 0 {
        reg.update(i, (reg[i].0, remove_key(reg[i].1, ct, pn)))
    } else {
        reg
    }
}

/// Law: the upsert is idempotent — a second identical upsert changes
/// nothing, under one language's list and under the whole registry alike.
pub proof fn lemma_upsert_mapping_idempotent(s: Seq<MappingView>, m: MappingView)
    ensures
        upsert_mapping(upsert_mapping(s, m), m) == upsert_mapping(s, m),
{
    let ct = m.command_text;
    let pn = m.parameter_name;
    lemma_key_index_props(s, ct, pn, 0);
    let i = key_index(s, ct, pn);
    let s1 = upsert_mapping(s, m);
    lemma_key_index_props(s1, ct, pn, 0);
    if i >= 0 {
        assert(same_key(s1[i], ct, pn));
        assert(forall|j: int| 0 <= j < i ==> !same_key(#[trigger] s1[j], ct, pn));
        assert(key_index(s1, ct, pn) == i) by {
            let r1 = key_index(s1, ct, pn);
            if r1 < i {
                assert(!same_key(s1[r1], ct, pn));
            }
            if r1 > i || r1 == -1 {
                assert(!same_key(s1[i], ct, pn));
            }
        }
        assert(s1.update(i, m) =~= s1);
    } else {
        let n = s.len() as int;
        assert(s1 == s.push(m));
        assert(same_key(s1[n], ct, pn));
        assert(key_index(s1, ct, pn) == n) by {
            let r1 = key_index(s1, ct, pn);
            if r1 < n && r1 >= 0 {
                assert(s1[r1] == s[r1]);
                assert(!same_key(s1[r1], ct, pn));
            }
            if r1 == -1 {
                assert(!same_key(s1[n], ct, pn));
            }
        }
        assert(s1.update(n, m) =~= s1);
    }
}

/// Law: adding the same mapping under the same language twice leaves the
/// registry exactly as one addition does.
pub proof fn lemma_registry_add_idempotent(reg: RegistryView, lang: Seq<char>, m: MappingView)
    ensures
        registry_add(registry_add(reg, lang, m), lang, m) == registry_add(reg, lang, m),
{
    lemma_lang_index_props(reg, lang, 0);
    let i = lang_index(reg, lang);
    let r1 = registry_add(reg, lang, m);
    lemma_lang_index_props(r1, lang, 0);
    if i >= 0 {
        assert(r1[i].0 == lang);
        assert(lang_index(r1, lang) == i) by {
            let x = lang_index(r1, lang);
            if x < i && x >= 0 {
                assert(r1[x].0 != lang);
            }
            if x > i || x == -1 {
                assert(r1[i].0 == lang);
            }
        }
        lemma_upsert_mapping_idempotent(reg[i].1, m);
        assert(r1.update(i, (r1[i].0, upsert_mapping(r1[i].1, m))) =~= r1);
    } else {
        let n = reg.len() as int;
        assert(r1 == reg.push((lang, seq![m])));
        assert(r1[n].0 == lang);
        assert(lang_index(r1, lang) == n) by {
            let x = lang_index(r1, lang);
            if x < n && x >= 0 {
                assert(r1[x].0 != lang);
            }
            if x == -1 {
                assert(r1[n].0 == lang);
            }
        }
        assert(key_index(seq![m], m.command_text, m.parameter_name) == 0);
        assert(upsert_mapping(seq![m], m) =~= seq![m]);
        assert(r1.update(n, (r1[n].0, upsert_mapping(r1[n].1, m))) =~= r1);
    }
}

/// Law: a language no entry names has no mappings, and that is no error.
pub proof fn lemma_unknown_language_empty(reg: RegistryView, lang: Seq<char>)
    requires
        forall|i: int| 0 <= i < reg.len() ==> (#[trigger] reg[i].0) != lang,
    ensures
        lookup(reg, lang) == Seq::<MappingView>::empty(),
{
    lemma_lang_index_props(reg, lang, 0);
    if lang_index(reg, lang) >= 0 {
        assert(reg[lang_index(reg, lang)].0 == lang);
    }
}

/// No two mappings share the pair of command text and parameter name.
pub open spec fn pairwise_unique(s: Seq<MappingView>) -> bool {
    forall|j: int, k: int|
        0 <= j < k < s.len() ==> !same_key(
            #[trigger] s[k],
            (#[trigger] s[j]).command_text,
            s[j].parameter_name,
        )
}

/// Languages are unique and every language's list is pairwise unique.
pub open spec fn registry_wf(reg: RegistryView) -> bool {
    &&& forall|i: int, j: int|
        0 <= i < j < reg.len() ==> (#[trigger] reg[i].0) != (#[trigger] reg[j].0)
    &&& forall|i: int| 0 <= i < reg.len() ==> pairwise_unique(#[trigger] reg[i].1)
}

pub proof fn lemma_upsert_mapping_unique(s: Seq<MappingView>, m: MappingView)
    requires
        pairwise_unique(s),
    ensures
        pairwise_unique(upsert_mapping(s, m)),
{
    lemma_key_index_props(s, m.command_text, m.parameter_name, 0);
    let i = key_index(s, m.command_text, m.parameter_name);
    let up = upsert_mapping(s, m);
    if i >= 0 {
        assert(s[i].command_text == m.command_text && s[i].parameter_name == m.parameter_name);
        assert forall|j: int, k: int| 0 <= j < k < up.len() implies !same_key(
            up[k],
            up[j].command_text,
            up[j].parameter_name,
        ) by {
            if j == i {
                assert(up[j] == m && up[k] == s[k]);
                assert(!same_key(s[k], s[i].command_text, s[i].parameter_name));
            } else if k == i {
                assert(up[k] == m && up[j] == s[j]);
                assert(!same_key(s[k], s[j].command_text, s[j].parameter_name));
            } else {
                assert(up[j] == s[j] && up[k] == s[k]);
            }
        }
    } else {
        let n = s.len() as int;
        assert forall|j: int, k: int| 0 <= j < k < up.len() implies !same_key(
            up[k],
            up[j].command_text,
            up[j].parameter_name,
        ) by {
            if k == n {
                assert(up[k] == m && up[j] == s[j]);
                assert(!same_key(s[j], m.command_text, m.parameter_name));
            } else {
                assert(up[j] == s[j] && up[k] == s[k]);
            }
        }
    }
}

proof fn lemma_remove_key_unique(s: Seq<MappingView>, ct: Seq<char>, pn: Seq<char>)
    requires
        pairwise_unique(s),
    ensures
        pairwise_unique(remove_key(s, ct, pn)),
        forall|k: int|
            0 <= k < remove_key(s, ct, pn).len() ==> exists|j: int|
                0 <= j < s.len() && s[j] == #[trigger] remove_key(s, ct, pn)[k],
    decreases s.len(),
{
    if s.len() > 0 {
        let d = s.drop_first();
        assert forall|j: int, k: int| 0 <= j < k < d.len() implies !same_key(
            d[k],
            d[j].command_text,
            d[j].parameter_name,
        ) by {
            assert(d[j] == s[j + 1] && d[k] == s[k + 1]);
        }
        lemma_remove_key_unique(d, ct, pn);
        let rest = remove_key(d, ct, pn);
        let out = remove_key(s, ct, pn);
        if same_key(s[0], ct, pn) {
            assert(out == rest);
            assert forall|k: int| 0 <= k < out.len() implies exists|j: int|
                0 <= j < s.len() && s[j] == #[trigger] out[k] by {
                let j0 = choose|j0: int| 0 <= j0 < d.len() && d[j0] == rest[k];
                assert(s[j0 + 1] == out[k]);
            }
        } else {
            assert(out == seq![s[0]] + rest);
            assert forall|k: int| 0 <= k < out.len() implies exists|j: int|
                0 <= j < s.len() && s[j] == #[trigger] out[k] by {
                if k == 0 {
                    assert(s[0] == out[0]);
                } else {
                    assert(out[k] == rest[k - 1]);
                    let j0 = choose|j0: int| 0 <= j0 < d.len() && d[j0] == rest[k - 1];
                    assert(s[j0 + 1] == out[k]);
                }
            }
            assert forall|j: int, k: int| 0 <= j < k < out.len() implies !same_key(
                out[k],
                out[j].command_text,
                out[j].parameter_name,
            ) by {
                if j == 0 {
                    assert(out[k] == rest[k - 1]);
                    let j0 = choose|j0: int| 0 <= j0 < d.len() && d[j0] == rest[k - 1];
                    assert(d[j0] == s[j0 + 1]);
                    assert(!same_key(s[j0 + 1], s[0].command_text, s[0].parameter_name));
                } else {
                    assert(out[j] == rest[j - 1] && out[k] == rest[k - 1]);
                    assert(!same_key(
                        rest[k - 1],
                        rest[j - 1].command_text,
                        rest[j - 1].parameter_name,
                    ));
                }
            }
        }
    }
}

pub proof fn lemma_registry_add_wf(reg: RegistryView, lang: Seq<char>, m: MappingView)
    requires
        registry_wf(reg),
    ensures
        registry_wf(registry_add(reg, lang, m)),
{
    lemma_lang_index_props(reg, lang, 0);
    let i = lang_index(reg, lang);
    let out = registry_add(reg, lang, m);
    if i >= 0 {
        lemma_upsert_mapping_unique(reg[i].1, m);
        assert forall|x: int| 0 <= x < out.len() implies pairwise_unique(#[trigger] out[x].1) by {
            if x != i {
                assert(out[x] == reg[x]);
            }
        }
        assert forall|x: int, y: int| 0 <= x < y < out.len() implies (#[trigger] out[x].0) != (
        #[trigger] out[y].0) by {
            assert(out[x].0 == reg[x].0 && out[y].0 == reg[y].0);
        }
    } else {
        let n = reg.len() as int;
        assert forall|x: int| 0 <= x < out.len() implies pairwise_unique(#[trigger] out[x].1) by {
            if x != n {
                assert(out[x] == reg[x]);
            } else {
                assert(out[x].1 == seq![m]);
            }
        }
        assert forall|x: int, y: int| 0 <= x < y < out.len() implies (#[trigger] out[x].0) != (
        #[trigger] out[y].0) by {
            if y == n {
                assert(out[x] == reg[x] && out[y].0 == lang);
                assert(reg[x].0 != lang);
            } else {
                assert(out[x] == reg[x] && out[y] == reg[y]);
            }
        }
    }
}

pub proof fn lemma_registry_remove_wf(reg: RegistryView, lang: Seq<char>, ct: Seq<char>, pn: Seq<char>)
    requires
        registry_wf(reg),
    ensures
        registry_wf(registry_remove(reg, lang, ct, pn)),
{
    lemma_lang_index_props(reg, lang, 0);
    let i = lang_index(reg, lang);
    let out = registry_remove(reg, lang, ct, pn);
    if i >= 0 {
        lemma_remove_key_unique(reg[i].1, ct, pn);
        assert forall|x: int| 0 <= x < out.len() implies pairwise_unique(#[trigger] out[x].1) by {
            if x != i {
                assert(out[x] == reg[x]);
            }
        }
        assert forall|x: int, y: int| 0 <= x < y < out.len() implies (#[trigger] out[x].0) != (
        #[trigger] out[y].0) by {
            assert(out[x].0 == reg[x].0 && out[y].0 == reg[y].0);
        }
    }
}

struct LanguageEntry {
    language: String,
    mappings: Vec<CommandMapping>,
}

/// The per-language registry of phrase-to-parameter mappings.
pub struct SpeechState {
    commands: Vec<LanguageEntry>,
}

impl SpeechState {
    pub closed spec fn registry(&self) -> RegistryView {
        self.commands@.map_values(|e: LanguageEntry| (e.language@, mviews_of(e.mappings@)))
    }

    /// Languages are unique, and within one language no two mappings share
    /// the pair of command text and parameter name.
    pub open spec fn wf(&self) -> bool {
        registry_wf(self.registry())
    }

    /// An empty registry.
    pub fn new() -> (s: Self)
        ensures
            s.registry() == Seq::<(Seq<char>, Seq<MappingView>)>::empty(),
            s.wf(),
    {
        let s = SpeechState { commands: Vec::new() };
        proof {
            assert(s.registry() =~= Seq::<(Seq<char>, Seq<MappingView>)>::empty());
        }
        s
    }

    fn find_language(&self, language: &str) -> (r: Option<usize>)
        ensures
            r matches Some(i) ==> lang_index(self.registry(), language@) == i && i
                < self.registry().len(),
            r is None ==> lang_index(self.registry(), language@) == -1,
    {
        let mut i: usize = 0;
        while i < self.commands.len()
            invariant
                0 <= i <= self.registry().len(),
                self.registry().len() == self.commands@.len(),
                lang_index(self.registry(), language@) == lang_index_from(
                    self.registry(),
                    language@,
                    i as int,
                ),
            decreases self.registry().len() - i,
        {
            if str_eq(self.commands[i].language.as_str(), language) {
                return Some(i);
            }
            i = i + 1;
        }
        None
    }

    /// Upsert one mapping under a language: a mapping with the same command
    /// text and parameter name is replaced in place, keeping its position;
    /// otherwise the mapping is appended. The caller persists the registry
    /// afterwards.
    pub fn add_command_mapping(&mut self, language: &str, mapping: CommandMapping)
        ensures
            final(self).registry() == registry_add(old(self).registry(), language@, mapping@),
            old(self).wf() ==> final(self).wf(),
    {
        proof {
            if old(self).wf() {
                lemma_registry_add_wf(old(self).registry(), language@, mapping@);
            }
        }
        match self.find_language(language) {
            Some(i) => {
                let e = self.commands.remove(i);
                let mut ms = e.mappings;
                let ghost oms = mviews_of(ms@);
                match find_key(&ms, mapping.command_text.as_str(), mapping.parameter_name.as_str())
                 {
                    Some(k) => {
                        ms.remove(k);
                        ms.insert(k, mapping);
                        proof {
                            assert(mviews_of(ms@) =~= upsert_mapping(oms, mapping@));
                        }
                    },
                    None => {
                        ms.push(mapping);
                        proof {
                            assert(mviews_of(ms@) =~= upsert_mapping(oms, mapping@));
                        }
                    },
                }
                self.commands.insert(i, LanguageEntry { language: e.language, mappings: ms });
                proof {
                    assert(self.registry() =~= registry_add(
                        old(self).registry(),
                        language@,
                        mapping@,
                    ));
                }
            },
            None => {
                let mut ms: Vec<CommandMapping> = Vec::new();
                ms.push(mapping);
                proof {
                    assert(mviews_of(ms@) =~= seq![mapping@]);
                }
                self.commands.push(
                    LanguageEntry { language: String::from_str(language), mappings: ms },
                );
                proof {
                    assert(self.registry() =~= registry_add(
                        old(self).registry(),
                        language@,
                        mapping@,
                    ));
                }
            },
        }
    }

    /// Remove every mapping with the pair under the language. The result
    /// says whether anything was removed — and so whether the caller must
    /// persist; an unknown language removes nothing and is no error.
    pub fn remove_command_mapping(
        &mut self,
        language: &str,
        command_text: &str,
        parameter_name: &str,
    ) -> (removed: bool)
        ensures
            final(self).registry() == registry_remove(
                old(self).registry(),
                language@,
                command_text@,
                parameter_name@,
            ),
            removed == (key_index(
                lookup(old(self).registry(), language@),
                command_text@,
                parameter_name@,
            ) >= 0),
            old(self).wf() ==> final(self).wf(),
    {
        proof {
            if old(self).wf() {
                lemma_registry_remove_wf(
                    old(self).registry(),
                    language@,
                    command_text@,
                    parameter_name@,
                );
            }
        }
        match self.find_language(language) {
            Some(i) => {
                let e = self.commands.remove(i);
                let ghost oms = mviews_of(e.mappings@);
                let (ms, removed) = remove_from_list(e.mappings, command_text, parameter_name);
                self.commands.insert(i, LanguageEntry { language: e.language, mappings: ms });
                proof {
                    assert(self.registry() =~= registry_remove(
                        old(self).registry(),
                        language@,
                        command_text@,
                        parameter_name@,
                    ));
                }
                removed
            },
            None => {
                proof {
                    assert(self.registry() =~= registry_remove(
                        old(self).registry(),
                        language@,
                        command_text@,
                        parameter_name@,
                    ));
                    assert(key_index_from(
                        Seq::<MappingView>::empty(),
                        command_text@,
                        parameter_name@,
                        0,
                    ) == -1);
                }
                false
            },
        }
    }

    /// A copy of the language's mappings, in registry order; an unknown
    /// language yields the empty list, never an error.
    pub fn get_commands(&self, language: &str) -> (r: Vec<CommandMapping>)
        ensures
            mviews_of(r@) == lookup(self.registry(), language@),
    {
        match self.find_language(language) {
            Some(i) => clone_mappings(&self.commands[i].mappings),
            None => {
                let r: Vec<CommandMapping> = Vec::new();
                proof {
                    assert(mviews_of(r@) =~= Seq::<MappingView>::empty());
                }
                r
            },
        }
    }

    /// The full registry as plain pairs, for persistence.
    pub fn entries(&self) -> (r: Vec<(String, Vec<CommandMapping>)>)
        ensures
            entry_views(r@) == self.registry(),
    {
        let mut r: Vec<(String, Vec<CommandMapping>)> = Vec::new();
        let mut i: usize = 0;
        while i < self.commands.len()
            invariant
                0 <= i <= self.commands@.len(),
                r@.len() == i,
                entry_views(r@) =~= self.registry().take(i as int),
            decreases self.commands@.len() - i,
        {
            let lang = self.commands[i].language.clone();
            let ms = clone_mappings(&self.commands[i].mappings);
            r.push((lang, ms));
            proof {
                assert(r@.len() == i as int + 1);
                assert forall|j: int| 0 <= j < i + 1 implies entry_views(r@)[j]
                    == self.registry().take(i as int + 1)[j] by {
                    assert(entry_views(r@)[j] == (r@[j].0@, mviews_of(r@[j].1@)));
                }
                assert(entry_views(r@) =~= self.registry().take(i as int + 1));
            }
            i = i + 1;
        }
        proof {
            assert(self.registry().take(self.registry().len() as int) =~= self.registry());
        }
        r
    }

    /// Rebuild a registry from plain pairs, as read back from persistence:
    /// every mapping is upserted in listed order, so duplicate keys collapse
    /// and the uniqueness invariant holds of the result.
    pub fn from_entries(entries: &Vec<(String, Vec<CommandMapping>)>) -> (s: Self)
        ensures
            s.registry() == add_entries(
                Seq::<(Seq<char>, Seq<MappingView>)>::empty(),
                entry_views(entries@),
            ),
            s.wf(),
    {
        let ghost es = entry_views(entries@);
        let mut s = SpeechState::new();
        let mut i: usize = 0;
        proof {
            assert(es.take(0) =~= Seq::<(Seq<char>, Seq<MappingView>)>::empty());
        }
        while i < entries.len()
            invariant
                0 <= i <= entries@.len(),
                es == entry_views(entries@),
                es.len() == entries@.len(),
                s.registry() == add_entries(
                    Seq::<(Seq<char>, Seq<MappingView>)>::empty(),
                    es.take(i as int),
                ),
                s.wf(),
            decreases entries@.len() - i,
        {
            proof {
                lemma_add_entries_snoc(Seq::<(Seq<char>, Seq<MappingView>)>::empty(), es, i as int);
            }
            let pair: &(String, Vec<CommandMapping>) = &entries[i];
            proof {
                assert(*pair == entries@[i as int]);
                assert(es[i as int] == (entries@[i as int].0@, mviews_of(entries@[i as int].1@)));
            }
            let lang: &String = &pair.0;
            let ms: &Vec<CommandMapping> = &pair.1;
            let ghost mvs = es[i as int].1;
            let ghost reg0 = s.registry();
            let mut j: usize = 0;
            proof {
                assert(mvs == mviews_of(ms@));
                assert(mvs.take(0) =~= Seq::<MappingView>::empty());
            }
            while j < ms.len()
                invariant
                    0 <= j <= ms@.len(),
                    mvs == mviews_of(ms@),
                    mvs.len() == ms@.len(),
                    s.registry() == add_all(reg0, lang@, mvs.take(j as int)),
                    s.wf(),
                decreases ms@.len() - j,
            {
                proof {
                    lemma_add_all_snoc(reg0, lang@, mvs, j as int);
                }
                let m = ms[j].clone();
                s.add_command_mapping(lang.as_str(), m);
                j = j + 1;
            }
            proof {
                assert(mvs.take(mvs.len() as int) =~= mvs);
                assert(lang@ == es[i as int].0);
            }
            i = i + 1;
        }
        proof {
            assert(es.take(es.len() as int) =~= es);
        }
        s
    }

    /// Match recognized speech against one language's mappings: the input is
    /// lower-cased once, every mapping whose lower-cased command text occurs
    /// in it yields one planned send, in registry order. The caller performs
    /// the sends and renders the result lines; no match is no error.
    pub fn process_speech_input(&self, text: &str, language: &str, osc: &OscState) -> (r: Vec<
        MatchAction,
    >)
        ensures
            action_views(r@) == plan_actions(
                lookup(self.registry(), language@),
                osc.params(),
                lower_of(text@),
            ),
    {
        let mappings = self.get_commands(language);
        let lowered = lowercase(text);
        let ghost mvs = mviews_of(mappings@);
        let ghost low = lower_of(text@);
        let mut out: Vec<MatchAction> = Vec::new();
        let mut i: usize = 0;
        proof {
            assert(mvs.skip(0) =~= mvs);
        }
        while i < mappings.len()
            invariant
                0 <= i <= mappings@.len(),
                mvs == mviews_of(mappings@),
                mvs.len() == mappings@.len(),
                lowered@ == low,
                plan_actions(mvs, osc.params(), low) =~= action_views(out@) + plan_actions(
                    mvs.skip(i as int),
                    osc.params(),
                    low,
                ),
            decreases mappings@.len() - i,
        {
            let ghost tail = mvs.skip(i as int);
            proof {
                assert(tail.len() > 0);
                assert(tail[0] == mvs[i as int]);
                assert(tail.drop_first() =~= mvs.skip(i as int + 1));
            }
            let m = &mappings[i];
            let command_lowered = lowercase(m.command_text.as_str());
            if str_contains(lowered.as_str(), command_lowered.as_str()) {
                let kind = match osc.get_parameter_kind(m.parameter_name.as_str()) {
                    Some(k) => k,
                    None => ParameterType::Float,
                };
                proof {
                    assert(kind == kind_or_float(osc.params(), m.parameter_name@));
                }
                let packet = encode_parameter(m.parameter_name.as_str(), kind, m.value_bits);
                let act = MatchAction {
                    command_text: m.command_text.clone(),
                    parameter_name: m.parameter_name.clone(),
                    value_bits: m.value_bits,
                    kind,
                    packet,
                };
                let ghost prev = action_views(out@);
                out.push(act);
                proof {
                    assert(act@ == action_of(tail[0], osc.params()));
                    assert(action_views(out@) =~= prev + seq![act@]);
                    assert((prev + seq![act@]) + plan_actions(
                        mvs.skip(i as int + 1),
                        osc.params(),
                        low,
                    ) =~= prev + (seq![act@] + plan_actions(
                        mvs.skip(i as int + 1),
                        osc.params(),
                        low,
                    )));
                }
            } else {
                proof {
                    assert(plan_actions(tail, osc.params(), low) == plan_actions(
                        mvs.skip(i as int + 1),
                        osc.params(),
                        low,
                    ));
                }
            }
            i = i + 1;
        }
        proof {
            assert(mvs.skip(mvs.len() as int) =~= Seq::<MappingView>::empty());
        }
        out
    }
}

impl Default for SpeechState {
    /// Same as [`SpeechState::new`].
    fn default() -> (s: Self)
        ensures
            s.registry() == Seq::<(Seq<char>, Seq<MappingView>)>::empty(),
            s.wf(),
    {
        SpeechState::new()
    }
}

/// One planned send of the matcher: which mapping matched, the kind the
/// parameter is known under (`Float` when unknown), and the encoded packet
/// to transmit. The caller sends each packet in order and renders one result
/// line per action; if a send fails it stops and discards the results.
#[derive(Debug)]
pub struct MatchAction {
    pub command_text: String,
    pub parameter_name: String,
    pub value_bits: u32,
    pub kind: ParameterType,
    pub packet: Vec<u8>,
}

/// Mathematical image of a [`MatchAction`].
pub struct ActionView {
    pub command_text: Seq<char>,
    pub parameter_name: Seq<char>,
    pub bits: u32,
    pub kind: ParameterType,
    pub packet: Seq<u8>,
}

impl View for MatchAction {
    type V = ActionView;

    open spec fn view(&self) -> ActionView {
        ActionView {
            command_text: self.command_text@,
            parameter_name: self.parameter_name@,
            bits: self.value_bits,
            kind: self.kind,
            packet: self.packet@,
        }
    }
}

pub open spec fn action_views(s: Seq<MatchAction>) -> Seq<ActionView> {
    s.map_values(|a: MatchAction| a@)
}

/// The kind the store knows the name under, defaulting to `Float` for a
/// parameter never seen on the wire.
pub open spec fn kind_or_float(params: Seq<ParamView>, name: Seq<char>) -> ParameterType {
    let i = param_index(params, name);
    if i >= 0 {
        params[i].kind
    } else {
        ParameterType::Float
    }
}

pub open spec fn action_of(m: MappingView, params: Seq<ParamView>) -> ActionView {
    let kind = kind_or_float(params, m.parameter_name);
    ActionView {
        command_text: m.command_text,
        parameter_name: m.parameter_name,
        bits: m.bits,
        kind,
        packet: encode_param_spec(m.parameter_name, kind, m.bits),
    }
}

/// One action per mapping whose lower-cased command text occurs in the
/// lower-cased input, in registry order; an input may match any number of
/// mappings.
pub open spec fn plan_actions(
    mappings: Seq<MappingView>,
    params: Seq<ParamView>,
    lowered: Seq<char>,
) -> Seq<ActionView>
    decreases mappings.len(),
{
    if mappings.len() == 0 {
        Seq::empty()
    } else {
        let rest = plan_actions(mappings.drop_first(), params, lowered);
        if is_substring_of(lower_of(mappings[0].command_text), lowered) {
            seq![action_of(mappings[0], params)] + rest
        } else {
            rest
        }
    }
}

/// Fold one language's mappings into the registry, in order.
pub open spec fn add_all(reg: RegistryView, lang: Seq<char>, ms: Seq<MappingView>) -> RegistryView
    decreases ms.len(),
{
    if ms.len() == 0 {
        reg
    } else {
        add_all(registry_add(reg, lang, ms[0]), lang, ms.drop_first())
    }
}

/// Fold whole entries into the registry, in order.
pub open spec fn add_entries(
    reg: RegistryView,
    es: Seq<(Seq<char>, Seq<MappingView>)>,
) -> RegistryView
    decreases es.len(),
{
    if es.len() == 0 {
        reg
    } else {
        add_entries(add_all(reg, es[0].0, es[0].1), es.drop_first())
    }
}

proof fn lemma_add_all_snoc(reg: RegistryView, lang: Seq<char>, ms: Seq<MappingView>, i: int)
    requires
        0 <= i < ms.len(),
    ensures
        add_all(reg, lang, ms.take(i + 1)) == registry_add(
            add_all(reg, lang, ms.take(i)),
            lang,
            ms[i],
        ),
    decreases i,
{
    let a = ms.take(i + 1);
    assert(a.len() == i + 1);
    assert(a[0] == ms[0]);
    assert(add_all(reg, lang, a) == add_all(registry_add(reg, lang, a[0]), lang, a.drop_first()));
    if i == 0 {
        assert(a.drop_first() =~= ms.take(0));
        assert(ms.take(0).len() == 0);
    } else {
        let d = ms.drop_first();
        assert(a.drop_first() =~= d.take(i));
        assert(ms.take(i).len() == i);
        assert(ms.take(i)[0] == ms[0]);
        assert(add_all(reg, lang, ms.take(i)) == add_all(
            registry_add(reg, lang, ms.take(i)[0]),
            lang,
            ms.take(i).drop_first(),
        ));
        assert(ms.take(i).drop_first() =~= d.take(i - 1));
        lemma_add_all_snoc(registry_add(reg, lang, ms[0]), lang, d, i - 1);
        assert(d[i - 1] == ms[i]);
    }
}

proof fn lemma_add_entries_snoc(reg: RegistryView, es: Seq<(Seq<char>, Seq<MappingView>)>, i: int)
    requires
        0 <= i < es.len(),
    ensures
        add_entries(reg, es.take(i + 1)) == add_all(
            add_entries(reg, es.take(i)),
            es[i].0,
            es[i].1,
        ),
    decreases i,
{
    let a = es.take(i + 1);
    assert(a.len() == i + 1);
    assert(a[0] == es[0]);
    assert(add_entries(reg, a) == add_entries(add_all(reg, a[0].0, a[0].1), a.drop_first()));
    if i == 0 {
        assert(a.drop_first() =~= es.take(0));
        assert(es.take(0).len() == 0);
    } else {
        let d = es.drop_first();
        assert(a.drop_first() =~= d.take(i));
        assert(es.take(i).len() == i);
        assert(es.take(i)[0] == es[0]);
        assert(add_entries(reg, es.take(i)) == add_entries(
            add_all(reg, es.take(i)[0].0, es.take(i)[0].1),
            es.take(i).drop_first(),
        ));
        assert(es.take(i).drop_first() =~= d.take(i - 1));
        lemma_add_entries_snoc(add_all(reg, es[0].0, es[0].1), d, i - 1);
        assert(d[i - 1] == es[i]);
    }
}

fn find_key(ms: &Vec<CommandMapping>, ct: &str, pn: &str) -> (r: Option<usize>)
    ensures
        r matches Some(k) ==> key_index(mviews_of(ms@), ct@, pn@) == k && k < ms@.len(),
        r is None ==> key_index(mviews_of(ms@), ct@, pn@) == -1,
{
    let mut i: usize = 0;
    while i < ms.len()
        invariant
            0 <= i <= ms@.len(),
            key_index(mviews_of(ms@), ct@, pn@) == key_index_from(
                mviews_of(ms@),
                ct@,
                pn@,
                i as int,
            ),
        decreases ms@.len() - i,
    {
        if str_eq(ms[i].command_text.as_str(), ct) && str_eq(ms[i].parameter_name.as_str(), pn) {
            return Some(i);
        }
        i = i + 1;
    }
    None
}

fn clone_mappings(ms: &Vec<CommandMapping>) -> (r: Vec<CommandMapping>)
    ensures
        mviews_of(r@) == mviews_of(ms@),
{
    let mut r: Vec<CommandMapping> = Vec::new();
    let mut i: usize = 0;
    while i < ms.len()
        invariant
            0 <= i <= ms@.len(),
            r@.len() == i,
            mviews_of(r@) =~= mviews_of(ms@).take(i as int),
        decreases ms@.len() - i,
    {
        let m = ms[i].clone();
        r.push(m);
        proof {
            assert(r@.len() == i as int + 1);
            assert forall|j: int| 0 <= j < i + 1 implies mviews_of(r@)[j] == mviews_of(
                ms@,
            ).take(i as int + 1)[j] by {
                assert(mviews_of(r@)[j] == r@[j]@);
            }
            assert(mviews_of(r@) =~= mviews_of(ms@).take(i as int + 1));
        }
        i = i + 1;
    }
    proof {
        assert(mviews_of(ms@).take(ms@.len() as int) =~= mviews_of(ms@));
    }
    r
}

fn remove_from_list(ms: Vec<CommandMapping>, ct: &str, pn: &str) -> (r: (
    Vec<CommandMapping>,
    bool,
))
    ensures
        mviews_of(r.0@) == remove_key(mviews_of(ms@), ct@, pn@),
        r.1 == (key_index(mviews_of(ms@), ct@, pn@) >= 0),
{
    let ghost all = mviews_of(ms@);
    let ghost ki = key_index(all, ct@, pn@);
    proof {
        lemma_key_index_props(all, ct@, pn@, 0);
    }
    let mut out: Vec<CommandMapping> = Vec::new();
    let mut removed = false;
    let mut i: usize = 0;
    proof {
        assert(all.skip(0) =~= all);
    }
    while i < ms.len()
        invariant
            0 <= i <= ms@.len(),
            all == mviews_of(ms@),
            all.len() == ms@.len(),
            ki == key_index(all, ct@, pn@),
            ki == -1 || (0 <= ki < all.len() && same_key(all[ki], ct@, pn@)),
            removed == (0 <= ki < i),
            remove_key(all, ct@, pn@) =~= mviews_of(out@) + remove_key(
                all.skip(i as int),
                ct@,
                pn@,
            ),
        decreases ms@.len() - i,
    {
        let ghost tail = all.skip(i as int);
        proof {
            assert(tail.len() > 0);
            assert(tail[0] == all[i as int]);
            assert(tail.drop_first() =~= all.skip(i as int + 1));
            lemma_key_index_props(all, ct@, pn@, 0);
        }
        if str_eq(ms[i].command_text.as_str(), ct) && str_eq(ms[i].parameter_name.as_str(), pn) {
            removed = true;
            proof {
                assert(same_key(all[i as int], ct@, pn@));
                if ki == -1 || ki > i as int {
                    assert(!same_key(all[i as int], ct@, pn@));
                    assert(false);
                }
                assert(remove_key(tail, ct@, pn@) == remove_key(all.skip(i as int + 1), ct@, pn@));
            }
        } else {
            let ghost prev = mviews_of(out@);
            let m = ms[i].clone();
            out.push(m);
            proof {
                assert(!same_key(tail[0], ct@, pn@));
                assert(mviews_of(out@) =~= prev + seq![tail[0]]);
                assert(remove_key(tail, ct@, pn@) == seq![tail[0]] + remove_key(
                    all.skip(i as int + 1),
                    ct@,
                    pn@,
                ));
                assert((prev + seq![tail[0]]) + remove_key(all.skip(i as int + 1), ct@, pn@)
                    =~= prev + (seq![tail[0]] + remove_key(all.skip(i as int + 1), ct@, pn@)));
            }
        }
        i = i + 1;
    }
    proof {
        assert(all.skip(all.len() as int) =~= Seq::<MappingView>::empty());
    }
    (out, removed)
}

} // verus!
