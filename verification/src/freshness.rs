//! Whether the code that runs is the code on disk, and which databases can be copied instead of
//! being built anew.

use crate::content;
use crate::databases;
use crate::framing;
use crate::inspect::DatabaseModuleState;
use crate::model::Id;
use crate::records::{Core, ModuleInstall};
use crate::text;
use vstd::prelude::*;
use vstd::relations::*;
use vstd::string::*;

verus! {

/// What the files of a module on disk come to; none where it is not on disk or nothing in it
/// counts.
#[derive(Debug)]
pub struct ModuleHash {
    pub technical_name: String,
    pub hash: Option<String>,
}

/// What the files of a module come to: by the first entry of its name.
pub open spec fn hash_on_disk(known: Seq<ModuleHash>, name: Seq<char>) -> Option<Seq<char>>
    decreases known.len(),
{
    if known.len() == 0 {
        None
    } else if known[0].technical_name@ == name {
        text::opt_view(known[0].hash)
    } else {
        hash_on_disk(known.skip(1), name)
    }
}

fn find_hash<'a>(known: &'a Vec<ModuleHash>, name: &str) -> (r: Option<&'a String>)
    ensures
        match r {
            Some(hash) => hash_on_disk(known@, name@) == Some(hash@),
            None => hash_on_disk(known@, name@) is None,
        },
{
    let mut i: usize = 0;
    assert(known@.skip(0) =~= known@);
    while i < known.len()
        invariant
            i <= known@.len(),
            hash_on_disk(known@, name@) == hash_on_disk(known@.skip(i as int), name@),
        decreases known@.len() - i,
    {
        assert(known@.skip(i as int)[0] == known@[i as int]);
        if text::same_text(known[i].technical_name.as_str(), name) {
            return match &known[i].hash {
                Some(hash) => Some(hash),
                None => None,
            };
        }
        assert(known@.skip(i as int).skip(1) =~= known@.skip(i + 1));
        i = i + 1;
    }
    None
}

// --- freshness ------------------------------------------------------------

/// Whether the code of a module that a database runs is the code on disk.
#[derive(Debug, Clone, Copy, PartialEq, Eq, Structural)]
pub enum Freshness {
    /// It is.
    Live,
    /// The files changed since.
    Changed,
    /// It was put there by somebody else.
    Unrecorded,
    /// It is not on disk.
    NotOnDisk,
}

/// Whether the code of a module that a database runs is the code on disk.
#[derive(Debug)]
pub struct ModuleFreshness {
    pub technical_name: String,
    pub freshness: Freshness,
}

impl View for ModuleFreshness {
    type V = (Seq<char>, Freshness);

    open spec fn view(&self) -> (Seq<char>, Freshness) {
        (self.technical_name@, self.freshness)
    }
}

/// What is said of modules.
pub open spec fn said(v: Seq<ModuleFreshness>) -> Seq<(Seq<char>, Freshness)> {
    v.map_values(|m: ModuleFreshness| m@)
}

/// What was recorded of a module, held against what is on disk.
pub open spec fn freshness_of(recorded: Option<Seq<char>>, on_disk: Option<Seq<char>>) -> Freshness {
    match (recorded, on_disk) {
        (Some(was), Some(now)) => if was == now {
            Freshness::Live
        } else {
            Freshness::Changed
        },
        (None, Some(_)) => Freshness::Unrecorded,
        (_, None) => Freshness::NotOnDisk,
    }
}

/// Behind how many entries, from the front, an entry of the name belongs: behind those whose
/// names do not come after it.
pub open spec fn behind(sorted: Seq<(Seq<char>, Freshness)>, name: Seq<char>) -> nat
    decreases sorted.len(),
{
    if sorted.len() == 0 {
        0
    } else if !text::text_less(name, sorted.last().0) {
        sorted.len()
    } else {
        behind(sorted.drop_last(), name)
    }
}

/// The freshness of installed modules, by name.
pub open spec fn freshness_in(
    states: Seq<DatabaseModuleState>,
    installs: Seq<ModuleInstall>,
    database_id: Id,
    known: Seq<ModuleHash>,
) -> Seq<(Seq<char>, Freshness)>
    decreases states.len(),
{
    if states.len() == 0 {
        Seq::empty()
    } else {
        let before = freshness_in(states.drop_last(), installs, database_id, known);
        let name = states.last().technical_name@;
        if states.last().state@ == "installed"@ {
            before.insert(
                behind(before, name) as int,
                (
                    name,
                    freshness_of(
                        databases::recorded_hash(installs, database_id, name),
                        hash_on_disk(known, name),
                    ),
                ),
            )
        } else {
            before
        }
    }
}

proof fn lemma_behind(sorted: Seq<(Seq<char>, Freshness)>, name: Seq<char>)
    ensures
        behind(sorted, name) <= sorted.len(),
        forall|i: int|
            behind(sorted, name) <= i < sorted.len() ==> text::text_less(
                name,
                (#[trigger] sorted[i]).0,
            ),
        behind(sorted, name) > 0 ==> !text::text_less(name, sorted[behind(sorted, name) - 1].0),
    decreases sorted.len(),
{
    if sorted.len() > 0 && text::text_less(name, sorted.last().0) {
        let rest = sorted.drop_last();
        lemma_behind(rest, name);
        assert forall|i: int| behind(sorted, name) <= i < sorted.len() implies text::text_less(
            name,
            (#[trigger] sorted[i]).0,
        ) by {
            if i < rest.len() {
                assert(rest[i] == sorted[i]);
            }
        }
    }
}

/// Whether entries stand in the order of their names.
pub open spec fn by_name(sorted: Seq<(Seq<char>, Freshness)>) -> bool {
    forall|i: int, j: int|
        0 <= i < j < sorted.len() ==> !text::text_less(
            (#[trigger] sorted[j]).0,
            (#[trigger] sorted[i]).0,
        )
}

/// Modules are listed by name.
pub proof fn law_freshness_is_listed_by_name(
    states: Seq<DatabaseModuleState>,
    installs: Seq<ModuleInstall>,
    database_id: Id,
    known: Seq<ModuleHash>,
)
    ensures
        by_name(freshness_in(states, installs, database_id, known)),
    decreases states.len(),
{
    if states.len() > 0 {
        let before = freshness_in(states.drop_last(), installs, database_id, known);
        law_freshness_is_listed_by_name(states.drop_last(), installs, database_id, known);
        let name = states.last().technical_name@;
        if states.last().state@ == "installed"@ {
            let k = behind(before, name) as int;
            lemma_behind(before, name);
            let out = freshness_in(states, installs, database_id, known);
            assert forall|i: int, j: int| 0 <= i < j < out.len() implies !text::text_less(
                (#[trigger] out[j]).0,
                (#[trigger] out[i]).0,
            ) by {
                let a = if i < k { i } else { i - 1 };
                let b = if j < k { j } else { j - 1 };
                if i == k {
                    assert(out[j] == before[b]);
                    text::lemma_text_less_asymmetric(name, before[b].0);
                } else if j == k {
                    assert(out[i] == before[a]);
                    if text::text_less(name, before[a].0) {
                        assert(!text::text_less(name, before[k - 1].0));
                        if a < k - 1 {
                            assert(!text::text_less(before[k - 1].0, before[a].0));
                            text::lemma_text_less_total(before[k - 1].0, before[a].0);
                            if text::text_less(before[a].0, before[k - 1].0) {
                                text::lemma_text_less_transitive(
                                    name,
                                    before[a].0,
                                    before[k - 1].0,
                                );
                            }
                        }
                    }
                } else {
                    assert(out[i] == before[a] && out[j] == before[b]);
                }
            }
        }
    }
}

impl Core {
    /// Whether the code of the modules that a database runs is the code on disk: `states` are its
    /// modules, `known` what the modules on disk come to.
    pub fn module_freshness(
        &self,
        database_id: Id,
        states: &Vec<DatabaseModuleState>,
        known: &Vec<ModuleHash>,
    ) -> (r: Vec<ModuleFreshness>)
        ensures
            said(r@) == freshness_in(states@, self@.installs, database_id, known@),
    {
        let ghost installs = self@.installs;
        let mut out: Vec<ModuleFreshness> = Vec::new();
        let mut i: usize = 0;
        assert(states@.take(0) =~= Seq::<DatabaseModuleState>::empty());
        assert(said(out@) =~= freshness_in(states@.take(0), installs, database_id, known@));
        while i < states.len()
            invariant
                i <= states@.len(),
                installs == self@.installs,
                said(out@) == freshness_in(
                    states@.take(i as int),
                    installs,
                    database_id,
                    known@,
                ),
            decreases states@.len() - i,
        {
            let ghost before = said(out@);
            proof {
                assert(states@.take(i + 1).drop_last() =~= states@.take(i as int));
                assert(states@.take(i + 1).last() == states@[i as int]);
            }
            if text::same_text(states[i].state.as_str(), "installed") {
                let name = states[i].technical_name.as_str();
                let was = self.module_install(database_id, name);
                let freshness = match (was, find_hash(known, name)) {
                    (Some(was), Some(now)) => {
                        if text::same_text(was.as_str(), now.as_str()) {
                            Freshness::Live
                        } else {
                            Freshness::Changed
                        }
                    },
                    (None, Some(_)) => Freshness::Unrecorded,
                    (_, None) => Freshness::NotOnDisk,
                };
                let mut k: usize = out.len();
                assert(before.take(k as int) =~= before);
                while k > 0 && text::comes_before(name, out[k - 1].technical_name.as_str())
                    invariant
                        k <= out@.len() == before.len(),
                        before == said(out@),
                        behind(before, name@) == behind(before.take(k as int), name@),
                    decreases k,
                {
                    assert(before.take(k as int).drop_last() =~= before.take(k - 1));
                    assert(before.take(k as int).last() == out@[k - 1]@);
                    k = k - 1;
                }
                assert(behind(before, name@) == k) by {
                    if k > 0 {
                        assert(before.take(k as int).last() == out@[k - 1]@);
                    }
                }
                let entry = ModuleFreshness { technical_name: name.to_owned(), freshness };
                let ghost shown = entry@;
                out.insert(k, entry);
                assert(said(out@) =~= before.insert(k as int, shown));
            }
            i = i + 1;
        }
        assert(states@.take(i as int) =~= states@);
        out
    }
}

// --- templates ------------------------------------------------------------

/// The bytes of a text that may be missing.
pub open spec fn bytes_if_any(t: Option<Seq<char>>) -> Option<Seq<u8>> {
    match t {
        Some(s) => Some(vstd::utf8::encode_utf8(s)),
        None => None,
    }
}

/// What is hashed for a module: its name, and what its files come to.
pub open spec fn one_module_bytes(name: Seq<char>, hash: Option<Seq<char>>) -> Seq<u8> {
    framing::framed(vstd::utf8::encode_utf8(name)) + framing::framed_if_any(bytes_if_any(hash))
}

/// What is hashed for modules: one behind the other.
pub open spec fn module_bytes(names: Seq<Seq<char>>, known: Seq<ModuleHash>) -> Seq<u8>
    decreases names.len(),
{
    if names.len() == 0 {
        Seq::empty()
    } else {
        one_module_bytes(names[0], hash_on_disk(known, names[0])) + module_bytes(
            names.drop_first(),
            known,
        )
    }
}

/// What is hashed for a template: the version of Odoo, then its modules by name.
pub open spec fn template_bytes(
    version: Seq<char>,
    names: Seq<Seq<char>>,
    known: Seq<ModuleHash>,
) -> Seq<u8> {
    framing::framed(vstd::utf8::encode_utf8(version)) + module_bytes(
        text::sorted_words(names),
        known,
    )
}

proof fn lemma_bytes_tell_modules(
    a: Seq<Seq<char>>,
    first: Seq<ModuleHash>,
    b: Seq<Seq<char>>,
    second: Seq<ModuleHash>,
)
    requires
        module_bytes(a, first) == module_bytes(b, second),
    ensures
        a == b,
        forall|i: int|
            0 <= i < a.len() ==> hash_on_disk(first, #[trigger] a[i]) == hash_on_disk(second, a[i]),
    decreases a.len(),
{
    if a.len() == 0 || b.len() == 0 {
        if a.len() > 0 {
            assert(one_module_bytes(a[0], hash_on_disk(first, a[0])).len() > 0);
        }
        if b.len() > 0 {
            assert(one_module_bytes(b[0], hash_on_disk(second, b[0])).len() > 0);
        }
        assert(a =~= b);
    } else {
        let p = vstd::utf8::encode_utf8(a[0]);
        let q = vstd::utf8::encode_utf8(b[0]);
        let hash_p = hash_on_disk(first, a[0]);
        let hash_q = hash_on_disk(second, b[0]);
        let x = module_bytes(a.drop_first(), first);
        let y = module_bytes(b.drop_first(), second);
        let more_p = framing::framed_if_any(bytes_if_any(hash_p)) + x;
        let more_q = framing::framed_if_any(bytes_if_any(hash_q)) + y;
        assert(module_bytes(a, first) =~= framing::framed(p) + more_p);
        assert(module_bytes(b, second) =~= framing::framed(q) + more_q);
        framing::law_parts_are_told_apart(p, more_p, q, more_q);
        framing::law_missing_parts_are_told_apart(bytes_if_any(hash_p), x, bytes_if_any(hash_q), y);
        framing::lemma_texts_are_told_apart(a[0], b[0]);
        if hash_p is Some && hash_q is Some {
            framing::lemma_texts_are_told_apart(hash_p->0, hash_q->0);
        }
        lemma_bytes_tell_modules(a.drop_first(), first, b.drop_first(), second);
        assert(a =~= seq![a[0]] + a.drop_first());
        assert(b =~= seq![b[0]] + b.drop_first());
        assert forall|i: int| 0 <= i < a.len() implies hash_on_disk(first, #[trigger] a[i])
            == hash_on_disk(second, a[i]) by {
            if i > 0 {
                assert(a.drop_first()[i - 1] == a[i]);
            }
        }
    }
}

/// Templates that differ are hashed as different bytes: where the bytes are the same, so are the
/// version, the modules and what their files come to.
pub proof fn law_different_templates_are_hashed_differently(
    version: Seq<char>,
    names: Seq<Seq<char>>,
    known: Seq<ModuleHash>,
    other_version: Seq<char>,
    other_names: Seq<Seq<char>>,
    other_known: Seq<ModuleHash>,
)
    requires
        template_bytes(version, names, known) == template_bytes(
            other_version,
            other_names,
            other_known,
        ),
    ensures
        version == other_version,
        names.to_multiset() == other_names.to_multiset(),
        forall|i: int|
            0 <= i < names.len() ==> hash_on_disk(known, #[trigger] names[i]) == hash_on_disk(
                other_known,
                names[i],
            ),
{
    broadcast use vstd::seq_lib::group_to_multiset_ensures;

    let a = text::sorted_words(names);
    let b = text::sorted_words(other_names);
    framing::law_parts_are_told_apart(
        vstd::utf8::encode_utf8(version),
        module_bytes(a, known),
        vstd::utf8::encode_utf8(other_version),
        module_bytes(b, other_known),
    );
    framing::lemma_texts_are_told_apart(version, other_version);
    lemma_bytes_tell_modules(a, known, b, other_known);
    text::lemma_sorted_words(names);
    text::lemma_sorted_words(other_names);
    assert forall|i: int| 0 <= i < names.len() implies hash_on_disk(known, #[trigger] names[i])
        == hash_on_disk(other_known, names[i]) by {
        assert(names.to_multiset().contains(names[i]));
        assert(a.to_multiset().contains(names[i]));
        assert(a.contains(names[i]));
        let k = choose|k: int| 0 <= k < a.len() && a[k] == names[i];
        assert(hash_on_disk(known, a[k]) == hash_on_disk(other_known, a[k]));
    }
}

/// What a template goes by: the first sixteen digits of the hash.
pub open spec fn key_of(version: Seq<char>, names: Seq<Seq<char>>, known: Seq<ModuleHash>) -> Seq<
    char,
> {
    content::sha256_hex_of(template_bytes(version, names, known)).take(16)
}

/// What a template goes by.
pub fn template_key(version: &str, modules: &Vec<String>, known: &Vec<ModuleHash>) -> (r: String)
    ensures
        r@ == key_of(version@, text::views(modules@), known@),
{
    let sorted = text::sort_words(modules);
    let ghost names = text::views(sorted@);
    let mut bytes: Vec<u8> = Vec::new();
    framing::add_framed(&mut bytes, version.as_bytes());
    let ghost all = template_bytes(version@, text::views(modules@), known@);
    let mut i: usize = 0;
    assert(names.skip(0) =~= names);
    assert(bytes@ + module_bytes(names, known@) =~= all);
    while i < sorted.len()
        invariant
            i <= sorted@.len(),
            names == text::views(sorted@),
            bytes@ + module_bytes(names.skip(i as int), known@) == all,
        decreases sorted@.len() - i,
    {
        let ghost before = bytes@;
        let ghost name = sorted@[i as int]@;
        proof {
            assert(names.skip(i as int)[0] == name);
            assert(names.skip(i as int).drop_first() =~= names.skip(i + 1));
        }
        framing::add_framed(&mut bytes, sorted[i].as_str().as_bytes());
        match find_hash(known, sorted[i].as_str()) {
            Some(hash) => framing::add_present(&mut bytes, hash.as_str().as_bytes()),
            None => framing::add_missing(&mut bytes),
        }
        assert(bytes@ =~= before + one_module_bytes(name, hash_on_disk(known@, name)));
        assert(bytes@ + module_bytes(names.skip(i + 1), known@) =~= before + module_bytes(
            names.skip(i as int),
            known@,
        ));
        i = i + 1;
    }
    assert(names.skip(i as int) =~= Seq::<Seq<char>>::empty());
    assert(bytes@ =~= all);
    let digest = content::sha256_hex(&bytes);
    let chars = text::chars_of(digest.as_str());
    let key = text::text_of_range(&chars, 0, 16);
    assert(key@ =~= digest@.take(16));
    key
}

/// The order in which modules are asked for makes no difference: the same modules go by the same
/// key.
pub proof fn law_a_key_ignores_the_order_of_modules(
    version: Seq<char>,
    first: Seq<Seq<char>>,
    second: Seq<Seq<char>>,
    known: Seq<ModuleHash>,
)
    requires
        first.to_multiset() == second.to_multiset(),
    ensures
        key_of(version, first, known) == key_of(version, second, known),
{
    let leq = |a: Seq<char>, b: Seq<char>| !text::text_less(b, a);
    text::lemma_sorted_words(first);
    text::lemma_sorted_words(second);
    let x = text::sorted_words(first);
    let y = text::sorted_words(second);
    assert(total_ordering(leq)) by {
        assert forall|a: Seq<char>| #[trigger] leq(a, a) by {
            text::lemma_text_less_irreflexive(a);
        }
        assert forall|a: Seq<char>, b: Seq<char>| #[trigger] leq(a, b) && #[trigger] leq(
            b,
            a,
        ) implies a == b by {
            text::lemma_text_less_total(a, b);
        }
        assert forall|a: Seq<char>, b: Seq<char>, c: Seq<char>| #[trigger] leq(a, b)
            && #[trigger] leq(b, c) implies leq(a, c) by {
            if text::text_less(c, a) {
                text::lemma_text_less_total(a, b);
                if text::text_less(a, b) {
                    text::lemma_text_less_transitive(c, a, b);
                }
            }
        }
        assert forall|a: Seq<char>, b: Seq<char>| #[trigger] leq(a, b) || #[trigger] leq(b, a) by {
            if text::text_less(b, a) {
                text::lemma_text_less_asymmetric(b, a);
            }
        }
    }
    assert(sorted_by(x, leq));
    assert(sorted_by(y, leq));
    vstd::seq_lib::lemma_sorted_unique(x, y, leq);
}

/// The database that a template is kept in.
pub fn template_database_name(key: &str) -> (r: String)
    ensures
        r@ == "oo_template_"@ + key@,
{
    text::joined("oo_template_", key)
}

/// The hash of a module on disk is the first one given under its name.
pub proof fn law_a_hash_is_the_first_given(known: Seq<ModuleHash>, name: Seq<char>, k: int)
    ensures
        0 <= k < known.len() && known[k].technical_name@ == name && (forall|i: int|
            0 <= i < k ==> (#[trigger] known[i]).technical_name@ != name) ==> hash_on_disk(
            known,
            name,
        ) == text::opt_view(known[k].hash),
        (forall|i: int| 0 <= i < known.len() ==> (#[trigger] known[i]).technical_name@ != name)
            ==> hash_on_disk(known, name) is None,
    decreases known.len(),
{
    if known.len() > 0 {
        let rest = known.skip(1);
        law_a_hash_is_the_first_given(rest, name, k - 1);
        assert(forall|i: int| 0 <= i < rest.len() ==> rest[i] == known[i + 1]);
    }
}

/// Every installed module is listed once, and nothing else: as live where the code on disk is the
/// code that was installed, as changed where it is other code, as unrecorded where only the disk
/// knows it, and as not on disk otherwise.
pub proof fn law_every_installed_module_is_told_of(
    r: Seq<ModuleFreshness>,
    states: Seq<DatabaseModuleState>,
    installs: Seq<ModuleInstall>,
    database_id: Id,
    known: Seq<ModuleHash>,
    i: int,
    k: int,
)
    requires
        said(r) == freshness_in(states, installs, database_id, known),
    ensures
        r.len() == states.filter(|m: DatabaseModuleState| m.state@ == "installed"@).len(),
        0 <= i < states.len() && states[i].state@ == "installed"@ ==> exists|n: int|
            0 <= n < r.len() && (#[trigger] r[n]).technical_name@ == states[i].technical_name@,
        0 <= k < r.len() ==> {
            let was = databases::recorded_hash(installs, database_id, r[k].technical_name@);
            let now = hash_on_disk(known, r[k].technical_name@);
            &&& r[k].freshness is Live <==> now is Some && was == now
            &&& r[k].freshness is Changed <==> now is Some && was is Some && was != now
            &&& r[k].freshness is Unrecorded <==> now is Some && was is None
            &&& r[k].freshness is NotOnDisk <==> now is None
            &&& exists|n: int|
                {
                    &&& 0 <= n < states.len()
                    &&& (#[trigger] states[n]).technical_name@ == r[k].technical_name@
                    &&& states[n].state@ == "installed"@
                }
        },
{
    let out = freshness_in(states, installs, database_id, known);
    assert(out.len() == r.len());
    lemma_told_of(states, installs, database_id, known);
    if 0 <= i < states.len() && states[i].state@ == "installed"@ {
        let name = states[i].technical_name@;
        let was = databases::recorded_hash(installs, database_id, name);
        let entry = (name, freshness_of(was, hash_on_disk(known, name)));
        assert(is_told(states, installs, database_id, known, entry));
        assert(out.contains(entry));
        let n = choose|n: int| 0 <= n < out.len() && out[n] == entry;
        assert(said(r)[n] == r[n]@);
        assert(r[n].technical_name@ == name);
    }
    if 0 <= k < r.len() {
        assert(said(r)[k] == r[k]@);
        assert(out.contains(out[k]));
        assert(is_told(states, installs, database_id, known, out[k]));
    }
}

spec fn is_told(
    states: Seq<DatabaseModuleState>,
    installs: Seq<ModuleInstall>,
    database_id: Id,
    known: Seq<ModuleHash>,
    entry: (Seq<char>, Freshness),
) -> bool {
    exists|n: int|
        {
            &&& 0 <= n < states.len()
            &&& (#[trigger] states[n]).technical_name@ == entry.0
            &&& states[n].state@ == "installed"@
            &&& entry.1 == freshness_of(
                databases::recorded_hash(installs, database_id, entry.0),
                hash_on_disk(known, entry.0),
            )
        }
}

proof fn lemma_told_of(
    states: Seq<DatabaseModuleState>,
    installs: Seq<ModuleInstall>,
    database_id: Id,
    known: Seq<ModuleHash>,
)
    ensures
        freshness_in(states, installs, database_id, known).len() == states.filter(
            |m: DatabaseModuleState| m.state@ == "installed"@,
        ).len(),
        forall|e: (Seq<char>, Freshness)| #[trigger]
            freshness_in(states, installs, database_id, known).contains(e) <==> is_told(
                states,
                installs,
                database_id,
                known,
                e,
            ),
    decreases states.len(),
{
    reveal(Seq::filter);
    if states.len() > 0 {
        let rest = states.drop_last();
        let last = states.last();
        lemma_told_of(rest, installs, database_id, known);
        let before = freshness_in(rest, installs, database_id, known);
        let out = freshness_in(states, installs, database_id, known);
        let name = last.technical_name@;
        let at = behind(before, name) as int;
        lemma_behind_fits(before, name);
        let entry = (
            name,
            freshness_of(
                databases::recorded_hash(installs, database_id, name),
                hash_on_disk(known, name),
            ),
        );
        assert(states[states.len() - 1] == last);
        assert forall|e: (Seq<char>, Freshness)| #[trigger] out.contains(e) <==> is_told(
            states,
            installs,
            database_id,
            known,
            e,
        ) by {
            assert(before.contains(e) <==> is_told(rest, installs, database_id, known, e));
            if is_told(rest, installs, database_id, known, e) {
                let n = choose|n: int|
                    {
                        &&& 0 <= n < rest.len()
                        &&& (#[trigger] rest[n]).technical_name@ == e.0
                        &&& rest[n].state@ == "installed"@
                    };
                assert(states[n] == rest[n]);
                let m = choose|m: int| 0 <= m < before.len() && before[m] == e;
                if last.state@ == "installed"@ {
                    assert(out[if m < at {
                        m
                    } else {
                        m + 1
                    }] == e);
                }
            }
            if is_told(states, installs, database_id, known, e) {
                let n = choose|n: int|
                    {
                        &&& 0 <= n < states.len()
                        &&& (#[trigger] states[n]).technical_name@ == e.0
                        &&& states[n].state@ == "installed"@
                    };
                if n < rest.len() {
                    assert(rest[n] == states[n]);
                    assert(is_told(rest, installs, database_id, known, e));
                } else {
                    assert(e == entry);
                    assert(out[at] == entry);
                }
            }
            if out.contains(e) {
                let m = choose|m: int| 0 <= m < out.len() && out[m] == e;
                if last.state@ == "installed"@ {
                    if m == at {
                        assert(e == entry);
                    } else {
                        assert(before[if m < at {
                            m
                        } else {
                            m - 1
                        }] == e);
                        assert(before.contains(e));
                    }
                }
            }
        }
    }
}

proof fn lemma_behind_fits(sorted: Seq<(Seq<char>, Freshness)>, name: Seq<char>)
    ensures
        0 <= behind(sorted, name) <= sorted.len(),
    decreases sorted.len(),
{
    if sorted.len() > 0 {
        lemma_behind_fits(sorted.drop_last(), name);
    }
}

} // verus!
