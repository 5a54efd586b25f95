//! Which modules a server can load, which copy of a module wins where several sources hold one,
//! what is missing, and in which order the modules install.

use crate::install_order;
use crate::manifest;
use crate::manifest::{Described, ModuleManifest};
use crate::model::{AddonsSource, Id, Moment, SourceKind};
use crate::order;
use crate::text;
use vstd::prelude::*;
use vstd::string::*;

verus! {

// --- what a source's folder holds -----------------------------------------

/// A manifest file: its path, and its text or why it could not be read.
#[derive(Debug)]
pub struct ManifestFile {
    pub path: String,
    pub contents: Result<String, String>,
}

/// An entry of an addons folder. `technical_name` is its file name where that is text; the two
/// manifests are there where the entry holds a file of that name.
#[derive(Debug)]
pub struct FolderEntry {
    pub technical_name: Option<String>,
    pub path: String,
    pub is_dir: bool,
    /// `__manifest__.py`
    pub manifest: Option<ManifestFile>,
    /// `__openerp__.py`
    pub legacy_manifest: Option<ManifestFile>,
}

/// A source and what its folder holds, or why the folder could not be read.
#[derive(Debug)]
pub struct ScannedSource {
    pub source: AddonsSource,
    pub listing: Result<Vec<FolderEntry>, String>,
}

/// A source whose folder could not be read.
#[derive(Debug)]
pub struct SourceScanError {
    pub source_id: Id,
    pub source_label: String,
    pub path_or_url: String,
    pub message: String,
}

/// A manifest that could not be read.
#[derive(Debug)]
pub struct ManifestParseIssue {
    pub source_label: String,
    pub technical_name: String,
    pub path: String,
    pub message: String,
}

/// What is said of a manifest that could not be read.
pub struct Issue {
    pub source_label: Seq<char>,
    pub technical_name: Seq<char>,
    pub path: Seq<char>,
    pub message: Seq<char>,
}

impl View for ManifestParseIssue {
    type V = Issue;

    open spec fn view(&self) -> Issue {
        Issue {
            source_label: self.source_label@,
            technical_name: self.technical_name@,
            path: self.path@,
            message: self.message@,
        }
    }
}

/// A module that was found, with its manifest.
#[derive(Debug)]
pub struct RawFind {
    pub technical_name: String,
    pub path: String,
    pub manifest: ModuleManifest,
}

/// What was found.
pub struct Find {
    pub technical_name: Seq<char>,
    pub path: Seq<char>,
    pub manifest: Described,
}

impl View for RawFind {
    type V = Find;

    open spec fn view(&self) -> Find {
        Find { technical_name: self.technical_name@, path: self.path@, manifest: self.manifest@ }
    }
}

/// The manifest of an entry: that of a folder with a name that is text, the current one before the
/// legacy one.
pub open spec fn manifest_file_of(e: FolderEntry) -> Option<ManifestFile> {
    if !e.is_dir || e.technical_name is None {
        None
    } else if e.manifest is Some {
        e.manifest
    } else {
        e.legacy_manifest
    }
}

/// What the entry's manifest comes to.
pub open spec fn entry_manifest(e: FolderEntry) -> Result<Described, Seq<char>> {
    let file = manifest_file_of(e)->0;
    manifest::manifest_in(file.path@, file.contents, e.technical_name->0@)
}

/// The modules among the entries, in their order.
pub open spec fn finds_in(entries: Seq<FolderEntry>) -> Seq<Find>
    decreases entries.len(),
{
    if entries.len() == 0 {
        Seq::empty()
    } else {
        let before = finds_in(entries.drop_last());
        let e = entries.last();
        if manifest_file_of(e) is Some && entry_manifest(e) is Ok {
            before.push(
                Find {
                    technical_name: e.technical_name->0@,
                    path: e.path@,
                    manifest: entry_manifest(e)->Ok_0,
                },
            )
        } else {
            before
        }
    }
}

/// What is said of the broken manifests among the entries, in their order.
pub open spec fn issues_in(entries: Seq<FolderEntry>, source_label: Seq<char>) -> Seq<Issue>
    decreases entries.len(),
{
    if entries.len() == 0 {
        Seq::empty()
    } else {
        let before = issues_in(entries.drop_last(), source_label);
        let e = entries.last();
        if manifest_file_of(e) is Some && entry_manifest(e) is Err {
            before.push(
                Issue {
                    source_label,
                    technical_name: e.technical_name->0@,
                    path: manifest_file_of(e)->0.path@,
                    message: entry_manifest(e)->Err_0,
                },
            )
        } else {
            before
        }
    }
}

/// What the finds are.
pub open spec fn finds(v: Seq<RawFind>) -> Seq<Find> {
    v.map_values(|f: RawFind| f@)
}

/// What the issues say.
pub open spec fn issues(v: Seq<ManifestParseIssue>) -> Seq<Issue> {
    v.map_values(|i: ManifestParseIssue| i@)
}

/// Whether `e` says that the folder of `source` could not be read, and why.
pub open spec fn unreadable(e: SourceScanError, source: AddonsSource, why: Seq<char>) -> bool {
    &&& e.source_id == source.id
    &&& e.source_label == source.label
    &&& e.path_or_url == source.path_or_url
    &&& e.message@ == "couldn't read addons directory: "@ + why
}

/// What is shown of a manifest error.
fn format_manifest_error(err: &manifest::ManifestError) -> (r: String)
    ensures
        r@ == manifest::manifest_error_text(*err),
{
    err.message()
}

/// The modules of one source: those with a manifest that reads, and what is wrong with the
/// others. A folder without a manifest is not a module, and is passed over.
pub fn scan_source_dir(source: &AddonsSource, listing: &Result<Vec<FolderEntry>, String>) -> (r: (
    Vec<RawFind>,
    Option<SourceScanError>,
    Vec<ManifestParseIssue>,
))
    ensures
        match *listing {
            Err(why) => {
                &&& r.0@.len() == 0
                &&& r.1 matches Some(e) && unreadable(e, *source, why@)
                &&& r.2@.len() == 0
            },
            Ok(entries) => {
                &&& finds(r.0@) == finds_in(entries@)
                &&& r.1 is None
                &&& issues(r.2@) == issues_in(entries@, source.label@)
            },
        },
{
    let mut found: Vec<RawFind> = Vec::new();
    let mut parse_errors: Vec<ManifestParseIssue> = Vec::new();
    let entries = match listing {
        Ok(entries) => entries,
        Err(why) => {
            let error = SourceScanError {
                source_id: source.id,
                source_label: source.label.clone(),
                path_or_url: source.path_or_url.clone(),
                message: text::joined("couldn't read addons directory: ", why.as_str()),
            };
            return (found, Some(error), parse_errors);
        },
    };
    let mut i: usize = 0;
    assert(finds(found@) =~= Seq::<Find>::empty());
    assert(issues(parse_errors@) =~= Seq::<Issue>::empty());
    while i < entries.len()
        invariant
            i <= entries@.len(),
            finds(found@) == finds_in(entries@.take(i as int)),
            issues(parse_errors@) == issues_in(entries@.take(i as int), source.label@),
        decreases entries@.len() - i,
    {
        let entry = &entries[i];
        let ghost found_before = finds(found@);
        let ghost issues_before = issues(parse_errors@);
        proof {
            assert(entries@.take(i + 1).drop_last() =~= entries@.take(i as int));
            assert(entries@.take(i + 1).last() == *entry);
        }
        i = i + 1;
        if !entry.is_dir {
            continue;
        }
        let technical_name = match &entry.technical_name {
            Some(name) => name,
            None => {
                continue;
            },
        };
        let file = match &entry.manifest {
            Some(file) => file,
            None => match &entry.legacy_manifest {
                Some(file) => file,
                None => {
                    continue;
                },
            },
        };
        match manifest::parse_manifest_file(
            file.path.as_str(),
            &file.contents,
            technical_name.as_str(),
        ) {
            Ok(manifest) => {
                let find = RawFind {
                    technical_name: technical_name.clone(),
                    path: entry.path.clone(),
                    manifest,
                };
                found.push(find);
                assert(finds(found@) =~= found_before.push(find@));
            },
            Err(err) => {
                let issue = ManifestParseIssue {
                    source_label: source.label.clone(),
                    technical_name: technical_name.clone(),
                    path: file.path.clone(),
                    message: format_manifest_error(&err),
                };
                parse_errors.push(issue);
                assert(issues(parse_errors@) =~= issues_before.push(issue@));
            },
        }
    }
    assert(entries@.take(i as int) =~= entries@);
    (found, None, parse_errors)
}

// --- listings -------------------------------------------------------------

/// A copy of a module in a source. It is shadowed where a source that is loaded earlier holds the
/// same module.
#[derive(Debug)]
pub struct ModuleListing {
    pub technical_name: String,
    pub name: String,
    pub version: Option<String>,
    pub category: Option<String>,
    pub application: bool,
    pub installable: bool,
    pub auto_install_enabled: bool,
    pub depends: Vec<String>,
    pub source_id: Id,
    pub source_label: String,
    pub source_kind: SourceKind,
    pub rank: u32,
    pub shadowed: bool,
    pub path: String,
}

/// What a listing says.
pub struct Listing {
    pub technical_name: Seq<char>,
    pub name: Seq<char>,
    pub version: Option<Seq<char>>,
    pub category: Option<Seq<char>>,
    pub application: bool,
    pub installable: bool,
    pub auto_install_enabled: bool,
    pub depends: Seq<Seq<char>>,
    pub source_id: Id,
    pub source_label: Seq<char>,
    pub source_kind: SourceKind,
    pub rank: u32,
    pub shadowed: bool,
    pub path: Seq<char>,
}

impl View for ModuleListing {
    type V = Listing;

    open spec fn view(&self) -> Listing {
        Listing {
            technical_name: self.technical_name@,
            name: self.name@,
            version: text::opt_view(self.version),
            category: text::opt_view(self.category),
            application: self.application,
            installable: self.installable,
            auto_install_enabled: self.auto_install_enabled,
            depends: text::views(self.depends@),
            source_id: self.source_id,
            source_label: self.source_label@,
            source_kind: self.source_kind,
            rank: self.rank,
            shadowed: self.shadowed,
            path: self.path@,
        }
    }
}

/// What the listings say.
pub open spec fn listings(v: Seq<ModuleListing>) -> Seq<Listing> {
    v.map_values(|l: ModuleListing| l@)
}

/// The listing of a module found in a source.
pub open spec fn listing_of(f: Find, source: AddonsSource) -> Listing {
    Listing {
        technical_name: f.technical_name,
        name: f.manifest.name,
        version: f.manifest.version,
        category: f.manifest.category,
        application: f.manifest.application,
        installable: f.manifest.installable,
        auto_install_enabled: f.manifest.auto_install_enabled,
        depends: f.manifest.depends,
        source_id: source.id,
        source_label: source.label@,
        source_kind: source.kind,
        rank: source.rank,
        shadowed: false,
        path: f.path,
    }
}

/// What one source lists.
pub open spec fn source_listings(s: ScannedSource) -> Seq<Listing> {
    match s.listing {
        Ok(entries) => finds_in(entries@).map_values(|f: Find| listing_of(f, s.source)),
        Err(_) => Seq::empty(),
    }
}

/// What all the sources list, source by source.
pub open spec fn all_listings(sources: Seq<ScannedSource>) -> Seq<Listing>
    decreases sources.len(),
{
    if sources.len() == 0 {
        Seq::empty()
    } else {
        all_listings(sources.drop_last()) + source_listings(sources.last())
    }
}

/// What is wrong with the manifests of all the sources, source by source.
pub open spec fn all_issues(sources: Seq<ScannedSource>) -> Seq<Issue>
    decreases sources.len(),
{
    if sources.len() == 0 {
        Seq::empty()
    } else {
        all_issues(sources.drop_last()) + match sources.last().listing {
            Ok(entries) => issues_in(entries@, sources.last().source.label@),
            Err(_) => Seq::empty(),
        }
    }
}

/// The sources whose folder could not be read.
pub open spec fn unreadable_sources(sources: Seq<ScannedSource>) -> Seq<ScannedSource>
    decreases sources.len(),
{
    if sources.len() == 0 {
        Seq::empty()
    } else {
        let before = unreadable_sources(sources.drop_last());
        if sources.last().listing is Err {
            before.push(sources.last())
        } else {
            before
        }
    }
}

/// Whether `errors` says of each source that could not be read, in order, that and why.
pub open spec fn reports_unreadable(
    errors: Seq<SourceScanError>,
    sources: Seq<ScannedSource>,
) -> bool {
    let bad = unreadable_sources(sources);
    &&& errors.len() == bad.len()
    &&& forall|i: int|
        0 <= i < errors.len() ==> unreadable(
            #[trigger] errors[i],
            bad[i].source,
            bad[i].listing->Err_0@,
        )
}

// --- shadowing and order --------------------------------------------------

/// Whether a copy of the module comes from a source that is loaded earlier.
pub open spec fn outranked(all: Seq<Listing>, l: Listing) -> bool {
    exists|k: int|
        0 <= k < all.len() && (#[trigger] all[k]).technical_name == l.technical_name && all[k].rank
            < l.rank
}

/// The listings with their shadowing settled.
pub open spec fn settled_listings(all: Seq<Listing>) -> Seq<Listing> {
    all.map_values(|l: Listing| Listing { shadowed: outranked(all, l), ..l })
}

/// By name, then by rank.
pub open spec fn listed_before(a: Listing, b: Listing) -> bool {
    text::text_less(a.technical_name, b.technical_name) || (a.technical_name == b.technical_name
        && a.rank < b.rank)
}

/// How many listings at the front do not come behind `l`.
pub open spec fn place_of(sorted: Seq<Listing>, l: Listing) -> nat
    decreases sorted.len(),
{
    if sorted.len() == 0 || listed_before(l, sorted[0]) {
        0
    } else {
        1 + place_of(sorted.drop_first(), l)
    }
}

/// The listings by name and rank; those of one name and rank stay as they stood.
pub open spec fn sorted_listings(all: Seq<Listing>) -> Seq<Listing>
    decreases all.len(),
{
    if all.len() == 0 {
        Seq::empty()
    } else {
        let before = sorted_listings(all.drop_last());
        before.insert(place_of(before, all.last()) as int, all.last())
    }
}

/// What a scan lists: everything found, its shadowing settled, by name and rank.
pub open spec fn resolved(all: Seq<Listing>) -> Seq<Listing> {
    sorted_listings(settled_listings(all))
}

/// No listing stands before one that it comes behind.
pub open spec fn is_sorted(s: Seq<Listing>) -> bool {
    forall|i: int, j: int|
        0 <= i < j < s.len() ==> !listed_before(#[trigger] s[j], #[trigger] s[i])
}

proof fn lemma_listed_before_transitive(a: Listing, b: Listing, c: Listing)
    requires
        listed_before(a, b),
        !listed_before(c, b),
    ensures
        listed_before(a, c),
{
    text::lemma_text_less_total(b.technical_name, c.technical_name);
    if text::text_less(a.technical_name, b.technical_name) && text::text_less(
        b.technical_name,
        c.technical_name,
    ) {
        text::lemma_text_less_transitive(a.technical_name, b.technical_name, c.technical_name);
    }
}

proof fn lemma_place_of(sorted: Seq<Listing>, l: Listing)
    ensures
        place_of(sorted, l) <= sorted.len(),
        forall|i: int| 0 <= i < place_of(sorted, l) ==> !listed_before(l, #[trigger] sorted[i]),
        place_of(sorted, l) < sorted.len() ==> listed_before(l, sorted[place_of(sorted, l) as int]),
    decreases sorted.len(),
{
    if sorted.len() > 0 && !listed_before(l, sorted[0]) {
        let rest = sorted.drop_first();
        lemma_place_of(rest, l);
        assert forall|i: int| 0 <= i < place_of(sorted, l) implies !listed_before(
            l,
            #[trigger] sorted[i],
        ) by {
            if i > 0 {
                assert(rest[i - 1] == sorted[i]);
            }
        }
    }
}

proof fn lemma_listed_before_asymmetric(a: Listing, b: Listing)
    requires
        listed_before(a, b),
    ensures
        !listed_before(b, a),
{
    text::lemma_text_less_irreflexive(a.technical_name);
    if text::text_less(a.technical_name, b.technical_name) && text::text_less(
        b.technical_name,
        a.technical_name,
    ) {
        text::lemma_text_less_transitive(a.technical_name, b.technical_name, a.technical_name);
    }
}

/// Sorting sorts: the result is in order and holds the listings that were given, as often as they
/// were given.
pub proof fn lemma_sorted_listings(all: Seq<Listing>)
    ensures
        is_sorted(sorted_listings(all)),
        sorted_listings(all).to_multiset() == all.to_multiset(),
        sorted_listings(all).len() == all.len(),
        forall|l: Listing| #[trigger] sorted_listings(all).contains(l) <==> all.contains(l),
    decreases all.len(),
{
    if all.len() > 0 {
        let before = sorted_listings(all.drop_last());
        let l = all.last();
        let k = place_of(before, l) as int;
        let r = before.insert(k, l);
        lemma_sorted_listings(all.drop_last());
        lemma_place_of(before, l);
        assert forall|i: int, j: int| 0 <= i < j < r.len() implies !listed_before(
            #[trigger] r[j],
            #[trigger] r[i],
        ) by {
            if j < k {
                assert(r[i] == before[i] && r[j] == before[j]);
            } else if j == k {
                assert(r[i] == before[i]);
            } else if i < k {
                assert(r[i] == before[i] && r[j] == before[j - 1]);
            } else if i == k {
                assert(r[j] == before[j - 1]);
                if j - 1 > k {
                    assert(!listed_before(before[j - 1], before[k]));
                    lemma_listed_before_transitive(l, before[k], before[j - 1]);
                }
                lemma_listed_before_asymmetric(l, before[j - 1]);
            } else {
                assert(r[i] == before[i - 1] && r[j] == before[j - 1]);
            }
        }
        broadcast use vstd::seq_lib::group_to_multiset_ensures;

        assert(all =~= all.drop_last().push(l));
        assert(r.to_multiset() =~= all.to_multiset());
        assert forall|x: Listing| #[trigger] sorted_listings(all).contains(x) <==> all.contains(
            x,
        ) by {
            assert(r.contains(x) <==> r.to_multiset().count(x) > 0);
            assert(all.contains(x) <==> all.to_multiset().count(x) > 0);
        }
    } else {
        assert(sorted_listings(all) =~= all);
    }
}

/// A module's copies are all listed, none is lost and none is made up, and a copy is shadowed
/// exactly where a source that is loaded earlier holds the same module.
pub proof fn law_the_lowest_rank_wins(all: Seq<Listing>, i: int)
    requires
        0 <= i < resolved(all).len(),
    ensures
        resolved(all).len() == all.len(),
        all.contains(Listing { shadowed: false, ..resolved(all)[i] }) || all.contains(
            Listing { shadowed: true, ..resolved(all)[i] },
        ),
        resolved(all)[i].shadowed <==> exists|k: int|
            0 <= k < resolved(all).len() && (#[trigger] resolved(all)[k]).technical_name
                == resolved(all)[i].technical_name && resolved(all)[k].rank < resolved(all)[i].rank,
{
    let settled = settled_listings(all);
    let r = resolved(all);
    lemma_sorted_listings(settled);
    assert(r.contains(r[i]));
    assert(settled.contains(r[i]));
    let p = choose|p: int| 0 <= p < settled.len() && settled[p] == r[i];
    assert(settled[p] == (Listing { shadowed: outranked(all, all[p]), ..all[p] }));
    assert(Listing { shadowed: all[p].shadowed, ..r[i] } == all[p]);
    if r[i].shadowed {
        let k = choose|k: int|
            0 <= k < all.len() && (#[trigger] all[k]).technical_name == all[p].technical_name
                && all[k].rank < all[p].rank;
        assert(settled[k] == (Listing { shadowed: outranked(all, all[k]), ..all[k] }));
        assert(settled.contains(settled[k]));
        assert(r.contains(settled[k]));
        let q = choose|q: int| 0 <= q < r.len() && r[q] == settled[k];
        assert(r[q].technical_name == r[i].technical_name);
    }
    if exists|k: int|
        0 <= k < r.len() && (#[trigger] r[k]).technical_name == r[i].technical_name && r[k].rank
            < r[i].rank {
        let k = choose|k: int|
            0 <= k < r.len() && (#[trigger] r[k]).technical_name == r[i].technical_name && r[k].rank
                < r[i].rank;
        assert(r.contains(r[k]));
        assert(settled.contains(r[k]));
        let q = choose|q: int| 0 <= q < settled.len() && settled[q] == r[k];
        assert(settled[q] == (Listing { shadowed: outranked(all, all[q]), ..all[q] }));
        assert(all[q].technical_name == all[p].technical_name);
    }
}

/// Every module that is listed has a copy that is not shadowed.
pub proof fn law_every_module_has_a_winner(all: Seq<Listing>, i: int)
    requires
        0 <= i < resolved(all).len(),
    ensures
        exists|k: int|
            0 <= k < resolved(all).len() && (#[trigger] resolved(all)[k]).technical_name
                == resolved(all)[i].technical_name && !resolved(all)[k].shadowed,
    decreases resolved(all)[i].rank,
{
    law_the_lowest_rank_wins(all, i);
    if resolved(all)[i].shadowed {
        let k = choose|k: int|
            0 <= k < resolved(all).len() && (#[trigger] resolved(all)[k]).technical_name
                == resolved(all)[i].technical_name && resolved(all)[k].rank < resolved(all)[i].rank;
        law_every_module_has_a_winner(all, k);
        let w = choose|w: int|
            0 <= w < resolved(all).len() && (#[trigger] resolved(all)[w]).technical_name
                == resolved(all)[k].technical_name && !resolved(all)[w].shadowed;
        assert(resolved(all)[w].technical_name == resolved(all)[i].technical_name);
    }
}

/// Whether a copy of the module comes from a source that is loaded earlier.
fn is_outranked(v: &Vec<ModuleListing>, l: &ModuleListing) -> (r: bool)
    ensures
        r == outranked(listings(v@), l@),
{
    let mut k: usize = 0;
    while k < v.len()
        invariant
            k <= v@.len(),
            forall|j: int|
                0 <= j < k ==> !((#[trigger] listings(v@)[j]).technical_name == l@.technical_name
                    && listings(v@)[j].rank < l@.rank),
        decreases v@.len() - k,
    {
        assert(listings(v@)[k as int] == v@[k as int]@);
        if v[k].rank < l.rank && text::same_text(
            v[k].technical_name.as_str(),
            l.technical_name.as_str(),
        ) {
            return true;
        }
        k = k + 1;
    }
    false
}

/// Whether `a` is listed before `b`.
fn goes_before(a: &ModuleListing, b: &ModuleListing) -> (r: bool)
    ensures
        r == listed_before(a@, b@),
{
    text::comes_before(a.technical_name.as_str(), b.technical_name.as_str()) || (a.rank < b.rank
        && text::same_text(a.technical_name.as_str(), b.technical_name.as_str()))
}

/// Settles which copies are shadowed, and sorts by name and rank.
fn resolve(found: Vec<ModuleListing>) -> (r: Vec<ModuleListing>)
    ensures
        listings(r@) == resolved(listings(found@)),
{
    let ghost all = listings(found@);
    let mut flags: Vec<bool> = Vec::new();
    let mut i: usize = 0;
    while i < found.len()
        invariant
            i <= found@.len(),
            all == listings(found@),
            flags@.len() == i,
            forall|j: int| 0 <= j < i ==> #[trigger] flags@[j] == outranked(all, all[j]),
        decreases found@.len() - i,
    {
        assert(all[i as int] == found@[i as int]@);
        let shadowed = is_outranked(&found, &found[i]);
        flags.push(shadowed);
        i = i + 1;
    }
    let mut rest = found;
    let mut sorted: Vec<ModuleListing> = Vec::new();
    let count: usize = rest.len();
    let ghost settled = settled_listings(all);
    i = 0;
    assert(listings(sorted@) =~= Seq::<Listing>::empty());
    assert(settled.take(0) =~= Seq::<Listing>::empty());
    assert(all.skip(0) =~= all);
    while i < count
        invariant
            i <= count,
            count == all.len() == flags@.len(),
            settled == settled_listings(all),
            listings(rest@) == all.skip(i as int),
            forall|j: int| 0 <= j < count ==> #[trigger] flags@[j] == outranked(all, all[j]),
            listings(sorted@) == sorted_listings(settled.take(i as int)),
        decreases count - i,
    {
        assert(listings(rest@).len() == rest@.len());
        assert(listings(rest@)[0] == rest@[0]@);
        let ghost before = listings(rest@);
        let mut listing = rest.remove(0);
        assert(listings(rest@) =~= before.drop_first());
        assert(listings(rest@) =~= all.skip(i + 1));
        listing.shadowed = flags[i];
        assert(listing@ == settled[i as int]);
        let ghost done = listings(sorted@);
        let mut k: usize = 0;
        assert(done.skip(0) =~= done);
        while k < sorted.len() && !goes_before(&listing, &sorted[k])
            invariant
                k <= sorted@.len(),
                done == listings(sorted@),
                place_of(done, listing@) == k + place_of(done.skip(k as int), listing@),
            decreases sorted@.len() - k,
        {
            assert(done.skip(k as int)[0] == sorted@[k as int]@);
            assert(done.skip(k as int).drop_first() =~= done.skip(k + 1));
            k = k + 1;
        }
        proof {
            if k < sorted@.len() {
                assert(done.skip(k as int)[0] == sorted@[k as int]@);
            }
            assert(place_of(done, listing@) == k);
        }
        sorted.insert(k, listing);
        proof {
            assert(listings(sorted@) =~= done.insert(k as int, listing@));
            assert(settled.take(i + 1).drop_last() =~= settled.take(i as int));
            assert(settled.take(i + 1).last() == settled[i as int]);
        }
        i = i + 1;
    }
    assert(settled.take(i as int) =~= settled);
    sorted
}

// --- collisions -----------------------------------------------------------

/// A copy of a module that another copy shadows.
#[derive(Debug)]
pub struct ShadowedCopy {
    pub source_label: String,
    pub source_kind: SourceKind,
    pub rank: u32,
}

/// A module that several sources hold.
#[derive(Debug)]
pub struct Collision {
    pub technical_name: String,
    pub winner_source_label: String,
    pub winner_rank: u32,
    pub shadowed: Vec<ShadowedCopy>,
}

/// Where a shadowed copy comes from.
pub struct Shadow {
    pub source_label: Seq<char>,
    pub source_kind: SourceKind,
    pub rank: u32,
}

/// What is said of a module that several sources hold.
pub struct Clash {
    pub technical_name: Seq<char>,
    pub winner_source_label: Seq<char>,
    pub winner_rank: u32,
    pub shadowed: Seq<Shadow>,
}

impl View for ShadowedCopy {
    type V = Shadow;

    open spec fn view(&self) -> Shadow {
        Shadow {
            source_label: self.source_label@,
            source_kind: self.source_kind,
            rank: self.rank,
        }
    }
}

impl View for Collision {
    type V = Clash;

    open spec fn view(&self) -> Clash {
        Clash {
            technical_name: self.technical_name@,
            winner_source_label: self.winner_source_label@,
            winner_rank: self.winner_rank,
            shadowed: self.shadowed@.map_values(|c: ShadowedCopy| c@),
        }
    }
}

/// What the collisions say.
pub open spec fn clashes(v: Seq<Collision>) -> Seq<Clash> {
    v.map_values(|c: Collision| c@)
}

/// The copies of one module, in listed order.
pub open spec fn copies_of(all: Seq<Listing>, name: Seq<char>) -> Seq<Listing>
    decreases all.len(),
{
    if all.len() == 0 {
        Seq::empty()
    } else {
        let before = copies_of(all.drop_last(), name);
        if all.last().technical_name == name {
            before.push(all.last())
        } else {
            before
        }
    }
}

/// The first copy that is not shadowed.
pub open spec fn winner_among(copies: Seq<Listing>) -> Listing
    decreases copies.len(),
{
    if copies.len() <= 1 || !copies[0].shadowed {
        copies[0]
    } else {
        winner_among(copies.drop_first())
    }
}

/// Where the shadowed ones among some copies come from.
pub open spec fn shadows_among(copies: Seq<Listing>) -> Seq<Shadow>
    decreases copies.len(),
{
    if copies.len() == 0 {
        Seq::empty()
    } else {
        let before = shadows_among(copies.drop_last());
        let l = copies.last();
        if l.shadowed {
            before.push(
                Shadow {
                    source_label: l.source_label,
                    source_kind: l.source_kind,
                    rank: l.rank,
                },
            )
        } else {
            before
        }
    }
}

/// What is said of a module with several copies.
pub open spec fn clash_of(all: Seq<Listing>, name: Seq<char>) -> Clash {
    let copies = copies_of(all, name);
    Clash {
        technical_name: name,
        winner_source_label: winner_among(copies).source_label,
        winner_rank: winner_among(copies).rank,
        shadowed: shadows_among(copies),
    }
}

/// The clashes among the first `k` of some module names.
pub open spec fn clashes_among(all: Seq<Listing>, names: Seq<Seq<char>>, k: nat) -> Seq<Clash>
    decreases k,
{
    if k == 0 {
        Seq::empty()
    } else {
        let before = clashes_among(all, names, (k - 1) as nat);
        if copies_of(all, names[k - 1]).len() > 1 {
            before.push(clash_of(all, names[k - 1]))
        } else {
            before
        }
    }
}

/// The names of the listed modules.
pub open spec fn names_of(all: Seq<Listing>) -> Seq<Seq<char>> {
    all.map_values(|l: Listing| l.technical_name)
}

/// The modules with several copies, by name.
pub open spec fn clashes_in(all: Seq<Listing>) -> Seq<Clash> {
    let names = text::sorted_set(names_of(all));
    clashes_among(all, names, names.len())
}

/// The listings that the references stand for.
pub open spec fn referred(v: Seq<&ModuleListing>) -> Seq<Listing> {
    v.map_values(|l: &ModuleListing| l@)
}

/// The different module names, ascending.
fn name_table(v: &Vec<&ModuleListing>) -> (r: Vec<String>)
    ensures
        text::views(r@) == text::sorted_set(names_of(referred(v@))),
{
    let ghost names = names_of(referred(v@));
    let mut out: Vec<String> = Vec::new();
    let mut i: usize = 0;
    assert(text::views(out@) =~= text::sorted_set(names.take(0)));
    while i < v.len()
        invariant
            i <= v@.len(),
            names == names_of(referred(v@)),
            text::views(out@) == text::sorted_set(names.take(i as int)),
        decreases v@.len() - i,
    {
        text::add_word(&mut out, v[i].technical_name.as_str());
        proof {
            assert(names.take(i + 1).drop_last() =~= names.take(i as int));
            assert(names.take(i + 1).last() == v@[i as int].technical_name@);
        }
        i = i + 1;
    }
    assert(names.take(i as int) =~= names);
    out
}

/// References to all the listings.
fn all_of(modules: &Vec<ModuleListing>) -> (r: Vec<&ModuleListing>)
    ensures
        referred(r@) == listings(modules@),
{
    let mut out: Vec<&ModuleListing> = Vec::new();
    let mut i: usize = 0;
    while i < modules.len()
        invariant
            i <= modules@.len(),
            referred(out@) == listings(modules@).take(i as int),
        decreases modules@.len() - i,
    {
        let ghost before = referred(out@);
        out.push(&modules[i]);
        assert(referred(out@) =~= before.push(modules@[i as int]@));
        assert(referred(out@) =~= listings(modules@).take(i + 1));
        i = i + 1;
    }
    assert(listings(modules@).take(i as int) =~= listings(modules@));
    out
}

/// References to the copies of one module.
fn copies<'a>(modules: &Vec<&'a ModuleListing>, name: &str) -> (r: Vec<&'a ModuleListing>)
    ensures
        referred(r@) == copies_of(referred(modules@), name@),
{
    let ghost all = referred(modules@);
    let mut out: Vec<&ModuleListing> = Vec::new();
    let mut i: usize = 0;
    assert(referred(out@) =~= Seq::<Listing>::empty());
    while i < modules.len()
        invariant
            i <= modules@.len(),
            all == referred(modules@),
            referred(out@) == copies_of(all.take(i as int), name@),
        decreases modules@.len() - i,
    {
        let ghost before = referred(out@);
        proof {
            assert(all.take(i + 1).drop_last() =~= all.take(i as int));
            assert(all.take(i + 1).last() == modules@[i as int]@);
        }
        if text::same_text(modules[i].technical_name.as_str(), name) {
            out.push(modules[i]);
            assert(referred(out@) =~= before.push(modules@[i as int]@));
        }
        i = i + 1;
    }
    assert(all.take(i as int) =~= all);
    out
}

/// The first copy that is not shadowed.
fn pick_winner<'a>(copies: &Vec<&'a ModuleListing>) -> (r: &'a ModuleListing)
    requires
        copies@.len() > 0,
    ensures
        r@ == winner_among(referred(copies@)),
{
    let ghost all = referred(copies@);
    let mut i: usize = 0;
    assert(all.skip(0) =~= all);
    while i < copies.len() - 1 && copies[i].shadowed
        invariant
            copies@.len() > 0,
            i <= copies@.len() - 1,
            all == referred(copies@),
            winner_among(all) == winner_among(all.skip(i as int)),
        decreases copies@.len() - i,
    {
        assert(all.skip(i as int)[0] == copies@[i as int]@);
        assert(all.skip(i as int).drop_first() =~= all.skip(i + 1));
        i = i + 1;
    }
    assert(all.skip(i as int)[0] == copies@[i as int]@);
    copies[i]
}

/// Where the shadowed ones among some copies come from.
fn pick_shadowed(copies: &Vec<&ModuleListing>) -> (r: Vec<ShadowedCopy>)
    ensures
        r@.map_values(|c: ShadowedCopy| c@) == shadows_among(referred(copies@)),
{
    let ghost all = referred(copies@);
    let mut out: Vec<ShadowedCopy> = Vec::new();
    let mut i: usize = 0;
    assert(out@.map_values(|c: ShadowedCopy| c@) =~= Seq::<Shadow>::empty());
    while i < copies.len()
        invariant
            i <= copies@.len(),
            all == referred(copies@),
            out@.map_values(|c: ShadowedCopy| c@) == shadows_among(all.take(i as int)),
        decreases copies@.len() - i,
    {
        let ghost before = out@.map_values(|c: ShadowedCopy| c@);
        proof {
            assert(all.take(i + 1).drop_last() =~= all.take(i as int));
            assert(all.take(i + 1).last() == copies@[i as int]@);
        }
        if copies[i].shadowed {
            let copy = ShadowedCopy {
                source_label: copies[i].source_label.clone(),
                source_kind: copies[i].source_kind,
                rank: copies[i].rank,
            };
            out.push(copy);
            assert(out@.map_values(|c: ShadowedCopy| c@) =~= before.push(copy@));
        }
        i = i + 1;
    }
    assert(all.take(i as int) =~= all);
    out
}

/// The modules with several copies, by name.
fn find_collisions(modules: &Vec<ModuleListing>) -> (r: Vec<Collision>)
    ensures
        clashes(r@) == clashes_in(listings(modules@)),
{
    let everything = all_of(modules);
    let ghost all = listings(modules@);
    let names = name_table(&everything);
    let ghost table = text::views(names@);
    let mut out: Vec<Collision> = Vec::new();
    let mut i: usize = 0;
    assert(clashes(out@) =~= Seq::<Clash>::empty());
    while i < names.len()
        invariant
            i <= names@.len(),
            all == referred(everything@),
            table == text::views(names@),
            clashes(out@) == clashes_among(all, table, i as nat),
        decreases names@.len() - i,
    {
        let ghost before = clashes(out@);
        assert(table[i as int] == names@[i as int]@);
        let same = copies(&everything, names[i].as_str());
        assert(referred(same@).len() == same@.len());
        if same.len() > 1 {
            let winner = pick_winner(&same);
            let collision = Collision {
                technical_name: names[i].clone(),
                winner_source_label: winner.source_label.clone(),
                winner_rank: winner.rank,
                shadowed: pick_shadowed(&same),
            };
            out.push(collision);
            assert(clashes(out@) =~= before.push(collision@));
        }
        i = i + 1;
    }
    assert(table.len() == names@.len());
    out
}

// --- winners and what they depend on --------------------------------------

/// The copies that are loaded.
pub open spec fn winners_in(all: Seq<Listing>) -> Seq<Listing>
    decreases all.len(),
{
    if all.len() == 0 {
        Seq::empty()
    } else {
        let before = winners_in(all.drop_last());
        if all.last().shadowed {
            before
        } else {
            before.push(all.last())
        }
    }
}

/// References to the copies that are loaded.
fn pick_winners(modules: &Vec<ModuleListing>) -> (r: Vec<&ModuleListing>)
    ensures
        referred(r@) == winners_in(listings(modules@)),
{
    let ghost all = listings(modules@);
    let mut out: Vec<&ModuleListing> = Vec::new();
    let mut i: usize = 0;
    assert(referred(out@) =~= Seq::<Listing>::empty());
    while i < modules.len()
        invariant
            i <= modules@.len(),
            all == listings(modules@),
            referred(out@) == winners_in(all.take(i as int)),
        decreases modules@.len() - i,
    {
        let ghost before = referred(out@);
        proof {
            assert(all.take(i + 1).drop_last() =~= all.take(i as int));
            assert(all.take(i + 1).last() == modules@[i as int]@);
        }
        if !modules[i].shadowed {
            out.push(&modules[i]);
            assert(referred(out@) =~= before.push(modules@[i as int]@));
        }
        i = i + 1;
    }
    assert(all.take(i as int) =~= all);
    out
}

/// A dependency that no source holds.
#[derive(Debug)]
pub struct UnresolvedDependency {
    pub technical_name: String,
    pub missing_dependency: String,
}

/// The module and what it misses.
pub open spec fn missing(v: Seq<UnresolvedDependency>) -> Seq<(Seq<char>, Seq<char>)> {
    v.map_values(|u: UnresolvedDependency| (u.technical_name@, u.missing_dependency@))
}

/// What a module misses among its first `k` dependencies.
pub open spec fn missing_of(l: Listing, names: Seq<Seq<char>>, k: nat) -> Seq<(Seq<char>, Seq<char>)>
    decreases k,
{
    if k == 0 {
        Seq::empty()
    } else {
        let before = missing_of(l, names, (k - 1) as nat);
        if names.contains(l.depends[k - 1]) {
            before
        } else {
            before.push((l.technical_name, l.depends[k - 1]))
        }
    }
}

/// What the modules miss, module by module, in the order their manifests name it.
pub open spec fn missing_in(ws: Seq<Listing>, names: Seq<Seq<char>>) -> Seq<(Seq<char>, Seq<char>)>
    decreases ws.len(),
{
    if ws.len() == 0 {
        Seq::empty()
    } else {
        missing_in(ws.drop_last(), names) + missing_of(ws.last(), names, ws.last().depends.len())
    }
}

/// What the winners miss.
fn find_unresolved(winners: &Vec<&ModuleListing>) -> (r: Vec<UnresolvedDependency>)
    ensures
        missing(r@) == missing_in(
            referred(winners@),
            text::sorted_set(names_of(referred(winners@))),
        ),
{
    let names = name_table(winners);
    let ghost table = text::views(names@);
    let ghost ws = referred(winners@);
    let mut out: Vec<UnresolvedDependency> = Vec::new();
    let mut i: usize = 0;
    assert(missing(out@) =~= missing_in(ws.take(0), table));
    while i < winners.len()
        invariant
            i <= winners@.len(),
            ws == referred(winners@),
            table == text::views(names@),
            missing(out@) == missing_in(ws.take(i as int), table),
        decreases winners@.len() - i,
    {
        let winner = winners[i];
        let ghost start = missing(out@);
        let mut k: usize = 0;
        assert(start + missing_of(winner@, table, 0) =~= start);
        while k < winner.depends.len()
            invariant
                k <= winner.depends@.len(),
                table == text::views(names@),
                missing(out@) == start + missing_of(winner@, table, k as nat),
            decreases winner.depends@.len() - k,
        {
            let ghost before = missing(out@);
            let dep = &winner.depends[k];
            assert(winner@.depends[k as int] == dep@);
            if !text::contains_text(&names, dep.as_str()) {
                let u = UnresolvedDependency {
                    technical_name: winner.technical_name.clone(),
                    missing_dependency: dep.clone(),
                };
                out.push(u);
                assert(missing(out@) =~= before.push((u.technical_name@, u.missing_dependency@)));
                assert(missing(out@) =~= start + missing_of(winner@, table, (k + 1) as nat));
            }
            k = k + 1;
        }
        proof {
            assert(ws.take(i + 1).drop_last() =~= ws.take(i as int));
            assert(ws.take(i + 1).last() == winner@);
            assert(winner@.depends.len() == winner.depends@.len());
        }
        i = i + 1;
    }
    assert(ws.take(i as int) =~= ws);
    out
}

// --- install order --------------------------------------------------------

/// Whether a copy of module `a` that is loaded depends on module `b`.
pub open spec fn depends_on(ws: Seq<Listing>, a: Seq<char>, b: Seq<char>) -> bool {
    exists|w: int|
        0 <= w < ws.len() && (#[trigger] ws[w]).technical_name == a && ws[w].depends.contains(b)
}

/// The dependencies between the modules, numbered by their place among the sorted names.
pub open spec fn dependencies(ws: Seq<Listing>) -> install_order::Depends {
    let names = text::sorted_set(names_of(ws));
    |i: int, j: int|
        0 <= i < names.len() && 0 <= j < names.len() && depends_on(ws, names[i], names[j])
}

/// The order in which the modules install, as numbers.
pub open spec fn install_numbers(ws: Seq<Listing>) -> Seq<int> {
    install_order::order_of(dependencies(ws), text::sorted_set(names_of(ws)).len())
}

/// The order in which the modules install.
pub open spec fn install_names(ws: Seq<Listing>) -> Seq<Seq<char>> {
    install_numbers(ws).map_values(|i: int| text::sorted_set(names_of(ws))[i])
}

/// Of the first `k` names, those whose number is not in `done`.
pub open spec fn stuck_among(names: Seq<Seq<char>>, done: Seq<int>, k: nat) -> Seq<Seq<char>>
    decreases k,
{
    if k == 0 {
        Seq::empty()
    } else {
        let before = stuck_among(names, done, (k - 1) as nat);
        if done.contains(k - 1) {
            before
        } else {
            before.push(names[k - 1])
        }
    }
}

/// The modules that a circle of dependencies keeps from installing, by name.
pub open spec fn stuck_names(ws: Seq<Listing>) -> Seq<Seq<char>> {
    let names = text::sorted_set(names_of(ws));
    stuck_among(names, install_numbers(ws), names.len())
}

/// The number of a name in the table.
fn number_in(names: &Vec<String>, word: &str) -> (r: Option<usize>)
    ensures
        match r {
            Some(i) => i < names@.len() && names@[i as int]@ == word@,
            None => !text::views(names@).contains(word@),
        },
{
    let mut i: usize = 0;
    while i < names.len()
        invariant
            i <= names@.len(),
            forall|j: int| 0 <= j < i ==> (#[trigger] names@[j])@ != word@,
        decreases names@.len() - i,
    {
        if text::same_text(names[i].as_str(), word) {
            return Some(i);
        }
        i = i + 1;
    }
    assert(!text::views(names@).contains(word@)) by {
        if text::views(names@).contains(word@) {
            let j = choose|j: int|
                0 <= j < text::views(names@).len() && text::views(names@)[j] == word@;
            assert(names@[j]@ == word@);
        }
    }
    None
}

/// An ascending table holds a name once.
proof fn lemma_table_is_injective(names: Seq<Seq<char>>, i: int, j: int)
    requires
        text::ascending(names),
        0 <= i < names.len(),
        0 <= j < names.len(),
        names[i] == names[j],
    ensures
        i == j,
{
    text::lemma_text_less_irreflexive(names[i]);
    if i < j {
        assert(text::text_less(names[i], names[j]));
    } else if j < i {
        assert(text::text_less(names[j], names[i]));
    }
}

/// What module `i` of the table depends on, as numbers.
fn links_of(winners: &Vec<&ModuleListing>, names: &Vec<String>, i: usize) -> (r: Vec<usize>)
    requires
        i < names@.len(),
        text::ascending(text::views(names@)),
    ensures
        forall|k: int| 0 <= k < r@.len() ==> #[trigger] r@[k] < names@.len(),
        forall|j: int|
            0 <= j < names@.len() ==> (r@.contains(j as usize) <==> #[trigger] depends_on(
                referred(winners@),
                names@[i as int]@,
                text::views(names@)[j],
            )),
{
    let ghost ws = referred(winners@);
    let ghost table = text::views(names@);
    let ghost me = names@[i as int]@;
    let count: usize = names.len();
    let mut out: Vec<usize> = Vec::new();
    let mut w: usize = 0;
    while w < winners.len()
        invariant
            w <= winners@.len(),
            i < names@.len() == count,
            ws == referred(winners@),
            table == text::views(names@),
            text::ascending(table),
            me == names@[i as int]@,
            forall|k: int| 0 <= k < out@.len() ==> #[trigger] out@[k] < names@.len(),
            forall|j: int|
                0 <= j < names@.len() ==> (out@.contains(j as usize) <==> #[trigger] depends_on(
                    ws.take(w as int),
                    me,
                    table[j],
                )),
        decreases winners@.len() - w,
    {
        let winner = winners[w];
        let ghost sofar = out@;
        assert(ws[w as int] == winner@);
        if text::same_text(winner.technical_name.as_str(), names[i].as_str()) {
            let mut k: usize = 0;
            while k < winner.depends.len()
                invariant
                    k <= winner.depends@.len(),
                    table == text::views(names@),
                    count == names@.len(),
                    text::ascending(table),
                    forall|m: int| 0 <= m < out@.len() ==> #[trigger] out@[m] < names@.len(),
                    forall|j: int|
                        0 <= j < names@.len() ==> (#[trigger] out@.contains(j as usize) <==> (
                        sofar.contains(j as usize) || winner@.depends.take(k as int).contains(
                            table[j],
                        ))),
                decreases winner.depends@.len() - k,
            {
                let ghost before = out@;
                let ghost deps = winner@.depends;
                assert(deps[k as int] == winner.depends@[k as int]@);
                let found = number_in(names, winner.depends[k].as_str());
                if let Some(d) = found {
                    out.push(d);
                }
                proof {
                    assert forall|j: int| 0 <= j < names@.len() implies (#[trigger] out@.contains(
                        j as usize,
                    ) <==> (sofar.contains(j as usize) || deps.take(k + 1).contains(
                        table[j],
                    ))) by {
                        assert(deps.take(k + 1) =~= deps.take(k as int).push(deps[k as int]));
                        if deps.take(k as int).contains(table[j]) {
                            let p = choose|p: int|
                                0 <= p < k && deps.take(k as int)[p] == table[j];
                            assert(deps.take(k + 1)[p] == table[j]);
                        }
                        if before.contains(j as usize) {
                            let p = choose|p: int| 0 <= p < before.len() && before[p] == j as usize;
                            assert(out@[p] == j as usize);
                        }
                        if deps.take(k + 1).contains(table[j]) && !deps.take(k as int).contains(
                            table[j],
                        ) {
                            let upto = deps.take(k + 1);
                            let p = choose|p: int| 0 <= p < upto.len() && upto[p] == table[j];
                            if p < k {
                                assert(deps.take(k as int)[p] == table[j]);
                            }
                            assert(deps[k as int] == table[j]);
                            assert(table.contains(deps[k as int]));
                            let d = found->0;
                            assert(table[d as int] == names@[d as int]@);
                            lemma_table_is_injective(table, d as int, j);
                            assert(out@[out@.len() - 1] == j as usize);
                        }
                        if out@.contains(j as usize) && !before.contains(j as usize) {
                            let p = choose|p: int| 0 <= p < out@.len() && out@[p] == j as usize;
                            if p < before.len() {
                                assert(before[p] == j as usize);
                            }
                            let d = found->0;
                            assert(d == j as usize);
                            assert(table[d as int] == names@[d as int]@);
                            assert(deps.take(k + 1)[k as int] == table[j]);
                        }
                    }
                }
                k = k + 1;
            }
            assert(winner@.depends.take(k as int) =~= winner@.depends);
        }
        proof {
            assert forall|j: int| 0 <= j < names@.len() implies (out@.contains(j as usize)
                <==> #[trigger] depends_on(ws.take(w + 1), me, table[j])) by {
                assert(depends_on(ws.take(w as int), me, table[j]) <==> sofar.contains(j as usize));
                if depends_on(ws.take(w as int), me, table[j]) {
                    let x = choose|x: int|
                        0 <= x < w && (#[trigger] ws.take(w as int)[x]).technical_name == me
                            && ws.take(w as int)[x].depends.contains(table[j]);
                    assert(ws.take(w + 1)[x] == ws.take(w as int)[x]);
                }
                if winner@.technical_name == me && winner@.depends.contains(table[j]) {
                    assert(ws.take(w + 1)[w as int] == winner@);
                }
                if depends_on(ws.take(w + 1), me, table[j]) {
                    let upto = ws.take(w + 1);
                    let x = choose|x: int|
                        0 <= x < upto.len() && (#[trigger] upto[x]).technical_name == me
                            && upto[x].depends.contains(table[j]);
                    if x < w {
                        assert(ws.take(w as int)[x] == ws.take(w + 1)[x]);
                    }
                }
            }
        }
        w = w + 1;
    }
    assert(ws.take(w as int) =~= ws);
    out
}

/// The order in which the modules install; or, where a circle of dependencies keeps some from
/// installing, the names of those.
pub fn topological_order(winners: &Vec<&ModuleListing>) -> (r: Result<Vec<String>, Vec<String>>)
    ensures
        match r {
            Ok(order) => {
                &&& text::views(order@) == install_names(referred(winners@))
                &&& stuck_names(referred(winners@)).len() == 0
            },
            Err(stuck) => {
                &&& text::views(stuck@) == stuck_names(referred(winners@))
                &&& stuck@.len() > 0
            },
        },
{
    let ghost ws = referred(winners@);
    let names = name_table(winners);
    let ghost table = text::views(names@);
    let count: usize = names.len();
    proof {
        text::lemma_sorted_set(names_of(ws));
    }
    let mut links: Vec<Vec<usize>> = Vec::new();
    let mut i: usize = 0;
    while i < count
        invariant
            i <= count == names@.len(),
            ws == referred(winners@),
            table == text::views(names@),
            text::ascending(table),
            links@.len() == i,
            forall|a: int, b: int|
                0 <= a < i && 0 <= b < links@[a]@.len() ==> #[trigger] links@[a]@[b] < count,
            forall|a: int, j: int|
                0 <= a < i && 0 <= j < count ==> (links@[a]@.contains(j as usize)
                    <==> #[trigger] depends_on(ws, table[a], table[j])),
        decreases count - i,
    {
        let one = links_of(winners, &names, i);
        assert(table[i as int] == names@[i as int]@);
        links.push(one);
        i = i + 1;
    }
    let numbers = install_order::order_links(&links);
    let ghost order = install_order::numbers(numbers@);
    proof {
        let g = install_order::linked(links@);
        let h = dependencies(ws);
        assert forall|a: int, b: int| #[trigger] g(a, b) == h(a, b) by {
            if 0 <= a < count && 0 <= b <= usize::MAX && links@[a]@.contains(b as usize) {
                let p = choose|p: int| 0 <= p < links@[a]@.len() && links@[a]@[p] == b as usize;
                assert(links@[a]@[p] < count);
            }
            if 0 <= a < count && 0 <= b < count {
                assert(links@[a]@.contains(b as usize) <==> depends_on(ws, table[a], table[b]));
            }
        }
        assert(g =~= h);
        assert(order == install_numbers(ws));
        install_order::law_dependencies_come_first(h, count as nat);
        install_order::law_complete_when_full(h, count as nat);
    }
    let mut out: Vec<String> = Vec::new();
    let mut k: usize = 0;
    let ghost naming = |i: int| text::sorted_set(names_of(ws))[i];
    assert(text::views(out@) =~= order.take(0).map_values(naming));
    while k < numbers.len()
        invariant
            k <= numbers@.len(),
            count == names@.len(),
            order == install_order::numbers(numbers@),
            install_order::in_range(order, count as nat),
            table == text::views(names@),
            table == text::sorted_set(names_of(ws)),
            naming == (|i: int| text::sorted_set(names_of(ws))[i]),
            text::views(out@) == order.take(k as int).map_values(naming),
        decreases numbers@.len() - k,
    {
        let ghost before = text::views(out@);
        assert(order[k as int] == numbers@[k as int]);
        assert(0 <= order[k as int] < count);
        let name = names[numbers[k]].clone();
        assert(name@ == table[order[k as int]]);
        out.push(name);
        assert(text::views(out@) =~= before.push(name@));
        assert(text::views(out@) =~= order.take(k + 1).map_values(naming));
        k = k + 1;
    }
    assert(order.take(k as int) =~= order);
    let mut stuck: Vec<String> = Vec::new();
    let mut m: usize = 0;
    assert(text::views(stuck@) =~= Seq::<Seq<char>>::empty());
    while m < count
        invariant
            m <= count == names@.len(),
            order == install_order::numbers(numbers@),
            table == text::views(names@),
            text::views(stuck@) == stuck_among(table, order, m as nat),
        decreases count - m,
    {
        let ghost before = text::views(stuck@);
        assert(table[m as int] == names@[m as int]@);
        proof {
            if numbers@.contains(m) {
                let p = choose|p: int| 0 <= p < numbers@.len() && numbers@[p] == m;
                assert(order[p] == m);
            }
            if order.contains(m as int) {
                let p = choose|p: int| 0 <= p < order.len() && order[p] == m as int;
                assert(numbers@[p] == m);
            }
        }
        if !install_order::holds(&numbers, m) {
            let name = names[m].clone();
            stuck.push(name);
            assert(text::views(stuck@) =~= before.push(name@));
        }
        m = m + 1;
    }
    assert(text::views(stuck@).len() == stuck@.len());
    if stuck.len() == 0 {
        Ok(out)
    } else {
        Err(stuck)
    }
}

// --- laws on the install order --------------------------------------------

/// The number of a listed name.
proof fn lemma_name_has_number(ws: Seq<Listing>, name: Seq<char>) -> (i: int)
    requires
        names_of(ws).contains(name),
    ensures
        0 <= i < text::sorted_set(names_of(ws)).len(),
        text::sorted_set(names_of(ws))[i] == name,
{
    let table = text::sorted_set(names_of(ws));
    text::lemma_sorted_set(names_of(ws));
    assert(table.contains(name));
    choose|i: int| 0 <= i < table.len() && table[i] == name
}

/// Whether `name` is one of the first `k` names and its number is not in `done`.
spec fn has_open_number(names: Seq<Seq<char>>, done: Seq<int>, k: nat, name: Seq<char>) -> bool {
    exists|i: int| 0 <= i < k && !#[trigger] done.contains(i) && names[i] == name
}

/// What is stuck are exactly the names whose number is not in the order.
proof fn lemma_stuck_among(names: Seq<Seq<char>>, done: Seq<int>, k: nat)
    requires
        k <= names.len(),
    ensures
        forall|i: int|
            0 <= i < k && !#[trigger] done.contains(i) ==> stuck_among(names, done, k).contains(
                names[i],
            ),
        forall|p: int|
            0 <= p < stuck_among(names, done, k).len() ==> has_open_number(
                names,
                done,
                k,
                #[trigger] stuck_among(names, done, k)[p],
            ),
    decreases k,
{
    if k > 0 {
        let before = stuck_among(names, done, (k - 1) as nat);
        let now = stuck_among(names, done, k);
        lemma_stuck_among(names, done, (k - 1) as nat);
        assert forall|i: int| 0 <= i < k && !#[trigger] done.contains(i) implies now.contains(
            names[i],
        ) by {
            if i < k - 1 {
                assert(before.contains(names[i]));
                let p = choose|p: int| 0 <= p < before.len() && before[p] == names[i];
                assert(now[p] == names[i]);
            } else {
                assert(now[before.len() as int] == names[i]);
            }
        }
        assert forall|p: int| 0 <= p < now.len() implies has_open_number(
            names,
            done,
            k,
            #[trigger] now[p],
        ) by {
            if p < before.len() {
                assert(before[p] == now[p]);
                assert(has_open_number(names, done, (k - 1) as nat, before[p]));
                let i = choose|i: int|
                    0 <= i < k - 1 && !#[trigger] done.contains(i) && names[i] == before[p];
                assert(!done.contains(i));
            } else {
                assert(!done.contains(k - 1));
            }
        }
    }
}

/// Where modules are given an install order, each module stands behind every module it depends
/// on that is there.
pub proof fn law_modules_install_after_their_dependencies(ws: Seq<Listing>, p: int, dep: Seq<char>)
    requires
        0 <= p < install_names(ws).len(),
        names_of(ws).contains(dep),
        depends_on(ws, install_names(ws)[p], dep),
    ensures
        install_names(ws).take(p).contains(dep),
{
    let table = text::sorted_set(names_of(ws));
    let g = dependencies(ws);
    let order = install_numbers(ws);
    install_order::law_dependencies_come_first(g, table.len());
    let j = lemma_name_has_number(ws, dep);
    let i = order[p];
    assert(0 <= i < table.len());
    assert(install_names(ws)[p] == table[i]);
    assert(g(i, j));
    assert(install_order::settled(g, table.len(), order[p], order.take(p)));
    assert(order.take(p).contains(j));
    let q = choose|q: int| 0 <= q < p && order.take(p)[q] == j;
    assert(install_names(ws).take(p)[q] == table[j]);
}

/// Every module is in the install order or among the stuck ones.
pub proof fn law_every_module_installs_or_is_stuck(ws: Seq<Listing>, name: Seq<char>)
    requires
        names_of(ws).contains(name),
    ensures
        install_names(ws).contains(name) || stuck_names(ws).contains(name),
{
    let table = text::sorted_set(names_of(ws));
    let order = install_numbers(ws);
    let i = lemma_name_has_number(ws, name);
    lemma_stuck_among(table, order, table.len());
    if order.contains(i) {
        let p = choose|p: int| 0 <= p < order.len() && order[p] == i;
        assert(install_names(ws)[p] == name);
    }
}

/// A stuck module depends on a stuck module: what is reported really is held up by a circle.
pub proof fn law_a_stuck_module_waits_for_a_stuck_module(ws: Seq<Listing>, p: int)
    requires
        0 <= p < stuck_names(ws).len(),
    ensures
        exists|q: int|
            0 <= q < stuck_names(ws).len() && depends_on(
                ws,
                stuck_names(ws)[p],
                #[trigger] stuck_names(ws)[q],
            ),
{
    let table = text::sorted_set(names_of(ws));
    let order = install_numbers(ws);
    let g = dependencies(ws);
    let stuck = stuck_names(ws);
    lemma_stuck_among(table, order, table.len());
    assert(has_open_number(table, order, table.len(), stuck[p]));
    let i = choose|i: int|
        0 <= i < table.len() && !#[trigger] order.contains(i) && table[i] == stuck[p];
    install_order::law_left_out_is_stuck(g, table.len(), i);
    let j = choose|j: int| 0 <= j < table.len() && #[trigger] g(i, j) && !order.contains(j);
    assert(stuck.contains(table[j]));
    let q = choose|q: int| 0 <= q < stuck.len() && stuck[q] == table[j];
    assert(depends_on(ws, stuck[p], stuck[q]));
}

/// Where no module can reach itself through its dependencies (each has a height above all it
/// depends on), nothing is stuck.
pub proof fn law_without_a_circle_nothing_is_stuck(
    ws: Seq<Listing>,
    height: spec_fn(Seq<char>) -> nat,
)
    requires
        forall|a: Seq<char>, b: Seq<char>|
            #[trigger] depends_on(ws, a, b) ==> height(b) < height(a),
    ensures
        stuck_names(ws).len() == 0,
{
    let table = text::sorted_set(names_of(ws));
    let order = install_numbers(ws);
    let g = dependencies(ws);
    lemma_stuck_among(table, order, table.len());
    if stuck_names(ws).len() > 0 {
        assert(has_open_number(table, order, table.len(), stuck_names(ws)[0]));
        let i = choose|i: int|
            0 <= i < table.len() && !#[trigger] order.contains(i) && table[i] == stuck_names(ws)[0];
        let by_number = |i: int| height(table[i]);
        assert forall|a: int, b: int|
            0 <= a < table.len() && 0 <= b < table.len() && #[trigger] g(a, b) implies by_number(b)
            < by_number(a) by {
            assert(depends_on(ws, table[a], table[b]));
        }
        install_order::law_no_circle_no_leftover(g, table.len(), by_number, i);
    }
}

// --- the scan -------------------------------------------------------------

/// What a scan of a server's sources found.
#[derive(Debug)]
pub struct ModuleScan {
    pub server_id: Id,
    pub scanned_at: Moment,
    pub modules: Vec<ModuleListing>,
    pub collisions: Vec<Collision>,
    pub unresolved_depends: Vec<UnresolvedDependency>,
    pub install_order: Option<Vec<String>>,
    pub cycle: Option<Vec<String>>,
    pub source_errors: Vec<SourceScanError>,
    pub parse_errors: Vec<ManifestParseIssue>,
}

/// Whether `r` is what there is to say of the sources.
pub open spec fn is_scan_of(
    r: ModuleScan,
    server_id: Id,
    scanned_at: Moment,
    sources: Seq<ScannedSource>,
) -> bool {
    let ws = winners_in(resolved(all_listings(sources)));
    &&& r.server_id == server_id
    &&& r.scanned_at == scanned_at
    &&& listings(r.modules@) == resolved(all_listings(sources))
    &&& clashes(r.collisions@) == clashes_in(resolved(all_listings(sources)))
    &&& missing(r.unresolved_depends@) == missing_in(ws, text::sorted_set(names_of(ws)))
    &&& match r.install_order {
        Some(order) => text::views(order@) == install_names(ws) && stuck_names(ws).len() == 0,
        None => stuck_names(ws).len() > 0,
    }
    &&& match r.cycle {
        Some(stuck) => text::views(stuck@) == stuck_names(ws) && stuck_names(ws).len() > 0,
        None => stuck_names(ws).len() == 0,
    }
    &&& reports_unreadable(r.source_errors@, sources)
    &&& issues(r.parse_errors@) == all_issues(sources)
}

// --- the order of the sources ---------------------------------------------

/// The listings of one name and rank, as they stand.
spec fn of_key(s: Seq<Listing>, name: Seq<char>, rank: u32) -> Seq<Listing>
    decreases s.len(),
{
    if s.len() == 0 {
        Seq::empty()
    } else {
        let before = of_key(s.drop_last(), name, rank);
        if s.last().technical_name == name && s.last().rank == rank {
            before.push(s.last())
        } else {
            before
        }
    }
}

/// Whether two lists hold the same listings of each name and rank, in the same order.
spec fn same_keys(a: Seq<Listing>, b: Seq<Listing>) -> bool {
    forall|name: Seq<char>, rank: u32| #[trigger] of_key(a, name, rank) == of_key(b, name, rank)
}

proof fn lemma_of_key_add(a: Seq<Listing>, b: Seq<Listing>, name: Seq<char>, rank: u32)
    ensures
        of_key(a + b, name, rank) == of_key(a, name, rank) + of_key(b, name, rank),
    decreases b.len(),
{
    if b.len() == 0 {
        assert(a + b =~= a);
        assert(of_key(a, name, rank) + of_key(b, name, rank) =~= of_key(a, name, rank));
    } else {
        lemma_of_key_add(a, b.drop_last(), name, rank);
        assert((a + b).drop_last() =~= a + b.drop_last());
        assert((a + b).last() == b.last());
        assert(of_key(a + b, name, rank) =~= of_key(a, name, rank) + of_key(b, name, rank));
    }
}

proof fn lemma_of_key_none(s: Seq<Listing>, name: Seq<char>, rank: u32)
    requires
        forall|i: int|
            0 <= i < s.len() ==> (#[trigger] s[i]).technical_name != name || s[i].rank != rank,
    ensures
        of_key(s, name, rank) == Seq::<Listing>::empty(),
    decreases s.len(),
{
    if s.len() > 0 {
        let before = s.drop_last();
        assert forall|i: int| 0 <= i < before.len() implies (#[trigger] before[i]).technical_name
            != name || before[i].rank != rank by {
            assert(before[i] == s[i]);
        }
        lemma_of_key_none(before, name, rank);
    }
}

proof fn lemma_of_key_contains(s: Seq<Listing>, name: Seq<char>, rank: u32, l: Listing)
    ensures
        of_key(s, name, rank).contains(l) <==> s.contains(l) && l.technical_name == name && l.rank
            == rank,
    decreases s.len(),
{
    if s.len() > 0 {
        let before = s.drop_last();
        let kept = of_key(before, name, rank);
        lemma_of_key_contains(before, name, rank, l);
        assert(s =~= before.push(s.last()));
        vstd::seq_lib::lemma_seq_contains_after_push(before, s.last(), l);
        vstd::seq_lib::lemma_seq_contains_after_push(kept, s.last(), l);
    }
}

proof fn lemma_of_key_map(
    s: Seq<Listing>,
    f: spec_fn(Listing) -> Listing,
    name: Seq<char>,
    rank: u32,
)
    requires
        forall|l: Listing|
            (#[trigger] f(l)).technical_name == l.technical_name && f(l).rank == l.rank,
    ensures
        of_key(s.map_values(f), name, rank) == of_key(s, name, rank).map_values(f),
    decreases s.len(),
{
    let mapped = s.map_values(f);
    if s.len() > 0 {
        lemma_of_key_map(s.drop_last(), f, name, rank);
        assert(mapped.drop_last() =~= s.drop_last().map_values(f));
        assert(mapped.last() == f(s.last()));
        assert(of_key(mapped, name, rank) =~= of_key(s, name, rank).map_values(f));
    } else {
        assert(of_key(mapped, name, rank) =~= of_key(s, name, rank).map_values(f));
    }
}

proof fn lemma_sorting_keeps_keys(s: Seq<Listing>, name: Seq<char>, rank: u32)
    ensures
        of_key(sorted_listings(s), name, rank) == of_key(s, name, rank),
    decreases s.len(),
{
    if s.len() > 0 {
        let l = s.last();
        let before = sorted_listings(s.drop_last());
        let p = place_of(before, l) as int;
        lemma_sorting_keeps_keys(s.drop_last(), name, rank);
        lemma_sorted_listings(s.drop_last());
        lemma_place_of(before, l);
        let front = before.take(p);
        let back = before.skip(p);
        assert(before.insert(p, l) =~= front + seq![l] + back);
        assert(before =~= front + back);
        lemma_of_key_add(front, back, name, rank);
        lemma_of_key_add(front + seq![l], back, name, rank);
        lemma_of_key_add(front, seq![l], name, rank);
        assert(seq![l].drop_last() =~= Seq::<Listing>::empty());
        assert(of_key(seq![l].drop_last(), name, rank) =~= Seq::<Listing>::empty());
        if l.technical_name == name && l.rank == rank {
            assert forall|i: int| 0 <= i < back.len() implies (#[trigger] back[i]).technical_name
                != name || back[i].rank != rank by {
                assert(back[i] == before[p + i]);
                if i > 0 {
                    assert(!listed_before(before[p + i], before[p]));
                    lemma_listed_before_transitive(l, before[p], before[p + i]);
                }
                text::lemma_text_less_irreflexive(name);
            }
            lemma_of_key_none(back, name, rank);
            assert(of_key(seq![l], name, rank) =~= seq![l]);
            assert(of_key(sorted_listings(s), name, rank) =~= of_key(s, name, rank));
        } else {
            assert(of_key(seq![l], name, rank) =~= Seq::<Listing>::empty());
            assert(of_key(sorted_listings(s), name, rank) =~= of_key(s, name, rank));
        }
    }
}

/// The last of some listings is the last of its name and rank.
proof fn lemma_last_of_key(s: Seq<Listing>)
    requires
        s.len() > 0,
    ensures
        of_key(s, s.last().technical_name, s.last().rank).len() > 0,
        of_key(s, s.last().technical_name, s.last().rank).last() == s.last(),
        of_key(s, s.last().technical_name, s.last().rank).drop_last() == of_key(
            s.drop_last(),
            s.last().technical_name,
            s.last().rank,
        ),
{
    let before = of_key(s.drop_last(), s.last().technical_name, s.last().rank);
    assert(before.push(s.last()).drop_last() =~= before);
}

proof fn lemma_last_is_not_before(x: Seq<Listing>, y: Seq<Listing>)
    requires
        is_sorted(y),
        same_keys(x, y),
        x.len() > 0,
        y.len() > 0,
    ensures
        !listed_before(y.last(), x.last()),
{
    let a = x.last();
    let b = y.last();
    lemma_last_of_key(x);
    let kept = of_key(y, a.technical_name, a.rank);
    assert(of_key(x, a.technical_name, a.rank) == kept);
    assert(kept[kept.len() - 1] == a);
    lemma_of_key_contains(y, a.technical_name, a.rank, a);
    let j = choose|j: int| 0 <= j < y.len() && y[j] == a;
    if j == y.len() - 1 {
        text::lemma_text_less_irreflexive(a.technical_name);
    } else {
        assert(!listed_before(y[y.len() - 1], y[j]));
    }
}

proof fn lemma_sorted_by_keys_is_unique(x: Seq<Listing>, y: Seq<Listing>)
    requires
        is_sorted(x),
        is_sorted(y),
        same_keys(x, y),
    ensures
        x == y,
    decreases x.len(),
{
    if x.len() == 0 {
        if y.len() > 0 {
            lemma_last_of_key(y);
            assert(of_key(x, y.last().technical_name, y.last().rank).len() == 0);
        }
        assert(x =~= y);
    } else {
        let a = x.last();
        lemma_last_of_key(x);
        if y.len() == 0 {
            assert(of_key(x, a.technical_name, a.rank) == of_key(y, a.technical_name, a.rank));
        }
        let b = y.last();
        lemma_last_of_key(y);
        assert(same_keys(y, x)) by {
            assert forall|name: Seq<char>, rank: u32| #[trigger] of_key(y, name, rank) == of_key(
                x,
                name,
                rank,
            ) by {
                assert(of_key(x, name, rank) == of_key(y, name, rank));
            }
        }
        lemma_last_is_not_before(x, y);
        lemma_last_is_not_before(y, x);
        text::lemma_text_less_total(a.technical_name, b.technical_name);
        assert(of_key(x, a.technical_name, a.rank) == of_key(y, a.technical_name, a.rank));
        assert(a == b);
        let shorter_x = x.drop_last();
        let shorter_y = y.drop_last();
        assert forall|i: int, j: int| 0 <= i < j < shorter_x.len() implies !listed_before(
            #[trigger] shorter_x[j],
            #[trigger] shorter_x[i],
        ) by {
            assert(shorter_x[i] == x[i] && shorter_x[j] == x[j]);
        }
        assert forall|i: int, j: int| 0 <= i < j < shorter_y.len() implies !listed_before(
            #[trigger] shorter_y[j],
            #[trigger] shorter_y[i],
        ) by {
            assert(shorter_y[i] == y[i] && shorter_y[j] == y[j]);
        }
        assert forall|name: Seq<char>, rank: u32| #[trigger] of_key(shorter_x, name, rank)
            == of_key(shorter_y, name, rank) by {
            assert(of_key(x, name, rank) == of_key(y, name, rank));
        }
        lemma_sorted_by_keys_is_unique(shorter_x, shorter_y);
        assert(x =~= shorter_x.push(a));
        assert(y =~= shorter_y.push(b));
    }
}

/// Whether no two sources share a rank.
pub open spec fn ranks_differ(sources: Seq<ScannedSource>) -> bool {
    forall|i: int, j: int|
        0 <= i < j < sources.len() ==> (#[trigger] sources[i]).source.rank != (
        #[trigger] sources[j]).source.rank
}

proof fn lemma_other_rank(s: ScannedSource, name: Seq<char>, rank: u32)
    requires
        s.source.rank != rank,
    ensures
        of_key(source_listings(s), name, rank) == Seq::<Listing>::empty(),
{
    let all = source_listings(s);
    assert forall|i: int| 0 <= i < all.len() implies (#[trigger] all[i]).technical_name != name
        || all[i].rank != rank by {
        assert(all[i].rank == s.source.rank);
    }
    lemma_of_key_none(all, name, rank);
}

/// What is listed of a rank that no source has: nothing.
proof fn lemma_rank_of_none(sources: Seq<ScannedSource>, name: Seq<char>, rank: u32)
    requires
        forall|i: int| 0 <= i < sources.len() ==> (#[trigger] sources[i]).source.rank != rank,
    ensures
        of_key(all_listings(sources), name, rank) == Seq::<Listing>::empty(),
    decreases sources.len(),
{
    if sources.len() > 0 {
        let before = sources.drop_last();
        assert forall|i: int| 0 <= i < before.len() implies (#[trigger] before[i]).source.rank
            != rank by {
            assert(before[i] == sources[i]);
        }
        lemma_rank_of_none(before, name, rank);
        assert(sources[sources.len() - 1].source.rank != rank);
        lemma_other_rank(sources.last(), name, rank);
        lemma_of_key_add(all_listings(before), source_listings(sources.last()), name, rank);
    }
}

/// What is listed of a rank is what the one source of that rank lists.
proof fn lemma_rank_of_one(sources: Seq<ScannedSource>, i: int, name: Seq<char>)
    requires
        ranks_differ(sources),
        0 <= i < sources.len(),
    ensures
        of_key(all_listings(sources), name, sources[i].source.rank) == of_key(
            source_listings(sources[i]),
            name,
            sources[i].source.rank,
        ),
    decreases sources.len(),
{
    let rank = sources[i].source.rank;
    let before = sources.drop_last();
    let last = sources.last();
    assert(last == sources[sources.len() - 1]);
    lemma_of_key_add(all_listings(before), source_listings(last), name, rank);
    let there = of_key(source_listings(sources[i]), name, rank);
    if i == sources.len() - 1 {
        assert forall|k: int| 0 <= k < before.len() implies (#[trigger] before[k]).source.rank
            != rank by {
            assert(before[k] == sources[k]);
        }
        lemma_rank_of_none(before, name, rank);
        assert(Seq::<Listing>::empty() + there =~= there);
    } else {
        assert forall|k: int, m: int| 0 <= k < m < before.len() implies (
        #[trigger] before[k]).source.rank != (#[trigger] before[m]).source.rank by {
            assert(before[k] == sources[k] && before[m] == sources[m]);
        }
        assert(before[i] == sources[i]);
        lemma_rank_of_one(before, i, name);
        lemma_other_rank(last, name, rank);
        assert(there + Seq::<Listing>::empty() =~= there);
    }
}

proof fn lemma_order_keeps_keys(first: Seq<ScannedSource>, second: Seq<ScannedSource>)
    requires
        ranks_differ(first),
        ranks_differ(second),
        first.to_multiset() == second.to_multiset(),
    ensures
        same_keys(all_listings(first), all_listings(second)),
{
    broadcast use vstd::seq_lib::group_to_multiset_ensures;

    let a = all_listings(first);
    let b = all_listings(second);
    assert forall|name: Seq<char>, rank: u32| #[trigger] of_key(a, name, rank) == of_key(
        b,
        name,
        rank,
    ) by {
        if exists|i: int| 0 <= i < first.len() && (#[trigger] first[i]).source.rank == rank {
            let i = choose|i: int|
                0 <= i < first.len() && (#[trigger] first[i]).source.rank == rank;
            assert(first.to_multiset().contains(first[i]));
            assert(second.to_multiset().contains(first[i]));
            assert(second.contains(first[i]));
            let k = choose|k: int| 0 <= k < second.len() && second[k] == first[i];
            lemma_rank_of_one(first, i, name);
            lemma_rank_of_one(second, k, name);
        } else {
            lemma_rank_of_none(first, name, rank);
            assert forall|k: int| 0 <= k < second.len() implies (#[trigger] second[k]).source.rank
                != rank by {
                assert(second.to_multiset().contains(second[k]));
                assert(first.to_multiset().contains(second[k]));
                assert(first.contains(second[k]));
                let i = choose|i: int| 0 <= i < first.len() && first[i] == second[k];
                assert(first[i].source.rank != rank);
            }
            lemma_rank_of_none(second, name, rank);
        }
    }
}

proof fn lemma_same_keys_outrank(a: Seq<Listing>, b: Seq<Listing>, l: Listing)
    requires
        same_keys(a, b),
        outranked(a, l),
    ensures
        outranked(b, l),
{
    let k = choose|k: int|
        0 <= k < a.len() && (#[trigger] a[k]).technical_name == l.technical_name && a[k].rank
            < l.rank;
    let x = a[k];
    lemma_of_key_contains(a, x.technical_name, x.rank, x);
    lemma_of_key_contains(b, x.technical_name, x.rank, x);
    assert(a.contains(x));
    assert(of_key(a, x.technical_name, x.rank) == of_key(b, x.technical_name, x.rank));
    let m = choose|m: int| 0 <= m < b.len() && b[m] == x;
    assert(b[m].technical_name == l.technical_name);
}

proof fn lemma_same_keys_resolve(a: Seq<Listing>, b: Seq<Listing>)
    requires
        same_keys(a, b),
    ensures
        resolved(a) == resolved(b),
{
    let f = |l: Listing| Listing { shadowed: outranked(a, l), ..l };
    let g = |l: Listing| Listing { shadowed: outranked(b, l), ..l };
    let x = settled_listings(a);
    let y = settled_listings(b);
    assert(x =~= a.map_values(f));
    assert(y =~= b.map_values(g));
    assert(same_keys(b, a)) by {
        assert forall|name: Seq<char>, rank: u32| #[trigger] of_key(b, name, rank) == of_key(
            a,
            name,
            rank,
        ) by {
            assert(of_key(a, name, rank) == of_key(b, name, rank));
        }
    }
    assert forall|name: Seq<char>, rank: u32| #[trigger] of_key(
        sorted_listings(x),
        name,
        rank,
    ) == of_key(sorted_listings(y), name, rank) by {
        lemma_sorting_keeps_keys(x, name, rank);
        lemma_sorting_keeps_keys(y, name, rank);
        lemma_of_key_map(a, f, name, rank);
        lemma_of_key_map(b, g, name, rank);
        let kept = of_key(a, name, rank);
        assert(kept == of_key(b, name, rank));
        assert forall|i: int| 0 <= i < kept.len() implies #[trigger] f(kept[i]) == g(kept[i]) by {
            if outranked(a, kept[i]) {
                lemma_same_keys_outrank(a, b, kept[i]);
            }
            if outranked(b, kept[i]) {
                lemma_same_keys_outrank(b, a, kept[i]);
            }
        }
        assert(kept.map_values(f) =~= kept.map_values(g));
    }
    lemma_sorted_listings(x);
    lemma_sorted_listings(y);
    lemma_sorted_by_keys_is_unique(sorted_listings(x), sorted_listings(y));
}

/// What a list of names that may be missing says.
pub open spec fn names_if_any(v: Option<Vec<String>>) -> Option<Seq<Seq<char>>> {
    match v {
        Some(names) => Some(text::views(names@)),
        None => None,
    }
}

/// The order in which sources of different ranks are scanned makes no difference to which modules
/// are listed and in what order, which copies shadow which, which dependencies are missing, the
/// order to install in, and what waits in a circle.
pub proof fn law_the_order_of_sources_does_not_count(
    r: ModuleScan,
    first: Seq<ScannedSource>,
    other: ModuleScan,
    second: Seq<ScannedSource>,
)
    requires
        ranks_differ(first),
        first.to_multiset() == second.to_multiset(),
        is_scan_of(r, r.server_id, r.scanned_at, first),
        is_scan_of(other, other.server_id, other.scanned_at, second),
    ensures
        listings(r.modules@) == listings(other.modules@),
        clashes(r.collisions@) == clashes(other.collisions@),
        missing(r.unresolved_depends@) == missing(other.unresolved_depends@),
        names_if_any(r.install_order) == names_if_any(other.install_order),
        names_if_any(r.cycle) == names_if_any(other.cycle),
{
    lemma_ranks_stay_different(first, second);
    lemma_order_keeps_keys(first, second);
    lemma_same_keys_resolve(all_listings(first), all_listings(second));
}

proof fn lemma_ranks_stay_different(first: Seq<ScannedSource>, second: Seq<ScannedSource>)
    requires
        ranks_differ(first),
        first.to_multiset() == second.to_multiset(),
    ensures
        ranks_differ(second),
{
    broadcast use vstd::seq_lib::group_to_multiset_ensures;

    assert forall|i: int, j: int| 0 <= i < j < second.len() implies (
    #[trigger] second[i]).source.rank != (#[trigger] second[j]).source.rank by {
        let x = second[i];
        let y = second[j];
        assert(second.to_multiset().contains(x));
        assert(second.to_multiset().contains(y));
        assert(first.contains(x) && first.contains(y));
        let p = choose|p: int| 0 <= p < first.len() && first[p] == x;
        let q = choose|q: int| 0 <= q < first.len() && first[q] == y;
        if p == q {
            lemma_twice_counts_twice(second, i, j);
            lemma_differing_counts_once(first, p);
        } else if p < q {
            assert(first[p].source.rank != first[q].source.rank);
        } else {
            assert(first[q].source.rank != first[p].source.rank);
        }
    }
}

proof fn lemma_twice_counts_twice(s: Seq<ScannedSource>, i: int, j: int)
    requires
        0 <= i < j < s.len(),
        s[i] == s[j],
    ensures
        s.to_multiset().count(s[i]) >= 2,
{
    broadcast use vstd::seq_lib::group_to_multiset_ensures;

    vstd::seq_lib::to_multiset_remove(s, j);
    assert(s.remove(j)[i] == s[i]);
    assert(s.remove(j).contains(s[i]));
    assert(s.remove(j).to_multiset().count(s[i]) >= 1);
}

proof fn lemma_differing_counts_once(s: Seq<ScannedSource>, p: int)
    requires
        ranks_differ(s),
        0 <= p < s.len(),
    ensures
        s.to_multiset().count(s[p]) == 1,
{
    broadcast use vstd::seq_lib::group_to_multiset_ensures;

    vstd::seq_lib::to_multiset_remove(s, p);
    let rest = s.remove(p);
    if rest.contains(s[p]) {
        let k = choose|k: int| 0 <= k < rest.len() && rest[k] == s[p];
        if k < p {
            assert(s[k].source.rank != s[p].source.rank);
        } else {
            assert(s[p].source.rank != s[k + 1].source.rank);
        }
    }
    assert(s.contains(s[p]));
    assert(s.to_multiset().count(s[p]) > 0);
    assert(rest.to_multiset().count(s[p]) == 0);
}

/// The modules of a server: `sources` are its sources with what their folders hold, in load
/// order.
pub fn scan(server_id: Id, scanned_at: Moment, sources: &Vec<ScannedSource>) -> (r: ModuleScan)
    ensures
        is_scan_of(r, server_id, scanned_at, sources@),
{
    let mut found: Vec<ModuleListing> = Vec::new();
    let mut source_errors: Vec<SourceScanError> = Vec::new();
    let mut parse_errors: Vec<ManifestParseIssue> = Vec::new();
    let mut i: usize = 0;
    assert(listings(found@) =~= all_listings(sources@.take(0)));
    assert(issues(parse_errors@) =~= all_issues(sources@.take(0)));
    assert(unreadable_sources(sources@.take(0)) =~= Seq::<ScannedSource>::empty());
    while i < sources.len()
        invariant
            i <= sources@.len(),
            listings(found@) == all_listings(sources@.take(i as int)),
            issues(parse_errors@) == all_issues(sources@.take(i as int)),
            reports_unreadable(source_errors@, sources@.take(i as int)),
        decreases sources@.len() - i,
    {
        let one = &sources[i];
        let source = &one.source;
        let ghost upto = sources@.take(i + 1);
        proof {
            assert(upto.drop_last() =~= sources@.take(i as int));
            assert(upto.last() == *one);
        }
        let (mut raw_finds, source_error, mut one_issues) = scan_source_dir(source, &one.listing);
        let ghost issues_before = issues(parse_errors@);
        let ghost issues_here = issues(one_issues@);
        parse_errors.append(&mut one_issues);
        proof {
            assert(issues(parse_errors@) =~= issues_before + issues_here);
            if one.listing is Err {
                assert(issues_here =~= Seq::<Issue>::empty());
            }
            assert(issues(parse_errors@) =~= all_issues(upto));
        }
        let ghost errors_before = source_errors@;
        if let Some(e) = source_error {
            source_errors.push(e);
        }
        proof {
            let bad = unreadable_sources(upto);
            assert forall|j: int| 0 <= j < source_errors@.len() implies unreadable(
                #[trigger] source_errors@[j],
                bad[j].source,
                bad[j].listing->Err_0@,
            ) by {
                if j < errors_before.len() {
                    assert(source_errors@[j] == errors_before[j]);
                }
            }
        }
        let ghost here = finds(raw_finds@);
        let ghost start = listings(found@);
        let count: usize = raw_finds.len();
        let ghost listed = here.map_values(|f: Find| listing_of(f, *source));
        let mut k: usize = 0;
        assert(here.skip(0) =~= here);
        assert(listings(found@) =~= start + listed.take(0));
        while k < count
            invariant
                k <= count == here.len(),
                listed == here.map_values(|f: Find| listing_of(f, *source)),
                finds(raw_finds@) == here.skip(k as int),
                listings(found@) == start + listed.take(k as int),
            decreases count - k,
        {
            assert(finds(raw_finds@).len() == raw_finds@.len());
            assert(finds(raw_finds@)[0] == raw_finds@[0]@);
            let ghost rest = finds(raw_finds@);
            let raw = raw_finds.remove(0);
            assert(finds(raw_finds@) =~= rest.drop_first());
            assert(finds(raw_finds@) =~= here.skip(k + 1));
            let ghost before = listings(found@);
            let listing = ModuleListing {
                technical_name: raw.technical_name,
                name: raw.manifest.name,
                version: raw.manifest.version,
                category: raw.manifest.category,
                application: raw.manifest.application,
                installable: raw.manifest.installable,
                auto_install_enabled: raw.manifest.auto_install_enabled,
                depends: raw.manifest.depends,
                source_id: source.id,
                source_label: source.label.clone(),
                source_kind: source.kind,
                rank: source.rank,
                shadowed: false,
                path: raw.path,
            };
            assert(listing@ == listed[k as int]);
            found.push(listing);
            assert(listings(found@) =~= before.push(listing@));
            assert(listings(found@) =~= start + listed.take(k + 1));
            k = k + 1;
        }
        proof {
            assert(listed.take(k as int) =~= listed);
            if one.listing is Err {
                assert(here =~= Seq::<Find>::empty());
                assert(listed =~= Seq::<Listing>::empty());
            }
            assert(listings(found@) =~= all_listings(upto));
        }
        i = i + 1;
    }
    assert(sources@.take(i as int) =~= sources@);
    let modules = resolve(found);
    let collisions = find_collisions(&modules);
    let winners = pick_winners(&modules);
    let unresolved_depends = find_unresolved(&winners);
    let ghost ws = referred(winners@);
    let (install_order, cycle) = match topological_order(&winners) {
        Ok(order) => (Some(order), None),
        Err(stuck) => {
            assert(text::views(stuck@).len() == stuck@.len());
            (None, Some(stuck))
        },
    };
    ModuleScan {
        server_id,
        scanned_at,
        modules,
        collisions,
        unresolved_depends,
        install_order,
        cycle,
        source_errors,
        parse_errors,
    }
}

// --- what a scan says -----------------------------------------------------

proof fn lemma_winners(all: Seq<Listing>, l: Listing)
    ensures
        winners_in(all).contains(l) <==> all.contains(l) && !l.shadowed,
    decreases all.len(),
{
    if all.len() > 0 {
        let rest = all.drop_last();
        lemma_winners(rest, l);
        assert(all =~= rest.push(all.last()));
        vstd::seq_lib::lemma_seq_contains_after_push(rest, all.last(), l);
        vstd::seq_lib::lemma_seq_contains_after_push(winners_in(rest), all.last(), l);
    }
}

proof fn lemma_missing_of(l: Listing, names: Seq<Seq<char>>, k: nat, p: (Seq<char>, Seq<char>))
    requires
        k <= l.depends.len(),
    ensures
        missing_of(l, names, k).contains(p) <==> p.0 == l.technical_name && !names.contains(p.1)
            && l.depends.take(k as int).contains(p.1),
    decreases k,
{
    if k > 0 {
        let before = missing_of(l, names, (k - 1) as nat);
        let dep = l.depends[k - 1];
        lemma_missing_of(l, names, (k - 1) as nat, p);
        assert(l.depends.take(k as int) =~= l.depends.take(k - 1).push(dep));
        vstd::seq_lib::lemma_seq_contains_after_push(l.depends.take(k - 1), dep, p.1);
        vstd::seq_lib::lemma_seq_contains_after_push(before, (l.technical_name, dep), p);
    }
}

proof fn lemma_missing_in(ws: Seq<Listing>, names: Seq<Seq<char>>, p: (Seq<char>, Seq<char>))
    ensures
        missing_in(ws, names).contains(p) <==> !names.contains(p.1) && exists|i: int|
            0 <= i < ws.len() && (#[trigger] ws[i]).technical_name == p.0
                && ws[i].depends.contains(p.1),
    decreases ws.len(),
{
    if ws.len() > 0 {
        let rest = ws.drop_last();
        let last = ws.last();
        let more = missing_of(last, names, last.depends.len());
        lemma_missing_in(rest, names, p);
        lemma_missing_of(last, names, last.depends.len(), p);
        assert(last.depends.take(last.depends.len() as int) =~= last.depends);
        vstd::seq_lib::lemma_seq_concat_contains_all_elements(missing_in(rest, names), more, p);
        if missing_in(rest, names).contains(p) {
            let i = choose|i: int|
                0 <= i < rest.len() && (#[trigger] rest[i]).technical_name == p.0
                    && rest[i].depends.contains(p.1);
            assert(ws[i] == rest[i]);
        }
        if more.contains(p) {
            assert(ws[ws.len() - 1] == last);
        }
        if exists|i: int|
            0 <= i < ws.len() && (#[trigger] ws[i]).technical_name == p.0 && ws[i].depends.contains(
                p.1,
            ) {
            let i = choose|i: int|
                0 <= i < ws.len() && (#[trigger] ws[i]).technical_name == p.0
                    && ws[i].depends.contains(p.1);
            if i < rest.len() {
                assert(rest[i] == ws[i]);
            }
        }
    }
}

/// Whether a scan lists a copy of a module that is loaded.
pub open spec fn loads(r: ModuleScan, name: Seq<char>) -> bool {
    exists|k: int|
        0 <= k < r.modules@.len() && (#[trigger] r.modules@[k]).technical_name@ == name
            && !r.modules@[k].shadowed
}

proof fn lemma_loads(r: ModuleScan, name: Seq<char>)
    ensures
        loads(r, name) <==> names_of(winners_in(listings(r.modules@))).contains(name),
{
    let all = listings(r.modules@);
    let ws = winners_in(all);
    let names = names_of(ws);
    if loads(r, name) {
        let k = choose|k: int|
            0 <= k < r.modules@.len() && (#[trigger] r.modules@[k]).technical_name@ == name
                && !r.modules@[k].shadowed;
        lemma_winners(all, all[k]);
        assert(all.contains(all[k]));
        let i = choose|i: int| 0 <= i < ws.len() && ws[i] == all[k];
        assert(names[i] == name);
    }
    if names.contains(name) {
        let i = choose|i: int| 0 <= i < names.len() && names[i] == name;
        lemma_winners(all, ws[i]);
        assert(ws.contains(ws[i]));
        let k = choose|k: int| 0 <= k < all.len() && all[k] == ws[i];
        assert(r.modules@[k]@ == ws[i]);
        assert(r.modules@[k].technical_name@ == name);
    }
}

/// A loaded module misses exactly those of its dependencies that no loaded module provides: each
/// of them is reported, and nothing else.
pub proof fn law_every_missing_dependency_is_reported(
    r: ModuleScan,
    sources: Seq<ScannedSource>,
    name: Seq<char>,
    dep: Seq<char>,
)
    requires
        is_scan_of(r, r.server_id, r.scanned_at, sources),
    ensures
        (exists|u: int|
            0 <= u < r.unresolved_depends@.len() && (
            #[trigger] r.unresolved_depends@[u]).technical_name@ == name
                && r.unresolved_depends@[u].missing_dependency@ == dep) <==> (exists|k: int|
            0 <= k < r.modules@.len() && (#[trigger] r.modules@[k]).technical_name@ == name
                && !r.modules@[k].shadowed && text::views(r.modules@[k].depends@).contains(dep))
            && !loads(r, dep),
{
    let all = listings(r.modules@);
    let ws = winners_in(all);
    let names = names_of(ws);
    let table = text::sorted_set(names);
    let said = missing(r.unresolved_depends@);
    let p = (name, dep);
    lemma_loads(r, dep);
    text::lemma_sorted_set(names);
    assert(table.contains(dep) <==> names.contains(dep));
    lemma_missing_in(ws, table, p);
    if said.contains(p) {
        let u = choose|u: int| 0 <= u < said.len() && said[u] == p;
        assert(r.unresolved_depends@[u].technical_name@ == name);
        let i = choose|i: int|
            0 <= i < ws.len() && (#[trigger] ws[i]).technical_name == name
                && ws[i].depends.contains(dep);
        lemma_winners(all, ws[i]);
        assert(ws.contains(ws[i]));
        let k = choose|k: int| 0 <= k < all.len() && all[k] == ws[i];
        assert(r.modules@[k]@ == ws[i]);
        assert(r.modules@[k].technical_name@ == name);
    }
    if exists|u: int|
        0 <= u < r.unresolved_depends@.len() && (
        #[trigger] r.unresolved_depends@[u]).technical_name@ == name
            && r.unresolved_depends@[u].missing_dependency@ == dep {
        let u = choose|u: int|
            0 <= u < r.unresolved_depends@.len() && (
            #[trigger] r.unresolved_depends@[u]).technical_name@ == name
                && r.unresolved_depends@[u].missing_dependency@ == dep;
        assert(said[u] == p);
    }
    if (exists|k: int|
        0 <= k < r.modules@.len() && (#[trigger] r.modules@[k]).technical_name@ == name
            && !r.modules@[k].shadowed && text::views(r.modules@[k].depends@).contains(dep))
        && !loads(r, dep) {
        let k = choose|k: int|
            0 <= k < r.modules@.len() && (#[trigger] r.modules@[k]).technical_name@ == name
                && !r.modules@[k].shadowed && text::views(r.modules@[k].depends@).contains(dep);
        lemma_winners(all, all[k]);
        assert(all.contains(all[k]));
        let i = choose|i: int| 0 <= i < ws.len() && ws[i] == all[k];
        assert(ws[i].technical_name == name && ws[i].depends.contains(dep));
        assert(said.contains(p));
    }
}

/// Whether an entry of a folder is a module with a manifest that reads.
pub open spec fn is_module(e: FolderEntry, described: Described) -> bool {
    &&& e.is_dir
    &&& e.technical_name is Some
    &&& match e.manifest {
        Some(file) => manifest::manifest_in(file.path@, file.contents, e.technical_name->0@) == Ok::<
            Described,
            Seq<char>,
        >(described),
        None => e.legacy_manifest matches Some(file) && manifest::manifest_in(
            file.path@,
            file.contents,
            e.technical_name->0@,
        ) == Ok::<Described, Seq<char>>(described),
    }
}

/// Whether a listed module is what an entry in a source is.
pub open spec fn lists_entry(
    m: ModuleListing,
    e: FolderEntry,
    described: Described,
    source: AddonsSource,
) -> bool {
    &&& e.technical_name matches Some(own) && m.technical_name@ == own@
    &&& m.path@ == e.path@
    &&& m.name@ == described.name
    &&& text::opt_view(m.version) == described.version
    &&& text::opt_view(m.category) == described.category
    &&& m.application == described.application
    &&& m.installable == described.installable
    &&& m.auto_install_enabled == described.auto_install_enabled
    &&& text::views(m.depends@) == described.depends
    &&& m.source_id == source.id
    &&& m.source_label@ == source.label@
    &&& m.source_kind == source.kind
    &&& m.rank == source.rank
}

/// What a find of an entry is.
pub open spec fn find_of(e: FolderEntry) -> Find {
    Find {
        technical_name: e.technical_name->0@,
        path: e.path@,
        manifest: entry_manifest(e)->Ok_0,
    }
}

proof fn lemma_finds(entries: Seq<FolderEntry>, f: Find)
    ensures
        finds_in(entries).contains(f) <==> exists|i: int|
            {
                &&& 0 <= i < entries.len()
                &&& manifest_file_of(#[trigger] entries[i]) is Some
                &&& entry_manifest(entries[i]) is Ok
                &&& f == find_of(entries[i])
            },
    decreases entries.len(),
{
    if entries.len() > 0 {
        let rest = entries.drop_last();
        let last = entries.last();
        lemma_finds(rest, f);
        assert(entries[entries.len() - 1] == last);
        vstd::seq_lib::lemma_seq_contains_after_push(finds_in(rest), find_of(last), f);
        if finds_in(rest).contains(f) {
            let i = choose|i: int|
                {
                    &&& 0 <= i < rest.len()
                    &&& manifest_file_of(#[trigger] rest[i]) is Some
                    &&& entry_manifest(rest[i]) is Ok
                    &&& f == find_of(rest[i])
                };
            assert(entries[i] == rest[i]);
        }
        if exists|i: int|
            {
                &&& 0 <= i < entries.len()
                &&& manifest_file_of(#[trigger] entries[i]) is Some
                &&& entry_manifest(entries[i]) is Ok
                &&& f == find_of(entries[i])
            } {
            let i = choose|i: int|
                {
                    &&& 0 <= i < entries.len()
                    &&& manifest_file_of(#[trigger] entries[i]) is Some
                    &&& entry_manifest(entries[i]) is Ok
                    &&& f == find_of(entries[i])
                };
            if i < rest.len() {
                assert(rest[i] == entries[i]);
            }
        }
    }
}

proof fn lemma_all_listings(sources: Seq<ScannedSource>, l: Listing)
    ensures
        all_listings(sources).contains(l) <==> exists|i: int|
            0 <= i < sources.len() && source_listings(#[trigger] sources[i]).contains(l),
    decreases sources.len(),
{
    if sources.len() > 0 {
        let rest = sources.drop_last();
        let last = sources.last();
        lemma_all_listings(rest, l);
        assert(sources[sources.len() - 1] == last);
        vstd::seq_lib::lemma_seq_concat_contains_all_elements(
            all_listings(rest),
            source_listings(last),
            l,
        );
        if all_listings(rest).contains(l) {
            let i = choose|i: int|
                0 <= i < rest.len() && source_listings(#[trigger] rest[i]).contains(l);
            assert(sources[i] == rest[i]);
        }
        if exists|i: int|
            0 <= i < sources.len() && source_listings(#[trigger] sources[i]).contains(l) {
            let i = choose|i: int|
                0 <= i < sources.len() && source_listings(#[trigger] sources[i]).contains(l);
            if i < rest.len() {
                assert(rest[i] == sources[i]);
            }
        }
    }
}

proof fn lemma_resolved_holds(all: Seq<Listing>, l: Listing)
    ensures
        resolved(all).contains(l) <==> exists|i: int|
            0 <= i < all.len() && l == (Listing {
                shadowed: outranked(all, #[trigger] all[i]),
                ..all[i]
            }),
{
    let settled = settled_listings(all);
    lemma_sorted_listings(settled);
    if settled.contains(l) {
        let i = choose|i: int| 0 <= i < settled.len() && settled[i] == l;
        assert(settled[i] == (Listing { shadowed: outranked(all, all[i]), ..all[i] }));
    }
    if exists|i: int|
        0 <= i < all.len() && l == (Listing {
            shadowed: outranked(all, #[trigger] all[i]),
            ..all[i]
        }) {
        let i = choose|i: int|
            0 <= i < all.len() && l == (Listing {
                shadowed: outranked(all, #[trigger] all[i]),
                ..all[i]
            });
        assert(settled[i] == l);
    }
}

/// Every module that a source holds is listed, as its manifest describes it and with the source
/// that it is from.
pub proof fn law_every_module_is_listed(
    r: ModuleScan,
    sources: Seq<ScannedSource>,
    i: int,
    entries: Seq<FolderEntry>,
    e: FolderEntry,
    described: Described,
)
    requires
        is_scan_of(r, r.server_id, r.scanned_at, sources),
        0 <= i < sources.len(),
        sources[i].listing matches Ok(v) && v@ == entries,
        entries.contains(e),
        is_module(e, described),
    ensures
        exists|k: int|
            0 <= k < r.modules@.len() && lists_entry(
                #[trigger] r.modules@[k],
                e,
                described,
                sources[i].source,
            ),
{
    let f = find_of(e);
    let all = all_listings(sources);
    let l = listing_of(f, sources[i].source);
    let p = choose|p: int| 0 <= p < entries.len() && entries[p] == e;
    assert(manifest_file_of(entries[p]) is Some && entry_manifest(entries[p]) is Ok);
    lemma_finds(entries, f);
    let found = finds_in(entries);
    let q = choose|q: int| 0 <= q < found.len() && found[q] == f;
    assert(source_listings(sources[i])[q] == l);
    assert(source_listings(sources[i]).contains(l));
    lemma_all_listings(sources, l);
    let a = choose|a: int| 0 <= a < all.len() && all[a] == l;
    let told = Listing { shadowed: outranked(all, all[a]), ..all[a] };
    lemma_resolved_holds(all, told);
    assert(resolved(all).contains(told));
    let k = choose|k: int| 0 <= k < resolved(all).len() && resolved(all)[k] == told;
    assert(listings(r.modules@)[k] == r.modules@[k]@);
    assert(lists_entry(r.modules@[k], e, described, sources[i].source));
}

/// What is listed is a module that a source holds, as its manifest describes it.
pub proof fn law_what_is_listed_is_there(r: ModuleScan, sources: Seq<ScannedSource>, k: int)
    requires
        is_scan_of(r, r.server_id, r.scanned_at, sources),
        0 <= k < r.modules@.len(),
    ensures
        exists|i: int, e: FolderEntry, described: Described|
            {
                &&& 0 <= i < sources.len()
                &&& sources[i].listing is Ok
                &&& sources[i].listing->Ok_0@.contains(e)
                &&& is_module(e, described)
                &&& #[trigger] lists_entry(r.modules@[k], e, described, sources[i].source)
            },
{
    let all = all_listings(sources);
    let l = listings(r.modules@)[k];
    assert(l == r.modules@[k]@);
    assert(resolved(all).contains(l));
    lemma_resolved_holds(all, l);
    let a = choose|a: int|
        0 <= a < all.len() && l == (Listing {
            shadowed: outranked(all, #[trigger] all[a]),
            ..all[a]
        });
    assert(all.contains(all[a]));
    lemma_all_listings(sources, all[a]);
    let i = choose|i: int|
        0 <= i < sources.len() && source_listings(#[trigger] sources[i]).contains(all[a]);
    let entries = sources[i].listing->Ok_0@;
    let found = finds_in(entries);
    let q = choose|q: int|
        0 <= q < source_listings(sources[i]).len() && source_listings(sources[i])[q] == all[a];
    assert(all[a] == listing_of(found[q], sources[i].source));
    assert(found.contains(found[q]));
    lemma_finds(entries, found[q]);
    let p = choose|p: int|
        {
            &&& 0 <= p < entries.len()
            &&& manifest_file_of(#[trigger] entries[p]) is Some
            &&& entry_manifest(entries[p]) is Ok
            &&& found[q] == find_of(entries[p])
        };
    assert(entries.contains(entries[p]));
    assert(is_module(entries[p], entry_manifest(entries[p])->Ok_0));
    assert(lists_entry(
        r.modules@[k],
        entries[p],
        entry_manifest(entries[p])->Ok_0,
        sources[i].source,
    ));
}

/// A copy of a module is shadowed exactly where a copy of lower rank is listed; and the list goes
/// by name, and by rank among the copies of a module.
pub proof fn law_the_lower_rank_shadows(r: ModuleScan, sources: Seq<ScannedSource>, i: int, j: int)
    requires
        is_scan_of(r, r.server_id, r.scanned_at, sources),
        0 <= i < j < r.modules@.len(),
    ensures
        r.modules@[j].shadowed <==> exists|k: int|
            0 <= k < r.modules@.len() && (#[trigger] r.modules@[k]).technical_name@
                == r.modules@[j].technical_name@ && r.modules@[k].rank < r.modules@[j].rank,
        r.modules@[i].technical_name@ == r.modules@[j].technical_name@ || text::text_less(
            r.modules@[i].technical_name@,
            r.modules@[j].technical_name@,
        ),
        r.modules@[i].technical_name@ == r.modules@[j].technical_name@ ==> r.modules@[i].rank
            <= r.modules@[j].rank,
{
    let all = all_listings(sources);
    let out = resolved(all);
    law_the_lowest_rank_wins(all, j);
    lemma_sorted_listings(settled_listings(all));
    assert forall|k: int| 0 <= k < out.len() implies #[trigger] out[k] == r.modules@[k]@ by {
        assert(listings(r.modules@)[k] == r.modules@[k]@);
    }
    assert(out[i] == r.modules@[i]@ && out[j] == r.modules@[j]@);
    assert(!listed_before(out[j], out[i]));
    text::lemma_text_less_total(out[i].technical_name, out[j].technical_name);
    if exists|k: int|
        0 <= k < out.len() && (#[trigger] out[k]).technical_name == out[j].technical_name
            && out[k].rank < out[j].rank {
        let k = choose|k: int|
            0 <= k < out.len() && (#[trigger] out[k]).technical_name == out[j].technical_name
                && out[k].rank < out[j].rank;
        assert(r.modules@[k].technical_name@ == r.modules@[j].technical_name@);
    }
    if exists|k: int|
        0 <= k < r.modules@.len() && (#[trigger] r.modules@[k]).technical_name@
            == r.modules@[j].technical_name@ && r.modules@[k].rank < r.modules@[j].rank {
        let k = choose|k: int|
            0 <= k < r.modules@.len() && (#[trigger] r.modules@[k]).technical_name@
                == r.modules@[j].technical_name@ && r.modules@[k].rank < r.modules@[j].rank;
        assert(out[k].technical_name == out[j].technical_name && out[k].rank < out[j].rank);
    }
}

proof fn lemma_copies(all: Seq<Listing>, name: Seq<char>, l: Listing)
    ensures
        copies_of(all, name).contains(l) <==> all.contains(l) && l.technical_name == name,
    decreases all.len(),
{
    if all.len() > 0 {
        let rest = all.drop_last();
        lemma_copies(rest, name, l);
        assert(all =~= rest.push(all.last()));
        vstd::seq_lib::lemma_seq_contains_after_push(rest, all.last(), l);
        vstd::seq_lib::lemma_seq_contains_after_push(copies_of(rest, name), all.last(), l);
    }
}

/// Several copies are those at two places.
proof fn lemma_several(all: Seq<Listing>, name: Seq<char>)
    ensures
        copies_of(all, name).len() > 0 <==> exists|i: int|
            0 <= i < all.len() && (#[trigger] all[i]).technical_name == name,
        copies_of(all, name).len() > 1 <==> exists|i: int, j: int|
            0 <= i < j < all.len() && (#[trigger] all[i]).technical_name == name && (
            #[trigger] all[j]).technical_name == name,
    decreases all.len(),
{
    if all.len() > 0 {
        let rest = all.drop_last();
        let last = all.last();
        let n = rest.len() as int;
        lemma_several(rest, name);
        assert(all[n] == last);
        assert forall|i: int| 0 <= i < n implies #[trigger] all[i] == rest[i] by {}
        if copies_of(rest, name).len() > 0 {
            let i = choose|i: int| 0 <= i < n && (#[trigger] rest[i]).technical_name == name;
            assert(all[i].technical_name == name);
            if last.technical_name == name {
                assert(all[i].technical_name == name && all[n].technical_name == name);
            }
        }
        if copies_of(rest, name).len() > 1 {
            let (i, j) = choose|i: int, j: int|
                0 <= i < j < n && (#[trigger] rest[i]).technical_name == name && (
                #[trigger] rest[j]).technical_name == name;
            assert(all[i].technical_name == name && all[j].technical_name == name);
        }
        if exists|i: int| 0 <= i < all.len() && (#[trigger] all[i]).technical_name == name {
            let i = choose|i: int| 0 <= i < all.len() && (#[trigger] all[i]).technical_name == name;
            if i < n {
                assert(rest[i].technical_name == name);
            }
        }
        if exists|i: int, j: int|
            0 <= i < j < all.len() && (#[trigger] all[i]).technical_name == name && (
            #[trigger] all[j]).technical_name == name {
            let (i, j) = choose|i: int, j: int|
                0 <= i < j < all.len() && (#[trigger] all[i]).technical_name == name && (
                #[trigger] all[j]).technical_name == name;
            assert(rest[i].technical_name == name);
            if j < n {
                assert(rest[j].technical_name == name);
            }
        }
    }
}

proof fn lemma_clashes(all: Seq<Listing>, names: Seq<Seq<char>>, k: nat, c: Clash)
    requires
        k <= names.len(),
    ensures
        clashes_among(all, names, k).contains(c) <==> exists|i: int|
            0 <= i < k && copies_of(all, #[trigger] names[i]).len() > 1 && c == clash_of(
                all,
                names[i],
            ),
    decreases k,
{
    if k > 0 {
        let before = clashes_among(all, names, (k - 1) as nat);
        lemma_clashes(all, names, (k - 1) as nat, c);
        vstd::seq_lib::lemma_seq_contains_after_push(before, clash_of(all, names[k - 1]), c);
    }
}

proof fn lemma_winner(copies: Seq<Listing>)
    requires
        copies.len() > 0,
        exists|i: int| 0 <= i < copies.len() && !(#[trigger] copies[i]).shadowed,
    ensures
        copies.contains(winner_among(copies)),
        !winner_among(copies).shadowed,
    decreases copies.len(),
{
    if copies.len() > 1 && copies[0].shadowed {
        let rest = copies.drop_first();
        let i = choose|i: int| 0 <= i < copies.len() && !(#[trigger] copies[i]).shadowed;
        assert(rest[i - 1] == copies[i]);
        lemma_winner(rest);
        let k = choose|k: int| 0 <= k < rest.len() && rest[k] == winner_among(rest);
        assert(copies[k + 1] == winner_among(copies));
    } else {
        let i = choose|i: int| 0 <= i < copies.len() && !(#[trigger] copies[i]).shadowed;
        assert(copies[0] == winner_among(copies));
    }
}

proof fn lemma_shadows(copies: Seq<Listing>, h: Shadow)
    ensures
        shadows_among(copies).contains(h) <==> exists|i: int|
            {
                &&& 0 <= i < copies.len()
                &&& (#[trigger] copies[i]).shadowed
                &&& h.source_label == copies[i].source_label
                &&& h.source_kind == copies[i].source_kind
                &&& h.rank == copies[i].rank
            },
    decreases copies.len(),
{
    if copies.len() > 0 {
        let rest = copies.drop_last();
        let l = copies.last();
        let own = Shadow {
            source_label: l.source_label,
            source_kind: l.source_kind,
            rank: l.rank,
        };
        lemma_shadows(rest, h);
        vstd::seq_lib::lemma_seq_contains_after_push(shadows_among(rest), own, h);
        assert(copies[copies.len() - 1] == l);
        if shadows_among(rest).contains(h) {
            let i = choose|i: int|
                {
                    &&& 0 <= i < rest.len()
                    &&& (#[trigger] rest[i]).shadowed
                    &&& h.source_label == rest[i].source_label
                    &&& h.source_kind == rest[i].source_kind
                    &&& h.rank == rest[i].rank
                };
            assert(copies[i] == rest[i]);
        }
        if exists|i: int|
            {
                &&& 0 <= i < copies.len()
                &&& (#[trigger] copies[i]).shadowed
                &&& h.source_label == copies[i].source_label
                &&& h.source_kind == copies[i].source_kind
                &&& h.rank == copies[i].rank
            } {
            let i = choose|i: int|
                {
                    &&& 0 <= i < copies.len()
                    &&& (#[trigger] copies[i]).shadowed
                    &&& h.source_label == copies[i].source_label
                    &&& h.source_kind == copies[i].source_kind
                    &&& h.rank == copies[i].rank
                };
            if i < rest.len() {
                assert(rest[i] == copies[i]);
            }
        }
    }
}

/// A module is reported as held by several sources exactly where it is listed more than once.
pub proof fn law_every_collision_is_reported(
    r: ModuleScan,
    sources: Seq<ScannedSource>,
    name: Seq<char>,
)
    requires
        is_scan_of(r, r.server_id, r.scanned_at, sources),
    ensures
        (exists|c: int|
            0 <= c < r.collisions@.len() && (#[trigger] r.collisions@[c]).technical_name@ == name)
            <==> (exists|i: int, j: int|
            0 <= i < j < r.modules@.len() && (#[trigger] r.modules@[i]).technical_name@ == name && (
            #[trigger] r.modules@[j]).technical_name@ == name),
{
    let all = listings(r.modules@);
    let names = text::sorted_set(names_of(all));
    let said = clashes(r.collisions@);
    text::lemma_sorted_set(names_of(all));
    lemma_several(all, name);
    lemma_clashes(all, names, names.len(), clash_of(all, name));
    assert forall|i: int| 0 <= i < all.len() implies #[trigger] all[i] == r.modules@[i]@ by {}
    if exists|c: int|
        0 <= c < r.collisions@.len() && (#[trigger] r.collisions@[c]).technical_name@ == name {
        let c = choose|c: int|
            0 <= c < r.collisions@.len() && (#[trigger] r.collisions@[c]).technical_name@ == name;
        assert(said[c] == r.collisions@[c]@);
        assert(said.contains(said[c]));
        lemma_clashes(all, names, names.len(), said[c]);
        let (i, j) = choose|i: int, j: int|
            0 <= i < j < all.len() && (#[trigger] all[i]).technical_name == name && (
            #[trigger] all[j]).technical_name == name;
        assert(r.modules@[i].technical_name@ == name && r.modules@[j].technical_name@ == name);
    }
    if exists|i: int, j: int|
        0 <= i < j < r.modules@.len() && (#[trigger] r.modules@[i]).technical_name@ == name && (
        #[trigger] r.modules@[j]).technical_name@ == name {
        let (i, j) = choose|i: int, j: int|
            0 <= i < j < r.modules@.len() && (#[trigger] r.modules@[i]).technical_name@ == name && (
            #[trigger] r.modules@[j]).technical_name@ == name;
        assert(all[i].technical_name == name && all[j].technical_name == name);
        assert(names_of(all)[i] == name);
        assert(names_of(all).contains(name));
        assert(names.contains(name));
        let k = choose|k: int| 0 <= k < names.len() && names[k] == name;
        assert(copies_of(all, names[k]).len() > 1);
        assert(said.contains(clash_of(all, name)));
        let c = choose|c: int| 0 <= c < said.len() && said[c] == clash_of(all, name);
        assert(said[c] == r.collisions@[c]@);
        assert(r.collisions@[c].technical_name@ == name);
    }
}

/// What is said of a module that several sources hold: its winner is the copy that is loaded, and
/// the shadowed copies of it are all named, with their source, their kind and their rank.
pub proof fn law_a_collision_names_its_copies(
    r: ModuleScan,
    sources: Seq<ScannedSource>,
    c: int,
    label: Seq<char>,
    kind: SourceKind,
    rank: u32,
)
    requires
        is_scan_of(r, r.server_id, r.scanned_at, sources),
        0 <= c < r.collisions@.len(),
    ensures
        exists|k: int|
            {
                &&& 0 <= k < r.modules@.len()
                &&& (#[trigger] r.modules@[k]).technical_name@ == r.collisions@[c].technical_name@
                &&& !r.modules@[k].shadowed
                &&& r.modules@[k].source_label@ == r.collisions@[c].winner_source_label@
                &&& r.modules@[k].rank == r.collisions@[c].winner_rank
            },
        (exists|h: int|
            {
                &&& 0 <= h < r.collisions@[c].shadowed@.len()
                &&& (#[trigger] r.collisions@[c].shadowed@[h]).source_label@ == label
                &&& r.collisions@[c].shadowed@[h].source_kind == kind
                &&& r.collisions@[c].shadowed@[h].rank == rank
            }) <==> (exists|k: int|
            {
                &&& 0 <= k < r.modules@.len()
                &&& (#[trigger] r.modules@[k]).technical_name@ == r.collisions@[c].technical_name@
                &&& r.modules@[k].shadowed
                &&& r.modules@[k].source_label@ == label
                &&& r.modules@[k].source_kind == kind
                &&& r.modules@[k].rank == rank
            }),
{
    let all = listings(r.modules@);
    let names = text::sorted_set(names_of(all));
    let said = clashes(r.collisions@);
    let name = r.collisions@[c].technical_name@;
    let copies = copies_of(all, name);
    let h = Shadow { source_label: label, source_kind: kind, rank };
    assert(said[c] == r.collisions@[c]@);
    assert(said.contains(said[c]));
    lemma_clashes(all, names, names.len(), said[c]);
    assert(said[c] == clash_of(all, name));
    lemma_several(all, name);
    assert forall|i: int| 0 <= i < all.len() implies #[trigger] all[i] == r.modules@[i]@ by {}
    let first = choose|i: int| 0 <= i < all.len() && (#[trigger] all[i]).technical_name == name;
    law_every_module_has_a_winner(all_listings(sources), first);
    let w = choose|w: int|
        0 <= w < all.len() && (#[trigger] all[w]).technical_name == name && !all[w].shadowed;
    lemma_copies(all, name, all[w]);
    assert(all.contains(all[w]));
    let at = choose|at: int| 0 <= at < copies.len() && copies[at] == all[w];
    assert(!copies[at].shadowed);
    lemma_winner(copies);
    lemma_copies(all, name, winner_among(copies));
    let k = choose|k: int| 0 <= k < all.len() && all[k] == winner_among(copies);
    assert(r.modules@[k].technical_name@ == name);
    lemma_shadows(copies, h);
    let shadowed = said[c].shadowed;
    assert(shadowed =~= r.collisions@[c].shadowed@.map_values(|x: ShadowedCopy| x@));
    if exists|x: int|
        {
            &&& 0 <= x < r.collisions@[c].shadowed@.len()
            &&& (#[trigger] r.collisions@[c].shadowed@[x]).source_label@ == label
            &&& r.collisions@[c].shadowed@[x].source_kind == kind
            &&& r.collisions@[c].shadowed@[x].rank == rank
        } {
        let x = choose|x: int|
            {
                &&& 0 <= x < r.collisions@[c].shadowed@.len()
                &&& (#[trigger] r.collisions@[c].shadowed@[x]).source_label@ == label
                &&& r.collisions@[c].shadowed@[x].source_kind == kind
                &&& r.collisions@[c].shadowed@[x].rank == rank
            };
        assert(shadowed[x] == h);
        let i = choose|i: int|
            {
                &&& 0 <= i < copies.len()
                &&& (#[trigger] copies[i]).shadowed
                &&& h.source_label == copies[i].source_label
                &&& h.source_kind == copies[i].source_kind
                &&& h.rank == copies[i].rank
            };
        lemma_copies(all, name, copies[i]);
        assert(copies.contains(copies[i]));
        let m = choose|m: int| 0 <= m < all.len() && all[m] == copies[i];
        assert(r.modules@[m].technical_name@ == name);
    }
    if exists|m: int|
        {
            &&& 0 <= m < r.modules@.len()
            &&& (#[trigger] r.modules@[m]).technical_name@ == name
            &&& r.modules@[m].shadowed
            &&& r.modules@[m].source_label@ == label
            &&& r.modules@[m].source_kind == kind
            &&& r.modules@[m].rank == rank
        } {
        let m = choose|m: int|
            {
                &&& 0 <= m < r.modules@.len()
                &&& (#[trigger] r.modules@[m]).technical_name@ == name
                &&& r.modules@[m].shadowed
                &&& r.modules@[m].source_label@ == label
                &&& r.modules@[m].source_kind == kind
                &&& r.modules@[m].rank == rank
            };
        assert(all[m] == r.modules@[m]@);
        lemma_copies(all, name, all[m]);
        assert(all.contains(all[m]));
        let i = choose|i: int| 0 <= i < copies.len() && copies[i] == all[m];
        assert(copies[i].shadowed);
        assert(shadowed.contains(h));
        let x = choose|x: int| 0 <= x < shadowed.len() && shadowed[x] == h;
        assert(r.collisions@[c].shadowed@[x]@ == h);
        assert(r.collisions@[c].shadowed@[x].source_label@ == label);
    }
}

/// Whether a loaded copy of a module depends on another module.
pub open spec fn needs(r: ModuleScan, name: Seq<char>, dep: Seq<char>) -> bool {
    exists|k: int|
        0 <= k < r.modules@.len() && (#[trigger] r.modules@[k]).technical_name@ == name
            && !r.modules@[k].shadowed && text::views(r.modules@[k].depends@).contains(dep)
}

proof fn lemma_needs(r: ModuleScan, name: Seq<char>, dep: Seq<char>)
    ensures
        needs(r, name, dep) <==> depends_on(winners_in(listings(r.modules@)), name, dep),
{
    let all = listings(r.modules@);
    let ws = winners_in(all);
    if needs(r, name, dep) {
        let k = choose|k: int|
            0 <= k < r.modules@.len() && (#[trigger] r.modules@[k]).technical_name@ == name
                && !r.modules@[k].shadowed && text::views(r.modules@[k].depends@).contains(dep);
        lemma_winners(all, all[k]);
        assert(all.contains(all[k]));
        let i = choose|i: int| 0 <= i < ws.len() && ws[i] == all[k];
        assert(ws[i].technical_name == name && ws[i].depends.contains(dep));
    }
    if depends_on(ws, name, dep) {
        let i = choose|i: int|
            0 <= i < ws.len() && (#[trigger] ws[i]).technical_name == name
                && ws[i].depends.contains(dep);
        lemma_winners(all, ws[i]);
        assert(ws.contains(ws[i]));
        let k = choose|k: int| 0 <= k < all.len() && all[k] == ws[i];
        assert(r.modules@[k]@ == ws[i]);
        assert(r.modules@[k].technical_name@ == name);
    }
}

/// There is an install order exactly where there is no circle; it holds every loaded module once,
/// and each behind every loaded module that it needs.
pub proof fn law_the_install_order_is_complete(
    r: ModuleScan,
    sources: Seq<ScannedSource>,
    name: Seq<char>,
    dep: Seq<char>,
    p: int,
    q: int,
)
    requires
        is_scan_of(r, r.server_id, r.scanned_at, sources),
    ensures
        r.install_order is Some <==> r.cycle is None,
        r.install_order matches Some(order) ==> {
            &&& text::views(order@).contains(name) <==> loads(r, name)
            &&& 0 <= p < q < order@.len() ==> order@[p]@ != order@[q]@
            &&& 0 <= p < order@.len() && needs(r, order@[p]@, dep) && loads(r, dep)
                ==> text::views(order@).take(p).contains(dep)
        },
{
    let ws = winners_in(listings(r.modules@));
    let names = names_of(ws);
    let table = text::sorted_set(names);
    let numbers = install_numbers(ws);
    lemma_loads(r, name);
    lemma_loads(r, dep);
    text::lemma_sorted_set(names);
    install_order::law_dependencies_come_first(dependencies(ws), table.len());
    if let Some(order) = r.install_order {
        let all = text::views(order@);
        assert(all == install_names(ws));
        if names.contains(name) {
            law_every_module_installs_or_is_stuck(ws, name);
            if stuck_names(ws).contains(name) {
                assert(stuck_names(ws).len() > 0);
            }
        }
        if all.contains(name) {
            let i = choose|i: int| 0 <= i < all.len() && all[i] == name;
            assert(all[i] == table[numbers[i]]);
            assert(table.contains(table[numbers[i]]));
        }
        if 0 <= p < q < order@.len() {
            assert(all[p] == order@[p]@ && all[q] == order@[q]@);
            assert(all[p] == table[numbers[p]] && all[q] == table[numbers[q]]);
            if all[p] == all[q] {
                lemma_table_is_injective(table, numbers[p], numbers[q]);
            }
        }
        if 0 <= p < order@.len() && needs(r, order@[p]@, dep) && loads(r, dep) {
            assert(all[p] == order@[p]@);
            lemma_needs(r, order@[p]@, dep);
            law_modules_install_after_their_dependencies(ws, p, dep);
        }
    }
}

/// What is reported to wait in a circle are loaded modules, each of which needs another of them;
/// and where the modules can be ranked so that each ranks above what it needs, none is reported.
pub proof fn law_a_circle_is_a_circle(
    r: ModuleScan,
    sources: Seq<ScannedSource>,
    p: int,
    height: spec_fn(Seq<char>) -> nat,
)
    requires
        is_scan_of(r, r.server_id, r.scanned_at, sources),
    ensures
        r.cycle matches Some(stuck) ==> {
            &&& stuck@.len() > 0
            &&& 0 <= p < stuck@.len() ==> {
                &&& loads(r, stuck@[p]@)
                &&& exists|q: int|
                    0 <= q < stuck@.len() && needs(r, stuck@[p]@, (#[trigger] stuck@[q])@)
            }
        },
        (forall|a: Seq<char>, b: Seq<char>| #[trigger] needs(r, a, b) ==> height(b) < height(a))
            ==> r.cycle is None,
{
    let ws = winners_in(listings(r.modules@));
    let names = names_of(ws);
    let table = text::sorted_set(names);
    text::lemma_sorted_set(names);
    if let Some(stuck) = r.cycle {
        let all = text::views(stuck@);
        assert(all == stuck_names(ws));
        assert(all.len() == stuck@.len());
        if 0 <= p < stuck@.len() {
            assert(all[p] == stuck@[p]@);
            law_a_stuck_module_waits_for_a_stuck_module(ws, p);
            let q = choose|q: int|
                0 <= q < stuck_names(ws).len() && depends_on(
                    ws,
                    stuck_names(ws)[p],
                    #[trigger] stuck_names(ws)[q],
                );
            assert(all[q] == stuck@[q]@);
            lemma_needs(r, stuck@[p]@, stuck@[q]@);
            lemma_stuck_among(table, install_numbers(ws), table.len());
            assert(has_open_number(table, install_numbers(ws), table.len(), all[p]));
            let i = choose|i: int|
                0 <= i < table.len() && !#[trigger] install_numbers(ws).contains(i) && table[i]
                    == all[p];
            assert(table.contains(table[i]));
            lemma_loads(r, stuck@[p]@);
        }
        if forall|a: Seq<char>, b: Seq<char>| #[trigger] needs(r, a, b) ==> height(b) < height(a) {
            assert forall|a: Seq<char>, b: Seq<char>| #[trigger] depends_on(ws, a, b) implies height(
                b,
            ) < height(a) by {
                lemma_needs(r, a, b);
            }
            law_without_a_circle_nothing_is_stuck(ws, height);
        }
    }
}

/// Whether an error says of a source that its folder could not be read, and why.
pub open spec fn says_unreadable(e: SourceScanError, s: ScannedSource) -> bool {
    &&& s.listing matches Err(why)
    &&& e.source_id == s.source.id
    &&& e.source_label == s.source.label
    &&& e.path_or_url == s.source.path_or_url
    &&& e.message@ == "couldn't read addons directory: "@ + why@
}

proof fn lemma_unreadable(sources: Seq<ScannedSource>, s: ScannedSource)
    ensures
        unreadable_sources(sources).contains(s) <==> sources.contains(s) && s.listing is Err,
    decreases sources.len(),
{
    if sources.len() > 0 {
        let rest = sources.drop_last();
        lemma_unreadable(rest, s);
        assert(sources =~= rest.push(sources.last()));
        vstd::seq_lib::lemma_seq_contains_after_push(rest, sources.last(), s);
        vstd::seq_lib::lemma_seq_contains_after_push(
            unreadable_sources(rest),
            sources.last(),
            s,
        );
    }
}

/// Every source whose folder could not be read is reported, with the reason, and no other is.
pub proof fn law_every_unreadable_source_is_reported(
    r: ModuleScan,
    sources: Seq<ScannedSource>,
    i: int,
)
    requires
        is_scan_of(r, r.server_id, r.scanned_at, sources),
    ensures
        0 <= i < sources.len() && sources[i].listing is Err ==> exists|k: int|
            0 <= k < r.source_errors@.len() && says_unreadable(
                #[trigger] r.source_errors@[k],
                sources[i],
            ),
        0 <= i < r.source_errors@.len() ==> exists|k: int|
            0 <= k < sources.len() && says_unreadable(r.source_errors@[i], #[trigger] sources[k]),
{
    let bad = unreadable_sources(sources);
    if 0 <= i < sources.len() && sources[i].listing is Err {
        lemma_unreadable(sources, sources[i]);
        assert(sources.contains(sources[i]));
        let k = choose|k: int| 0 <= k < bad.len() && bad[k] == sources[i];
        assert(unreadable(r.source_errors@[k], bad[k].source, bad[k].listing->Err_0@));
        assert(says_unreadable(r.source_errors@[k], sources[i]));
    }
    if 0 <= i < r.source_errors@.len() {
        assert(unreadable(r.source_errors@[i], bad[i].source, bad[i].listing->Err_0@));
        lemma_unreadable(sources, bad[i]);
        assert(bad.contains(bad[i]));
        let k = choose|k: int| 0 <= k < sources.len() && sources[k] == bad[i];
        assert(says_unreadable(r.source_errors@[i], sources[k]));
    }
}

/// Whether an issue says of an entry in a source what is wrong with its manifest.
pub open spec fn says_broken(m: ManifestParseIssue, e: FolderEntry, source: AddonsSource) -> bool {
    &&& e.is_dir
    &&& e.technical_name matches Some(own) && m.technical_name@ == own@
    &&& m.source_label@ == source.label@
    &&& match e.manifest {
        Some(file) => m.path@ == file.path@ && manifest::manifest_in(
            file.path@,
            file.contents,
            e.technical_name->0@,
        ) == Err::<Described, Seq<char>>(m.message@),
        None => e.legacy_manifest matches Some(file) && m.path@ == file.path@
            && manifest::manifest_in(file.path@, file.contents, e.technical_name->0@) == Err::<
            Described,
            Seq<char>,
        >(m.message@),
    }
}

/// Whether an entry has a manifest that does not read.
pub open spec fn is_broken(e: FolderEntry) -> bool {
    &&& e.is_dir
    &&& e.technical_name is Some
    &&& e.manifest is Some || e.legacy_manifest is Some
    &&& forall|described: Described| !is_module(e, described)
}

/// What is said of an entry with a manifest that does not read.
pub open spec fn issue_of(e: FolderEntry, label: Seq<char>) -> Issue {
    Issue {
        source_label: label,
        technical_name: e.technical_name->0@,
        path: manifest_file_of(e)->0.path@,
        message: entry_manifest(e)->Err_0,
    }
}

proof fn lemma_issues(entries: Seq<FolderEntry>, label: Seq<char>, m: Issue)
    ensures
        issues_in(entries, label).contains(m) <==> exists|i: int|
            {
                &&& 0 <= i < entries.len()
                &&& manifest_file_of(#[trigger] entries[i]) is Some
                &&& entry_manifest(entries[i]) is Err
                &&& m == issue_of(entries[i], label)
            },
    decreases entries.len(),
{
    if entries.len() > 0 {
        let rest = entries.drop_last();
        let last = entries.last();
        lemma_issues(rest, label, m);
        assert(entries[entries.len() - 1] == last);
        vstd::seq_lib::lemma_seq_contains_after_push(
            issues_in(rest, label),
            issue_of(last, label),
            m,
        );
        if issues_in(rest, label).contains(m) {
            let i = choose|i: int|
                {
                    &&& 0 <= i < rest.len()
                    &&& manifest_file_of(#[trigger] rest[i]) is Some
                    &&& entry_manifest(rest[i]) is Err
                    &&& m == issue_of(rest[i], label)
                };
            assert(entries[i] == rest[i]);
        }
        if exists|i: int|
            {
                &&& 0 <= i < entries.len()
                &&& manifest_file_of(#[trigger] entries[i]) is Some
                &&& entry_manifest(entries[i]) is Err
                &&& m == issue_of(entries[i], label)
            } {
            let i = choose|i: int|
                {
                    &&& 0 <= i < entries.len()
                    &&& manifest_file_of(#[trigger] entries[i]) is Some
                    &&& entry_manifest(entries[i]) is Err
                    &&& m == issue_of(entries[i], label)
                };
            if i < rest.len() {
                assert(rest[i] == entries[i]);
            }
        }
    }
}

spec fn own_issues(s: ScannedSource) -> Seq<Issue> {
    match s.listing {
        Ok(entries) => issues_in(entries@, s.source.label@),
        Err(_) => Seq::empty(),
    }
}

proof fn lemma_all_issues(sources: Seq<ScannedSource>, m: Issue)
    ensures
        all_issues(sources).contains(m) <==> exists|i: int|
            0 <= i < sources.len() && own_issues(#[trigger] sources[i]).contains(m),
    decreases sources.len(),
{
    if sources.len() > 0 {
        let rest = sources.drop_last();
        let last = sources.last();
        lemma_all_issues(rest, m);
        assert(sources[sources.len() - 1] == last);
        vstd::seq_lib::lemma_seq_concat_contains_all_elements(
            all_issues(rest),
            own_issues(last),
            m,
        );
        if all_issues(rest).contains(m) {
            let i = choose|i: int|
                0 <= i < rest.len() && own_issues(#[trigger] rest[i]).contains(m);
            assert(sources[i] == rest[i]);
        }
        if exists|i: int| 0 <= i < sources.len() && own_issues(#[trigger] sources[i]).contains(m) {
            let i = choose|i: int|
                0 <= i < sources.len() && own_issues(#[trigger] sources[i]).contains(m);
            if i < rest.len() {
                assert(rest[i] == sources[i]);
            }
        }
    }
}

/// Every module whose manifest does not read is reported, with what is wrong, and nothing else is.
pub proof fn law_every_broken_manifest_is_reported(
    r: ModuleScan,
    sources: Seq<ScannedSource>,
    i: int,
    e: FolderEntry,
    k: int,
)
    requires
        is_scan_of(r, r.server_id, r.scanned_at, sources),
    ensures
        0 <= i < sources.len() && sources[i].listing is Ok && sources[i].listing->Ok_0@.contains(e)
            && is_broken(e) ==> exists|m: int|
            0 <= m < r.parse_errors@.len() && says_broken(
                #[trigger] r.parse_errors@[m],
                e,
                sources[i].source,
            ),
        0 <= k < r.parse_errors@.len() ==> exists|a: int, other: FolderEntry|
            {
                &&& 0 <= a < sources.len()
                &&& sources[a].listing is Ok
                &&& sources[a].listing->Ok_0@.contains(other)
                &&& #[trigger] says_broken(r.parse_errors@[k], other, sources[a].source)
            },
{
    let said = issues(r.parse_errors@);
    if 0 <= i < sources.len() && sources[i].listing is Ok && sources[i].listing->Ok_0@.contains(e)
        && is_broken(e) {
        let entries = sources[i].listing->Ok_0@;
        let label = sources[i].source.label@;
        let m = issue_of(e, label);
        let p = choose|p: int| 0 <= p < entries.len() && entries[p] == e;
        if entry_manifest(e) is Ok {
            assert(is_module(e, entry_manifest(e)->Ok_0));
        }
        assert(manifest_file_of(entries[p]) is Some && entry_manifest(entries[p]) is Err);
        lemma_issues(entries, label, m);
        assert(own_issues(sources[i]).contains(m));
        lemma_all_issues(sources, m);
        let x = choose|x: int| 0 <= x < said.len() && said[x] == m;
        assert(said[x] == r.parse_errors@[x]@);
        assert(says_broken(r.parse_errors@[x], e, sources[i].source));
    }
    if 0 <= k < r.parse_errors@.len() {
        let m = said[k];
        assert(m == r.parse_errors@[k]@);
        assert(said.contains(m));
        lemma_all_issues(sources, m);
        let a = choose|a: int|
            0 <= a < sources.len() && own_issues(#[trigger] sources[a]).contains(m);
        let entries = sources[a].listing->Ok_0@;
        lemma_issues(entries, sources[a].source.label@, m);
        let p = choose|p: int|
            {
                &&& 0 <= p < entries.len()
                &&& manifest_file_of(#[trigger] entries[p]) is Some
                &&& entry_manifest(entries[p]) is Err
                &&& m == issue_of(entries[p], sources[a].source.label@)
            };
        assert(entries.contains(entries[p]));
        assert(says_broken(r.parse_errors@[k], entries[p], sources[a].source));
    }
}

/// Modules and faults are told of in the order of their folder, each once.
pub proof fn law_a_folder_is_told_of_in_its_order(entries: Seq<FolderEntry>, label: Seq<char>)
    ensures
        finds_in(entries) == entries.filter(
            |e: FolderEntry| manifest_file_of(e) is Some && entry_manifest(e) is Ok,
        ).map_values(|e: FolderEntry| find_of(e)),
        issues_in(entries, label) == entries.filter(
            |e: FolderEntry| manifest_file_of(e) is Some && entry_manifest(e) is Err,
        ).map_values(|e: FolderEntry| issue_of(e, label)),
    decreases entries.len(),
{
    let reads = |e: FolderEntry| manifest_file_of(e) is Some && entry_manifest(e) is Ok;
    let fails = |e: FolderEntry| manifest_file_of(e) is Some && entry_manifest(e) is Err;
    order::lemma_picked(entries, reads, |e: FolderEntry| find_of(e));
    order::lemma_picked(entries, fails, |e: FolderEntry| issue_of(e, label));
    if entries.len() > 0 {
        law_a_folder_is_told_of_in_its_order(entries.drop_last(), label);
    }
}

/// Sources are told of one behind the other, in their order, each once.
pub proof fn law_sources_are_told_of_in_their_order(first: ScannedSource, rest: Seq<ScannedSource>)
    ensures
        all_listings(seq![first] + rest) == source_listings(first) + all_listings(rest),
        all_issues(seq![first] + rest) == all_issues(seq![first]) + all_issues(rest),
        first.listing is Ok ==> all_issues(seq![first]) == issues_in(
            first.listing->Ok_0@,
            first.source.label@,
        ),
        first.listing is Err ==> all_issues(seq![first]).len() == 0,
        unreadable_sources(rest) == rest.filter(|s: ScannedSource| s.listing is Err),
    decreases rest.len(),
{
    reveal(Seq::filter);
    let all = seq![first] + rest;
    let none = Seq::<ScannedSource>::empty();
    assert(seq![first].drop_last() =~= none);
    assert(all_listings(none) =~= Seq::<Listing>::empty());
    assert(all_issues(none) =~= Seq::<Issue>::empty());
    assert(all_issues(seq![first]) =~= own_issues(first));
    if rest.len() > 0 {
        law_sources_are_told_of_in_their_order(first, rest.drop_last());
        assert(all.drop_last() =~= seq![first] + rest.drop_last());
        assert(all.last() == rest.last());
        assert(all_listings(all) =~= source_listings(first) + all_listings(rest));
        assert(all_issues(all) =~= all_issues(seq![first]) + all_issues(rest));
    } else {
        assert(rest =~= none);
        assert(all =~= seq![first]);
        assert(all_listings(all) =~= source_listings(first) + all_listings(rest));
        assert(all_issues(all) =~= all_issues(seq![first]) + all_issues(rest));
        assert(unreadable_sources(rest) =~= rest.filter(|s: ScannedSource| s.listing is Err));
    }
}

/// The loaded copies, the copies of one module and those that are passed over are told of in
/// their order, each once.
pub proof fn law_copies_are_told_of_in_their_order(all: Seq<Listing>, name: Seq<char>)
    ensures
        winners_in(all) == all.filter(|l: Listing| !l.shadowed),
        copies_of(all, name) == all.filter(|l: Listing| l.technical_name == name),
        shadows_among(all) == all.filter(|l: Listing| l.shadowed).map_values(
            |l: Listing|
                Shadow { source_label: l.source_label, source_kind: l.source_kind, rank: l.rank },
        ),
    decreases all.len(),
{
    reveal(Seq::filter);
    let turn = |l: Listing|
        Shadow { source_label: l.source_label, source_kind: l.source_kind, rank: l.rank };
    order::lemma_picked(all, |l: Listing| l.shadowed, turn);
    if all.len() > 0 {
        law_copies_are_told_of_in_their_order(all.drop_last(), name);
    } else {
        assert(winners_in(all) =~= all.filter(|l: Listing| !l.shadowed));
        assert(copies_of(all, name) =~= all.filter(|l: Listing| l.technical_name == name));
    }
}

/// Missing dependencies are told of module by module, each in the order in which the module names
/// them, and as often as it does.
pub proof fn law_missing_dependencies_keep_their_order(
    l: Listing,
    names: Seq<Seq<char>>,
    k: nat,
    rest: Seq<Listing>,
)
    requires
        k <= l.depends.len(),
    ensures
        missing_of(l, names, k) == l.depends.take(k as int).filter(
            |d: Seq<char>| !names.contains(d),
        ).map_values(|d: Seq<char>| (l.technical_name, d)),
        missing_in(seq![l] + rest, names) == missing_of(l, names, l.depends.len()) + missing_in(
            rest,
            names,
        ),
    decreases k + rest.len(),
{
    let pick = |d: Seq<char>| !names.contains(d);
    let turn = |d: Seq<char>| (l.technical_name, d);
    let taken = l.depends.take(k as int);
    order::lemma_picked(taken, pick, turn);
    if k > 0 {
        law_missing_dependencies_keep_their_order(l, names, (k - 1) as nat, rest);
        assert(taken.drop_last() =~= l.depends.take(k - 1));
        assert(taken.last() == l.depends[k - 1]);
    } else {
        assert(taken =~= Seq::<Seq<char>>::empty());
    }
    let all = seq![l] + rest;
    let none = Seq::<Listing>::empty();
    if rest.len() > 0 {
        law_missing_dependencies_keep_their_order(l, names, k, rest.drop_last());
        assert(all.drop_last() =~= seq![l] + rest.drop_last());
        assert(all.last() == rest.last());
        assert(missing_in(all, names) =~= missing_of(l, names, l.depends.len()) + missing_in(
            rest,
            names,
        ));
    } else {
        assert(all.drop_last() =~= none);
        assert(rest =~= none);
        assert(missing_in(none, names) =~= Seq::<(Seq<char>, Seq<char>)>::empty());
        assert(missing_in(all, names) =~= missing_of(l, names, l.depends.len()) + missing_in(
            rest,
            names,
        ));
    }
}

/// Every name with more than one copy is one collision, in the order of the names.
pub proof fn law_collisions_are_told_of_by_name(all: Seq<Listing>, names: Seq<Seq<char>>, k: nat)
    requires
        k <= names.len(),
    ensures
        clashes_among(all, names, k) == names.take(k as int).filter(
            |n: Seq<char>| copies_of(all, n).len() > 1,
        ).map_values(|n: Seq<char>| clash_of(all, n)),
    decreases k,
{
    let pick = |n: Seq<char>| copies_of(all, n).len() > 1;
    let turn = |n: Seq<char>| clash_of(all, n);
    let taken = names.take(k as int);
    order::lemma_picked(taken, pick, turn);
    if k > 0 {
        law_collisions_are_told_of_by_name(all, names, (k - 1) as nat);
        assert(taken.drop_last() =~= names.take(k - 1));
        assert(taken.last() == names[k - 1]);
    } else {
        assert(taken =~= Seq::<Seq<char>>::empty());
    }
}

/// A scan lists modules by name, and the copies of one module by rank; it lists as many as the
/// sources hold.
pub proof fn law_a_scan_is_sorted(r: ModuleScan, sources: Seq<ScannedSource>, i: int, j: int)
    requires
        is_scan_of(r, r.server_id, r.scanned_at, sources),
    ensures
        r.modules@.len() == all_listings(sources).len(),
        0 <= i < j < r.modules@.len() ==> {
            let a = r.modules@[i];
            let b = r.modules@[j];
            &&& !text::text_less(b.technical_name@, a.technical_name@)
            &&& a.technical_name@ == b.technical_name@ ==> a.rank <= b.rank
        },
{
    let all = resolved(all_listings(sources));
    lemma_sorted_listings(settled_listings(all_listings(sources)));
    assert(listings(r.modules@).len() == r.modules@.len());
    if 0 <= i < j < r.modules@.len() {
        assert(listings(r.modules@)[i] == r.modules@[i]@);
        assert(listings(r.modules@)[j] == r.modules@[j]@);
        assert(!listed_before(all[j], all[i]));
        text::lemma_text_less_total(all[i].technical_name, all[j].technical_name);
    }
}

} // verus!
