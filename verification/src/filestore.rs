//! Copies of a database's files: what is created, linked or copied, and in which order.

use crate::paths;
use crate::text;
use vstd::prelude::*;
use vstd::string::*;

verus! {

/// Why a copy cannot be made.
#[derive(Debug)]
pub enum FilestoreError {
    SourceNotFound(String),
    DestinationExists(String),
    Io { path: String, source: String },
}

/// What is shown of an error.
pub open spec fn filestore_error_text(e: FilestoreError) -> Seq<char> {
    match e {
        FilestoreError::SourceNotFound(path) => "source directory "@ + text::quoted_debug(path@)
            + " does not exist or is not a directory"@,
        FilestoreError::DestinationExists(path) => "destination "@ + text::quoted_debug(path@)
            + " already exists"@,
        FilestoreError::Io { path, source } => "io error at "@ + text::quoted_debug(path@) + ": "@
            + source@,
    }
}

impl FilestoreError {
    /// What is shown of the error.
    pub fn message(&self) -> (r: String)
        ensures
            r@ == filestore_error_text(*self),
    {
        match self {
            FilestoreError::SourceNotFound(path) => {
                let mut out = text::joined(
                    "source directory ",
                    text::debug_quoted(path.as_str()).as_str(),
                );
                out.append(" does not exist or is not a directory");
                out
            },
            FilestoreError::DestinationExists(path) => {
                let mut out = text::joined(
                    "destination ",
                    text::debug_quoted(path.as_str()).as_str(),
                );
                out.append(" already exists");
                out
            },
            FilestoreError::Io { path, source } => {
                let mut out = text::joined(
                    "io error at ",
                    text::debug_quoted(path.as_str()).as_str(),
                );
                out.append(": ");
                out.append(source.as_str());
                out
            },
        }
    }
}

/// How many files, folders and links a copy made.
#[derive(Debug, Clone, Copy, PartialEq, Eq, Structural)]
pub struct SnapshotStats {
    pub files_linked: u64,
    pub dirs_created: u64,
    pub symlinks_recreated: u64,
}

/// An entry of a folder.
#[derive(Debug)]
pub enum StoreItem {
    File { name: String },
    Link { name: String },
    Folder { name: String, items: Vec<StoreItem> },
}

/// How files are carried over.
#[derive(Debug, Clone, Copy, PartialEq, Eq, Structural)]
pub enum FileMode {
    Hardlink,
    Copy,
}

/// One thing to do.
#[derive(Debug)]
pub enum CopyStep {
    CreateDir { path: String },
    Carry { from: String, to: String, mode: FileMode },
    RecreateLink { from: String, to: String },
}

/// What a step does.
pub enum Step {
    CreateDir(Seq<char>),
    Carry(Seq<char>, Seq<char>, FileMode),
    RecreateLink(Seq<char>, Seq<char>),
}

impl View for CopyStep {
    type V = Step;

    open spec fn view(&self) -> Step {
        match *self {
            CopyStep::CreateDir { path } => Step::CreateDir(path@),
            CopyStep::Carry { from, to, mode } => Step::Carry(from@, to@, mode),
            CopyStep::RecreateLink { from, to } => Step::RecreateLink(from@, to@),
        }
    }
}

/// What the steps do.
pub open spec fn steps(v: Seq<CopyStep>) -> Seq<Step> {
    v.map_values(|s: CopyStep| s@)
}

/// What has to be done to copy a folder with the given entries from `source` to `dest`: the
/// folder first, then its entries in their order.
pub open spec fn steps_for(
    items: Seq<StoreItem>,
    source: Seq<char>,
    dest: Seq<char>,
    mode: FileMode,
) -> Seq<Step> {
    seq![Step::CreateDir(dest)] + item_steps(items, source, dest, mode)
}

/// What has to be done for the entries.
pub open spec fn item_steps(
    items: Seq<StoreItem>,
    source: Seq<char>,
    dest: Seq<char>,
    mode: FileMode,
) -> Seq<Step>
    decreases items, 0nat,
{
    if items.len() == 0 {
        Seq::empty()
    } else {
        item_steps(items.subrange(0, items.len() - 1), source, dest, mode) + one_item(
            items[items.len() - 1],
            source,
            dest,
            mode,
        )
    }
}

/// What has to be done for one entry.
pub open spec fn one_item(
    item: StoreItem,
    source: Seq<char>,
    dest: Seq<char>,
    mode: FileMode,
) -> Seq<Step>
    decreases item, 0nat,
{
    match item {
        StoreItem::File { name } => seq![
            Step::Carry(paths::under(source, name@), paths::under(dest, name@), mode),
        ],
        StoreItem::Link { name } => seq![
            Step::RecreateLink(paths::under(source, name@), paths::under(dest, name@)),
        ],
        StoreItem::Folder { name, items } => seq![Step::CreateDir(paths::under(dest, name@))]
            + item_steps(
            items@,
            paths::under(source, name@),
            paths::under(dest, name@),
            mode,
        ),
    }
}

/// Of some steps, how many carry a file, create a folder and recreate a link.
pub open spec fn tally(s: Seq<Step>) -> (nat, nat, nat)
    decreases s.len(),
{
    if s.len() == 0 {
        (0, 0, 0)
    } else {
        let (f, d, l) = tally(s.drop_last());
        match s.last() {
            Step::Carry(_, _, _) => (f + 1, d, l),
            Step::CreateDir(_) => (f, d + 1, l),
            Step::RecreateLink(_, _) => (f, d, l + 1),
        }
    }
}

/// How many files, folders and links some entries hold, all levels together.
pub open spec fn census(items: Seq<StoreItem>) -> (nat, nat, nat)
    decreases items, 0nat,
{
    if items.len() == 0 {
        (0, 0, 0)
    } else {
        let (f, d, l) = census(items.subrange(0, items.len() - 1));
        let (f1, d1, l1) = census_one(items[items.len() - 1]);
        (f + f1, d + d1, l + l1)
    }
}

/// How many files, folders and links an entry is.
pub open spec fn census_one(item: StoreItem) -> (nat, nat, nat)
    decreases item, 0nat,
{
    match item {
        StoreItem::File { .. } => (1, 0, 0),
        StoreItem::Link { .. } => (0, 0, 1),
        StoreItem::Folder { items, .. } => {
            let (f, d, l) = census(items@);
            (f, d + 1, l)
        },
    }
}

proof fn lemma_tally_adds(a: Seq<Step>, b: Seq<Step>)
    ensures
        tally(a + b).0 == tally(a).0 + tally(b).0,
        tally(a + b).1 == tally(a).1 + tally(b).1,
        tally(a + b).2 == tally(a).2 + tally(b).2,
    decreases b.len(),
{
    if b.len() == 0 {
        assert(a + b =~= a);
    } else {
        assert((a + b).drop_last() =~= a + b.drop_last());
        lemma_tally_adds(a, b.drop_last());
    }
}

proof fn lemma_tally_one(s: Step)
    ensures
        tally(seq![s]) == (match s {
            Step::Carry(_, _, _) => (1nat, 0nat, 0nat),
            Step::CreateDir(_) => (0nat, 1nat, 0nat),
            Step::RecreateLink(_, _) => (0nat, 0nat, 1nat),
        }),
{
    reveal_with_fuel(tally, 2);
    assert(seq![s].drop_last() =~= Seq::<Step>::empty());
    assert(seq![s].last() == s);
}

proof fn lemma_items_complete(
    items: Seq<StoreItem>,
    source: Seq<char>,
    dest: Seq<char>,
    mode: FileMode,
)
    ensures
        tally(item_steps(items, source, dest, mode)) == census(items),
    decreases items, 0nat,
{
    if items.len() > 0 {
        let before = items.subrange(0, items.len() - 1);
        let last = items[items.len() - 1];
        lemma_items_complete(before, source, dest, mode);
        lemma_tally_adds(
            item_steps(before, source, dest, mode),
            one_item(last, source, dest, mode),
        );
        lemma_item_complete(last, source, dest, mode);
    }
}

proof fn lemma_item_complete(item: StoreItem, source: Seq<char>, dest: Seq<char>, mode: FileMode)
    ensures
        tally(one_item(item, source, dest, mode)) == census_one(item),
    decreases item, 0nat,
{
    match item {
        StoreItem::File { name } => {
            lemma_tally_one(Step::Carry(paths::under(source, name@), paths::under(dest, name@), mode));
        },
        StoreItem::Link { name } => {
            lemma_tally_one(Step::RecreateLink(paths::under(source, name@), paths::under(dest, name@)));
        },
        StoreItem::Folder { name, items } => {
            let made = Step::CreateDir(paths::under(dest, name@));
            let s = paths::under(source, name@);
            let d = paths::under(dest, name@);
            lemma_tally_one(made);
            lemma_items_complete(items@, s, d, mode);
            lemma_tally_adds(seq![made], item_steps(items@, s, d, mode));
        },
    }
}

/// A copy is complete: it carries as many files, makes as many folders (and the copy's own) and
/// recreates as many links as there are, however deep they are.
pub proof fn law_nothing_is_left_out(
    items: Seq<StoreItem>,
    source: Seq<char>,
    dest: Seq<char>,
    mode: FileMode,
)
    ensures
        tally(steps_for(items, source, dest, mode)).0 == census(items).0,
        tally(steps_for(items, source, dest, mode)).1 == census(items).1 + 1,
        tally(steps_for(items, source, dest, mode)).2 == census(items).2,
{
    lemma_tally_one(Step::CreateDir(dest));
    lemma_items_complete(items, source, dest, mode);
    lemma_tally_adds(seq![Step::CreateDir(dest)], item_steps(items, source, dest, mode));
}

/// The path that leads from `base` down through the names.
pub open spec fn down(base: Seq<char>, names: Seq<Seq<char>>) -> Seq<char>
    decreases names.len(),
{
    if names.len() == 0 {
        base
    } else {
        paths::under(down(base, names.drop_last()), names.last())
    }
}

/// Whether two steps do the same for the same place, one in `first` with links and the other in
/// `second` with copies.
pub open spec fn are_twins(a: Step, first: Seq<char>, b: Step, second: Seq<char>) -> bool {
    exists|names: Seq<Seq<char>>| #[trigger] twins_at(a, first, b, second, names)
}

/// Whether two steps do the same for the place that the names lead to.
pub open spec fn twins_at(
    a: Step,
    first: Seq<char>,
    b: Step,
    second: Seq<char>,
    names: Seq<Seq<char>>,
) -> bool {
    match (a, b) {
        (Step::CreateDir(p), Step::CreateDir(q)) => p == down(first, names) && q == down(
            second,
            names,
        ),
        (Step::Carry(from, p, m), Step::Carry(source, q, n)) => {
            &&& from == source
            &&& p == down(first, names)
            &&& q == down(second, names)
            &&& m == FileMode::Hardlink
            &&& n == FileMode::Copy
        },
        (Step::RecreateLink(from, p), Step::RecreateLink(source, q)) => {
            &&& from == source
            &&& p == down(first, names)
            &&& q == down(second, names)
        },
        _ => false,
    }
}

/// Whether steps are twins, one by one.
pub open spec fn all_twins(
    a: Seq<Step>,
    first: Seq<char>,
    b: Seq<Step>,
    second: Seq<char>,
) -> bool {
    &&& a.len() == b.len()
    &&& forall|i: int|
        0 <= i < a.len() ==> #[trigger] are_twins(a[i], first, b[i], second)
}

proof fn lemma_twins_add(
    a: Seq<Step>,
    more_a: Seq<Step>,
    first: Seq<char>,
    b: Seq<Step>,
    more_b: Seq<Step>,
    second: Seq<char>,
)
    requires
        all_twins(a, first, b, second),
        all_twins(more_a, first, more_b, second),
    ensures
        all_twins(a + more_a, first, b + more_b, second),
{
    let x = a + more_a;
    let y = b + more_b;
    assert forall|i: int| 0 <= i < x.len() implies #[trigger] are_twins(
        x[i],
        first,
        y[i],
        second,
    ) by {
        if i < a.len() {
            assert(are_twins(a[i], first, b[i], second));
        } else {
            assert(are_twins(more_a[i - a.len()], first, more_b[i - a.len()], second));
        }
    }
}

proof fn lemma_one_twin(
    a: Step,
    first: Seq<char>,
    b: Step,
    second: Seq<char>,
    names: Seq<Seq<char>>,
)
    requires
        twins_at(a, first, b, second, names),
    ensures
        all_twins(seq![a], first, seq![b], second),
{
    assert(are_twins(a, first, b, second));
}

proof fn lemma_items_are_twins(
    items: Seq<StoreItem>,
    source: Seq<char>,
    first: Seq<char>,
    second: Seq<char>,
    names: Seq<Seq<char>>,
)
    ensures
        all_twins(
            item_steps(items, source, down(first, names), FileMode::Hardlink),
            first,
            item_steps(items, source, down(second, names), FileMode::Copy),
            second,
        ),
    decreases items, 0nat,
{
    if items.len() > 0 {
        let before = items.subrange(0, items.len() - 1);
        let last = items[items.len() - 1];
        let p = down(first, names);
        let q = down(second, names);
        lemma_items_are_twins(before, source, first, second, names);
        lemma_item_is_twin(last, source, first, second, names);
        lemma_twins_add(
            item_steps(before, source, p, FileMode::Hardlink),
            one_item(last, source, p, FileMode::Hardlink),
            first,
            item_steps(before, source, q, FileMode::Copy),
            one_item(last, source, q, FileMode::Copy),
            second,
        );
    }
}

proof fn lemma_item_is_twin(
    item: StoreItem,
    source: Seq<char>,
    first: Seq<char>,
    second: Seq<char>,
    names: Seq<Seq<char>>,
)
    ensures
        all_twins(
            one_item(item, source, down(first, names), FileMode::Hardlink),
            first,
            one_item(item, source, down(second, names), FileMode::Copy),
            second,
        ),
    decreases item, 0nat,
{
    let p = down(first, names);
    let q = down(second, names);
    match item {
        StoreItem::File { name } => {
            let deeper = names.push(name@);
            assert(deeper.drop_last() =~= names);
            let from = paths::under(source, name@);
            lemma_one_twin(
                Step::Carry(from, paths::under(p, name@), FileMode::Hardlink),
                first,
                Step::Carry(from, paths::under(q, name@), FileMode::Copy),
                second,
                deeper,
            );
        },
        StoreItem::Link { name } => {
            let deeper = names.push(name@);
            assert(deeper.drop_last() =~= names);
            let from = paths::under(source, name@);
            lemma_one_twin(
                Step::RecreateLink(from, paths::under(p, name@)),
                first,
                Step::RecreateLink(from, paths::under(q, name@)),
                second,
                deeper,
            );
        },
        StoreItem::Folder { name, items } => {
            let deeper = names.push(name@);
            assert(deeper.drop_last() =~= names);
            let from = paths::under(source, name@);
            let made_a = Step::CreateDir(paths::under(p, name@));
            let made_b = Step::CreateDir(paths::under(q, name@));
            lemma_one_twin(made_a, first, made_b, second, deeper);
            lemma_items_are_twins(items@, from, first, second, deeper);
            lemma_twins_add(
                seq![made_a],
                item_steps(items@, from, paths::under(p, name@), FileMode::Hardlink),
                first,
                seq![made_b],
                item_steps(items@, from, paths::under(q, name@), FileMode::Copy),
                second,
            );
        },
    }
}

/// A snapshot and a copy of a folder hold the same: step by step they make the same folders, take
/// the same files and recreate the same links, at the same places, and they count the same. They
/// differ in that a snapshot links every file and a copy copies it.
pub proof fn law_a_copy_holds_what_a_snapshot_holds(
    snapshot: CopyPlan,
    copy: CopyPlan,
    items: Seq<StoreItem>,
    source: Seq<char>,
    first: Seq<char>,
    second: Seq<char>,
)
    requires
        copies(snapshot, items, source, first, FileMode::Hardlink),
        copies(copy, items, source, second, FileMode::Copy),
    ensures
        snapshot.stats == copy.stats,
        all_twins(steps(snapshot.steps@), first, steps(copy.steps@), second),
{
    law_nothing_is_left_out(items, source, first, FileMode::Hardlink);
    law_nothing_is_left_out(items, source, second, FileMode::Copy);
    let none = Seq::<Seq<char>>::empty();
    assert(twins_at(Step::CreateDir(first), first, Step::CreateDir(second), second, none));
    lemma_one_twin(Step::CreateDir(first), first, Step::CreateDir(second), second, none);
    lemma_items_are_twins(items, source, first, second, none);
    lemma_twins_add(
        seq![Step::CreateDir(first)],
        item_steps(items, source, first, FileMode::Hardlink),
        first,
        seq![Step::CreateDir(second)],
        item_steps(items, source, second, FileMode::Copy),
        second,
    );
}

fn plan_items(
    items: &Vec<StoreItem>,
    source: &str,
    dest: &str,
    mode: FileMode,
    into: &mut Vec<CopyStep>,
)
    ensures
        steps(final(into)@) == steps(old(into)@) + item_steps(items@, source@, dest@, mode),
    decreases items,
{
    let ghost start = steps(into@);
    let mut i: usize = 0;
    assert(start + item_steps(items@.take(0), source@, dest@, mode) =~= start);
    while i < items.len()
        invariant
            i <= items@.len(),
            steps(into@) == start + item_steps(items@.take(i as int), source@, dest@, mode),
        decreases items@.len() - i,
    {
        let ghost before = steps(into@);
        let ghost upto = items@.take(i + 1);
        proof {
            assert(upto.subrange(0, upto.len() - 1) =~= items@.take(i as int));
            assert(upto[upto.len() - 1] == items@[i as int]);
        }
        match &items[i] {
            StoreItem::File { name } => {
                let step = CopyStep::Carry {
                    from: paths::join(source, name.as_str()),
                    to: paths::join(dest, name.as_str()),
                    mode,
                };
                into.push(step);
                assert(steps(into@) =~= before + seq![step@]);
            },
            StoreItem::Link { name } => {
                let step = CopyStep::RecreateLink {
                    from: paths::join(source, name.as_str()),
                    to: paths::join(dest, name.as_str()),
                };
                into.push(step);
                assert(steps(into@) =~= before + seq![step@]);
            },
            StoreItem::Folder { name, items: inner } => {
                let from = paths::join(source, name.as_str());
                let to = paths::join(dest, name.as_str());
                let step = CopyStep::CreateDir { path: to.clone() };
                into.push(step);
                assert(steps(into@) =~= before + seq![step@]);
                assert(decreases_to!(items => items@[i as int]->Folder_items));
                plan_items(inner, from.as_str(), to.as_str(), mode, into);
                assert(steps(into@) =~= before + one_item(items@[i as int], source@, dest@, mode));
            },
        }
        assert(steps(into@) =~= start + item_steps(upto, source@, dest@, mode));
        i = i + 1;
    }
    assert(items@.take(i as int) =~= items@);
}

/// What a copy will do, and what it will have made.
#[derive(Debug)]
pub struct CopyPlan {
    pub steps: Vec<CopyStep>,
    pub stats: SnapshotStats,
}

/// Whether `plan` copies a folder completely.
pub open spec fn copies(
    plan: CopyPlan,
    items: Seq<StoreItem>,
    source: Seq<char>,
    dest: Seq<char>,
    mode: FileMode,
) -> bool {
    let all = steps_for(items, source, dest, mode);
    &&& steps(plan.steps@) == all
    &&& plan.stats.files_linked == tally(all).0
    &&& plan.stats.dirs_created == tally(all).1
    &&& plan.stats.symlinks_recreated == tally(all).2
}

/// What the plan for a copy comes to: the source has to be a folder, and nothing may be at the
/// destination yet.
pub open spec fn plan_is(
    r: Result<CopyPlan, FilestoreError>,
    source: Seq<char>,
    entries: Option<Vec<StoreItem>>,
    dest: Seq<char>,
    dest_exists: bool,
    mode: FileMode,
) -> bool {
    match entries {
        None => r matches Err(FilestoreError::SourceNotFound(p)) && p@ == source,
        Some(items) => if dest_exists {
            r matches Err(FilestoreError::DestinationExists(p)) && p@ == dest
        } else {
            r matches Ok(plan) && copies(plan, items@, source, dest, mode)
        },
    }
}

/// Plans a copy. `entries` are what the source folder holds, where it is a folder.
fn plan_copy(
    source: &str,
    entries: &Option<Vec<StoreItem>>,
    dest: &str,
    dest_exists: bool,
    mode: FileMode,
) -> (r: Result<CopyPlan, FilestoreError>)
    ensures
        plan_is(r, source@, *entries, dest@, dest_exists, mode),
{
    let items = match entries {
        Some(items) => items,
        None => {
            return Err(FilestoreError::SourceNotFound(source.to_owned()));
        },
    };
    if dest_exists {
        return Err(FilestoreError::DestinationExists(dest.to_owned()));
    }
    let mut planned: Vec<CopyStep> = Vec::new();
    planned.push(CopyStep::CreateDir { path: dest.to_owned() });
    assert(steps(planned@) =~= seq![Step::CreateDir(dest@)]);
    plan_items(items, source, dest, mode, &mut planned);
    let ghost all = steps(planned@);
    let mut stats = SnapshotStats { files_linked: 0, dirs_created: 0, symlinks_recreated: 0 };
    let mut i: usize = 0;
    assert(all.take(0) =~= Seq::<Step>::empty());
    while i < planned.len()
        invariant
            i <= planned@.len(),
            all == steps(planned@),
            stats.files_linked == tally(all.take(i as int)).0,
            stats.dirs_created == tally(all.take(i as int)).1,
            stats.symlinks_recreated == tally(all.take(i as int)).2,
            stats.files_linked <= i,
            stats.dirs_created <= i,
            stats.symlinks_recreated <= i,
        decreases planned@.len() - i,
    {
        proof {
            assert(all.take(i + 1).drop_last() =~= all.take(i as int));
            assert(all.take(i + 1).last() == planned@[i as int]@);
        }
        match &planned[i] {
            CopyStep::Carry { .. } => {
                stats.files_linked = stats.files_linked + 1;
            },
            CopyStep::CreateDir { .. } => {
                stats.dirs_created = stats.dirs_created + 1;
            },
            CopyStep::RecreateLink { .. } => {
                stats.symlinks_recreated = stats.symlinks_recreated + 1;
            },
        }
        i = i + 1;
    }
    assert(all.take(i as int) =~= all);
    Ok(CopyPlan { steps: planned, stats })
}

/// Plans a snapshot of a folder: its files are linked, which costs no space.
pub fn snapshot_directory(
    source: &str,
    entries: &Option<Vec<StoreItem>>,
    dest: &str,
    dest_exists: bool,
) -> (r: Result<CopyPlan, FilestoreError>)
    ensures
        plan_is(r, source@, *entries, dest@, dest_exists, FileMode::Hardlink),
{
    plan_copy(source, entries, dest, dest_exists, FileMode::Hardlink)
}

/// Plans a copy of a folder that shares nothing with it.
pub fn copy_directory(
    source: &str,
    entries: &Option<Vec<StoreItem>>,
    dest: &str,
    dest_exists: bool,
) -> (r: Result<CopyPlan, FilestoreError>)
    ensures
        plan_is(r, source@, *entries, dest@, dest_exists, FileMode::Copy),
{
    plan_copy(source, entries, dest, dest_exists, FileMode::Copy)
}

/// Whether something lies at the end of a way through folders.
pub open spec fn lies_at(items: Seq<StoreItem>, names: Seq<Seq<char>>, end: spec_fn(StoreItem) -> bool) -> bool
    decreases names.len(),
{
    if names.len() == 0 {
        false
    } else if names.len() == 1 {
        exists|i: int| 0 <= i < items.len() && name_of(#[trigger] items[i]) == names[0] && end(items[i])
    } else {
        exists|i: int|
            {
                &&& 0 <= i < items.len()
                &&& #[trigger] items[i] is Folder
                &&& name_of(items[i]) == names[0]
                &&& lies_at(items[i]->Folder_items@, names.drop_first(), end)
            }
    }
}

/// What an item is called.
pub open spec fn name_of(item: StoreItem) -> Seq<char> {
    match item {
        StoreItem::File { name } => name@,
        StoreItem::Link { name } => name@,
        StoreItem::Folder { name, items } => name@,
    }
}

proof fn lemma_down(base: Seq<char>, names: Seq<Seq<char>>)
    requires
        names.len() > 0,
    ensures
        down(base, names) == down(paths::under(base, names[0]), names.drop_first()),
    decreases names.len(),
{
    let rest = names.drop_first();
    if names.len() == 1 {
        assert(down(base, names.drop_last()) == base);
        assert(down(paths::under(base, names[0]), rest) == paths::under(base, names[0]));
    } else {
        lemma_down(base, names.drop_last());
        assert(names.drop_last().drop_first() =~= rest.drop_last());
        assert(rest.last() == names.last());
    }
}

/// Whether a step carries, links or creates what lies at the end of a way.
pub open spec fn step_at(
    step: Step,
    items: Seq<StoreItem>,
    source: Seq<char>,
    dest: Seq<char>,
    mode: FileMode,
    names: Seq<Seq<char>>,
) -> bool {
    match step {
        Step::Carry(from, to, m) => {
            &&& from == down(source, names)
            &&& to == down(dest, names)
            &&& m == mode
            &&& lies_at(items, names, |i: StoreItem| i is File)
        },
        Step::RecreateLink(from, to) => {
            &&& from == down(source, names)
            &&& to == down(dest, names)
            &&& lies_at(items, names, |i: StoreItem| i is Link)
        },
        Step::CreateDir(path) => path == down(dest, names) && lies_at(
            items,
            names,
            |i: StoreItem| i is Folder,
        ),
    }
}

proof fn lemma_item_is_there(
    items: Seq<StoreItem>,
    source: Seq<char>,
    dest: Seq<char>,
    mode: FileMode,
    k: int,
    step: Step,
)
    requires
        0 <= k < items.len(),
        one_item(items[k], source, dest, mode).contains(step),
    ensures
        item_steps(items, source, dest, mode).contains(step),
    decreases items.len(),
{
    let rest = items.subrange(0, items.len() - 1);
    let before = item_steps(rest, source, dest, mode);
    let last = one_item(items[items.len() - 1], source, dest, mode);
    if k < rest.len() {
        assert(rest[k] == items[k]);
        lemma_item_is_there(rest, source, dest, mode, k, step);
    }
    vstd::seq_lib::lemma_seq_concat_contains_all_elements(before, last, step);
}

proof fn lemma_step_is_of_an_item(
    items: Seq<StoreItem>,
    source: Seq<char>,
    dest: Seq<char>,
    mode: FileMode,
    step: Step,
) -> (k: int)
    requires
        item_steps(items, source, dest, mode).contains(step),
    ensures
        0 <= k < items.len(),
        one_item(items[k], source, dest, mode).contains(step),
    decreases items.len(),
{
    let rest = items.subrange(0, items.len() - 1);
    let before = item_steps(rest, source, dest, mode);
    let last = one_item(items[items.len() - 1], source, dest, mode);
    vstd::seq_lib::lemma_seq_concat_contains_all_elements(before, last, step);
    if last.contains(step) {
        items.len() - 1
    } else {
        let k = lemma_step_is_of_an_item(rest, source, dest, mode, step);
        assert(rest[k] == items[k]);
        k
    }
}

/// Every file, link and folder is carried to its own place: along the same folders, under the same
/// name.
pub proof fn law_everything_goes_to_its_own_place(
    items: Seq<StoreItem>,
    source: Seq<char>,
    dest: Seq<char>,
    mode: FileMode,
    names: Seq<Seq<char>>,
)
    ensures
        lies_at(items, names, |i: StoreItem| i is File) ==> item_steps(items, source, dest, mode).contains(
            Step::Carry(down(source, names), down(dest, names), mode),
        ),
        lies_at(items, names, |i: StoreItem| i is Link) ==> item_steps(items, source, dest, mode).contains(
            Step::RecreateLink(down(source, names), down(dest, names)),
        ),
        lies_at(items, names, |i: StoreItem| i is Folder) ==> item_steps(
            items,
            source,
            dest,
            mode,
        ).contains(Step::CreateDir(down(dest, names))),
    decreases names.len(),
{
    let ends = seq![
        |i: StoreItem| i is File,
        |i: StoreItem| i is Link,
        |i: StoreItem| i is Folder,
    ];
    let made = seq![
        Step::Carry(down(source, names), down(dest, names), mode),
        Step::RecreateLink(down(source, names), down(dest, names)),
        Step::CreateDir(down(dest, names)),
    ];
    assert forall|e: int| 0 <= e < 3 && lies_at(items, names, #[trigger] ends[e]) implies item_steps(
        items,
        source,
        dest,
        mode,
    ).contains(made[e]) by {
        lemma_down(source, names);
        lemma_down(dest, names);
        if names.len() == 1 {
            let k = choose|k: int|
                0 <= k < items.len() && name_of(#[trigger] items[k]) == names[0] && ends[e](
                    items[k],
                );
            assert(names.drop_first() =~= Seq::<Seq<char>>::empty());
            assert(one_item(items[k], source, dest, mode)[0] == made[e]);
            lemma_item_is_there(items, source, dest, mode, k, made[e]);
        } else {
            let k = choose|k: int|
                {
                    &&& 0 <= k < items.len()
                    &&& #[trigger] items[k] is Folder
                    &&& name_of(items[k]) == names[0]
                    &&& lies_at(items[k]->Folder_items@, names.drop_first(), ends[e])
                };
            let below = items[k]->Folder_items@;
            let from = paths::under(source, names[0]);
            let to = paths::under(dest, names[0]);
            law_everything_goes_to_its_own_place(below, from, to, mode, names.drop_first());
            assert(item_steps(below, from, to, mode).contains(made[e]));
            vstd::seq_lib::lemma_seq_concat_contains_all_elements(
                seq![Step::CreateDir(to)],
                item_steps(below, from, to, mode),
                made[e],
            );
            lemma_item_is_there(items, source, dest, mode, k, made[e]);
        }
    }
    assert(ends[0] == |i: StoreItem| i is File);
    assert(ends[1] == |i: StoreItem| i is Link);
    assert(ends[2] == |i: StoreItem| i is Folder);
    assert(made[0] == Step::Carry(down(source, names), down(dest, names), mode));
}

/// Nothing is made that was not there: every step but the first carries, links or creates what
/// lies at the same place in the source.
pub proof fn law_nothing_is_made_up(
    items: Seq<StoreItem>,
    source: Seq<char>,
    dest: Seq<char>,
    mode: FileMode,
    step: Step,
) -> (names: Seq<Seq<char>>)
    requires
        item_steps(items, source, dest, mode).contains(step),
    ensures
        step_at(step, items, source, dest, mode, names),
    decreases items,
{
    let k = lemma_step_is_of_an_item(items, source, dest, mode, step);
    let own = one_item(items[k], source, dest, mode);
    let name = name_of(items[k]);
    let here = seq![name];
    lemma_down(source, here);
    lemma_down(dest, here);
    assert(here.drop_first() =~= Seq::<Seq<char>>::empty());
    match items[k] {
        StoreItem::Folder { name: n, items: below } => {
            let from = paths::under(source, name);
            let to = paths::under(dest, name);
            vstd::seq_lib::lemma_seq_concat_contains_all_elements(
                seq![Step::CreateDir(to)],
                item_steps(below@, from, to, mode),
                step,
            );
            if item_steps(below@, from, to, mode).contains(step) {
                let inner = law_nothing_is_made_up(below@, from, to, mode, step);
                let names = here + inner;
                assert(names.drop_first() =~= inner);
                lemma_down(source, names);
                lemma_down(dest, names);
                assert(inner.len() > 0);
                assert(items[k] is Folder && items[k]->Folder_items@ == below@);
                names
            } else {
                assert(step == Step::CreateDir(to));
                here
            }
        },
        _ => {
            let i = choose|i: int| 0 <= i < own.len() && own[i] == step;
            assert(step == own[0]);
            here
        },
    }
}

} // verus!
