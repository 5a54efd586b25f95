//! Watching the files of modules, and updating modules when their data changes.

use crate::errors::CoreError;
use crate::model::{AddonsSource, Id, SourceKind};
use crate::order;
use crate::paths;
use crate::records;
use crate::records::{Core, State};
use crate::rows;
use crate::text;
use vstd::prelude::*;
use vstd::string::*;

verus! {

/// What happened to files.
#[derive(Debug, Clone, Copy, PartialEq, Eq, Structural)]
pub enum FileEventKind {
    Created,
    Modified,
    Accessed,
    Removed,
    Other,
}

/// Something that happened to files.
#[derive(Debug)]
pub struct FileEvent {
    pub kind: FileEventKind,
    pub paths: Vec<String>,
}

/// The name of the file that a path leads to.
pub open spec fn file_name_of(path: Seq<char>) -> Option<Seq<char>> {
    let parts = paths::parts_of(path);
    if parts.len() == 0 || parts.last() == "/"@ || parts.last() == "."@ || parts.last() == ".."@ {
        None
    } else {
        Some(parts.last())
    }
}

/// Whether a file is one that an editor leaves while it works.
pub open spec fn is_scratch(name: Seq<char>) -> bool {
    "."@.is_prefix_of(name) || "#"@.is_prefix_of(name) || "~"@.is_suffix_of(name)
        || ".swp"@.is_suffix_of(name)
}

/// Whether a file holds data that a module loads.
pub open spec fn is_data(name: Seq<char>) -> bool {
    paths::name_parts(name).1 == Some("xml"@) || paths::name_parts(name).1 == Some("csv"@)
}

/// The first root that holds the path, and what comes behind it first.
pub open spec fn module_under(parts: Seq<Seq<char>>, roots: Seq<Seq<char>>) -> Option<Seq<char>>
    decreases roots.len(),
{
    if roots.len() == 0 {
        None
    } else {
        let root = paths::parts_of(roots[0]);
        if root.is_prefix_of(parts) {
            if parts.len() > root.len() {
                Some(parts[root.len() as int])
            } else {
                None
            }
        } else {
            module_under(parts, roots.skip(1))
        }
    }
}

/// The module whose data a changed file is.
pub open spec fn module_of(path: Seq<char>, roots: Seq<Seq<char>>) -> Option<Seq<char>> {
    match file_name_of(path) {
        None => None,
        Some(name) => if is_scratch(name) || !is_data(name) {
            None
        } else {
            module_under(paths::parts_of(path), roots)
        },
    }
}

/// The modules, with those whose data changed files are.
pub open spec fn with_modules(
    into: Seq<Seq<char>>,
    changed: Seq<Seq<char>>,
    roots: Seq<Seq<char>>,
) -> Seq<Seq<char>>
    decreases changed.len(),
{
    if changed.len() == 0 {
        into
    } else {
        let before = with_modules(into, changed.drop_last(), roots);
        match module_of(changed.last(), roots) {
            Some(module) => text::with_word(before, module),
            None => before,
        }
    }
}

/// The modules, with those that an event concerns: only files that were written count.
pub open spec fn collected(
    into: Seq<Seq<char>>,
    event: Result<FileEvent, String>,
    roots: Seq<Seq<char>>,
) -> Seq<Seq<char>> {
    match event {
        Err(_) => into,
        Ok(event) => if event.kind is Created || event.kind is Modified {
            with_modules(into, text::views(event.paths@), roots)
        } else {
            into
        },
    }
}

fn has_root(path: &Vec<String>, root: &Vec<String>) -> (r: bool)
    ensures
        r == text::views(root@).is_prefix_of(text::views(path@)),
{
    let ghost a = text::views(root@);
    let ghost b = text::views(path@);
    if root.len() > path.len() {
        return false;
    }
    let mut i: usize = 0;
    while i < root.len()
        invariant
            i <= root@.len() <= path@.len(),
            a == text::views(root@),
            b == text::views(path@),
            forall|j: int| 0 <= j < i ==> #[trigger] a[j] == b[j],
        decreases root@.len() - i,
    {
        assert(a[i as int] == root@[i as int]@ && b[i as int] == path@[i as int]@);
        if !text::same_text(root[i].as_str(), path[i].as_str()) {
            assert(b.subrange(0, a.len() as int)[i as int] == b[i as int]);
            return false;
        }
        i = i + 1;
    }
    assert(b.subrange(0, a.len() as int) =~= a);
    true
}

fn find_module_under(parts: &Vec<String>, roots: &Vec<String>) -> (r: Option<String>)
    ensures
        text::opt_view(r) == module_under(text::views(parts@), text::views(roots@)),
{
    let ghost all = text::views(roots@);
    let ghost path = text::views(parts@);
    let mut i: usize = 0;
    assert(all.skip(0) =~= all);
    while i < roots.len()
        invariant
            i <= roots@.len(),
            all == text::views(roots@),
            path == text::views(parts@),
            module_under(path, all) == module_under(path, all.skip(i as int)),
        decreases roots@.len() - i,
    {
        assert(all.skip(i as int)[0] == roots@[i as int]@);
        let root = paths::parts(roots[i].as_str());
        if has_root(parts, &root) {
            assert(text::views(root@).len() == root@.len());
            if parts.len() > root.len() {
                return Some(parts[root.len()].clone());
            }
            return None;
        }
        assert(all.skip(i as int).skip(1) =~= all.skip(i + 1));
        i = i + 1;
    }
    None
}

/// The module whose data a changed file is.
pub fn changed_module(path: &str, roots: &Vec<String>) -> (r: Option<String>)
    ensures
        text::opt_view(r) == module_of(path@, text::views(roots@)),
{
    let parts = paths::parts(path);
    assert(text::views(parts@).len() == parts@.len());
    if parts.len() == 0 {
        return None;
    }
    let name = parts[parts.len() - 1].as_str();
    assert(text::views(parts@).last() == name@);
    if text::same_text(name, "/") || text::same_text(name, ".") || text::same_text(name, "..") {
        return None;
    }
    if text::starts_with(name, ".") || text::starts_with(name, "#") || text::ends_with(name, "~")
        || text::ends_with(name, ".swp") {
        return None;
    }
    let (_, extension) = paths::split_name(name);
    let data = match &extension {
        Some(e) => text::same_text(e.as_str(), "xml") || text::same_text(e.as_str(), "csv"),
        None => false,
    };
    if !data {
        return None;
    }
    find_module_under(&parts, roots)
}

/// Adds the modules that an event concerns.
pub fn collect_modules(event: &Result<FileEvent, String>, roots: &Vec<String>, into: &mut Vec<String>)
    ensures
        text::views(final(into)@) == collected(
            text::views(old(into)@),
            *event,
            text::views(roots@),
        ),
{
    let event = match event {
        Ok(event) => event,
        Err(_) => {
            return ;
        },
    };
    match event.kind {
        FileEventKind::Created | FileEventKind::Modified => {},
        _ => {
            return ;
        },
    }
    let ghost start = text::views(into@);
    let ghost changed = text::views(event.paths@);
    let ghost all = text::views(roots@);
    let mut i: usize = 0;
    assert(changed.take(0) =~= Seq::<Seq<char>>::empty());
    while i < event.paths.len()
        invariant
            i <= event.paths@.len(),
            changed == text::views(event.paths@),
            all == text::views(roots@),
            text::views(into@) == with_modules(start, changed.take(i as int), all),
        decreases event.paths@.len() - i,
    {
        proof {
            assert(changed.take(i + 1).drop_last() =~= changed.take(i as int));
            assert(changed.take(i + 1).last() == event.paths@[i as int]@);
        }
        if let Some(module) = changed_module(event.paths[i].as_str(), roots) {
            text::add_word(into, module.as_str());
        }
        i = i + 1;
    }
    assert(changed.take(i as int) =~= changed);
}

/// A file that was only read, or removed, concerns no module.
pub proof fn law_reading_changes_nothing(
    into: Seq<Seq<char>>,
    event: FileEvent,
    roots: Seq<Seq<char>>,
)
    requires
        !(event.kind is Created),
        !(event.kind is Modified),
    ensures
        collected(into, Ok(event), roots) == into,
{
}

// --- waiting for quiet ----------------------------------------------------

/// For how many milliseconds nothing may happen before modules are updated.
pub const QUIET_MS: u64 = 1200;

/// What was collected while files change: the modules that are waiting, and whether anything
/// happened since modules were last handed out.
#[derive(Debug)]
pub struct Watch {
    pub roots: Vec<String>,
    pub pending: Vec<String>,
    pub stirred: bool,
}

impl Watch {
    /// Watches folders.
    pub fn new(roots: Vec<String>) -> (r: Self)
        ensures
            r.roots == roots,
            r.pending@.len() == 0,
            !r.stirred,
    {
        Watch { roots, pending: Vec::new(), stirred: false }
    }

    /// How long to wait for the next event: for any time, while nothing happened; else until it
    /// is quiet.
    pub fn wait_ms(&self) -> (r: Option<u64>)
        ensures
            r == (if self.stirred {
                Some(QUIET_MS)
            } else {
                None
            }),
    {
        if self.stirred {
            Some(QUIET_MS)
        } else {
            None
        }
    }

    /// Something happened.
    pub fn on_event(&mut self, event: &Result<FileEvent, String>)
        ensures
            final(self).roots == old(self).roots,
            final(self).stirred,
            text::views(final(self).pending@) == collected(
                text::views(old(self).pending@),
                *event,
                text::views(old(self).roots@),
            ),
    {
        collect_modules(event, &self.roots, &mut self.pending);
        self.stirred = true;
    }

    /// It is quiet: the modules that are to be updated, if any. None is handed out twice.
    pub fn on_quiet(&mut self) -> (r: Option<Vec<String>>)
        ensures
            final(self).roots == old(self).roots,
            !final(self).stirred,
            final(self).pending@.len() == 0,
            match r {
                Some(modules) => modules@ == old(self).pending@ && modules@.len() > 0,
                None => old(self).pending@.len() == 0,
            },
    {
        self.stirred = false;
        if self.pending.len() == 0 {
            return None;
        }
        let mut modules: Vec<String> = Vec::new();
        modules.append(&mut self.pending);
        Some(modules)
    }
}

// --- what is watched ------------------------------------------------------

/// The folders that are watched for a server: those of its sources but Odoo's own, if it wants
/// that at all.
pub open spec fn watched(s: State, server_id: Id) -> Seq<Seq<char>> {
    if rows::row_of(s.servers, server_id).reload.update_on_data_change {
        own_folders(rows::listing(s.sources, Some(server_id)))
    } else {
        Seq::empty()
    }
}

/// The folders of sources but Odoo's own.
pub open spec fn own_folders(sources: Seq<AddonsSource>) -> Seq<Seq<char>>
    decreases sources.len(),
{
    if sources.len() == 0 {
        Seq::empty()
    } else {
        let before = own_folders(sources.drop_last());
        if sources.last().kind is Core {
            before
        } else {
            before.push(sources.last().path_or_url@)
        }
    }
}

impl Core {
    /// The folders that are watched for a server.
    pub fn watched_folders(&self, server_id: Id) -> (r: Result<Vec<String>, CoreError>)
        ensures
            match r {
                Ok(folders) => rows::taken(self@.servers, server_id) && text::views(folders@)
                    == watched(self@, server_id),
                Err(e) => !rows::taken(self@.servers, server_id) && records::is_missing(
                    e,
                    "server "@,
                    server_id,
                ),
            },
    {
        let server = match self.get_server(server_id) {
            Ok(server) => server,
            Err(e) => {
                return Err(e);
            },
        };
        let mut out: Vec<String> = Vec::new();
        if !server.reload.update_on_data_change {
            assert(text::views(out@) =~= Seq::<Seq<char>>::empty());
            return Ok(out);
        }
        let sources = self.list_addons_sources(server_id);
        let ghost all = order::owned(sources@);
        let mut i: usize = 0;
        assert(all.take(0) =~= Seq::<AddonsSource>::empty());
        assert(text::views(out@) =~= own_folders(all.take(0)));
        while i < sources.len()
            invariant
                i <= sources@.len(),
                all == order::owned(sources@),
                text::views(out@) == own_folders(all.take(i as int)),
            decreases sources@.len() - i,
        {
            let ghost before = text::views(out@);
            proof {
                assert(all.take(i + 1).drop_last() =~= all.take(i as int));
                assert(all.take(i + 1).last() == *sources@[i as int]);
            }
            match sources[i].kind {
                SourceKind::Core => {},
                _ => {
                    out.push(sources[i].path_or_url.clone());
                    assert(text::views(out@) =~= before.push(sources@[i as int].path_or_url@));
                },
            }
            i = i + 1;
        }
        assert(all.take(i as int) =~= all);
        Ok(out)
    }
}

// --- updating many modules ------------------------------------------------

/// An update of modules in one go; where that fails, one by one, to find the one at fault.
#[derive(Debug)]
pub struct BatchUpdate {
    pub names: Vec<String>,
    /// Why the update in one go failed, once it did.
    pub batch_error: Option<CoreError>,
    /// How many modules were handed out one by one.
    pub handed_out: usize,
}

/// What to do next.
#[derive(Debug)]
pub enum BatchStep {
    /// Update this module alone.
    Update(String),
    /// The update is over.
    Finished(Result<(), CoreError>),
}

/// What comes of one result of an update.
pub open spec fn is_batch_step(
    before: BatchUpdate,
    after: BatchUpdate,
    result: Result<(), CoreError>,
    r: BatchStep,
) -> bool {
    &&& after.names == before.names
    &&& match before.batch_error {
        None => match result {
            Ok(_) => {
                &&& r == BatchStep::Finished(Ok(()))
                &&& after == before
            },
            Err(e) => if before.names@.len() <= 1 {
                &&& r == BatchStep::Finished(Err(e))
                &&& after == before
            } else {
                &&& r == BatchStep::Update(before.names@[0])
                &&& after.batch_error == Some(e)
                &&& after.handed_out == 1
            },
        },
        Some(first) => match result {
            Err(e) => {
                &&& r == BatchStep::Finished(Err(e))
                &&& after == before
            },
            Ok(_) => if before.handed_out < before.names@.len() {
                &&& r == BatchStep::Update(
                    before.names@[before.handed_out as int],
                )
                &&& after.batch_error == Some(first)
                &&& after.handed_out == before.handed_out + 1
            } else {
                &&& r == BatchStep::Finished(Err(first))
                &&& after.batch_error is None
                &&& after.handed_out == before.handed_out
            },
        },
    }
}

impl BatchUpdate {
    /// An update of modules, which starts with all in one go.
    pub fn new(names: Vec<String>) -> (r: Self)
        ensures
            r.names == names,
            r.batch_error is None,
            r.handed_out == 0,
    {
        BatchUpdate { names, batch_error: None, handed_out: 0 }
    }

    /// What to do next, given how the last update went. An update in one go that fails is tried
    /// again module by module, where there is more than one; it is over with the first module
    /// that fails, and where none does, with the error of the update in one go.
    pub fn on_result(&mut self, result: Result<(), CoreError>) -> (r: BatchStep)
        ensures
            is_batch_step(*old(self), *final(self), result, r),
    {
        if self.batch_error.is_none() {
            return match result {
                Ok(_) => BatchStep::Finished(Ok(())),
                Err(e) => {
                    if self.names.len() <= 1 {
                        BatchStep::Finished(Err(e))
                    } else {
                        self.batch_error = Some(e);
                        self.handed_out = 1;
                        BatchStep::Update(self.names[0].clone())
                    }
                },
            };
        }
        match result {
            Err(e) => BatchStep::Finished(Err(e)),
            Ok(_) => {
                let count: usize = self.names.len();
                if self.handed_out < count {
                    let name = self.names[self.handed_out].clone();
                    self.handed_out = self.handed_out + 1;
                    BatchStep::Update(name)
                } else {
                    match self.batch_error.take() {
                        Some(first) => BatchStep::Finished(Err(first)),
                        None => BatchStep::Finished(Ok(())),
                    }
                }
            },
        }
    }
}

/// The module of a file is the folder right under the first root that the file lies in; only files
/// of data count, and no scratch file does.
pub proof fn law_a_file_belongs_to_the_module_it_lies_in(
    path: Seq<char>,
    roots: Seq<Seq<char>>,
    k: int,
    name: Seq<char>,
)
    requires
        paths::parts_of(path).len() > 0,
        paths::parts_of(path).last() == name,
        paths::is_name(name),
    ensures
        is_data(name) && !is_scratch(name) && 0 <= k < roots.len() && paths::parts_of(
            roots[k],
        ).is_prefix_of(paths::parts_of(path)) && (forall|i: int|
            0 <= i < k ==> !paths::parts_of(#[trigger] roots[i]).is_prefix_of(paths::parts_of(path)))
            && paths::parts_of(roots[k]).len() < paths::parts_of(path).len() ==> module_of(path, roots)
            == Some(paths::parts_of(path)[paths::parts_of(roots[k]).len() as int]),
        (forall|i: int|
            0 <= i < roots.len() ==> !paths::parts_of(#[trigger] roots[i]).is_prefix_of(
                paths::parts_of(path),
            )) ==> module_of(path, roots) is None,
        !is_data(name) || is_scratch(name) ==> module_of(path, roots) is None,
{
    reveal_strlit("/");
    if name == "/"@ {
        assert("/"@[0] == '/');
        assert(name.contains('/'));
    }
    lemma_first_root(paths::parts_of(path), roots, k);
}

proof fn lemma_first_root(parts: Seq<Seq<char>>, roots: Seq<Seq<char>>, k: int)
    ensures
        0 <= k < roots.len() && paths::parts_of(roots[k]).is_prefix_of(parts) && (forall|i: int|
            0 <= i < k ==> !paths::parts_of(#[trigger] roots[i]).is_prefix_of(parts))
            && paths::parts_of(roots[k]).len() < parts.len() ==> module_under(parts, roots) == Some(
            parts[paths::parts_of(roots[k]).len() as int],
        ),
        (forall|i: int|
            0 <= i < roots.len() ==> !paths::parts_of(#[trigger] roots[i]).is_prefix_of(parts))
            ==> module_under(parts, roots) is None,
    decreases roots.len(),
{
    if roots.len() > 0 {
        let rest = roots.skip(1);
        lemma_first_root(parts, rest, k - 1);
        assert(forall|i: int| 0 <= i < rest.len() ==> rest[i] == roots[i + 1]);
        if k == 0 {
            assert(roots[k] == roots[0]);
        }
    }
}

/// Data is what ends in `.xml` or `.csv`, with something before it.
pub proof fn law_data_is_xml_or_csv(stem: Seq<char>, extension: Seq<char>)
    requires
        stem.len() > 0,
        !extension.contains('.'),
        extension.len() > 0,
    ensures
        is_data(stem.push('.') + extension) <==> extension == "xml"@ || extension == "csv"@,
{
    reveal_strlit("..");
    let name = stem.push('.') + extension;
    assert(name.last() == extension.last());
    assert(extension.contains(extension.last()));
    paths::law_a_name_has_a_stem_and_an_extension(stem, extension);
}

/// An event adds the modules of the files that it names, once each, and keeps those that were
/// there; what could not be read adds nothing.
pub proof fn law_an_event_adds_its_modules(
    into: Seq<Seq<char>>,
    event: FileEvent,
    why: String,
    roots: Seq<Seq<char>>,
    module: Seq<char>,
)
    requires
        text::ascending(into),
    ensures
        text::ascending(collected(into, Ok(event), roots)),
        event.kind is Created || event.kind is Modified ==> (collected(
            into,
            Ok(event),
            roots,
        ).contains(module) <==> into.contains(module) || exists|k: int|
            0 <= k < event.paths@.len() && module_of((#[trigger] event.paths@[k])@, roots) == Some(
                module,
            )),
        collected(into, Err(why), roots) == into,
{
    let changed = text::views(event.paths@);
    lemma_with_modules(into, changed, roots, module);
    if exists|k: int|
        0 <= k < changed.len() && module_of(#[trigger] changed[k], roots) == Some(module) {
        let k = choose|k: int|
            0 <= k < changed.len() && module_of(#[trigger] changed[k], roots) == Some(module);
        assert(module_of(event.paths@[k]@, roots) == Some(module));
    }
    if exists|k: int|
        0 <= k < event.paths@.len() && module_of((#[trigger] event.paths@[k])@, roots) == Some(
            module,
        ) {
        let k = choose|k: int|
            0 <= k < event.paths@.len() && module_of((#[trigger] event.paths@[k])@, roots) == Some(
                module,
            );
        assert(module_of(changed[k], roots) == Some(module));
    }
}

proof fn lemma_with_modules(
    into: Seq<Seq<char>>,
    changed: Seq<Seq<char>>,
    roots: Seq<Seq<char>>,
    module: Seq<char>,
)
    requires
        text::ascending(into),
    ensures
        text::ascending(with_modules(into, changed, roots)),
        with_modules(into, changed, roots).contains(module) <==> into.contains(module)
            || exists|k: int|
            0 <= k < changed.len() && module_of(#[trigger] changed[k], roots) == Some(module),
    decreases changed.len(),
{
    if changed.len() > 0 {
        let rest = changed.drop_last();
        lemma_with_modules(into, rest, roots, module);
        let before = with_modules(into, rest, roots);
        assert(forall|k: int| 0 <= k < rest.len() ==> rest[k] == changed[k]);
        assert(changed[changed.len() - 1] == changed.last());
        if let Some(m) = module_of(changed.last(), roots) {
            text::lemma_with_word(before, m);
        }
        if exists|k: int|
            0 <= k < rest.len() && module_of(#[trigger] rest[k], roots) == Some(module) {
            let k = choose|k: int|
                0 <= k < rest.len() && module_of(#[trigger] rest[k], roots) == Some(module);
            assert(module_of(changed[k], roots) == Some(module));
        }
        if exists|k: int|
            0 <= k < changed.len() && module_of(#[trigger] changed[k], roots) == Some(module) {
            let k = choose|k: int|
                0 <= k < changed.len() && module_of(#[trigger] changed[k], roots) == Some(module);
            if k < rest.len() {
                assert(module_of(rest[k], roots) == Some(module));
            }
        }
    }
}

/// Watched are the folders of all the sources but the core ones, in the order of the list.
pub proof fn law_every_own_folder_is_watched(sources: Seq<AddonsSource>)
    ensures
        own_folders(sources) == sources.filter(|s: AddonsSource| !(s.kind is Core)).map_values(
            |s: AddonsSource| s.path_or_url@,
        ),
    decreases sources.len(),
{
    let pick = |s: AddonsSource| !(s.kind is Core);
    let turn = |s: AddonsSource| s.path_or_url@;
    order::lemma_picked(sources, pick, turn);
    if sources.len() > 0 {
        law_every_own_folder_is_watched(sources.drop_last());
    }
}

/// An update of many modules that fails is tried again module by module, in their order, each of
/// them once; it has succeeded only where all went at once.
pub proof fn law_a_failed_batch_is_tried_one_by_one(
    before: BatchUpdate,
    after: BatchUpdate,
    result: Result<(), CoreError>,
    r: BatchStep,
)
    requires
        is_batch_step(before, after, result, r),
    ensures
        r matches BatchStep::Update(name) ==> {
            &&& 0 < after.handed_out <= after.names@.len()
            &&& name == before.names@[after.handed_out - 1]
            &&& before.batch_error is None ==> after.handed_out == 1 && result is Err
                && before.names@.len() > 1
            &&& before.batch_error is Some ==> after.handed_out == before.handed_out + 1 && result
                is Ok
            &&& after.batch_error is Some
        },
        r matches BatchStep::Finished(Ok(_)) ==> before.batch_error is None && result is Ok,
        before.batch_error is None && result is Ok ==> r == BatchStep::Finished(Ok(())),
        before.batch_error is Some && result is Ok && before.handed_out == before.names@.len()
            ==> r == BatchStep::Finished(Err(before.batch_error->0)),
        before.batch_error is Some && result is Ok && before.handed_out < before.names@.len()
            ==> r is Update && after.batch_error == before.batch_error,
        before.batch_error is Some && result is Err ==> r == BatchStep::Finished(
            Err(result->Err_0),
        ),
        before.batch_error is None && result is Err && before.names@.len() <= 1
            ==> r == BatchStep::Finished(Err(result->Err_0)),
        after.names == before.names,
{
}

/// Hidden files and what editors leave behind are scratch, and nothing else is.
pub proof fn law_scratch_is_what_editors_leave(rest: Seq<char>)
    ensures
        is_scratch(seq!['.'] + rest),
        is_scratch(seq!['#'] + rest),
        is_scratch(rest + seq!['~']),
        is_scratch(rest + seq!['.', 's', 'w', 'p']),
        rest.len() > 0 && rest[0] != '.' && rest[0] != '#' && rest.last() != '~' && rest.last()
            != 'p' ==> !is_scratch(rest),
{
    reveal_strlit(".");
    reveal_strlit("#");
    reveal_strlit("~");
    reveal_strlit(".swp");
    assert((seq!['.'] + rest).subrange(0, 1) =~= "."@);
    assert((seq!['#'] + rest).subrange(0, 1) =~= "#"@);
    let tilde = rest + seq!['~'];
    assert(tilde.subrange(tilde.len() - 1, tilde.len() as int) =~= "~"@);
    let swap = rest + seq!['.', 's', 'w', 'p'];
    assert(swap.subrange(swap.len() - 4, swap.len() as int) =~= ".swp"@);
    if "."@.is_prefix_of(rest) {
        assert(rest.subrange(0, 1)[0] == '.');
    }
    if "#"@.is_prefix_of(rest) {
        assert(rest.subrange(0, 1)[0] == '#');
    }
    if "~"@.is_suffix_of(rest) {
        assert(rest.subrange(rest.len() - 1, rest.len() as int)[0] == '~');
    }
    if ".swp"@.is_suffix_of(rest) {
        assert(rest.subrange(rest.len() - 4, rest.len() as int)[3] == 'p');
    }
}

} // verus!
