//! Frozen copies of databases, and going back to them.

use crate::codec;
use crate::databases;
use crate::environment;
use crate::environment::Environment;
use crate::errors::CoreError;
use crate::events::Event;
use crate::model::{Database, Id, Snapshot};
use crate::order;
use crate::paths;
use crate::pg_admin::PgConnInfo;
use crate::records;
use crate::records::{Core, Stamp, State};
use crate::rows;
use crate::rows::Row;
use crate::servers;
use crate::servers::Surroundings;
use crate::text;
use vstd::prelude::*;
use vstd::string::*;

verus! {

// --- names ----------------------------------------------------------------

/// A character that a snapshot's database may have in its name.
pub open spec fn is_plain(c: char) -> bool {
    text::is_ascii_letter(c) || text::is_digit(c) || c == '_'
}

/// A name with `_` in place of every character that is not plain.
pub open spec fn plain_name(name: Seq<char>) -> Seq<char> {
    name.map_values(
        |c: char|
            if is_plain(c) {
                c
            } else {
                '_'
            },
    )
}

/// How many characters of the name of the source the name of a snapshot's database shows, so that
/// all of it fits in what PostgreSQL keeps of a name.
pub const SHOWN_CHARS: usize = 25;

/// How many bytes PostgreSQL keeps of a name.
pub const NAME_BYTES: usize = 63;

/// The beginning of a name.
pub open spec fn shown_part(name: Seq<char>) -> Seq<char> {
    if name.len() > SHOWN_CHARS {
        name.take(SHOWN_CHARS as int)
    } else {
        name
    }
}

/// The name of the database that holds a snapshot: the beginning of the source's name, and all of
/// the identifier.
pub open spec fn snapshot_name(source: Seq<char>, id: Id) -> Seq<char> {
    "snap_"@ + plain_name(shown_part(source)) + "_"@ + codec::simple_text(id)
}

/// The name of the database that holds a snapshot; `id` is a fresh identifier.
pub fn derive_snapshot_database_name(source: &str, id: Id) -> (r: String)
    ensures
        r@ == snapshot_name(source@, id),
{
    let chars = text::chars_of(source);
    let count: usize = if chars.len() > SHOWN_CHARS {
        SHOWN_CHARS
    } else {
        chars.len()
    };
    let mut plain = String::new();
    let mut i: usize = 0;
    assert(plain@ =~= plain_name(source@.take(0)));
    while i < count
        invariant
            i <= count <= chars@.len(),
            chars@ == source@,
            plain@ == plain_name(source@.take(i as int)),
        decreases count - i,
    {
        let c = chars[i];
        let keep = ('a' <= c && c <= 'z') || ('A' <= c && c <= 'Z') || ('0' <= c && c <= '9') || c
            == '_';
        assert(keep == is_plain(c));
        plain.push(
            if keep {
                c
            } else {
                '_'
            },
        );
        assert(plain@ =~= plain_name(source@.take(i + 1)));
        i = i + 1;
    }
    assert(source@.take(i as int) =~= shown_part(source@));
    let mut out = text::joined("snap_", plain.as_str());
    out.append("_");
    out.append(codec::id_simple_text(id).as_str());
    out
}

/// PostgreSQL keeps all of the name of a snapshot's database: no character takes more than a byte,
/// and there are no more of them than it keeps.
pub proof fn law_a_snapshot_name_is_kept_whole(source: Seq<char>, id: Id)
    ensures
        snapshot_name(source, id).len() <= NAME_BYTES,
        text::all_ascii(snapshot_name(source, id)),
{
    reveal_strlit("snap_");
    reveal_strlit("_");
    codec::lemma_hex_len(id as nat, 32);
    let name = snapshot_name(source, id);
    assert forall|i: int| 0 <= i < name.len() implies #[trigger] name[i] <= '\u{7f}' by {
        law_a_snapshot_has_a_plain_name(source, id, i);
    }
}

/// Snapshots with different identifiers never share a database, whatever they are taken of.
pub proof fn law_snapshots_do_not_share_a_database(
    first: Seq<char>,
    a: Id,
    second: Seq<char>,
    b: Id,
)
    requires
        a != b,
    ensures
        snapshot_name(first, a) != snapshot_name(second, b),
{
    codec::lemma_hex_len(a as nat, 32);
    codec::lemma_hex_len(b as nat, 32);
    let x = snapshot_name(first, a);
    let y = snapshot_name(second, b);
    if x == y {
        assert(x.skip(x.len() - 32) =~= codec::simple_text(a));
        assert(y.skip(y.len() - 32) =~= codec::simple_text(b));
        assert(codec::uuid_text(a) == codec::uuid_text(b));
        codec::law_texts_identify(a, b);
    }
}

/// The name of a snapshot's database needs no quoting: it holds letters, digits and `_` alone.
pub proof fn law_a_snapshot_has_a_plain_name(source: Seq<char>, id: Id, i: int)
    requires
        0 <= i < snapshot_name(source, id).len(),
    ensures
        is_plain(snapshot_name(source, id)[i]),
{
    reveal_strlit("snap_");
    reveal_strlit("_");
    codec::lemma_hex_len(id as nat, 32);
    let plain = plain_name(shown_part(source));
    let digits = codec::simple_text(id);
    let name = snapshot_name(source, id);
    if i < 5 {
        assert(name[i] == "snap_"@[i]);
    } else if i < 5 + plain.len() {
        assert(name[i] == plain[i - 5]);
    } else if i == 5 + plain.len() {
        assert(name[i] == "_"@[0]);
    } else {
        assert(name[i] == digits[i - 6 - plain.len()]);
        codec::lemma_digit_is_plain(id as nat, 32, i - 6 - plain.len());
    }
}

// --- what a snapshot takes along ------------------------------------------

/// The folder that a snapshot of files is taken of, and the one that it goes to.
#[derive(Debug)]
pub struct FilesCopy {
    pub from: String,
    pub to: String,
}

/// Which files a snapshot takes along: where nothing is said, those of the database if there are
/// any, into the folder of snapshots; else those that are asked for, where both ends are given.
pub open spec fn files_taken(
    source: Option<Seq<char>>,
    dest_root: Option<Seq<char>>,
    own: Option<Seq<char>>,
    snapshots_dir: Option<Seq<char>>,
    snapshot_database_name: Seq<char>,
) -> Option<(Seq<char>, Seq<char>)> {
    let (from, root) = if source is None && dest_root is None {
        (own, snapshots_dir)
    } else {
        (source, dest_root)
    };
    match (from, root) {
        (Some(from), Some(root)) => Some((from, paths::under(root, snapshot_database_name))),
        _ => None,
    }
}

/// Which files a snapshot takes along. `own` is the folder with the files of the database, where
/// there is such a folder. Where nothing is said and the database has files, they are taken along
/// or the request is refused: there has to be a folder of snapshots for them.
pub fn snapshot_files(
    source: Option<String>,
    dest_root: Option<String>,
    own: Option<String>,
    snapshots_dir: Option<String>,
    snapshot_database_name: &str,
) -> (r: Result<Option<FilesCopy>, CoreError>)
    ensures
        r is Err <==> source is None && dest_root is None && own is Some && snapshots_dir is None,
        match r {
            Err(e) => e matches CoreError::NotConfigured(said) && said@
                == "no data folder is configured for this app"@,
            Ok(files) => match files_taken(
                text::opt_view(source),
                text::opt_view(dest_root),
                text::opt_view(own),
                text::opt_view(snapshots_dir),
                snapshot_database_name@,
            ) {
                Some((from, to)) => files matches Some(copy) && copy.from@ == from && copy.to@
                    == to,
                None => files is None,
            },
        },
{
    let derive = source.is_none() && dest_root.is_none();
    if derive && own.is_some() && snapshots_dir.is_none() {
        return Err(
            CoreError::NotConfigured("no data folder is configured for this app".to_owned()),
        );
    }
    let (from, root) = if derive {
        (own, snapshots_dir)
    } else {
        (source, dest_root)
    };
    match (from, root) {
        (Some(from), Some(root)) => Ok(
            Some(FilesCopy { from, to: paths::join(root.as_str(), snapshot_database_name) }),
        ),
        _ => Ok(None),
    }
}

// --- going back -----------------------------------------------------------

/// What there is to do to go back to a snapshot.
#[derive(Debug)]
pub struct Revert {
    pub conn: PgConnInfo,
    pub database_name: String,
    pub snapshot_database_name: String,
    /// The files to go back to, and the folder that they go to.
    pub files: Option<FilesCopy>,
}

/// One thing to do to go back to a snapshot.
#[derive(Debug, Clone, Copy, PartialEq, Eq, Structural)]
pub enum RevertStep {
    /// Take a snapshot of the database as it is.
    TakeCounterSnapshot,
    /// Drop the database.
    DropDatabase,
    /// Copy the database of the snapshot to the name of the database.
    CopyDatabase,
    /// Remove the folder that the files go to.
    RemoveFiles,
    /// Put the files of the snapshot there.
    RestoreFiles,
}

/// What there is to do to go back to a snapshot, in order.
pub open spec fn steps_back(counter: bool, files: bool, target_exists: bool) -> Seq<RevertStep> {
    (if counter {
        seq![RevertStep::TakeCounterSnapshot]
    } else {
        seq![]
    }) + seq![RevertStep::DropDatabase, RevertStep::CopyDatabase] + (if files {
        (if target_exists {
            seq![RevertStep::RemoveFiles]
        } else {
            seq![]
        }) + seq![RevertStep::RestoreFiles]
    } else {
        seq![]
    })
}

/// What there is to do to go back to a snapshot, in order; each step only once those before it
/// succeeded. `counter` says whether a snapshot of the present is asked for, `target_exists`
/// whether the folder that the files go to is there.
pub fn revert_steps(plan: &Revert, counter: bool, target_exists: bool) -> (r: Vec<RevertStep>)
    ensures
        r@ == steps_back(counter, plan.files is Some, target_exists),
{
    let mut out: Vec<RevertStep> = Vec::new();
    if counter {
        out.push(RevertStep::TakeCounterSnapshot);
    }
    out.push(RevertStep::DropDatabase);
    out.push(RevertStep::CopyDatabase);
    if plan.files.is_some() {
        if target_exists {
            out.push(RevertStep::RemoveFiles);
        }
        out.push(RevertStep::RestoreFiles);
    }
    assert(out@ =~= steps_back(counter, plan.files is Some, target_exists));
    out
}

/// Nothing of a database is dropped or removed before the snapshot of the present is taken, where
/// it is asked for; and its files are touched only after the database itself is back.
pub proof fn law_the_present_is_kept_first(counter: bool, files: bool, target_exists: bool)
    ensures
        counter ==> steps_back(counter, files, target_exists)[0]
            == RevertStep::TakeCounterSnapshot,
        forall|i: int|
            0 <= i < steps_back(counter, files, target_exists).len() && (#[trigger] steps_back(
                counter,
                files,
                target_exists,
            )[i] == RevertStep::RemoveFiles || steps_back(counter, files, target_exists)[i]
                == RevertStep::RestoreFiles) ==> exists|j: int|
                0 <= j < i && #[trigger] steps_back(counter, files, target_exists)[j]
                    == RevertStep::CopyDatabase,
{
    let steps = steps_back(counter, files, target_exists);
    let copied: int = if counter { 2 } else { 1 };
    assert(steps[copied] == RevertStep::CopyDatabase);
}

/// Whether a request to go back to a snapshot is in order: it is a snapshot of the database, it
/// holds files where they are asked for, and where it holds files there is a folder for them.
pub open spec fn revert_allowed(
    s: State,
    env: Environment,
    database_id: Id,
    snapshot_id: Id,
    asked: Option<Seq<char>>,
) -> bool {
    let snapshot = rows::row_of(s.snapshots, snapshot_id);
    &&& rows::taken(s.databases, database_id)
    &&& rows::taken(s.snapshots, snapshot_id)
    &&& snapshot.database_id == database_id
    &&& asked is Some ==> snapshot.filestore_snapshot_path is Some
    &&& snapshot.filestore_snapshot_path is Some ==> files_target(s, env, database_id, asked) is Some
}

/// The folder that the files of a snapshot go to: the one that is asked for, or that of the
/// database.
pub open spec fn files_target(
    s: State,
    env: Environment,
    database_id: Id,
    asked: Option<Seq<char>>,
) -> Option<Seq<char>> {
    let database = rows::row_of(s.databases, database_id);
    match asked {
        Some(target) => Some(target),
        None => environment::files_of(env, database.server_id, database.name@),
    }
}

// --- listing --------------------------------------------------------------

/// What comes of the request to plan a way back.
pub open spec fn is_way_back(
    r: Result<Revert, CoreError>,
    s: State,
    env: Environment,
    around: Surroundings,
    database_id: Id,
    snapshot_id: Id,
    filestore_target: Option<String>,
) -> bool {
    let database = rows::row_of(s.databases, database_id);
    let snapshot = rows::row_of(s.snapshots, snapshot_id);
    match r {
        Ok(plan) => {
            let server = rows::row_of(s.servers, database.server_id);
            let target = files_target(
                s,
                env,
                database_id,
                text::opt_view(filestore_target),
            );
            &&& revert_allowed(
                s,
                env,
                database_id,
                snapshot_id,
                text::opt_view(filestore_target),
            )
            &&& rows::taken(s.servers, database.server_id)
            &&& servers::reachable(s, around, server.postgres_instance_id)
            &&& servers::connects(
                s,
                around,
                server.postgres_instance_id,
                plan.conn,
            )
            &&& plan.database_name == database.name
            &&& plan.snapshot_database_name == snapshot.snapshot_database_name
            &&& match plan.files {
                Some(files) => {
                    &&& snapshot.filestore_snapshot_path == Some(files.from)
                    &&& target == Some(files.to@)
                },
                None => snapshot.filestore_snapshot_path is None,
            }
        },
        Err(e) => if !rows::taken(s.databases, database_id) {
            records::is_missing(e, "database "@, database_id)
        } else if !rows::taken(s.snapshots, snapshot_id) {
            records::is_missing(e, "snapshot "@, snapshot_id)
        } else if snapshot.database_id != database_id {
            e == (CoreError::SnapshotNotForDatabase { snapshot_id, database_id })
        } else if filestore_target is Some && snapshot.filestore_snapshot_path is None {
            e == (CoreError::SnapshotHasNoFilestore { snapshot_id })
        } else if snapshot.filestore_snapshot_path is Some && files_target(
            s,
            env,
            database_id,
            text::opt_view(filestore_target),
        ) is None {
            e matches CoreError::NotConfigured(said) && said@
                == "no data folder is configured for this app"@
        } else {
            servers::server_is_out_of_reach(s, around, database.server_id, e)
        },
    }
}

/// What comes of the request to delete a snapshot.
pub open spec fn snapshot_gone(
    before: State,
    after: State,
    r: Result<(), CoreError>,
    id: Id,
    removed: Result<(), CoreError>,
    stamp: Stamp,
) -> bool {
    match r {
        Ok(_) => {
            &&& rows::taken(before.snapshots, id)
            &&& removed is Ok
            &&& records::may_tell(before, stamp)
            &&& after == records::told(
                State {
                    snapshots: before.snapshots.remove(
                        rows::place_of(before.snapshots, id) as int,
                    ),
                    ..before
                },
                stamp,
                None,
                Event::SnapshotDeleted { snapshot_id: id },
            )
        },
        Err(e) => if !rows::taken(before.snapshots, id) {
            records::is_missing(e, "snapshot "@, id) && after == before
        } else {
            match removed {
                Err(why) => e == why && after == before,
                Ok(_) => {
                    &&& !records::may_tell(before, stamp)
                    &&& rows::is_taken_error(e, "events"@)
                    &&& after == (State {
                        snapshots: before.snapshots.remove(
                            rows::place_of(before.snapshots, id) as int,
                        ),
                        ..before
                    })
                },
            }
        },
    }
}

/// The snapshots of a server that were taken on a branch.
pub open spec fn taken_on(snapshots: Seq<Snapshot>, server_id: Id, branch: Seq<char>) -> Seq<
    Snapshot,
> {
    snapshots.filter(
        |s: Snapshot|
            s.server_id == server_id && text::opt_view(s.git_branch) == Some(branch),
    )
}

/// The times of snapshots, so that the latest counts least.
pub open spec fn latest_first(snapshots: Seq<Snapshot>) -> Seq<int> {
    snapshots.map_values(|s: Snapshot| -1 - s.created_at)
}

/// The snapshots of a server that were taken on a branch, the latest first.
pub open spec fn branch_listing(s: State, server_id: Id, branch: Seq<char>) -> Seq<Snapshot> {
    let found = taken_on(rows::listing(s.snapshots, None), server_id, branch);
    order::at_places(found, order::order_of(latest_first(found)))
}

/// The latest snapshot of a branch comes first.
pub proof fn law_the_latest_snapshot_is_first(s: State, server_id: Id, branch: Seq<char>)
    ensures
        forall|i: int, j: int|
            0 <= i < j < branch_listing(s, server_id, branch).len() ==> (
            #[trigger] branch_listing(s, server_id, branch)[i]).created_at >= (
            #[trigger] branch_listing(s, server_id, branch)[j]).created_at,
{
    let found = taken_on(rows::listing(s.snapshots, None), server_id, branch);
    let keys = latest_first(found);
    let places = order::order_of(keys);
    order::lemma_order_of(keys);
    let out = branch_listing(s, server_id, branch);
    assert forall|i: int, j: int| 0 <= i < j < out.len() implies (#[trigger] out[i]).created_at >= (
    #[trigger] out[j]).created_at by {
        assert(order::precedes(keys, places[i], places[j]));
        assert(keys[places[i]] == -1 - found[places[i]].created_at);
        assert(keys[places[j]] == -1 - found[places[j]].created_at);
    }
}

/// What comes of the request to note a snapshot.
pub open spec fn snapshot_made(
    before: State,
    after: State,
    r: Result<Snapshot, CoreError>,
    id: Id,
    database_id: Id,
    snapshot_database_name: String,
    name: String,
    filestore_snapshot_path: Option<String>,
    git_branch: Option<String>,
    took_ms: u64,
    stamp: Stamp,
) -> bool {
    let database = rows::row_of(before.databases, database_id);
    let made = Snapshot {
        id,
        server_id: database.server_id,
        database_id,
        source_database_name: database.name,
        snapshot_database_name,
        name,
        git_branch,
        filestore_snapshot_path,
        created_at: stamp.now,
    };
    match r {
        Ok(snapshot) => {
            &&& rows::taken(before.databases, database_id)
            &&& rows::taken(before.servers, database.server_id)
            &&& !rows::taken(before.snapshots, id)
            &&& records::may_tell(before, stamp)
            &&& snapshot == made
            &&& after == records::told(
                State { snapshots: before.snapshots.push(snapshot), ..before },
                stamp,
                Some(took_ms),
                Event::SnapshotCreated {
                    snapshot_id: id,
                    database_id,
                    name,
                    has_filestore: filestore_snapshot_path is Some,
                },
            )
        },
        Err(e) => if !rows::taken(before.databases, database_id) {
            records::is_missing(e, "database "@, database_id) && after == before
        } else if !rows::taken(before.servers, database.server_id) {
            records::is_missing(e, "server "@, database.server_id) && after == before
        } else if rows::taken(before.snapshots, id) {
            rows::is_taken_error(e, "snapshots"@) && after == before
        } else {
            &&& !records::may_tell(before, stamp)
            &&& rows::is_taken_error(e, "events"@)
            &&& after == (State { snapshots: before.snapshots.push(made), ..before })
        },
    }
}

impl Core {
    /// The folder that holds the files of a database, where that is known.
    pub fn database_filestore_path(&self, database_id: Id, env: &Environment) -> (r: Result<
        Option<String>,
        CoreError,
    >)
        ensures
            match r {
                Ok(path) => {
                    let database = rows::row_of(self@.databases, database_id);
                    &&& rows::taken(self@.databases, database_id)
                    &&& text::opt_view(path) == environment::files_of(
                        *env,
                        database.server_id,
                        database.name@,
                    )
                },
                Err(e) => !rows::taken(self@.databases, database_id) && records::is_missing(
                    e,
                    "database "@,
                    database_id,
                ),
            },
    {
        match self.get_database(database_id) {
            Ok(database) => Ok(env.database_files(database.server_id, database.name.as_str())),
            Err(e) => Err(e),
        }
    }

    /// The snapshots of a database, or all, in the order in which they were taken.
    pub fn list_snapshots(&self, database_id: Option<Id>) -> (r: Vec<&Snapshot>)
        ensures
            order::owned(r@) == rows::listing(self@.snapshots, database_id),
    {
        rows::list(&self.snapshots, database_id)
    }

    /// The snapshot with the identifier.
    pub fn get_snapshot(&self, id: Id) -> (r: Result<Snapshot, CoreError>)
        ensures
            match r {
                Ok(snapshot) => rows::taken(self@.snapshots, id) && snapshot == rows::row_of(
                    self@.snapshots,
                    id,
                ),
                Err(e) => !rows::taken(self@.snapshots, id) && records::is_missing(
                    e,
                    "snapshot "@,
                    id,
                ),
            },
    {
        match rows::find(&self.snapshots, id) {
            Some(k) => Ok(self.snapshots[k].clone()),
            None => Err(records::missing("snapshot ", id)),
        }
    }

    /// The snapshots of a server that were taken on a branch, the latest first.
    pub fn snapshots_on_branch(&self, server_id: Id, branch: &str) -> (r: Vec<&Snapshot>)
        ensures
            order::owned(r@) == branch_listing(self@, server_id, branch@),
    {
        let listed = self.list_snapshots(None);
        let ghost all = order::owned(listed@);
        let mut found: Vec<&Snapshot> = Vec::new();
        let mut keys: Vec<i128> = Vec::new();
        let mut i: usize = 0;
        proof {
            reveal(Seq::filter);
        }
        assert(order::owned(found@) =~= taken_on(all.take(0), server_id, branch@));
        while i < listed.len()
            invariant
                i <= listed@.len(),
                all == order::owned(listed@),
                order::owned(found@) == taken_on(all.take(i as int), server_id, branch@),
                keys@.len() == found@.len(),
                forall|j: int|
                    0 <= j < keys@.len() ==> (#[trigger] keys@[j]) == -1 - found@[j].created_at,
            decreases listed@.len() - i,
        {
            let s = listed[i];
            let ghost before = order::owned(found@);
            proof {
                reveal(Seq::filter);
                assert(all.take(i + 1).drop_last() =~= all.take(i as int));
                assert(all.take(i + 1).last() == *s);
            }
            let on_it = match &s.git_branch {
                Some(b) => text::same_text(b.as_str(), branch),
                None => false,
            };
            if s.server_id == server_id && on_it {
                found.push(s);
                keys.push(-1 - s.created_at);
                assert(order::owned(found@) =~= before.push(*s));
            }
            i = i + 1;
        }
        assert(all.take(i as int) =~= all);
        let ghost chosen = order::owned(found@);
        assert(order::ints(keys@) =~= latest_first(chosen));
        let places = order::order_by(&keys);
        let mut out: Vec<&Snapshot> = Vec::new();
        let mut n: usize = 0;
        while n < places.len()
            invariant
                n <= places@.len(),
                places@.len() == found@.len(),
                forall|j: int| 0 <= j < places@.len() ==> (#[trigger] places@[j]) < found@.len(),
                out@.len() == n,
                forall|j: int| 0 <= j < n ==> (#[trigger] out@[j]) == found@[places@[j] as int],
            decreases places@.len() - n,
        {
            out.push(found[places[n]]);
            n = n + 1;
        }
        let ghost wanted = branch_listing(self@, server_id, branch@);
        assert(order::owned(out@) =~= wanted) by {
            assert forall|j: int| 0 <= j < out@.len() implies order::owned(out@)[j]
                == wanted[j] by {
                assert(out@[j] == found@[places@[j] as int]);
                assert(order::places(places@)[j] == places@[j]);
            }
        }
        out
    }

    /// Notes a snapshot that was taken: `copied` says whether the database, and the files where
    /// there are any, were copied.
    pub fn create_snapshot(
        &mut self,
        id: Id,
        database_id: Id,
        snapshot_database_name: String,
        name: String,
        filestore_snapshot_path: Option<String>,
        git_branch: Option<String>,
        copied: Result<(), CoreError>,
        took_ms: u64,
        stamp: &Stamp,
    ) -> (r: Result<Snapshot, CoreError>)
        ensures
            match copied {
                Ok(_) => snapshot_made(
                    old(self)@,
                    final(self)@,
                    r,
                    id,
                    database_id,
                    snapshot_database_name,
                    name,
                    filestore_snapshot_path,
                    git_branch,
                    took_ms,
                    *stamp,
                ),
                Err(e) => r == Err::<Snapshot, CoreError>(e) && final(self)@ == old(self)@,
            },
            records::sound(old(self)@) ==> records::sound(final(self)@),
    {
        if let Err(e) = copied {
            return Err(e);
        }
        let database = match self.get_database(database_id) {
            Ok(database) => database,
            Err(e) => {
                return Err(e);
            },
        };
        if rows::find(&self.servers, database.server_id).is_none() {
            return Err(records::missing("server ", database.server_id));
        }
        if rows::find(&self.snapshots, id).is_some() {
            return Err(records::taken_error("snapshots"));
        }
        let has_filestore = filestore_snapshot_path.is_some();
        let snapshot = Snapshot::new(
            id,
            database.server_id,
            database_id,
            database.name,
            snapshot_database_name,
            name,
            filestore_snapshot_path,
            stamp.now,
        ).on_branch(git_branch);
        proof {
            if records::sound(self@) {
                rows::lemma_push_distinct(self@.snapshots, snapshot);
            }
        }
        self.snapshots.push(snapshot.clone());
        if let Err(e) = self.can_record(stamp) {
            return Err(e);
        }
        let name = snapshot.name.clone();
        self.record(
            stamp,
            Some(took_ms),
            Event::SnapshotCreated { snapshot_id: id, database_id, name, has_filestore },
        );
        Ok(snapshot)
    }

    /// Forgets a snapshot: `removed` says whether its database and its files were removed.
    pub fn delete_snapshot(&mut self, id: Id, removed: Result<(), CoreError>, stamp: &Stamp) -> (r:
        Result<(), CoreError>)
        ensures
            snapshot_gone(old(self)@, final(self)@, r, id, removed, *stamp),
            records::sound(old(self)@) ==> records::sound(final(self)@),
    {
        let k = match rows::find(&self.snapshots, id) {
            Some(k) => k,
            None => {
                return Err(records::missing("snapshot ", id));
            },
        };
        if let Err(e) = removed {
            return Err(e);
        }
        proof {
            if records::sound(self@) {
                rows::lemma_remove(self@.snapshots, k as int, 0);
                lemma_removed_snapshot(self@, k as int);
            }
        }
        self.snapshots.remove(k);
        if let Err(e) = self.can_record(stamp) {
            return Err(e);
        }
        self.record(stamp, None, Event::SnapshotDeleted { snapshot_id: id });
        Ok(())
    }

    /// Plans to go back to a snapshot. It has to be a snapshot of this database; and where the
    /// files are asked for, it has to hold files. One that holds files is never gone back to
    /// without them, so there has to be a folder for them.
    pub fn plan_revert(
        &self,
        database_id: Id,
        snapshot_id: Id,
        filestore_target: Option<String>,
        env: &Environment,
        around: &Surroundings,
    ) -> (r: Result<Revert, CoreError>)
        ensures
            is_way_back(r, self@, *env, *around, database_id, snapshot_id, filestore_target),
    {
        let database = match self.get_database(database_id) {
            Ok(database) => database,
            Err(e) => {
                return Err(e);
            },
        };
        let snapshot = match self.get_snapshot(snapshot_id) {
            Ok(snapshot) => snapshot,
            Err(e) => {
                return Err(e);
            },
        };
        if snapshot.database_id != database_id {
            return Err(CoreError::SnapshotNotForDatabase { snapshot_id, database_id });
        }
        if filestore_target.is_some() && snapshot.filestore_snapshot_path.is_none() {
            return Err(CoreError::SnapshotHasNoFilestore { snapshot_id });
        }
        let target = match filestore_target {
            Some(target) => Some(target),
            None => env.database_files(database.server_id, database.name.as_str()),
        };
        let files = match (snapshot.filestore_snapshot_path, target) {
            (Some(from), Some(to)) => Some(FilesCopy { from, to }),
            (Some(_), None) => {
                return Err(
                    CoreError::NotConfigured("no data folder is configured for this app".to_owned()),
                );
            },
            (None, _) => None,
        };
        match self.server_connection(database.server_id, around) {
            Ok((_, conn)) => Ok(
                Revert {
                    conn,
                    database_name: database.name,
                    snapshot_database_name: snapshot.snapshot_database_name,
                    files,
                },
            ),
            Err(e) => Err(e),
        }
    }

    /// Notes that a database went back to a snapshot. No record of it changes: it is the same
    /// database, with other contents.
    pub fn revert_database_to_snapshot(
        &mut self,
        database_id: Id,
        snapshot_id: Id,
        counter_snapshot_id: Option<Id>,
        took_ms: u64,
        stamp: &Stamp,
    ) -> (r: Result<(), CoreError>)
        ensures
            match r {
                Ok(_) => {
                    &&& records::may_tell(old(self)@, *stamp)
                    &&& final(self)@ == records::told(
                        old(self)@,
                        *stamp,
                        Some(took_ms),
                        Event::DatabaseRevertedToSnapshot {
                            database_id,
                            snapshot_id,
                            counter_snapshot_id,
                        },
                    )
                },
                Err(e) => {
                    &&& final(self)@ == old(self)@
                    &&& !records::may_tell(old(self)@, *stamp)
                    &&& rows::is_taken_error(e, "events"@)
                },
            },
            records::sound(old(self)@) ==> records::sound(final(self)@),
    {
        if let Err(e) = self.can_record(stamp) {
            return Err(e);
        }
        self.record(
            stamp,
            Some(took_ms),
            Event::DatabaseRevertedToSnapshot { database_id, snapshot_id, counter_snapshot_id },
        );
        Ok(())
    }
}

proof fn lemma_removed_snapshot(s: State, k: int)
    requires
        0 <= k < s.snapshots.len(),
        records::servers_are_there(s),
    ensures
        records::servers_are_there(State { snapshots: s.snapshots.remove(k), ..s }),
{
    let out = s.snapshots.remove(k);
    assert forall|i: int| 0 <= i < out.len() implies rows::taken(
        s.servers,
        (#[trigger] out[i]).server_id,
    ) by {
        let p = if i < k { i } else { i + 1 };
        assert(out[i] == s.snapshots[p]);
    }
}

/// A snapshot outlives the database that it was taken of: it is there, as it was, once the
/// database is gone.
pub proof fn law_a_snapshot_outlives_its_database(
    before: State,
    after: State,
    r: Result<(), CoreError>,
    database_id: Id,
    installs: Seq<records::ModuleInstall>,
    stamp: Stamp,
)
    requires
        databases::database_gone(before, after, r, database_id, installs, stamp),
    ensures
        after.snapshots == before.snapshots,
{
}

/// On a branch are listed exactly the snapshots of the server that were taken on it.
pub proof fn law_a_branch_lists_its_snapshots(
    s: State,
    server_id: Id,
    branch: Seq<char>,
    snapshot: Snapshot,
)
    ensures
        branch_listing(s, server_id, branch).contains(snapshot) <==> {
            &&& s.snapshots.contains(snapshot)
            &&& snapshot.server_id == server_id
            &&& snapshot.git_branch matches Some(b) && b@ == branch
        },
{
    let all = rows::listing(s.snapshots, None);
    let found = taken_on(all, server_id, branch);
    let member = |t: Snapshot|
        t.server_id == server_id && text::opt_view(t.git_branch) == Some(branch);
    assert(found == all.filter(member));
    rows::law_a_listing_is_complete(s.snapshots, 0, snapshot);
    let keys = latest_first(found);
    order::lemma_order_of(keys);
    let places = order::order_of(keys);
    let out = branch_listing(s, server_id, branch);
    if s.snapshots.contains(snapshot) && member(snapshot) {
        let i = choose|i: int| 0 <= i < all.len() && all[i] == snapshot;
        all.lemma_filter_contains(member, i);
        let p = choose|p: int| 0 <= p < found.len() && found[p] == snapshot;
        assert(places.contains(p));
        let k = choose|k: int| 0 <= k < places.len() && places[k] == p;
        assert(out[k] == snapshot);
    }
    if out.contains(snapshot) {
        let k = choose|k: int| 0 <= k < out.len() && out[k] == snapshot;
        assert(found[places[k]] == snapshot);
        all.lemma_filter_pred(member, places[k]);
        rows::lemma_filtered_is_there(all, member, snapshot);
    }
}

/// Going back drops the database and then copies the snapshot over it, once each. The present is
/// kept where that is asked for; files are put back where the snapshot has any, and what was in
/// their place goes first.
pub proof fn law_going_back_does_what_is_needed(counter: bool, files: bool, target_exists: bool)
    ensures
        ({
            let steps = steps_back(counter, files, target_exists);
            let c = if counter {
                1int
            } else {
                0
            };
            &&& steps.contains(RevertStep::TakeCounterSnapshot) <==> counter
            &&& steps.contains(RevertStep::RestoreFiles) <==> files
            &&& steps.contains(RevertStep::RemoveFiles) <==> files && target_exists
            &&& steps[c] == RevertStep::DropDatabase
            &&& steps[c + 1] == RevertStep::CopyDatabase
            &&& files ==> steps.last() == RevertStep::RestoreFiles
            &&& files && target_exists ==> steps[c + 2] == RevertStep::RemoveFiles
            &&& steps.no_duplicates()
        }),
{
    let steps = steps_back(counter, files, target_exists);
    let c = if counter {
        1int
    } else {
        0
    };
    assert(steps[0] == if counter {
        RevertStep::TakeCounterSnapshot
    } else {
        RevertStep::DropDatabase
    });
    if files {
        assert(steps.last() == RevertStep::RestoreFiles);
        if target_exists {
            assert(steps[c + 2] == RevertStep::RemoveFiles);
        }
    }
}

/// Files go to a folder named like the snapshot, from where the caller says to where the caller
/// says; where the caller says nothing, from the database's own files to the folder of snapshots.
pub proof fn law_a_snapshot_takes_the_files_along(
    from: Seq<char>,
    root: Seq<char>,
    own: Option<Seq<char>>,
    dir: Option<Seq<char>>,
    name: Seq<char>,
)
    ensures
        files_taken(Some(from), Some(root), own, dir, name) == Some((from, paths::under(root, name))),
        files_taken(None, None, Some(from), Some(root), name) == Some(
            (from, paths::under(root, name)),
        ),
        files_taken(None, None, None, dir, name) is None,
        files_taken(None, None, own, None, name) is None,
        files_taken(Some(from), None, own, dir, name) is None,
        files_taken(None, Some(root), own, dir, name) is None,
{
}

/// A snapshot that was taken is kept beside the others, says which database it is of and when,
/// and changes nothing else but the record of what happened.
pub proof fn law_a_snapshot_is_of_its_database(
    before: State,
    after: State,
    r: Result<Snapshot, CoreError>,
    id: Id,
    database_id: Id,
    snapshot_database_name: String,
    name: String,
    filestore_snapshot_path: Option<String>,
    git_branch: Option<String>,
    took_ms: u64,
    stamp: Stamp,
)
    requires
        snapshot_made(
            before,
            after,
            r,
            id,
            database_id,
            snapshot_database_name,
            name,
            filestore_snapshot_path,
            git_branch,
            took_ms,
            stamp,
        ),
    ensures
        r matches Ok(snapshot) ==> {
            &&& after.snapshots == before.snapshots.push(snapshot)
            &&& snapshot.id == id
            &&& snapshot.database_id == database_id
            &&& snapshot.snapshot_database_name == snapshot_database_name
            &&& snapshot.name == name
            &&& snapshot.git_branch == git_branch
            &&& snapshot.filestore_snapshot_path == filestore_snapshot_path
            &&& snapshot.created_at == stamp.now
            &&& exists|k: int|
                {
                    &&& 0 <= k < before.databases.len()
                    &&& (#[trigger] before.databases[k]).id == database_id
                    &&& before.databases[k].server_id == snapshot.server_id
                    &&& before.databases[k].name == snapshot.source_database_name
                }
            &&& after.events.drop_last() == before.events
            &&& after.events.last().occurred_at == stamp.now
            &&& after.events.last().event == (Event::SnapshotCreated {
                snapshot_id: id,
                database_id,
                name,
                has_filestore: filestore_snapshot_path is Some,
            })
        },
        after.databases == before.databases,
        after.servers == before.servers,
        after.sources == before.sources,
        after.instances == before.instances,
        after.projects == before.projects,
        after.installs == before.installs,
        r is Err ==> after.events == before.events,
        r is Err && (forall|k: int|
            0 <= k < before.databases.len() ==> (#[trigger] before.databases[k]).id != database_id)
            ==> after.snapshots == before.snapshots,
{
    if r is Ok {
        rows::lemma_place_of(before.databases, database_id);
        let k = rows::place_of(before.databases, database_id) as int;
        assert(before.databases[k].id == database_id);
    } else if rows::taken(before.databases, database_id) {
        rows::lemma_place_of(before.databases, database_id);
        let k = rows::place_of(before.databases, database_id) as int;
        assert(before.databases[k].id == database_id);
    }
}

/// A way back leads from the snapshot to the database that it was taken of, with the files of the
/// snapshot to where they are asked for; there is none from a snapshot of another database, nor
/// with files that the snapshot has not got.
pub proof fn law_a_way_back_leads_to_the_own_database(
    r: Result<Revert, CoreError>,
    s: State,
    env: Environment,
    around: Surroundings,
    database: Database,
    snapshot: Snapshot,
    filestore_target: Option<String>,
)
    requires
        is_way_back(r, s, env, around, database.id, snapshot.id, filestore_target),
        rows::distinct(s.databases),
        rows::distinct(s.snapshots),
        s.databases.contains(database),
        s.snapshots.contains(snapshot),
    ensures
        r matches Ok(plan) ==> {
            &&& snapshot.database_id == database.id
            &&& plan.database_name == database.name
            &&& plan.snapshot_database_name == snapshot.snapshot_database_name
            &&& plan.files is Some <==> snapshot.filestore_snapshot_path is Some
            &&& plan.files matches Some(files) ==> {
                &&& Some(files.from) == snapshot.filestore_snapshot_path
                &&& filestore_target matches Some(asked) ==> files.to@ == asked@
                &&& filestore_target is None ==> Some(files.to@) == environment::files_of(
                    env,
                    database.server_id,
                    database.name@,
                )
            }
        },
        snapshot.database_id != database.id ==> r == Err::<Revert, CoreError>(
            CoreError::SnapshotNotForDatabase {
                snapshot_id: snapshot.id,
                database_id: database.id,
            },
        ),
        snapshot.database_id == database.id && filestore_target is Some
            && snapshot.filestore_snapshot_path is None ==> r == Err::<Revert, CoreError>(
            CoreError::SnapshotHasNoFilestore { snapshot_id: snapshot.id },
        ),
{
    rows::law_a_record_is_found_by_its_identifier(s.databases, database, database.id);
    rows::law_a_record_is_found_by_its_identifier(s.snapshots, snapshot, snapshot.id);
}

/// A snapshot is deleted where what it holds is removed; no other snapshot goes, and nothing else
/// changes but the record of what happened.
pub proof fn law_only_the_named_snapshot_goes(
    before: State,
    after: State,
    r: Result<(), CoreError>,
    id: Id,
    removed: Result<(), CoreError>,
    stamp: Stamp,
    s: Snapshot,
)
    requires
        snapshot_gone(before, after, r, id, removed, stamp),
        rows::distinct(before.snapshots),
    ensures
        after.snapshots.contains(s) ==> before.snapshots.contains(s),
        before.snapshots.contains(s) && s.id != id ==> after.snapshots.contains(s),
        removed is Ok && s.id == id ==> !after.snapshots.contains(s),
        removed is Err ==> after == before && r is Err,
        r is Ok ==> after.events.drop_last() == before.events && after.events.last().event == (
        Event::SnapshotDeleted { snapshot_id: id }),
        after.databases == before.databases,
        after.servers == before.servers,
{
    let k = rows::place_of(before.snapshots, id) as int;
    let out = before.snapshots.remove(k);
    if rows::taken(before.snapshots, id) {
        rows::lemma_place_of(before.snapshots, id);
        assert(before.snapshots[k].id == id);
        if before.snapshots.contains(s) {
            let i = choose|i: int| 0 <= i < before.snapshots.len() && before.snapshots[i] == s;
            if i < k {
                assert(out[i] == s);
            } else if i > k {
                assert(out[i - 1] == s);
            }
        }
        if out.contains(s) {
            let j = choose|j: int| 0 <= j < out.len() && out[j] == s;
            let i = if j < k {
                j
            } else {
                j + 1
            };
            assert(before.snapshots[i] == s);
            if i < k {
                assert(before.snapshots[i].row_id() != before.snapshots[k].row_id());
            } else {
                assert(before.snapshots[k].row_id() != before.snapshots[i].row_id());
            }
        }
    } else if before.snapshots.contains(s) && s.id == id {
        let i = choose|i: int| 0 <= i < before.snapshots.len() && before.snapshots[i] == s;
        assert(before.snapshots[i].row_id() == id);
    }
}

/// The name of a snapshot begins with what the database is called: its first letters, those that
/// are not plain as underscores; it ends with the identifier.
pub proof fn law_a_snapshot_is_named_after_its_database(source: Seq<char>, id: Id, i: int)
    ensures
        "snap_"@.is_prefix_of(snapshot_name(source, id)),
        codec::simple_text(id).is_suffix_of(snapshot_name(source, id)),
        0 <= i < source.len() && i < 25 ==> snapshot_name(source, id)[5 + i] == (if is_plain(
            source[i],
        ) {
            source[i]
        } else {
            '_'
        }),
        snapshot_name(source, id).len() == 6 + codec::simple_text(id).len() + if source.len() < 25 {
            source.len()
        } else {
            25
        },
{
    reveal_strlit("snap_");
    reveal_strlit("_");
    let whole = snapshot_name(source, id);
    let tail = codec::simple_text(id);
    assert(whole.subrange(0, 5) =~= "snap_"@);
    assert(whole.subrange(whole.len() - tail.len(), whole.len() as int) =~= tail);
}

} // verus!
