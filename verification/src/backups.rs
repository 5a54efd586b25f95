//! Backups of databases, as files that can be found again.

use crate::codec;
use crate::model::{Database, Id, Moment};
use crate::order;
use crate::paths;
use crate::records::Core;
use crate::rows;
use crate::text;
use vstd::prelude::*;
use vstd::string::*;

verus! {

/// The name that a backup goes by, without its extension.
pub open spec fn backup_stem(name: Seq<char>, id: Id) -> Seq<char> {
    name + "-"@ + codec::uuid_text(id)
}

/// The file that a database is backed up to.
pub fn backup_file(dest_dir: &str, name: &str, id: Id) -> (r: String)
    ensures
        r@ == paths::under(dest_dir@, backup_stem(name@, id) + ".sql"@),
{
    let mut file = text::joined(name, "-");
    file.append(codec::id_text(id).as_str());
    file.append(".sql");
    paths::join(dest_dir, file.as_str())
}

/// The folder beside a backup that holds the files.
pub fn filestore_beside(dump_file: &str) -> (r: String)
    ensures
        r@ == paths::extended(dump_file@, "filestore"@),
{
    paths::with_extension(dump_file, "filestore")
}

/// The database that a file name without its extension speaks of: its name and, where it can be
/// told, its identifier.
pub open spec fn source_of(stem: Seq<char>) -> (Seq<char>, Option<Id>) {
    let at_hyphen = match text::around_last(stem, '-') {
        Some((name, tail)) => if codec::uuid_in(tail) is Some {
            Some((name, codec::uuid_in(tail)))
        } else {
            None
        },
        None => None,
    };
    match at_hyphen {
        Some(found) => found,
        None => if stem.len() > 37 && stem[stem.len() - 37] == '-' {
            match codec::uuid_in(stem.skip(stem.len() - 36)) {
                Some(id) => (stem.take(stem.len() - 37), Some(id)),
                None => (stem, None),
            }
        } else {
            (stem, None)
        },
    }
}

/// The name of a backup tells the database that it was taken of, wherever that has hyphens in its
/// name.
pub proof fn law_a_backup_names_its_database(name: Seq<char>, id: Id)
    requires
        name.len() > 0,
    ensures
        source_of(backup_stem(name, id)) == (name, Some(id)),
{
    reveal_strlit("-");
    let uuid = codec::uuid_text(id);
    let stem = backup_stem(name, id);
    codec::lemma_uuid_text_shape(id);
    codec::law_an_id_reads_back(id);
    let k: int = name.len() as int + 24;
    assert(stem[k] == uuid[23]);
    assert forall|i: int| k < i < stem.len() implies #[trigger] stem[i] != '-' by {
        assert(stem[i] == uuid[i - name.len() - 1]);
    }
    text::lemma_last_at_is(stem, '-', k);
    let tail = stem.skip(k + 1);
    assert(tail.len() == 12);
    assert(codec::uuid_in(tail) is None) by {
        if codec::is_uuid_text(tail) {
            let other = choose|other: Id| #[trigger] codec::uuid_text(other) == tail;
            codec::lemma_uuid_text_shape(other);
        }
    }
    assert(stem.take(stem.len() - 37) =~= name);
    assert(stem.skip(stem.len() - 36) =~= uuid);
}

/// The database that a file name without its extension speaks of.
pub fn read_source(stem: &str) -> (r: (String, Option<Id>))
    ensures
        (r.0@, r.1) == source_of(stem@),
{
    if let Some((name, tail)) = text::split_last(stem, '-') {
        if let Some(id) = codec::parse_uuid(tail.as_str()) {
            return (name, Some(id));
        }
    }
    let chars = text::chars_of(stem);
    let count: usize = chars.len();
    if count > 37 && chars[count - 37] == '-' {
        let name = text::text_of_range(&chars, 0, count - 37);
        let tail = text::text_of_range(&chars, count - 36, count);
        assert(name@ =~= stem@.take(stem@.len() - 37));
        assert(tail@ =~= stem@.skip(stem@.len() - 36));
        if let Some(id) = codec::parse_uuid(tail.as_str()) {
            return (name, Some(id));
        }
    }
    (stem.to_owned(), None)
}

// --- listing --------------------------------------------------------------

/// A file in the folder of backups, as it is found there.
#[derive(Debug)]
pub struct BackupFile {
    pub path: String,
    pub file_name: String,
    pub size_bytes: u64,
    /// When it was last written, where that can be told.
    pub modified: Option<Moment>,
    /// Whether a folder with files stands beside it.
    pub has_filestore: bool,
}

/// A backup that can be restored.
#[derive(Debug)]
pub struct Backup {
    pub path: String,
    pub database_name: String,
    pub database_id: Option<Id>,
    pub source_still_exists: bool,
    pub has_filestore: bool,
    pub size_bytes: u64,
    pub taken_at: Moment,
}

/// A backup that can be restored.
pub struct BackupView {
    pub path: Seq<char>,
    pub database_name: Seq<char>,
    pub database_id: Option<Id>,
    pub source_still_exists: bool,
    pub has_filestore: bool,
    pub size_bytes: u64,
    pub taken_at: Moment,
}

impl View for Backup {
    type V = BackupView;

    open spec fn view(&self) -> BackupView {
        BackupView {
            path: self.path@,
            database_name: self.database_name@,
            database_id: self.database_id,
            source_still_exists: self.source_still_exists,
            has_filestore: self.has_filestore,
            size_bytes: self.size_bytes,
            taken_at: self.taken_at,
        }
    }
}

/// Backups.
pub open spec fn backup_views(backups: Seq<Backup>) -> Seq<BackupView> {
    backups.map_values(|b: Backup| b@)
}

/// The backup that a file is.
pub open spec fn backup_in(file: BackupFile, databases: Seq<Database>, now: Moment) -> BackupView {
    let (name, id) = source_of(paths::name_parts(file.file_name@).0);
    BackupView {
        path: file.path@,
        database_name: name,
        database_id: id,
        source_still_exists: id matches Some(id) && rows::taken(databases, id),
        has_filestore: file.has_filestore,
        size_bytes: file.size_bytes,
        taken_at: match file.modified {
            Some(t) => t,
            None => now,
        },
    }
}

/// The backups among files: those with the extension `sql`.
pub open spec fn backups_among(files: Seq<BackupFile>, databases: Seq<Database>, now: Moment) -> Seq<
    BackupView,
>
    decreases files.len(),
{
    if files.len() == 0 {
        Seq::empty()
    } else {
        let before = backups_among(files.drop_last(), databases, now);
        if paths::name_parts(files.last().file_name@).1 == Some("sql"@) {
            before.push(backup_in(files.last(), databases, now))
        } else {
            before
        }
    }
}

/// The times of backups, so that the latest counts least.
pub open spec fn latest_first(backups: Seq<BackupView>) -> Seq<int> {
    backups.map_values(|b: BackupView| -1 - b.taken_at)
}

/// The backups among files, the latest first.
pub open spec fn backup_listing(files: Seq<BackupFile>, databases: Seq<Database>, now: Moment) -> Seq<
    BackupView,
> {
    let found = backups_among(files, databases, now);
    order::at_places(found, order::order_of(latest_first(found)))
}

/// The latest backup comes first, and none is lost or added.
pub proof fn law_the_latest_backup_is_first(
    files: Seq<BackupFile>,
    databases: Seq<Database>,
    now: Moment,
)
    ensures
        backup_listing(files, databases, now).len() == backups_among(files, databases, now).len(),
        forall|i: int, j: int|
            0 <= i < j < backup_listing(files, databases, now).len() ==> (
            #[trigger] backup_listing(files, databases, now)[i]).taken_at >= (
            #[trigger] backup_listing(files, databases, now)[j]).taken_at,
        forall|b: BackupView|
            #[trigger] backup_listing(files, databases, now).contains(b) <==> backups_among(
                files,
                databases,
                now,
            ).contains(b),
{
    let found = backups_among(files, databases, now);
    let keys = latest_first(found);
    let places = order::order_of(keys);
    order::lemma_order_of(keys);
    let out = backup_listing(files, databases, now);
    assert forall|i: int, j: int| 0 <= i < j < out.len() implies (#[trigger] out[i]).taken_at >= (
    #[trigger] out[j]).taken_at by {
        assert(order::precedes(keys, places[i], places[j]));
        assert(keys[places[i]] == -1 - found[places[i]].taken_at);
        assert(keys[places[j]] == -1 - found[places[j]].taken_at);
    }
    assert forall|b: BackupView| #[trigger] out.contains(b) <==> found.contains(b) by {
        if found.contains(b) {
            let p = choose|p: int| 0 <= p < found.len() && found[p] == b;
            assert(places.contains(p));
            let i = choose|i: int| 0 <= i < places.len() && places[i] == p;
            assert(out[i] == b);
        }
        if out.contains(b) {
            let i = choose|i: int| 0 <= i < out.len() && out[i] == b;
            assert(found[places[i]] == b);
        }
    }
}

/// A file with the name that this application gives a backup of a database is listed as a backup
/// of that database.
pub proof fn law_a_backup_is_found_again(
    file: BackupFile,
    name: Seq<char>,
    id: Id,
    databases: Seq<Database>,
    now: Moment,
)
    requires
        name.len() > 0,
        file.file_name@ == backup_stem(name, id) + ".sql"@,
    ensures
        paths::name_parts(file.file_name@).1 == Some("sql"@),
        backup_in(file, databases, now).database_name == name,
        backup_in(file, databases, now).database_id == Some(id),
        backup_in(file, databases, now).source_still_exists == rows::taken(databases, id),
{
    reveal_strlit(".sql");
    reveal_strlit("sql");
    reveal_strlit("..");
    let stem = backup_stem(name, id);
    let full = file.file_name@;
    codec::lemma_uuid_text_shape(id);
    assert(full[stem.len() as int] == '.');
    text::lemma_last_at_is(full, '.', stem.len() as int);
    assert(full.take(stem.len() as int) =~= stem);
    assert(full.skip(stem.len() as int + 1) =~= "sql"@);
    assert(full.len() > 2);
    law_a_backup_names_its_database(name, id);
}

impl Core {
    /// The backups among the files of a folder, the latest first.
    pub fn list_backups(&self, files: &Vec<BackupFile>, now: Moment) -> (r: Vec<Backup>)
        ensures
            backup_views(r@) == backup_listing(files@, self@.databases, now),
    {
        let mut found: Vec<Backup> = Vec::new();
        let mut keys: Vec<i128> = Vec::new();
        let mut i: usize = 0;
        let ghost databases = self@.databases;
        assert(files@.take(0) =~= Seq::<BackupFile>::empty());
        assert(backup_views(found@) =~= backups_among(files@.take(0), databases, now));
        while i < files.len()
            invariant
                i <= files@.len(),
                databases == self@.databases,
                backup_views(found@) == backups_among(files@.take(i as int), databases, now),
                keys@.len() == found@.len(),
                forall|j: int|
                    0 <= j < keys@.len() ==> (#[trigger] keys@[j]) == -1 - found@[j].taken_at,
            decreases files@.len() - i,
        {
            let file = &files[i];
            let ghost before = backup_views(found@);
            proof {
                assert(files@.take(i + 1).drop_last() =~= files@.take(i as int));
                assert(files@.take(i + 1).last() == *file);
            }
            let (stem, extension) = paths::split_name(file.file_name.as_str());
            let is_backup = match &extension {
                Some(e) => text::same_text(e.as_str(), "sql"),
                None => false,
            };
            if is_backup {
                let (database_name, database_id) = read_source(stem.as_str());
                let source_still_exists = match database_id {
                    Some(id) => rows::find(&self.databases, id).is_some(),
                    None => false,
                };
                let taken_at = match file.modified {
                    Some(t) => t,
                    None => now,
                };
                let backup = Backup {
                    path: file.path.clone(),
                    database_name,
                    database_id,
                    source_still_exists,
                    has_filestore: file.has_filestore,
                    size_bytes: file.size_bytes,
                    taken_at,
                };
                let ghost shown = backup@;
                keys.push(-1 - taken_at);
                found.push(backup);
                assert(shown == backup_in(*file, databases, now));
                assert(backup_views(found@) =~= before.push(shown));
            }
            i = i + 1;
        }
        assert(files@.take(i as int) =~= files@);
        let ghost chosen = backup_views(found@);
        assert(order::ints(keys@) =~= latest_first(chosen));
        let places = order::order_by(&keys);
        let mut out: Vec<Backup> = Vec::new();
        let mut n: usize = 0;
        while n < places.len()
            invariant
                n <= places@.len(),
                places@.len() == found@.len(),
                chosen == backup_views(found@),
                forall|j: int| 0 <= j < places@.len() ==> (#[trigger] places@[j]) < found@.len(),
                out@.len() == n,
                forall|j: int| 0 <= j < n ==> (#[trigger] out@[j])@ == chosen[places@[j] as int],
            decreases places@.len() - n,
        {
            out.push(same_backup(&found[places[n]]));
            n = n + 1;
        }
        let ghost wanted = backup_listing(files@, databases, now);
        assert(backup_views(out@) =~= wanted) by {
            assert forall|j: int| 0 <= j < out@.len() implies backup_views(out@)[j]
                == wanted[j] by {
                assert(out@[j]@ == chosen[places@[j] as int]);
                assert(order::places(places@)[j] == places@[j]);
            }
        }
        out
    }
}

fn same_backup(b: &Backup) -> (r: Backup)
    ensures
        r@ == b@,
{
    Backup {
        path: b.path.clone(),
        database_name: b.database_name.clone(),
        database_id: b.database_id,
        source_still_exists: b.source_still_exists,
        has_filestore: b.has_filestore,
        size_bytes: b.size_bytes,
        taken_at: b.taken_at,
    }
}

/// Every dump in the folder is listed, with its size, its time and its files, and nothing else.
pub proof fn law_every_dump_is_listed(
    r: Seq<Backup>,
    files: Seq<BackupFile>,
    databases: Seq<Database>,
    now: Moment,
    f: int,
    stem: Seq<char>,
    b: int,
)
    requires
        backup_views(r) == backup_listing(files, databases, now),
    ensures
        0 <= f < files.len() && stem.len() > 0 && files[f].file_name@ == stem + ".sql"@
            ==> exists|k: int|
            {
                &&& 0 <= k < r.len()
                &&& (#[trigger] r[k]).path@ == files[f].path@
                &&& r[k].size_bytes == files[f].size_bytes
                &&& r[k].has_filestore == files[f].has_filestore
                &&& r[k].taken_at == (if files[f].modified is Some {
                    files[f].modified->0
                } else {
                    now
                })
                &&& (r[k].database_name@, r[k].database_id) == source_of(stem)
                &&& r[k].source_still_exists <==> r[k].database_id is Some && exists|d: int|
                    0 <= d < databases.len() && (#[trigger] databases[d]).id
                        == r[k].database_id->0
            },
        0 <= b < r.len() ==> exists|k: int|
            {
                &&& 0 <= k < files.len()
                &&& (#[trigger] files[k]).path@ == r[b].path@
                &&& ".sql"@.is_suffix_of(files[k].file_name@)
                &&& files[k].size_bytes == r[b].size_bytes
            },
{
    let out = backup_listing(files, databases, now);
    let found = backups_among(files, databases, now);
    law_the_latest_backup_is_first(files, databases, now);
    assert(out.len() == r.len());
    reveal_strlit(".sql");
    reveal_strlit("sql");
    reveal_strlit("..");
    if 0 <= f < files.len() && stem.len() > 0 && files[f].file_name@ == stem + ".sql"@ {
        let full = files[f].file_name@;
        assert(full[stem.len() as int] == '.');
        text::lemma_last_at_is(full, '.', stem.len() as int);
        assert(full.take(stem.len() as int) =~= stem);
        assert(full.skip(stem.len() as int + 1) =~= "sql"@);
        let x = backup_in(files[f], databases, now);
        lemma_among(files, databases, now, x);
        assert(found.contains(x));
        assert(out.contains(x));
        let k = choose|k: int| 0 <= k < out.len() && out[k] == x;
        assert(backup_views(r)[k] == r[k]@);
        if rows::taken(databases, r[k].database_id->0) {
            rows::lemma_place_of(databases, r[k].database_id->0);
            assert(rows::row_of(databases, r[k].database_id->0).id == r[k].database_id->0);
        }
        assert(r[k].path@ == files[f].path@);
    }
    if 0 <= b < r.len() {
        assert(backup_views(r)[b] == r[b]@);
        assert(out.contains(out[b]));
        assert(found.contains(out[b]));
        lemma_among(files, databases, now, out[b]);
        let k = choose|k: int|
            {
                &&& 0 <= k < files.len()
                &&& paths::name_parts((#[trigger] files[k]).file_name@).1 == Some("sql"@)
                &&& backup_in(files[k], databases, now) == out[b]
            };
        let full = files[k].file_name@;
        let n = text::last_at(full, '.');
        text::lemma_last_at_holds(full, '.');
        assert(full.skip(n + 1) == "sql"@);
        assert(full.len() == n + 4);
        assert(full.skip(n) =~= ".sql"@) by {
            assert forall|i: int| 0 <= i < 4 implies full.skip(n)[i] == ".sql"@[i] by {
                if i > 0 {
                    assert(full.skip(n)[i] == full.skip(n + 1)[i - 1]);
                }
            }
        }
        assert(full.subrange(full.len() - 4, full.len() as int) =~= full.skip(n));
        assert(files[k].path@ == r[b].path@);
    }
}

proof fn lemma_among(files: Seq<BackupFile>, databases: Seq<Database>, now: Moment, b: BackupView)
    ensures
        backups_among(files, databases, now).contains(b) <==> exists|k: int|
            {
                &&& 0 <= k < files.len()
                &&& paths::name_parts((#[trigger] files[k]).file_name@).1 == Some("sql"@)
                &&& backup_in(files[k], databases, now) == b
            },
    decreases files.len(),
{
    if files.len() > 0 {
        let rest = files.drop_last();
        lemma_among(rest, databases, now, b);
        let before = backups_among(rest, databases, now);
        vstd::seq_lib::lemma_seq_contains_after_push(
            before,
            backup_in(files.last(), databases, now),
            b,
        );
        assert(forall|k: int| 0 <= k < rest.len() ==> rest[k] == files[k]);
        assert(files[files.len() - 1] == files.last());
        if before.contains(b) {
            let k = choose|k: int|
                {
                    &&& 0 <= k < rest.len()
                    &&& paths::name_parts((#[trigger] rest[k]).file_name@).1 == Some("sql"@)
                    &&& backup_in(rest[k], databases, now) == b
                };
            assert(files[k] == rest[k]);
        }
        if exists|k: int|
            {
                &&& 0 <= k < files.len()
                &&& paths::name_parts((#[trigger] files[k]).file_name@).1 == Some("sql"@)
                &&& backup_in(files[k], databases, now) == b
            } {
            let k = choose|k: int|
                {
                    &&& 0 <= k < files.len()
                    &&& paths::name_parts((#[trigger] files[k]).file_name@).1 == Some("sql"@)
                    &&& backup_in(files[k], databases, now) == b
                };
            if k < rest.len() {
                assert(rest[k] == files[k]);
            }
        }
    }
}

/// What is read out of a name is there: either the whole name, or what stands before a hyphen
/// with an identifier behind it.
pub proof fn law_a_source_is_read_off_the_name(stem: Seq<char>)
    ensures
        match source_of(stem).1 {
            None => source_of(stem).0 == stem,
            Some(id) => exists|n: int|
                {
                    &&& 0 <= n < stem.len()
                    &&& stem[n] == '-'
                    &&& source_of(stem).0 == stem.take(n)
                    &&& codec::uuid_in(#[trigger] stem.skip(n + 1)) == Some(id)
                },
        },
{
    if let Some(id) = source_of(stem).1 {
        let k = text::last_at(stem, '-');
        text::lemma_last_at_holds(stem, '-');
        if k >= 0 && codec::uuid_in(stem.skip(k + 1)) is Some {
            assert(codec::uuid_in(stem.skip(k + 1)) == Some(id));
        } else {
            let n = stem.len() - 37;
            assert(codec::uuid_in(stem.skip(n + 1)) == Some(id));
        }
    }
}

/// Before they are put in order, the backups stand in the order of the folder, each once.
pub proof fn law_every_dump_is_a_backup_once(
    files: Seq<BackupFile>,
    databases: Seq<Database>,
    now: Moment,
)
    ensures
        backups_among(files, databases, now) == files.filter(
            |f: BackupFile| paths::name_parts(f.file_name@).1 == Some("sql"@),
        ).map_values(|f: BackupFile| backup_in(f, databases, now)),
    decreases files.len(),
{
    let pick = |f: BackupFile| paths::name_parts(f.file_name@).1 == Some("sql"@);
    let turn = |f: BackupFile| backup_in(f, databases, now);
    order::lemma_picked(files, pick, turn);
    if files.len() > 0 {
        law_every_dump_is_a_backup_once(files.drop_last(), databases, now);
    }
}

} // verus!
