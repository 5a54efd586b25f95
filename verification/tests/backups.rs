//! Backups that are found again.

use orchestrator_core::backups::{backup_file, filestore_beside, read_source, BackupFile};
use orchestrator_core::records::{Core, Stamp};

const ID: u128 = 0x1234_5678_9abc_def0_1234_5678_9abc_def0;
const ID_TEXT: &str = "12345678-9abc-def0-1234-56789abcdef0";

fn stamp(n: u128) -> Stamp {
    Stamp { event_id: 1_000_000 + n, now: n as i128 }
}

fn file(name: &str, modified: i128) -> BackupFile {
    BackupFile {
        path: format!("/backups/{name}"),
        file_name: name.to_string(),
        size_bytes: 7,
        modified: Some(modified),
        has_filestore: false,
    }
}

fn core_with_database(id: u128, name: &str) -> Core {
    let mut core = Core::new();
    core.create_postgres_instance(
        500,
        "test".to_string(),
        "16".to_string(),
        0,
        "/tmp/pg".to_string(),
        &stamp(1),
    )
    .unwrap();
    core.create_server(10, "acme".to_string(), "17.0".to_string(), 8069, 500, &stamp(2)).unwrap();
    core.create_database(id, 10, name.to_string(), Ok(()), 5, &stamp(3)).unwrap();
    core
}

#[test]
fn a_backup_can_be_found_again_by_the_app_that_took_it() {
    let mut core = core_with_database(ID, "acme_live");
    assert!(core.list_backups(&vec![], 0).is_empty(), "nothing taken yet");
    let path = backup_file("/backups", "acme_live", ID);
    assert_eq!(path, format!("/backups/acme_live-{ID_TEXT}.sql"));
    let taken = || vec![file(&format!("acme_live-{ID_TEXT}.sql"), 5)];
    let found = core.list_backups(&taken(), 9);
    assert_eq!(found.len(), 1);
    assert_eq!(found[0].database_name, "acme_live");
    assert_eq!(found[0].database_id, Some(ID));
    assert!(found[0].source_still_exists);
    assert!(found[0].size_bytes > 0);

    core.drop_database(ID, Ok(()), &stamp(9)).unwrap();
    let after = core.list_backups(&taken(), 9);
    assert_eq!(after.len(), 1, "dropping the database must not lose its backup");
    assert!(!after[0].source_still_exists, "and the list must say the original is gone");
}

#[test]
fn a_backup_deleted_outside_the_app_stops_being_listed() {
    let core = Core::new();
    let there = vec![file(&format!("acme-{ID_TEXT}.sql"), 5)];
    assert_eq!(core.list_backups(&there, 9).len(), 1);
    assert!(core.list_backups(&vec![], 9).is_empty());
}

/// An identifier is full of hyphens, so the last one is not where the name ends.
#[test]
fn a_database_name_with_dashes_still_reads_back_correctly() {
    let core = Core::new();
    let found = core.list_backups(&vec![file(&format!("acme-retail-2024-{ID_TEXT}.sql"), 5)], 9);
    assert_eq!(found[0].database_name, "acme-retail-2024");
    assert_eq!(found[0].database_id, Some(ID));
}

#[test]
fn a_dump_this_app_did_not_write_is_still_listed() {
    let core = Core::new();
    let files = vec![file("from_the_client.sql", 5), file("notes.txt", 6)];
    let found = core.list_backups(&files, 9);
    assert_eq!(found.len(), 1, "only .sql files are dumps");
    assert_eq!(found[0].database_name, "from_the_client");
    assert_eq!(found[0].database_id, None);
    assert!(!found[0].source_still_exists);
}

/// The latest comes first; one of unknown age counts as taken now.
#[test]
fn the_latest_backup_comes_first() {
    let core = Core::new();
    let mut unknown = file("c.sql", 0);
    unknown.modified = None;
    let found = core.list_backups(&vec![file("a.sql", 1), file("b.sql", 3), unknown], 2);
    let names: Vec<&str> = found.iter().map(|b| b.database_name.as_str()).collect();
    assert_eq!(names, vec!["b", "c", "a"]);
    assert_eq!(found[1].taken_at, 2);
}

#[test]
fn a_stem_names_its_database() {
    assert_eq!(read_source(&format!("x-{ID_TEXT}")), ("x".to_string(), Some(ID)));
    assert_eq!(read_source(ID_TEXT), (ID_TEXT.to_string(), None));
    assert_eq!(
        read_source("x-123456789abcdef0123456789abcdef0"),
        ("x".to_string(), Some(ID)),
        "an identifier without hyphens stands behind the last one"
    );
    assert_eq!(read_source("a-b"), ("a-b".to_string(), None));
    assert_eq!(read_source(&format!("x--{ID_TEXT}")), ("x-".to_string(), Some(ID)));
}

#[test]
fn the_files_of_a_backup_lie_beside_it() {
    assert_eq!(filestore_beside("/backups/acme.sql"), "/backups/acme.filestore");
    assert_eq!(filestore_beside("/backups/acme.sql/"), "/backups/acme.filestore");
    assert_eq!(filestore_beside("/backups/acme.sql/./"), "/backups/acme.filestore");
    assert_eq!(filestore_beside("/"), "/");
    assert_eq!(filestore_beside("./."), "./.");
    assert_eq!(filestore_beside("a/.."), "a/..");
}

/// Of a database whose name ends in a hyphen the whole name is found again.
#[test]
fn a_backup_names_its_database_in_full() {
    let core = core_with_database(ID, "acme-");
    let stem = format!("acme--{ID_TEXT}");
    assert_eq!(backup_file("/backups", "acme-", ID), format!("/backups/{stem}.sql"));
    let found = core.list_backups(&vec![file(&format!("{stem}.sql"), 5)], 9);
    assert_eq!(found[0].database_name, "acme-");
    assert_eq!(found[0].database_id, Some(ID));
}
