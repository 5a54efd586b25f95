//! Copies of filestores.

use orchestrator_core::filestore::{
    copy_directory, snapshot_directory, CopyStep, FileMode, FilestoreError, StoreItem,
};

fn file(name: &str) -> StoreItem {
    StoreItem::File { name: name.to_string() }
}

fn folder(name: &str, items: Vec<StoreItem>) -> StoreItem {
    StoreItem::Folder { name: name.to_string(), items }
}

#[test]
fn hardlinks_every_regular_file_and_recreates_directory_structure() {
    let entries = Some(vec![
        folder("checksum-ab", vec![file("abc123")]),
        folder("checksum-cd", vec![file("cde456")]),
    ]);
    let plan = snapshot_directory("/source", &entries, "/snapshot-1", false).unwrap();
    assert_eq!(plan.stats.files_linked, 2);
    assert_eq!(plan.stats.dirs_created, 3, "source root + two subdirectories");
    let carried: Vec<(&str, &str)> = plan
        .steps
        .iter()
        .filter_map(|s| match s {
            CopyStep::Carry { from, to, mode } => {
                assert!(matches!(mode, FileMode::Hardlink));
                Some((from.as_str(), to.as_str()))
            }
            _ => None,
        })
        .collect();
    assert_eq!(
        carried,
        vec![
            ("/source/checksum-ab/abc123", "/snapshot-1/checksum-ab/abc123"),
            ("/source/checksum-cd/cde456", "/snapshot-1/checksum-cd/cde456"),
        ]
    );
}

#[test]
fn symlinks_are_recreated_as_symlinks_not_followed() {
    let entries = Some(vec![
        file("real_file"),
        StoreItem::Link { name: "link_to_real_file".to_string() },
    ]);
    let plan = snapshot_directory("/source", &entries, "/snapshot-1", false).unwrap();
    assert_eq!(plan.stats.symlinks_recreated, 1);
    assert_eq!(plan.stats.files_linked, 1);
    assert!(plan.steps.iter().any(|s| match s {
        CopyStep::RecreateLink { from, to } =>
            from == "/source/link_to_real_file" && to == "/snapshot-1/link_to_real_file",
        _ => false,
    }));
}

#[test]
fn empty_directory_snapshots_cleanly() {
    let plan = snapshot_directory("/source", &Some(vec![]), "/snapshot-1", false).unwrap();
    assert_eq!(plan.stats.files_linked, 0);
    assert_eq!(plan.stats.dirs_created, 1);
    assert!(matches!(&plan.steps[0], CopyStep::CreateDir { path } if path == "/snapshot-1"));
}

#[test]
fn rejects_a_missing_source_directory() {
    let err = snapshot_directory("/x/does-not-exist", &None, "/x/dest", false).unwrap_err();
    assert!(matches!(err, FilestoreError::SourceNotFound(_)));
}

#[test]
fn rejects_an_already_existing_destination() {
    let err = snapshot_directory("/source", &Some(vec![]), "/dest", true).unwrap_err();
    assert!(matches!(err, FilestoreError::DestinationExists(_)));
}

/// A copy shares nothing with its source.
#[test]
fn a_copy_is_not_linked() {
    let entries = Some(vec![file("a")]);
    let plan = copy_directory("/source", &entries, "/copy", false).unwrap();
    assert!(plan.steps.iter().any(|s| matches!(s, CopyStep::Carry { mode: FileMode::Copy, .. })));
}

#[test]
fn errors_name_the_folder() {
    let missing = FilestoreError::SourceNotFound("/a".to_string()).message();
    assert!(missing.contains("/a"));
    let there = FilestoreError::DestinationExists("/b".to_string()).message();
    assert!(there.contains("/b"));
    let io = FilestoreError::Io { path: "/c".to_string(), source: "full".to_string() }.message();
    assert!(io.contains("/c") && io.contains("full"));
}

/// A copy holds what a snapshot holds; only how a file gets there differs.
#[test]
fn a_copy_and_a_snapshot_hold_the_same() {
    let entries = Some(vec![
        folder("ab", vec![file("abc"), folder("deeper", vec![file("x")])]),
        StoreItem::Link { name: "link".to_string() },
        file("plain"),
    ]);
    let snapshot = snapshot_directory("/source", &entries, "/one", false).unwrap();
    let copy = copy_directory("/source", &entries, "/two", false).unwrap();
    assert_eq!(snapshot.stats.files_linked, copy.stats.files_linked);
    assert_eq!(snapshot.stats.dirs_created, copy.stats.dirs_created);
    assert_eq!(snapshot.stats.symlinks_recreated, copy.stats.symlinks_recreated);
    assert_eq!(snapshot.steps.len(), copy.steps.len());
    for (a, b) in snapshot.steps.iter().zip(copy.steps.iter()) {
        match (a, b) {
            (CopyStep::CreateDir { path: p }, CopyStep::CreateDir { path: q }) => {
                assert_eq!(p.strip_prefix("/one"), q.strip_prefix("/two"));
            }
            (
                CopyStep::Carry { from: f, to: p, mode: m },
                CopyStep::Carry { from: g, to: q, mode: n },
            ) => {
                assert_eq!((f, p.strip_prefix("/one")), (g, q.strip_prefix("/two")));
                assert!(matches!(m, FileMode::Hardlink) && matches!(n, FileMode::Copy));
            }
            (
                CopyStep::RecreateLink { from: f, to: p },
                CopyStep::RecreateLink { from: g, to: q },
            ) => assert_eq!((f, p.strip_prefix("/one")), (g, q.strip_prefix("/two"))),
            _ => panic!("the steps differ"),
        }
    }
}
