//! Scans of addons folders: which copy of a module wins, and in which order modules install.

use orchestrator_core::model::{AddonsSource, SourceKind};
use orchestrator_core::modules::{
    scan, scan_source_dir, FolderEntry, ManifestFile, ModuleScan, ScannedSource,
};

/// A folder that holds a manifest with this text.
fn module(technical_name: &str, manifest_body: &str) -> FolderEntry {
    FolderEntry {
        technical_name: Some(technical_name.to_string()),
        path: format!("/src/{technical_name}"),
        is_dir: true,
        manifest: Some(ManifestFile {
            path: format!("/src/{technical_name}/__manifest__.py"),
            contents: Ok(manifest_body.to_string()),
        }),
        legacy_manifest: None,
    }
}

fn source(id: u128, label: &str, kind: SourceKind, rank: u32) -> AddonsSource {
    AddonsSource {
        id,
        server_id: 7,
        label: label.to_string(),
        path_or_url: "/src".to_string(),
        kind,
        rank,
    }
}

fn scanned(source: AddonsSource, entries: Vec<FolderEntry>) -> ScannedSource {
    ScannedSource { source, listing: Ok(entries) }
}

fn scan_of(sources: Vec<ScannedSource>) -> ModuleScan {
    scan(7, 1_000, &sources)
}

#[test]
fn scans_a_single_source_with_no_collisions() {
    let scan = scan_of(vec![scanned(
        source(1, "this repo", SourceKind::Private, 0),
        vec![
            module("sale_custom", "{'name': 'Sale Custom', 'depends': ['base']}"),
            module("base", "{'name': 'Base'}"),
        ],
    )]);

    assert_eq!(scan.modules.len(), 2);
    assert!(scan.modules.iter().all(|m| !m.shadowed));
    assert!(scan.collisions.is_empty());
    assert!(
        scan.unresolved_depends.is_empty(),
        "base is present, so sale_custom's dep resolves"
    );
    assert_eq!(
        scan.install_order.as_deref(),
        Some(&["base".to_string(), "sale_custom".to_string()][..])
    );
    assert_eq!(scan.server_id, 7);
    assert_eq!(scan.scanned_at, 1_000);
    assert!(scan.cycle.is_none());
}

#[test]
fn lower_rank_source_wins_a_shadowing_collision() {
    let scan = scan_of(vec![
        scanned(
            source(1, "this repo", SourceKind::Private, 0),
            vec![module("sale_custom", "{'name': 'My Sale Custom'}")],
        ),
        scanned(
            source(2, "OCA mirror", SourceKind::Oca, 1),
            vec![module("sale_custom", "{'name': 'OCA Sale Custom'}")],
        ),
    ]);

    assert_eq!(scan.collisions.len(), 1);
    let collision = &scan.collisions[0];
    assert_eq!(collision.technical_name, "sale_custom");
    assert_eq!(collision.winner_source_label, "this repo");
    assert_eq!(collision.shadowed.len(), 1);
    assert_eq!(collision.shadowed[0].source_label, "OCA mirror");

    let winner = scan.modules.iter().find(|m| !m.shadowed).unwrap();
    assert_eq!(winner.name, "My Sale Custom");
    let loser = scan.modules.iter().find(|m| m.shadowed).unwrap();
    assert_eq!(loser.name, "OCA Sale Custom");
}

#[test]
fn reports_unresolved_dependencies_without_failing_the_scan() {
    let scan = scan_of(vec![scanned(
        source(1, "this repo", SourceKind::Private, 0),
        vec![
            module("base", "{'name': 'Base'}"),
            module("sale_custom", "{'name': 'x', 'depends': ['base', 'some_missing_module']}"),
        ],
    )]);
    assert_eq!(scan.unresolved_depends.len(), 1);
    assert_eq!(scan.unresolved_depends[0].missing_dependency, "some_missing_module");
    assert!(scan.install_order.is_some());
}

#[test]
fn detects_a_genuine_dependency_cycle() {
    let scan = scan_of(vec![scanned(
        source(1, "this repo", SourceKind::Private, 0),
        vec![
            module("a", "{'name': 'a', 'depends': ['b']}"),
            module("b", "{'name': 'b', 'depends': ['a']}"),
        ],
    )]);
    assert!(scan.install_order.is_none());
    let cycle = scan.cycle.expect("a<->b is a real cycle");
    assert_eq!(cycle, vec!["a".to_string(), "b".to_string()]);
}

#[test]
fn missing_source_directory_is_reported_not_fatal() {
    let src = AddonsSource {
        id: 1,
        server_id: 7,
        label: "gone".to_string(),
        path_or_url: "/definitely/does/not/exist".to_string(),
        kind: SourceKind::Private,
        rank: 0,
    };
    let scan = scan_of(vec![ScannedSource {
        source: src,
        listing: Err("No such file or directory (os error 2)".to_string()),
    }]);
    assert!(scan.modules.is_empty());
    assert_eq!(scan.source_errors.len(), 1);
    assert_eq!(scan.source_errors[0].source_label, "gone");
}

#[test]
fn a_broken_manifest_is_reported_and_skipped_not_fatal() {
    let scan = scan_of(vec![scanned(
        source(1, "this repo", SourceKind::Private, 0),
        vec![
            module("good", "{'name': 'Good'}"),
            module("broken", "{ this is not valid python"),
        ],
    )]);
    assert_eq!(scan.modules.len(), 1, "the broken module is excluded, not the whole scan");
    assert_eq!(scan.modules[0].technical_name, "good");
    assert_eq!(scan.parse_errors.len(), 1);
    assert_eq!(scan.parse_errors[0].technical_name, "broken");
}

#[test]
fn three_way_collision_keeps_only_the_lowest_rank_as_winner() {
    let scan = scan_of(vec![
        scanned(source(1, "s0", SourceKind::Private, 0), vec![module("m", "{'name': 'rank0'}")]),
        scanned(source(2, "s1", SourceKind::Oca, 1), vec![module("m", "{'name': 'rank1'}")]),
        scanned(source(3, "s2", SourceKind::Core, 2), vec![module("m", "{'name': 'rank2'}")]),
    ]);
    assert_eq!(scan.collisions.len(), 1);
    assert_eq!(scan.collisions[0].shadowed.len(), 2);
    let winner = scan.modules.iter().find(|m| !m.shadowed).unwrap();
    assert_eq!(winner.name, "rank0");
}

/// The winner is the copy of the lowest rank, wherever it was found.
#[test]
fn the_winner_does_not_depend_on_the_order_of_the_sources() {
    let scan = scan_of(vec![
        scanned(source(3, "s2", SourceKind::Core, 2), vec![module("m", "{'name': 'rank2'}")]),
        scanned(source(1, "s0", SourceKind::Private, 0), vec![module("m", "{'name': 'rank0'}")]),
    ]);
    let winner = scan.modules.iter().find(|m| !m.shadowed).unwrap();
    assert_eq!(winner.name, "rank0");
    assert_eq!(scan.collisions[0].winner_rank, 0);
}

/// Dependencies come first, and among those that may come next the first by name.
#[test]
fn modules_install_after_what_they_depend_on() {
    let scan = scan_of(vec![scanned(
        source(1, "s", SourceKind::Private, 0),
        vec![
            module("z", "{'name': 'z'}"),
            module("a", "{'name': 'a', 'depends': ['z']}"),
            module("m", "{'name': 'm'}"),
            module("b", "{'name': 'b', 'depends': ['a', 'm']}"),
        ],
    )]);
    let order = scan.install_order.unwrap();
    let place = |name: &str| order.iter().position(|n| n == name).unwrap();
    assert_eq!(order.len(), 4);
    assert!(place("z") < place("a"));
    assert!(place("a") < place("b"));
    assert!(place("m") < place("b"));
}

/// A module outside the circle installs; the circle and what waits for it are named.
#[test]
fn what_waits_for_a_circle_is_stuck_too() {
    let scan = scan_of(vec![scanned(
        source(1, "s", SourceKind::Private, 0),
        vec![
            module("a", "{'name': 'a', 'depends': ['b']}"),
            module("b", "{'name': 'b', 'depends': ['a']}"),
            module("c", "{'name': 'c', 'depends': ['a']}"),
            module("free", "{'name': 'free'}"),
        ],
    )]);
    assert_eq!(scan.cycle.unwrap(), vec!["a", "b", "c"]);
}

#[test]
fn only_folders_with_a_manifest_are_modules() {
    let mut file = module("file", "{'name': 'x'}");
    file.is_dir = false;
    let mut bare = module("bare", "{}");
    bare.manifest = None;
    let mut old = module("old", "{}");
    old.manifest = None;
    old.legacy_manifest = Some(ManifestFile {
        path: "/src/old/__openerp__.py".to_string(),
        contents: Ok("{'name': 'Old'}".to_string()),
    });
    let listing = Ok(vec![file, bare, old]);
    let (found, error, issues) =
        scan_source_dir(&source(1, "s", SourceKind::Private, 0), &listing);
    assert!(error.is_none());
    assert!(issues.is_empty());
    assert_eq!(found.len(), 1);
    assert_eq!(found[0].technical_name, "old");
    assert_eq!(found[0].manifest.name, "Old");
}

/// The ranks decide, not the order in which the sources are scanned.
#[test]
fn the_order_in_which_sources_are_scanned_does_not_matter() {
    let sources = || {
        vec![
            scanned(
                source(1, "mine", SourceKind::Private, 0),
                vec![module("sale", "{'name': 'Mine', 'depends': ['base', 'gone']}")],
            ),
            scanned(
                source(2, "oca", SourceKind::Oca, 1),
                vec![module("sale", "{'name': 'Theirs'}"), module("a", "{'depends': ['b']}")],
            ),
            scanned(
                source(3, "core", SourceKind::Core, 2),
                vec![module("base", "{'name': 'Base'}"), module("b", "{'depends': ['sale']}")],
            ),
        ]
    };
    let first = scan_of(sources());
    let mut turned = sources();
    turned.reverse();
    let second = scan_of(turned);
    let listed = |s: &ModuleScan| -> Vec<(String, String, u32, bool)> {
        s.modules
            .iter()
            .map(|m| (m.technical_name.clone(), m.name.clone(), m.rank, m.shadowed))
            .collect()
    };
    assert_eq!(listed(&first), listed(&second));
    assert_eq!(first.modules.len(), 5);
    assert_eq!(first.collisions.len(), 1);
    assert_eq!(second.collisions.len(), 1);
    assert_eq!(first.collisions[0].technical_name, second.collisions[0].technical_name);
    assert_eq!(first.unresolved_depends.len(), 1);
    assert_eq!(second.unresolved_depends.len(), 1);
    assert_eq!(first.install_order, second.install_order);
    assert_eq!(first.install_order.unwrap(), vec!["base", "sale", "b", "a"]);
    assert_eq!(first.cycle, second.cycle);
}
