//! Finding addons folders.

use orchestrator_core::discovery::{discover_addons_roots, DiscoveredRoot, Folder};
use orchestrator_core::model::SourceKind;

fn folder(name: &str, files: Vec<&str>, folders: Vec<Folder>) -> Folder {
    Folder {
        name: name.to_string(),
        files: files.iter().map(|f| f.to_string()).collect(),
        folders,
    }
}

fn module_at(name: &str) -> Folder {
    folder(name, vec!["__manifest__.py"], vec![])
}

fn found_in(root: &Folder, max_depth: usize) -> Vec<DiscoveredRoot> {
    discover_addons_roots(root, &format!("/home/{}", root.name), vec![], max_depth)
}

/// A checkout keeps modules in two places, and the one that holds `base` counts too.
#[test]
fn an_odoo_checkout_yields_both_of_its_addons_folders() {
    let checkout = folder(
        "odoo-real",
        vec!["odoo-bin"],
        vec![
            folder("odoo", vec![], vec![folder("addons", vec![], vec![module_at("base")])]),
            folder("addons", vec![], vec![module_at("account")]),
        ],
    );
    let found = found_in(&checkout, 4);
    let paths: Vec<&str> = found.iter().map(|r| r.path.as_str()).collect();
    assert!(paths.contains(&"/home/odoo-real/addons"), "{paths:?}");
    assert!(paths.contains(&"/home/odoo-real/odoo/addons"), "{paths:?}");
    assert!(found.iter().all(|r| r.kind == SourceKind::Core), "both belong to Odoo itself");
    assert!(found.iter().all(|r| r.why.contains("Odoo checkout")), "and it says why");
}

#[test]
fn a_workspace_is_proposed_in_load_order_with_your_own_code_first() {
    let root = folder(
        "work",
        vec![],
        vec![
            folder(
                "client-work",
                vec![],
                vec![folder("addons", vec![], vec![module_at("acme_sales")])],
            ),
            folder(
                "odoo",
                vec!["odoo-bin"],
                vec![
                    folder("odoo", vec![], vec![folder("addons", vec![], vec![])]),
                    folder("addons", vec![], vec![module_at("account")]),
                ],
            ),
            folder(
                "OCA",
                vec![],
                vec![folder("partner-contact", vec![], vec![module_at("partner_firstname")])],
            ),
        ],
    );
    let found = found_in(&root, 4);
    let kinds: Vec<SourceKind> = found.iter().map(|r| r.kind).collect();
    assert_eq!(kinds, vec![SourceKind::Private, SourceKind::Oca, SourceKind::Core]);
}

#[test]
fn an_oca_repo_is_recognised_by_its_own_layout_not_only_its_name() {
    let root = folder(
        "work",
        vec![],
        vec![folder(
            "some-repo",
            vec![],
            vec![
                module_at("partner_firstname"),
                folder("setup", vec![], vec![folder("partner_firstname", vec![], vec![])]),
            ],
        )],
    );
    let found = found_in(&root, 3);
    assert_eq!(found[0].kind, SourceKind::Oca);
    assert!(found[0].why.contains("setup/"));
}

/// What is not recognised is yours: it loads first.
#[test]
fn anything_unrecognised_is_treated_as_your_own_code() {
    let root = folder(
        "work",
        vec![],
        vec![folder("random_folder", vec![], vec![module_at("my_module")])],
    );
    let found = found_in(&root, 3);
    assert_eq!(found[0].kind, SourceKind::Private);
}

#[test]
fn a_folder_holding_no_modules_is_not_offered() {
    let root = folder("work", vec![], vec![folder("addons", vec!["README.md"], vec![])]);
    assert!(found_in(&root, 3).is_empty());
}

#[test]
fn noisy_folders_are_skipped() {
    let root = folder(
        "work",
        vec![],
        vec![
            folder(
                "node_modules",
                vec![],
                vec![folder("something", vec![], vec![module_at("not_a_module")])],
            ),
            folder(".git", vec![], vec![folder("weird", vec![], vec![module_at("not_a_module")])]),
            folder("real", vec![], vec![module_at("acme_sales")]),
        ],
    );
    let found = found_in(&root, 4);
    assert_eq!(found.len(), 1);
    assert!(found[0].path.ends_with("real"));
}

#[test]
fn a_folder_in_a_repository_is_labelled_by_that_repository() {
    let root = folder(
        "work",
        vec![],
        vec![folder(
            "acme-modules",
            vec![],
            vec![
                folder(".git", vec![], vec![]),
                folder("addons", vec![], vec![module_at("acme_sales")]),
            ],
        )],
    );
    let found = found_in(&root, 4);
    assert_eq!(found[0].label, "acme-modules/addons");
    assert_eq!(found[0].module_count, 1);
    assert_eq!(found[0].sample, vec!["acme_sales"]);
}

#[test]
fn folders_too_deep_down_are_not_looked_at() {
    let deep = folder(
        "work",
        vec![],
        vec![folder("a", vec![], vec![folder("b", vec![], vec![module_at("m")])])],
    );
    assert_eq!(found_in(&deep, 2).len(), 1);
    assert_eq!(found_in(&deep, 1).len(), 0);
}

/// The topmost folder has no name, so that it names no repository.
#[test]
fn a_folder_without_a_name_names_nothing() {
    let root = folder(
        "",
        vec![],
        vec![
            folder(".git", vec![], vec![]),
            folder("addons", vec![], vec![module_at("acme_sales")]),
        ],
    );
    let found = discover_addons_roots(&root, "/", vec![], 2);
    assert_eq!(found[0].label, "addons");
    let bare = folder("", vec![], vec![module_at("acme_sales")]);
    assert_eq!(discover_addons_roots(&bare, "/", vec![], 2)[0].label, "/");
}

/// Folders of one kind stand in the order of their paths.
#[test]
fn folders_of_one_kind_load_by_path() {
    let root = folder(
        "work",
        vec![],
        vec![
            folder("b", vec![], vec![module_at("m2")]),
            folder("a", vec![], vec![folder("z", vec![], vec![module_at("m1")])]),
            folder("a-b", vec![], vec![module_at("m3")]),
        ],
    );
    let paths: Vec<String> = found_in(&root, 4).into_iter().map(|r| r.path).collect();
    assert_eq!(paths, vec!["/home/work/a/z", "/home/work/a-b", "/home/work/b"]);
}
