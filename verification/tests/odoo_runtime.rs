//! Checkouts of Odoo on this machine.

use orchestrator_core::odoo_runtime::{
    cached, clone_args, clone_outcome, directory_size, is_odoo_checkout, series_of, Checkout,
    OdooRuntimeError, RuntimeSource, RuntimeStore, SizedFolder, StoreEntry,
};

/// A folder with `odoo-bin` and a `release.py` that declares a version.
fn fake_checkout(path: &str, version_info: &str) -> Checkout {
    Checkout {
        path: path.to_string(),
        has_odoo_bin: true,
        has_release: true,
        release: Some(format!("RELEASE_LEVELS = ['alpha']\nversion_info = {version_info}\n")),
        interpreters: vec![],
    }
}

/// A folder that is no checkout.
fn other_folder(path: &str) -> Checkout {
    Checkout {
        path: path.to_string(),
        has_odoo_bin: false,
        has_release: false,
        release: None,
        interpreters: vec![],
    }
}

#[test]
fn reads_the_series_out_of_a_checkout_rather_than_its_folder_name() {
    let checkout = fake_checkout("/x/odoo-17-latest", "(16, 0, 0, 'final', 0, '')");
    assert_eq!(series_of(&checkout).as_deref(), Some("16.0"));

    let saas = fake_checkout("/x/saas", "('saas~16', 4, 0, 'final', 0, '')");
    assert_eq!(series_of(&saas).as_deref(), Some("saas~16.4"));

    let mut plain = fake_checkout("/x/plain", "");
    plain.release = Some("series = '18.0'\n".to_string());
    assert_eq!(series_of(&plain).as_deref(), Some("18.0"));
}

#[test]
fn a_cached_version_is_reused_and_reports_itself_as_cached() {
    let store = RuntimeStore::new("/cache".to_string());
    let at = store.cache_dir("17.0");
    assert_eq!(at, "/cache/17.0");
    assert!(store.resolve("17.0", &other_folder(&at), &vec![]).is_none(), "nothing cached yet");

    let mut copy = fake_checkout(&at, "(17, 0, 0, 'final', 0, '')");
    let found = store.resolve("17.0", &copy, &vec![]).expect("should now resolve from cache");
    assert_eq!(found.source, RuntimeSource::Cache);
    assert_eq!(found.checkout_root, store.cache_dir("17.0"));
    assert_eq!(found.venv_python, None, "a checkout with no venv can't be started yet");

    copy.interpreters = vec![".venv/bin/python".to_string()];
    let ready = store.resolve("17.0", &copy, &vec![]).unwrap();
    assert_eq!(ready.venv_python.as_deref(), Some("/cache/17.0/.venv/bin/python"));

    assert!(store.resolve("16.0", &other_folder(&store.cache_dir("16.0")), &vec![]).is_none());
}

#[test]
fn a_checkout_already_on_this_machine_is_adopted_instead_of_downloaded() {
    let home = || {
        vec![vec![
            other_folder("/home"),
            fake_checkout("/home/odoo-dev", "(16, 0, 0, 'final', 0, '')"),
            fake_checkout("/home/erp", "(17, 0, 0, 'final', 0, '')"),
            other_folder("/home/notes"),
        ]]
    };
    let store = RuntimeStore::new("/cache".to_string()).searching(vec!["/home".to_string()]);
    let missing = |version: &str| other_folder(&store.cache_dir(version));

    let found = store
        .resolve("17.0", &missing("17.0"), &home())
        .expect("the 17.0 checkout should be adopted");
    assert_eq!(found.source, RuntimeSource::Adopted);
    assert_eq!(found.checkout_root, "/home/erp");

    let older = store
        .resolve("16.0", &missing("16.0"), &home())
        .expect("the 16.0 checkout should be adopted");
    assert_eq!(older.checkout_root, "/home/odoo-dev");

    assert!(store.resolve("18.0", &missing("18.0"), &home()).is_none());
}

#[test]
fn the_cache_wins_over_a_checkout_on_the_machine() {
    let store = RuntimeStore::new("/cache".to_string()).searching(vec!["/home".to_string()]);
    let home = vec![vec![fake_checkout("/home/odoo-dev", "(17, 0, 0, 'final', 0, '')")]];
    let copy = fake_checkout(&store.cache_dir("17.0"), "(17, 0, 0, 'final', 0, '')");
    let found = store.resolve("17.0", &copy, &home).unwrap();
    assert_eq!(found.source, RuntimeSource::Cache, "the app's own copy is preferred");
}

#[test]
fn adopting_the_wrong_series_explicitly_is_refused_with_both_versions_named() {
    let checkout = fake_checkout("/x/mine", "(16, 0, 0, 'final', 0, '')");
    let store = RuntimeStore::new("/x/cache".to_string());
    match store.adopt("17.0", &checkout) {
        Err(OdooRuntimeError::WrongVersion { found, wanted, .. }) => {
            assert_eq!(found, "16.0");
            assert_eq!(wanted, "17.0");
        }
        _ => panic!("expected WrongVersion"),
    }
    assert!(store.adopt("16.0", &checkout).is_ok());
}

/// A folder that is no Odoo is of no version, whatever the version is called.
#[test]
fn a_folder_that_is_no_odoo_is_never_adopted() {
    let store = RuntimeStore::new("/x/cache".to_string());
    for version in ["17.0", "something that isn't Odoo"] {
        match store.adopt(version, &other_folder("/x/other")) {
            Err(OdooRuntimeError::WrongVersion { found, wanted, .. }) => {
                assert_eq!(found, "something that isn't Odoo");
                assert_eq!(wanted, version);
            }
            _ => panic!("expected WrongVersion"),
        }
    }
}

/// A version that goes on over several lines says nothing; a line further down may.
#[test]
fn a_line_that_says_nothing_is_passed_over() {
    let mut checkout = fake_checkout("/x/odoo", "");
    checkout.release = Some("version_info = (\n    17, 0,\n)\nseries = '17.0'\n".to_string());
    assert_eq!(series_of(&checkout).as_deref(), Some("17.0"));
    checkout.release = Some("version_info = (\n    17, 0,\n)\n".to_string());
    assert_eq!(series_of(&checkout), None);
}

#[test]
fn a_directory_that_merely_has_odoo_bin_is_not_treated_as_odoo() {
    let mut wrapper = other_folder("/x/my-wrapper-repo");
    wrapper.has_odoo_bin = true;
    assert!(!is_odoo_checkout(&wrapper));
    let store = RuntimeStore::new("/x/cache".to_string()).searching(vec!["/x".to_string()]);
    let missing = other_folder(&store.cache_dir("17.0"));
    assert!(store.resolve("17.0", &missing, &vec![vec![wrapper]]).is_none());
}

#[test]
fn only_a_folder_of_the_store_is_removed() {
    let store = RuntimeStore::new("/cache".to_string());
    assert!(store.check_removable("17.0", "/real/cache", "/real/cache/17.0").is_ok());
    for target in ["/real/cache", "/real", "/real/cache/17.0/odoo", "/elsewhere/17.0"] {
        let e = store.check_removable("../x", "/real/cache", target).unwrap_err();
        assert!(matches!(e, OdooRuntimeError::NotInCache { .. }));
    }
}

#[test]
fn copies_are_listed_by_version() {
    let entry = |folder: &str, info: &str, size: u64| StoreEntry {
        folder: folder.to_string(),
        checkout: fake_checkout(&format!("/cache/{folder}"), info),
        size_bytes: size,
    };
    let listed = cached(&vec![
        entry("b", "(17, 0, 0, 'final', 0, '')", 5),
        entry("a", "(16, 0, 0, 'final', 0, '')", 7),
        StoreEntry {
            folder: "junk".to_string(),
            checkout: other_folder("/cache/junk"),
            size_bytes: 9,
        },
    ]);
    let versions: Vec<&str> = listed.iter().map(|c| c.version.as_str()).collect();
    assert_eq!(versions, vec!["16.0", "17.0"]);
    assert_eq!(listed[0].folder, "a");
    assert_eq!(listed[0].size_bytes, 7);
}

#[test]
fn the_size_of_a_folder_is_that_of_all_it_holds() {
    let folder = SizedFolder {
        files: vec![1, 2],
        folders: vec![SizedFolder { files: vec![40], folders: vec![] }],
    };
    assert_eq!(directory_size(&Some(folder)), 43);
    assert_eq!(directory_size(&None), 0);
}

#[test]
fn odoo_is_fetched_without_its_history() {
    let args = clone_args("17.0", "/cache/17.0");
    assert_eq!(
        args,
        vec![
            "clone",
            "--depth",
            "1",
            "--single-branch",
            "--branch",
            "17.0",
            "https://github.com/odoo/odoo.git",
            "/cache/17.0",
        ]
    );
    assert!(clone_outcome(true, "x").is_ok());
    let e = clone_outcome(false, " no branch \n").unwrap_err();
    assert_eq!(e.message(), "git clone failed: no branch");
}

#[test]
fn directory_size_counts_real_bytes_and_treats_a_missing_folder_as_empty() {
    let nested = SizedFolder { files: vec![2048], folders: vec![] };
    let a = SizedFolder { files: vec![], folders: vec![nested] };
    assert_eq!(directory_size(&Some(SizedFolder { files: vec![1024], folders: vec![a] })), 3072);
    assert_eq!(directory_size(&None), 0);
}

/// Somebody's own checkout, beside the store rather than in it, is not removed.
#[test]
fn the_odoo_cache_refuses_to_delete_anything_outside_itself() {
    let store = RuntimeStore::new("/home/me/cache".to_string());
    let err = store
        .check_removable("../their-odoo", "/home/me/cache", "/home/me/their-odoo")
        .unwrap_err();
    assert!(matches!(err, OdooRuntimeError::NotInCache { .. }), "got {err:?}");
}
