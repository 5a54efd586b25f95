//! Updates when a data file is saved.

use orchestrator_core::errors::CoreError;
use orchestrator_core::watch::{
    changed_module, collect_modules, BatchStep, BatchUpdate, FileEvent, FileEventKind, Watch,
    QUIET_MS,
};

fn event(kind: FileEventKind, paths: &[&str]) -> Result<FileEvent, String> {
    Ok(FileEvent { kind, paths: paths.iter().map(|p| p.to_string()).collect() })
}

fn modules_for(paths: &[&str]) -> Vec<String> {
    let roots = vec!["/code/addons".to_string(), "/code/oca".to_string()];
    let mut found = vec![];
    collect_modules(&event(FileEventKind::Modified, paths), &roots, &mut found);
    found.sort();
    found
}

#[test]
fn a_changed_data_file_names_the_module_it_belongs_to() {
    assert_eq!(modules_for(&["/code/addons/acme_sales/views/order.xml"]), vec!["acme_sales"]);
    assert_eq!(
        modules_for(&["/code/oca/partner_firstname/data/a/b/c.csv"]),
        vec!["partner_firstname"]
    );
    assert_eq!(
        modules_for(&[
            "/code/addons/acme_sales/views/a.xml",
            "/code/addons/acme_sales/views/b.xml"
        ]),
        vec!["acme_sales"]
    );
}

/// Odoo reloads Python itself: an update besides would be a second restart.
#[test]
fn python_changes_are_left_to_odoos_own_reloader() {
    assert!(modules_for(&["/code/addons/acme_sales/models/order.py"]).is_empty());
}

#[test]
fn editor_scratch_files_are_not_edits() {
    assert!(modules_for(&["/code/addons/acme_sales/views/.order.xml.swp"]).is_empty());
    assert!(modules_for(&["/code/addons/acme_sales/views/#order.xml#"]).is_empty());
    assert!(modules_for(&["/code/addons/acme_sales/views/order.xml~"]).is_empty());
}

#[test]
fn a_file_outside_every_watched_folder_belongs_to_no_module() {
    assert!(modules_for(&["/somewhere/else/thing/views/order.xml"]).is_empty());
}

#[test]
fn reading_a_file_is_not_a_reason_to_update_anything() {
    let roots = vec!["/code/addons".to_string()];
    let mut found = vec![];
    let access =
        event(FileEventKind::Accessed, &["/code/addons/acme_sales/views/order.xml"]);
    collect_modules(&access, &roots, &mut found);
    assert!(found.is_empty());
}

#[test]
fn an_event_that_could_not_be_read_changes_nothing() {
    let mut found = vec![];
    collect_modules(&Err("overflow".to_string()), &vec!["/code/addons".to_string()], &mut found);
    assert!(found.is_empty());
}

#[test]
fn the_module_is_the_first_folder_below_the_root() {
    let roots = vec!["/code/addons".to_string()];
    assert_eq!(changed_module("/code/addons/m/x.xml", &roots).as_deref(), Some("m"));
    assert_eq!(changed_module("/code/addonsx/m/x.xml", &roots), None);
    assert_eq!(changed_module("/code/./addons/m/x.xml", &roots).as_deref(), Some("m"));
    let here = vec!["./addons".to_string()];
    assert_eq!(changed_module("./addons/m/x.xml", &here).as_deref(), Some("m"));
    assert_eq!(changed_module("addons/m/x.xml", &here), None, "a path here begins with a dot");
    assert_eq!(changed_module("./addons/m/x.xml", &vec!["addons".to_string()]), None);
}

/// A burst of saves leads to one update, after it has been quiet for a while.
#[test]
fn saves_are_gathered_until_it_is_quiet() {
    let mut watch = Watch::new(vec!["/code/addons".to_string()]);
    assert_eq!(watch.wait_ms(), None, "nothing is pending");
    watch.on_event(&event(FileEventKind::Modified, &["/code/addons/a/x.xml"]));
    watch.on_event(&event(FileEventKind::Created, &["/code/addons/b/y.csv"]));
    assert_eq!(watch.wait_ms(), Some(QUIET_MS));
    let mut names = watch.on_quiet().unwrap();
    names.sort();
    assert_eq!(names, vec!["a", "b"]);
    assert_eq!(watch.wait_ms(), None);
}

/// Where the whole batch fails the modules are updated one by one, and the first failure counts.
#[test]
fn a_failed_batch_is_tried_one_by_one() {
    let mut batch = BatchUpdate::new(vec!["a".to_string(), "b".to_string()]);
    match batch.on_result(Err(CoreError::NotConfigured("both".to_string()))) {
        BatchStep::Update(name) => assert_eq!(name, "a"),
        BatchStep::Finished(_) => panic!("each module is tried"),
    }
    match batch.on_result(Ok(())) {
        BatchStep::Update(name) => assert_eq!(name, "b"),
        BatchStep::Finished(_) => panic!("each module is tried"),
    }
    assert!(matches!(batch.on_result(Ok(())), BatchStep::Finished(_)));
    let mut fine = BatchUpdate::new(vec!["a".to_string(), "b".to_string()]);
    assert!(matches!(fine.on_result(Ok(())), BatchStep::Finished(Ok(()))));
}
