//! What databases say of themselves, and how fresh their modules are.

use orchestrator_core::content::{content_hash, FileEntry, FileTree};
use orchestrator_core::freshness::{
    template_database_name, template_key, Freshness, ModuleHash,
};
use orchestrator_core::inspect::{
    database_module_states, eq_ignore_case, modules_to_update, neutralization_state,
    DatabaseModuleState, NeutralizationAnswer, NeutralizationState,
};
use orchestrator_core::making::{MakeDatabase, MakeStep};
use orchestrator_core::events::Event;
use orchestrator_core::pg_admin::PgAdminError;
use orchestrator_core::records::{Core, Stamp};

fn stamp(n: u128) -> Stamp {
    Stamp { event_id: 1_000_000 + n, now: n as i128 }
}

fn failed(stderr: &str) -> PgAdminError {
    PgAdminError::CommandFailed {
        command: "psql".to_string(),
        exit_code: Some(1),
        stderr: stderr.to_string(),
    }
}

fn core_with_database() -> Core {
    let mut core = Core::new();
    core.create_postgres_instance(
        500,
        "test".to_string(),
        "16".to_string(),
        0,
        "/tmp/pg".to_string(),
        &stamp(1),
    )
    .unwrap();
    core.create_server(10, "acme".to_string(), "17.0".to_string(), 8069, 500, &stamp(2)).unwrap();
    core.create_database(30, 10, "acme".to_string(), Ok(()), 5, &stamp(3)).unwrap();
    core
}

fn installed(name: &str) -> DatabaseModuleState {
    DatabaseModuleState {
        technical_name: name.to_string(),
        state: "installed".to_string(),
        installed_version: Some("17.0.1.0".to_string()),
    }
}

fn hash(name: &str, hash: Option<&str>) -> ModuleHash {
    ModuleHash { technical_name: name.to_string(), hash: hash.map(|h| h.to_string()) }
}

/// What could not be asked is not called live.
#[test]
fn a_database_no_odoo_ever_touched_is_not_reported_as_dangerous() {
    let no_table = failed("ERROR:  relation \"ir_config_parameter\" does not exist");
    assert_eq!(neutralization_state(&Some(Err(no_table))), NeutralizationState::NotOdoo);
    let other_table = failed("ERROR:  relation \"res_users\" does not exist");
    assert_eq!(neutralization_state(&Some(Err(other_table))), NeutralizationState::Unknown);
    let refused = failed("connection refused");
    assert_eq!(neutralization_state(&Some(Err(refused))), NeutralizationState::Unknown);
    let gone = PgAdminError::Spawn { command: "psql".to_string(), source: "gone".to_string() };
    assert_eq!(neutralization_state(&Some(Err(gone))), NeutralizationState::Unknown);
    assert_eq!(neutralization_state(&None), NeutralizationState::Unknown);
    assert_eq!(neutralization_state(&Some(Ok(None))), NeutralizationState::Live);
    assert_eq!(
        neutralization_state(&Some(Ok(Some("True".to_string())))),
        NeutralizationState::Neutralized
    );
    assert_eq!(
        neutralization_state(&Some(Ok(Some("no".to_string())))),
        NeutralizationState::Live
    );
    assert!(eq_ignore_case("TrUe", "true") && !eq_ignore_case("true ", "true"));
}

#[test]
fn every_database_has_a_state() {
    let core = core_with_database();
    let answers = vec![NeutralizationAnswer { database_id: 30, said: Some(Ok(None)) }];
    assert_eq!(core.neutralization_states(&answers), vec![(30, NeutralizationState::Live)]);
    assert_eq!(core.neutralization_states(&vec![]), vec![(30, NeutralizationState::Unknown)]);
}

#[test]
fn a_database_that_odoo_never_touched_has_no_modules() {
    let e = failed("ERROR: relation \"ir_module_module\" does not exist");
    assert!(database_module_states(Err(e)).unwrap().is_empty());
    assert!(database_module_states(Err(failed("connection refused"))).is_err());
    let row = |cells: &[&str]| cells.iter().map(|c| c.to_string()).collect::<Vec<String>>();
    let rows = vec![
        row(&["base", "installed", "17.0.1.3"]),
        row(&["sale", "uninstalled", ""]),
        row(&["odd"]),
    ];
    let states = database_module_states(Ok(rows)).unwrap();
    assert_eq!(states.len(), 2);
    assert_eq!(states[0].installed_version.as_deref(), Some("17.0.1.3"));
    assert_eq!(states[1].installed_version, None);
}

#[test]
fn only_installed_modules_are_updated() {
    let mut states = vec![installed("a"), installed("b"), installed("c")];
    states[2].state = "to upgrade".to_string();
    let changed = vec!["c".to_string(), "a".to_string()];
    assert_eq!(modules_to_update(&states, &changed), vec!["a"]);
}

fn acme_note(edited: bool) -> Option<String> {
    let file = |name: &str, contents: &str| FileEntry {
        name: name.to_string(),
        contents: Some(contents.as_bytes().to_vec()),
    };
    let mut files = vec![
        file(
            "__manifest__.py",
            "{'name': 'Acme Note', 'version': '1.0', 'depends': ['base'], 'installable': True}",
        ),
        file("__init__.py", ""),
    ];
    if edited {
        files.push(file("models.py", "# a change nobody bumped the manifest for"));
    }
    content_hash(&FileTree { name: "acme_note".to_string(), files, folders: vec![] })
}

/// An edit that leaves the version alone is seen, and gone again after an update.
#[test]
fn editing_a_module_without_touching_its_version_still_shows_as_changed() {
    let mut core = core_with_database();
    let states = vec![installed("acme_note"), installed("base")];
    let on_disk = |edited: bool| {
        vec![
            ModuleHash { technical_name: "acme_note".to_string(), hash: acme_note(edited) },
            hash("base", Some("b")),
        ]
    };
    let names = vec!["acme_note".to_string(), "base".to_string()];
    core.remember_module_contents(30, &names, &vec![acme_note(false), Some("b".to_string())]);
    let fresh = core.module_freshness(30, &states, &on_disk(false));
    assert_eq!(fresh[0].technical_name, "acme_note");
    assert_eq!(fresh[0].freshness, Freshness::Live);

    let fresh = core.module_freshness(30, &states, &on_disk(true));
    assert_eq!(fresh[0].freshness, Freshness::Changed);
    assert_eq!(fresh[1].technical_name, "base");
    assert_ne!(fresh[1].freshness, Freshness::Changed);

    core.upgrade_module(30, "acme_note".to_string(), Ok(Some("1.0".to_string())), &stamp(60))
        .unwrap();
    core.remember_module_contents(30, &vec!["acme_note".to_string()], &vec![acme_note(true)]);
    let fresh = core.module_freshness(30, &states, &on_disk(true));
    assert_eq!(fresh[0].freshness, Freshness::Live);
    let gone = core.module_freshness(30, &states, &vec![]);
    assert_eq!(gone[0].freshness, Freshness::NotOnDisk);
}

#[test]
fn a_module_installed_outside_this_app_reads_as_unknown() {
    let mut core = core_with_database();
    let states = vec![installed("web"), installed("base"), installed("account")];
    let known = vec![hash("web", Some("h")), hash("account", Some("h")), hash("base", None)];
    let names: Vec<String> = states.iter().map(|s| s.technical_name.clone()).collect();
    let hashes = vec![Some("h".to_string()), Some("b".to_string()), Some("h".to_string())];
    core.remember_module_contents(30, &names, &hashes);
    core.forget_module_installs(30);
    let fresh = core.module_freshness(30, &states, &known);
    let names: Vec<&str> = fresh.iter().map(|f| f.technical_name.as_str()).collect();
    assert_eq!(names, vec!["account", "base", "web"]);
    assert!(fresh
        .iter()
        .all(|m| matches!(m.freshness, Freshness::Unrecorded | Freshness::NotOnDisk)));
    assert!(fresh.iter().any(|m| m.freshness == Freshness::Unrecorded));
    assert_eq!(
        fresh.iter().find(|m| m.technical_name == "base").map(|m| m.freshness),
        Some(Freshness::NotOnDisk)
    );
}

#[test]
fn changing_a_module_changes_the_template_it_would_be_cached_under() {
    let modules = vec!["acme_sales".to_string(), "base".to_string()];
    let before = template_key("17.0", &modules, &vec![hash("acme_sales", Some("one"))]);
    let after = template_key("17.0", &modules, &vec![hash("acme_sales", Some("two"))]);
    assert_ne!(before, after);
    assert_ne!(before, template_key("16.0", &modules, &vec![hash("acme_sales", Some("one"))]));
    let turned = vec!["base".to_string(), "acme_sales".to_string()];
    assert_eq!(after, template_key("17.0", &turned, &vec![hash("acme_sales", Some("two"))]));
    assert_eq!(after, "0f12dba13d42078c");
    assert_eq!(template_database_name("k"), "oo_template_k");
}

/// Where the version ends and a module begins makes a difference.
#[test]
fn a_version_does_not_pass_for_a_module() {
    let one = template_key("17", &vec!["x".to_string()], &vec![]);
    let two = template_key("1", &vec!["7x".to_string()], &vec![]);
    assert_ne!(one, two);
    let empty = template_key("17", &vec!["x".to_string()], &vec![hash("x", Some(""))]);
    assert_ne!(one, empty);
}

fn making(modules: &[&str]) -> MakeDatabase {
    MakeDatabase::new(
        10,
        "acme".to_string(),
        modules.iter().map(|m| m.to_string()).collect(),
        "k".to_string(),
    )
}

#[test]
fn the_second_database_of_a_shape_is_a_copy_not_a_boot() {
    let mut core = core_with_database();
    let mut first = making(&["sale"]);
    match first.next_step() {
        MakeStep::LookFor { template } => assert_eq!(template, "oo_template_k"),
        _ => panic!("a template is looked for"),
    }
    first.on_looked(false);
    assert!(matches!(first.next_step(), MakeStep::Create));
    first.on_made(31);
    assert!(matches!(first.next_step(), MakeStep::Install { database_id: 31 }));
    first.on_installed();
    assert!(matches!(first.next_step(), MakeStep::KeepAsTemplate { .. }));
    first.on_kept(&mut core, Ok(()), &stamp(70)).unwrap();
    match &core.recent_events(1)[0].event {
        Event::TemplateCached { key, modules } => {
            assert_eq!(key, "k");
            assert_eq!(modules, &vec!["sale".to_string()]);
        }
        _ => panic!("unexpected event"),
    }
    assert!(matches!(
        first.next_step(),
        MakeStep::Finished { database_id: 31, from_template: false }
    ));

    let mut second = making(&["sale"]);
    second.on_looked(true);
    assert!(matches!(second.next_step(), MakeStep::CopyTemplate { .. }));
    second.on_made(32);
    assert!(matches!(
        second.next_step(),
        MakeStep::Finished { database_id: 32, from_template: true }
    ));
}

#[test]
fn a_database_without_modules_is_just_made() {
    let mut core = core_with_database();
    let mut bare = making(&[]);
    assert!(matches!(bare.next_step(), MakeStep::Create));
    bare.on_made(33);
    assert!(matches!(
        bare.next_step(),
        MakeStep::Finished { database_id: 33, from_template: false }
    ));
    let before = core.events.len();
    bare.on_kept(&mut core, Err(failed("no space")), &stamp(71)).unwrap();
    assert_eq!(core.events.len(), before, "a template that was not made is not noted");
}
