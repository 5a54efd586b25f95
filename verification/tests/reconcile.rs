//! What the clusters hold against what is known.

use orchestrator_core::environment::Environment;
use orchestrator_core::odoo_runtime::CachedRuntime;
use orchestrator_core::reconcile::{
    freed_bytes, list_cluster_databases, sum, CachedTemplate, ClusterAnswer, ClusterDatabase,
};
use orchestrator_core::records::{Core, Stamp};

const PG: u128 = 500;
const SERVER: u128 = 10;

fn stamp(n: u128) -> Stamp {
    Stamp { event_id: 1_000_000 + n, now: n as i128 }
}

fn core_with(names: &[&str]) -> Core {
    let mut core = Core::new();
    core.create_postgres_instance(
        PG,
        "Local databases".to_string(),
        "16".to_string(),
        0,
        "/tmp/pg".to_string(),
        &stamp(1),
    )
    .unwrap();
    core.create_server(SERVER, "acme".to_string(), "17.0".to_string(), 8069, PG, &stamp(2))
        .unwrap();
    for (k, name) in names.iter().enumerate() {
        let id = 30 + k as u128;
        core.create_database(id, SERVER, name.to_string(), Ok(()), 5, &stamp(id)).unwrap();
    }
    core
}

fn answer(found: &[(&str, u64)]) -> Vec<ClusterAnswer> {
    let found = found
        .iter()
        .map(|(name, size)| ClusterDatabase {
            instance_id: PG,
            name: name.to_string(),
            size_bytes: *size,
        })
        .collect();
    vec![ClusterAnswer { instance_id: PG, found: Some(found) }]
}

#[test]
fn list_cluster_databases_reports_what_postgres_really_has() {
    let rows = vec![
        vec!["acme".to_string(), "8192".to_string()],
        vec!["odd".to_string()],
        vec!["other".to_string(), "x".to_string()],
    ];
    let found = list_cluster_databases(PG, &rows);
    assert_eq!(found[0].name, "acme");
    assert_eq!(found[0].size_bytes, 8192);
    assert!(found.iter().all(|d| d.instance_id == PG));
}

#[test]
fn reconciliation_finds_a_database_made_outside_the_app() {
    let mut core = core_with(&["acme"]);
    let there = || answer(&[("acme", 1), ("made_by_hand", 2)]);
    let report = core.reconcile_databases(&there());
    assert!(report.untracked.iter().any(|d| d.name == "made_by_hand"));
    assert!(!report.untracked.iter().any(|d| d.name == "acme"), "a tracked database is not a stray");
    assert!(report.missing.is_empty());
    assert!(report.unchecked.is_empty());

    core.adopt_database(40, SERVER, "made_by_hand".to_string(), Ok(true), &stamp(40)).unwrap();
    assert!(core.reconcile_databases(&there()).untracked.is_empty());
}

#[test]
fn reconciliation_finds_a_row_whose_database_vanished_underneath_it() {
    let mut core = core_with(&["acme"]);
    let report = core.reconcile_databases(&answer(&[]));
    assert_eq!(report.missing.len(), 1);
    assert_eq!(report.missing[0].database_id, 30);

    core.forget_database(30, &stamp(50)).unwrap();
    assert!(core.list_databases(None).is_empty());
    assert!(core.reconcile_databases(&answer(&[])).missing.is_empty());
}

#[test]
fn a_store_that_cannot_be_asked_is_unchecked_not_missing() {
    let core = core_with(&["acme"]);
    let report =
        core.reconcile_databases(&vec![ClusterAnswer { instance_id: PG, found: None }]);
    assert_eq!(report.unchecked.len(), 1);
    assert!(report.missing.is_empty());
}

#[test]
fn refresh_database_sizes_writes_real_measured_sizes() {
    let mut core = core_with(&["acme"]);
    assert_eq!(core.get_database(30).unwrap().size_bytes, 0);
    assert_eq!(core.refresh_database_sizes(&answer(&[("acme", 4096)])), 1);
    assert_eq!(core.get_database(30).unwrap().size_bytes, 4096);
}

#[test]
fn clearing_the_cache_cannot_reach_a_database_somebody_made() {
    let core = core_with(&["clients_live_work"]);
    let found = core.cached_templates(&answer(&[
        ("clients_live_work", 1),
        ("oo_template_deadbeef00000000", 2),
    ]));
    assert_eq!(found.len(), 1);
    assert_eq!(found[0].database_name, "oo_template_deadbeef00000000");
    assert_eq!(found[0].key, "deadbeef00000000");
}

#[test]
fn only_what_was_dropped_is_freed() {
    let template = |size: u64| CachedTemplate {
        key: "k".to_string(),
        database_name: "oo_template_k".to_string(),
        instance_id: PG,
        size_bytes: size,
    };
    assert_eq!(freed_bytes(&vec![template(5), template(7)], &vec![true, false]), 5);
    assert_eq!(sum(&vec![1, 2, 3]), 6);
}

#[test]
fn disk_usage_adds_up_what_is_measured() {
    let mut core = core_with(&["a", "b"]);
    core.set_database_size(30, 10);
    core.set_database_size(31, 20);
    let copy = CachedRuntime {
        version: "17.0".to_string(),
        folder: "17.0".to_string(),
        path: "/app/odoo/17.0".to_string(),
        size_bytes: 100,
        has_venv: false,
    };
    let mut env = Environment::new();
    env.with_environment("/app".to_string(), vec![]);
    let usage = core.disk_usage(&env, &vec![3, 4], 5, 6, vec![copy]).unwrap();
    assert_eq!(usage.database_bytes, 30);
    assert_eq!(usage.snapshot_filestore_bytes, 7);
    assert_eq!(usage.backup_bytes, 5);
    assert_eq!(usage.module_bytes, 6);
    assert_eq!(usage.odoo_copy_bytes, 100);
    assert!(core.disk_usage(&Environment::new(), &vec![], 0, 0, vec![]).is_err());
}
