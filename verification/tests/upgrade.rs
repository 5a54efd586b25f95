//! Moving a database to another version.

use orchestrator_core::environment::Environment;
use orchestrator_core::errors::CoreError;
use orchestrator_core::events::Event;
use orchestrator_core::model::SourceKind;
use orchestrator_core::odoo::OneShotOutput;
use orchestrator_core::openupgrade::Hop;
use orchestrator_core::postgres::PgState;
use orchestrator_core::records::{Core, Stamp};
use orchestrator_core::servers::{Supervised, Surroundings};
use orchestrator_core::upgrade::{
    base_version_query, check_migrated, hop_outcome, Readiness, Upgrade, UpgradeStep,
};

const PG: u128 = 500;

fn stamp(n: u128) -> Stamp {
    Stamp { event_id: 1_000_000 + n, now: n as i128 }
}

fn core_on(version: &str) -> Core {
    let mut core = Core::new();
    core.create_postgres_instance(
        PG,
        "test".to_string(),
        "16".to_string(),
        5433,
        "/tmp/pg".to_string(),
        &stamp(1),
    )
    .unwrap();
    core.create_server(10, "acme".to_string(), version.to_string(), 8069, PG, &stamp(2)).unwrap();
    core.create_database(30, 10, "acme_db".to_string(), Ok(()), 5, &stamp(3)).unwrap();
    core
}

fn add_source(core: &mut Core, id: u128, label: &str, path: &str, kind: SourceKind, rank: u32) {
    core.create_addons_source(id, 10, label.to_string(), path.to_string(), kind, rank).unwrap();
}

fn app() -> Environment {
    let mut env = Environment::new();
    env.with_environment("/app".to_string(), vec![]);
    env
}

fn nothing_ready() -> Vec<Readiness> {
    (0..3).map(|_| Readiness { odoo_ready: false, openupgrade_ready: false }).collect()
}

#[test]
fn a_plan_says_what_it_would_have_to_fetch_first() {
    let core = core_on("15.0");
    assert_eq!(core.upgrade_chain(30, "18.0").unwrap(), vec!["16.0", "17.0", "18.0"]);
    let plan = core.plan_upgrade(30, "18.0", &app(), &nothing_ready()).unwrap();
    assert_eq!(plan.hops.len(), 3, "15 to 18 cannot be done in one step");
    let to: Vec<&str> = plan.hops.iter().map(|h| h.to.as_str()).collect();
    assert_eq!(to, vec!["16.0", "17.0", "18.0"]);
    assert_eq!(plan.hops[0].from, "15.0");
    assert_eq!(plan.hops[1].from, "16.0");
    assert!(plan.hops.iter().all(|h| !h.openupgrade_ready));
    assert_eq!(plan.into, "acme_db_v180");
    assert_eq!(plan.database_name, "acme_db");
}

#[test]
fn a_plan_carries_private_and_oca_addons_but_never_core() {
    let mut core = core_on("16.0");
    add_source(&mut core, 20, "odoo-core", "/tmp/odoo-core", SourceKind::Core, 0);
    add_source(&mut core, 21, "acme's own code", "/tmp/acme-private", SourceKind::Private, 1);
    add_source(&mut core, 22, "OCA mirror", "/tmp/acme-oca", SourceKind::Oca, 2);
    let plan = core.plan_upgrade(30, "17.0", &app(), &nothing_ready()).unwrap();
    let labels: Vec<&str> = plan.carried_addons.iter().map(|c| c.label.as_str()).collect();
    assert_eq!(labels, vec!["acme's own code", "OCA mirror"]);
}

#[test]
fn a_plan_with_no_custom_addons_carries_nothing() {
    let mut core = core_on("16.0");
    add_source(&mut core, 20, "odoo-core", "/tmp/odoo-core", SourceKind::Core, 0);
    let plan = core.plan_upgrade(30, "17.0", &app(), &nothing_ready()).unwrap();
    assert!(plan.carried_addons.is_empty());
}

#[test]
fn an_impossible_migration_is_refused_up_front() {
    let core = core_on("17.0");
    let err = core.plan_upgrade(30, "16.0", &app(), &nothing_ready()).unwrap_err();
    assert_eq!(err.message(), "there's no OpenUpgrade path from 17.0 to 16.0");
    assert!(core.plan_upgrade(30, "nonsense", &app(), &nothing_ready()).is_err());
    assert!(core.plan_upgrade(99, "18.0", &app(), &nothing_ready()).is_err());

    let plan = core.plan_upgrade(30, "17.0", &app(), &vec![]).unwrap();
    let upgrade = Upgrade::new(plan);
    assert!(matches!(upgrade.next_step(), UpgradeStep::Finished));
    assert!(upgrade.run.working_database_id.is_none(), "there is nothing to copy");
    assert!(upgrade.run.completed.is_empty());
}

/// The copy is made first, and before each step the copy is snapshotted.
#[test]
fn a_move_goes_step_by_step_on_a_copy() {
    let mut core = core_on("15.0");
    let plan = core.plan_upgrade(30, "17.0", &app(), &nothing_ready()).unwrap();
    let mut upgrade = Upgrade::new(plan);
    match upgrade.next_step() {
        UpgradeStep::Duplicate { into } => assert_eq!(into, "acme_db_v170"),
        _ => panic!("the copy comes first"),
    }
    core.duplicate_database(31, 30, "acme_db_v170".to_string(), Ok(()), 5, &stamp(31)).unwrap();
    upgrade.on_duplicated(&mut core, 31, &stamp(40)).unwrap();
    assert!(matches!(
        core.recent_events(1)[0].event,
        Event::UpgradeStarted { working_database_id: 31, hops: 2, .. }
    ));
    match upgrade.next_step() {
        UpgradeStep::Snapshot { working_database_id, name } => {
            assert_eq!(working_database_id, 31);
            assert_eq!(name, "before 15.0 → 16.0");
        }
        _ => panic!("a snapshot comes before the step"),
    }
    upgrade.on_snapshot(50);
    match upgrade.next_step() {
        UpgradeStep::Migrate { working_database_id, hop } => {
            assert_eq!(working_database_id, 31);
            assert_eq!((hop.from.as_str(), hop.to.as_str()), ("15.0", "16.0"));
        }
        _ => panic!("the step comes next"),
    }
    upgrade.on_migrated(&mut core, Ok(()), &stamp(41)).unwrap();
    assert!(matches!(upgrade.next_step(), UpgradeStep::Snapshot { .. }));
    upgrade.on_snapshot(51);
    let failure = Err(CoreError::NotConfigured("boom".to_string()));
    upgrade.on_migrated(&mut core, failure, &stamp(42)).unwrap();
    assert!(matches!(upgrade.next_step(), UpgradeStep::Finished));
    let failed = upgrade.run.failed.as_ref().unwrap();
    assert_eq!(failed.message, "boom");
    assert_eq!(failed.checkpoint_id, 51);
    assert_eq!(upgrade.run.completed.len(), 1);
    assert!(matches!(core.recent_events(1)[0].event, Event::UpgradeHopFailed { .. }));
    let before = core.events.len();
    upgrade.on_finished(&mut core, 9, &stamp(43)).unwrap();
    assert_eq!(core.events.len(), before, "a move that failed is not finished");
    assert_eq!(core.get_database(30).unwrap().name, "acme_db", "the original is left alone");
}

fn hop() -> Hop {
    Hop {
        from: "15.0".to_string(),
        to: "16.0".to_string(),
        odoo_ready: true,
        openupgrade_ready: true,
    }
}

#[test]
fn a_hop_runs_odoo_of_the_next_version_with_the_carried_addons() {
    let mut core = core_on("15.0");
    add_source(&mut core, 21, "mine", "/mine", SourceKind::Private, 0);
    core.duplicate_database(31, 30, "copy".to_string(), Ok(()), 5, &stamp(31)).unwrap();
    let working = core.get_database(31).unwrap();
    let supervised = vec![Supervised { instance_id: PG, state: PgState::Running { pid: 7 } }];
    let around = Surroundings { supervised, bin_dir: Some("/bin".to_string()) };
    let run = core.plan_hop(&working, &hop(), PG, "/odoo16", "/ou16", &app(), &around).unwrap();
    assert_eq!(
        run.run_dir,
        "/app/upgrades/00000000-0000-0000-0000-00000000001f/16.0"
    );
    assert!(run
        .conf
        .contains("addons_path = /odoo16/addons,/odoo16/odoo/addons,/ou16,/mine\n"));
    assert!(run.conf.contains("http_port = 0\n"));
    assert_eq!(
        run.args,
        vec![
            "/odoo16/odoo-bin",
            "-c",
            run.conf_path.as_str(),
            "-d",
            "copy",
            "--update",
            "all",
            "--load=base,web,openupgrade_framework",
            "--stop-after-init",
            "--no-http",
        ]
    );
    assert_eq!(
        run.env,
        vec![("OPENUPGRADE_TARGET_VERSION".to_string(), "16.0".to_string())]
    );
    let asked = base_version_query(&run.conn, "copy");
    assert!(asked.args.contains(&"copy".to_string()));
    assert_eq!(asked.args[4..6], ["-U", "odoo"]);
}

/// A migration that says it succeeded is believed only where the database says so too.
#[test]
fn a_hop_is_over_when_the_database_says_so() {
    let output = |success: bool| OneShotOutput {
        success,
        exit_code: Some(0),
        stdout: String::new(),
        stderr: "trace".to_string(),
    };
    assert!(hop_outcome("copy", &hop(), output(true)).is_ok());
    let e = hop_outcome("copy", &hop(), output(false)).unwrap_err();
    assert_eq!(e.message(), "odoo module migrate 15.0 → 16.0 failed for database copy: trace");
    assert!(check_migrated(&hop(), Some("16.0.1.3".to_string())).is_ok());
    let e = check_migrated(&hop(), Some("15.0.1.3".to_string())).unwrap_err();
    assert_eq!(
        e.message(),
        "the migration to 16.0 reported success, but base is still at 15.0.1.3"
    );
    assert!(check_migrated(&hop(), None).is_err());
}
