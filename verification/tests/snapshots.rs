//! Snapshots of databases and going back to them.

use orchestrator_core::environment::{server_folder, Environment};
use orchestrator_core::errors::CoreError;
use orchestrator_core::events::Event;
use orchestrator_core::git::{current_branch, CommandOutput};
use orchestrator_core::model::{Snapshot, SourceKind};
use orchestrator_core::postgres::PgState;
use orchestrator_core::records::{Core, Stamp};
use orchestrator_core::servers::{Supervised, Surroundings};
use orchestrator_core::snapshots::{
    derive_snapshot_database_name, revert_steps, snapshot_files, RevertStep,
};

const PG: u128 = 500;
const SERVER: u128 = 10;

fn stamp(n: u128) -> Stamp {
    Stamp { event_id: 1_000_000 + n, now: n as i128 }
}

fn core_with_databases() -> Core {
    let mut core = Core::new();
    core.create_postgres_instance(
        PG,
        "test".to_string(),
        "16".to_string(),
        5433,
        "/tmp/pg".to_string(),
        &stamp(1),
    )
    .unwrap();
    core.create_server(SERVER, "acme".to_string(), "17.0".to_string(), 8069, PG, &stamp(2))
        .unwrap();
    for (id, name) in [(30, "acme"), (31, "northwind")] {
        core.create_database(id, SERVER, name.to_string(), Ok(()), 5, &stamp(id)).unwrap();
    }
    core
}

fn running() -> Surroundings {
    let supervised = vec![Supervised { instance_id: PG, state: PgState::Running { pid: 7 } }];
    Surroundings { supervised, bin_dir: Some("/bin".to_string()) }
}

fn take(core: &mut Core, id: u128, database: u128, name: &str, files: Option<&str>) -> Snapshot {
    core.create_snapshot(
        id,
        database,
        format!("snap_{id}"),
        name.to_string(),
        files.map(|f| f.to_string()),
        None,
        Ok(()),
        7,
        &stamp(id),
    )
    .unwrap()
}

#[test]
fn a_snapshot_is_kept_in_a_database_of_its_own() {
    let name = derive_snapshot_database_name("acme-live é", 0x1234);
    assert_eq!(name, "snap_acme_live___00000000000000000000000000001234");
    assert_ne!(name, derive_snapshot_database_name("acme-live é", 0x1235));
    assert!(name.chars().all(|c| c.is_ascii_alphanumeric() || c == '_'));
}

/// PostgreSQL keeps 63 bytes of a name, so that a longer one would lose the end that makes it
/// unique.
#[test]
fn a_snapshot_of_a_long_name_still_goes_by_a_name_of_its_own() {
    let source = "a_customer_with_a_rather_long_name_for_a_database";
    let one = derive_snapshot_database_name(source, 1);
    let two = derive_snapshot_database_name(source, 2);
    assert_eq!(one, "snap_a_customer_with_a_rather__00000000000000000000000000000001");
    assert_eq!(one.len(), 63);
    assert_ne!(one, two);
    let exact = derive_snapshot_database_name("abcdefghijklmnopqrstuvwxy", 1);
    assert_eq!(exact, "snap_abcdefghijklmnopqrstuvwxy_00000000000000000000000000000001");
}

#[test]
fn list_snapshots_scopes_to_database_when_asked() {
    let mut core = core_with_databases();
    take(&mut core, 40, 30, "snap-a1", None);
    take(&mut core, 41, 30, "snap-a2", None);
    take(&mut core, 42, 31, "snap-b1", None);
    assert_eq!(core.list_snapshots(Some(30)).len(), 2);
    assert_eq!(core.list_snapshots(Some(31)).len(), 1);
    assert_eq!(core.list_snapshots(None).len(), 3);
}

#[test]
fn create_snapshot_emits_event_with_filestore_flag() {
    let mut core = core_with_databases();
    take(&mut core, 40, 30, "flagged", None);
    match &core.recent_events(1)[0].event {
        Event::SnapshotCreated { snapshot_id, has_filestore, .. } => {
            assert_eq!((*snapshot_id, *has_filestore), (40, false));
        }
        _ => panic!("unexpected event"),
    }
    take(&mut core, 41, 30, "with files", Some("/snapshots/x"));
    match &core.recent_events(1)[0].event {
        Event::SnapshotCreated { has_filestore, .. } => assert!(*has_filestore),
        _ => panic!("unexpected event"),
    }
    core.delete_snapshot(40, Ok(()), &stamp(90)).unwrap();
    assert!(matches!(
        core.recent_events(1)[0].event,
        Event::SnapshotDeleted { snapshot_id: 40 }
    ));
}

#[test]
fn snapshot_survives_and_stays_deletable_after_its_source_database_is_dropped() {
    let mut core = core_with_databases();
    take(&mut core, 40, 30, "outlives-source", None);
    core.drop_database(30, Ok(()), &stamp(80)).unwrap();
    assert!(matches!(core.get_database(30), Err(CoreError::NotFound(_))));
    assert!(core.list_snapshots(None).iter().any(|s| s.id == 40));
    core.delete_snapshot(40, Ok(()), &stamp(81)).unwrap();
    assert!(core.list_snapshots(None).is_empty());
}

#[test]
fn a_snapshot_that_could_not_be_removed_is_kept() {
    let mut core = core_with_databases();
    take(&mut core, 40, 30, "stays", None);
    let failed = Err(CoreError::Io("busy".to_string()));
    assert!(core.delete_snapshot(40, failed, &stamp(81)).is_err());
    assert!(core.get_snapshot(40).is_ok());
    assert!(matches!(core.delete_snapshot(99, Ok(()), &stamp(82)), Err(CoreError::NotFound(_))));
}

fn branch_of(core: &Core, printed: &str) -> Option<String> {
    let output = CommandOutput {
        success: true,
        exit_code: Some(0),
        stdout: printed.to_string(),
        stderr: String::new(),
    };
    let folder = core.branch_folder(SERVER).unwrap().unwrap();
    core.current_git_branch(SERVER, Some(current_branch(&folder, &output))).unwrap()
}

#[test]
fn snapshots_remember_their_branch_and_can_be_found_from_it() {
    let mut core = core_with_databases();
    core.create_addons_source(
        60,
        SERVER,
        "this repo".to_string(),
        "/repo".to_string(),
        SourceKind::Private,
        0,
    )
    .unwrap();
    let mut taken = vec![];
    for (id, name, printed) in
        [(40, "before the refactor", "main\n"), (41, "invoicing wip", "feature/invoicing\n")]
    {
        let branch = branch_of(&core, printed);
        let snapshot = core
            .create_snapshot(
                id,
                30,
                format!("snap_{id}"),
                name.to_string(),
                None,
                branch,
                Ok(()),
                7,
                &stamp(id),
            )
            .unwrap();
        taken.push(snapshot);
    }
    assert_eq!(taken[0].git_branch.as_deref(), Some("main"));
    assert_eq!(taken[1].git_branch.as_deref(), Some("feature/invoicing"));
    let feature = core.snapshots_on_branch(SERVER, "feature/invoicing");
    assert_eq!(feature.len(), 1);
    assert_eq!(feature[0].id, 41);
    let main = core.snapshots_on_branch(SERVER, "main");
    assert_eq!(main.len(), 1);
    assert_eq!(main[0].id, 40);
    assert!(core.snapshots_on_branch(SERVER, "feature/never-existed").is_empty());
}

#[test]
fn a_snapshot_taken_with_no_linked_repo_records_no_branch() {
    let mut core = core_with_databases();
    let snapshot = take(&mut core, 40, 30, "main", None);
    assert_eq!(snapshot.git_branch, None);
    assert!(core.snapshots_on_branch(SERVER, "main").is_empty());
}

#[test]
fn revert_database_to_snapshot_rejects_a_snapshot_from_a_different_database() {
    let mut core = core_with_databases();
    take(&mut core, 40, 31, "snap-b", None);
    let err = core.plan_revert(30, 40, None, &Environment::new(), &running()).unwrap_err();
    assert!(matches!(
        err,
        CoreError::SnapshotNotForDatabase { snapshot_id: 40, database_id: 30 }
    ));
}

#[test]
fn revert_database_to_snapshot_rejects_filestore_target_when_snapshot_has_none() {
    let mut core = core_with_databases();
    take(&mut core, 40, 30, "db-only", None);
    let target = Some("/tmp/wont-be-used".to_string());
    let err = core.plan_revert(30, 40, target, &Environment::new(), &running()).unwrap_err();
    assert!(matches!(err, CoreError::SnapshotHasNoFilestore { snapshot_id: 40 }));
}

/// A snapshot with files is not gone back to without them.
#[test]
fn a_snapshot_with_files_needs_a_folder_for_them() {
    let mut core = core_with_databases();
    take(&mut core, 40, 30, "v1", Some("/snapshots/v1"));
    let err = core.plan_revert(30, 40, None, &Environment::new(), &running()).unwrap_err();
    assert_eq!(err.message(), "no data folder is configured for this app");
    let mut env = Environment::new();
    env.with_environment("/app".to_string(), vec![]);
    let plan = core.plan_revert(30, 40, None, &env, &running()).unwrap();
    assert_eq!(plan.files.unwrap().from, "/snapshots/v1");
    take(&mut core, 41, 30, "rows only", None);
    let plan = core.plan_revert(30, 41, None, &Environment::new(), &running()).unwrap();
    assert!(plan.files.is_none());
}

/// The present is kept before anything is dropped, and the files come last.
#[test]
fn revert_database_to_snapshot_takes_a_real_counter_snapshot_when_asked() {
    let mut core = core_with_databases();
    take(&mut core, 40, 30, "v1", Some("/snapshots/v1"));
    let target = Some("/live".to_string());
    let plan = core.plan_revert(30, 40, target, &Environment::new(), &running()).unwrap();
    assert_eq!(plan.database_name, "acme");
    assert_eq!(plan.snapshot_database_name, "snap_40");
    let steps = revert_steps(&plan, true, true);
    assert_eq!(steps.len(), 5);
    assert!(matches!(steps[0], RevertStep::TakeCounterSnapshot));
    assert!(matches!(steps[1], RevertStep::DropDatabase));
    assert!(matches!(steps[2], RevertStep::CopyDatabase));
    assert!(matches!(steps[3], RevertStep::RemoveFiles));
    assert!(matches!(steps[4], RevertStep::RestoreFiles));
    assert_eq!(revert_steps(&plan, false, false).len(), 3);

    core.revert_database_to_snapshot(30, 40, Some(41), 9, &stamp(60)).unwrap();
    match &core.recent_events(1)[0].event {
        Event::DatabaseRevertedToSnapshot { database_id, snapshot_id, counter_snapshot_id } => {
            assert_eq!((*database_id, *snapshot_id, *counter_snapshot_id), (30, 40, Some(41)));
        }
        _ => panic!("unexpected event"),
    }
    assert_eq!(core.get_database(30).unwrap().name, "acme");
}

#[test]
fn what_is_not_said_of_files_is_derived() {
    let own = || Some("/run/10/filestore/filestore/acme".to_string());
    let root = || Some("/app/snapshots".to_string());
    let copy = snapshot_files(None, None, own(), root(), "snap_1").unwrap().unwrap();
    assert_eq!(copy.from, "/run/10/filestore/filestore/acme");
    assert_eq!(copy.to, "/app/snapshots/snap_1");
    assert!(snapshot_files(None, None, None, root(), "snap_1").unwrap().is_none());
    assert!(snapshot_files(None, None, None, None, "snap_1").unwrap().is_none());
    let a = || Some("/a".to_string());
    assert!(snapshot_files(a(), None, own(), root(), "snap_1").unwrap().is_none());
    let asked = snapshot_files(a(), Some("/b".to_string()), own(), root(), "s").unwrap().unwrap();
    assert_eq!((asked.from.as_str(), asked.to.as_str()), ("/a", "/b/s"));
    let half = snapshot_files(None, None, own(), None, "snap_1").unwrap_err();
    assert_eq!(half.message(), "no data folder is configured for this app");
}

#[test]
fn files_are_where_the_server_last_ran() {
    let core = core_with_databases();
    let mut env = Environment::new();
    assert_eq!(core.database_filestore_path(30, &env).unwrap(), None);
    assert!(matches!(env.app_dir(), Err(CoreError::NotConfigured(_))));
    env.with_environment("/app".to_string(), vec![]);
    assert_eq!(env.app_dir().unwrap(), "/app");
    assert_eq!(env.store().unwrap().root, "/app/odoo");
    assert_eq!(env.snapshots_dir().as_deref(), Some("/app/snapshots"));
    assert_eq!(
        core.database_filestore_path(30, &env).unwrap().as_deref(),
        Some("/app/run/00000000-0000-0000-0000-00000000000a/filestore/filestore/acme")
    );
    env.remember_filestore(SERVER, "/one".to_string());
    env.remember_filestore(SERVER, "/two".to_string());
    assert_eq!(
        core.database_filestore_path(30, &env).unwrap().as_deref(),
        Some("/two/filestore/acme")
    );
    assert_eq!(server_folder("/run", 10), "/run/00000000-0000-0000-0000-00000000000a");
}
