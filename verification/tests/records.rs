//! Projects, servers, clusters and addons sources.

use orchestrator_core::discovery::DiscoveredRoot;
use orchestrator_core::environment::Environment;
use orchestrator_core::errors::CoreError;
use orchestrator_core::events::Event;
use orchestrator_core::git::GitError;
use orchestrator_core::model::{ReloadPolicy, ServerState, SourceKind};
use orchestrator_core::postgres::PgState;
use orchestrator_core::records::{Core, Stamp};
use orchestrator_core::servers::{next_free_port, CopyIds, Supervised, Surroundings};

fn stamp(n: u128) -> Stamp {
    Stamp { event_id: 1_000_000 + n, now: n as i128 }
}

const PG: u128 = 500;

fn core_with_postgres_instance() -> Core {
    let mut core = Core::new();
    core.create_postgres_instance(
        PG,
        "test".to_string(),
        "16".to_string(),
        0,
        "/tmp/pg".to_string(),
        &stamp(1),
    )
    .unwrap();
    core
}

fn create_server(core: &mut Core, id: u128, name: &str, version: &str, port: u16) {
    core.create_server(id, name.to_string(), version.to_string(), port, PG, &stamp(id)).unwrap();
}

fn add_source(core: &mut Core, id: u128, server: u128, label: &str, kind: SourceKind, rank: u32) {
    core.create_addons_source(
        id,
        server,
        label.to_string(),
        format!("/tmp/{label}"),
        kind,
        rank,
    )
    .unwrap();
}

/// Neither switch is on until somebody asks for it.
#[test]
fn a_new_odoo_reloads_nothing_until_asked() {
    let mut core = core_with_postgres_instance();
    let server = core
        .create_server(10, "Acme".to_string(), "17.0".to_string(), 8069, PG, &stamp(2))
        .unwrap();
    assert!(!server.reload.reload_python);
    assert!(!server.reload.update_on_data_change);
    let read_back = core.get_server(server.id).unwrap();
    assert_eq!(read_back.reload, server.reload);
}

#[test]
fn the_reload_policy_is_remembered() {
    let mut core = core_with_postgres_instance();
    create_server(&mut core, 10, "Acme", "17.0", 8069);
    core.set_reload_policy(10, ReloadPolicy { reload_python: false, update_on_data_change: true })
        .unwrap();
    let read_back = core.get_server(10).unwrap();
    assert!(read_back.reload.update_on_data_change);
    assert!(!read_back.reload.reload_python, "one switch must not flip the other");
    let servers = core.list_servers();
    let listed = servers.iter().find(|s| s.id == 10).unwrap();
    assert_eq!(listed.reload, read_back.reload);
}

#[test]
fn one_switch_of_a_policy_may_change_alone() {
    let policy = ReloadPolicy { reload_python: true, update_on_data_change: false };
    let changed = policy.patched(None, Some(true));
    assert!(changed.reload_python && changed.update_on_data_change);
    assert_eq!(policy.patched(None, None), policy);
}

/// What is shown of the configuration is what a start writes.
#[test]
fn the_previewed_config_is_the_config_that_would_run() {
    let mut core = core_with_postgres_instance();
    let env = Environment::new();
    create_server(&mut core, 10, "Acme", "17.0", 8069);
    let before = core.preview_odoo_conf(10, &env).unwrap();
    assert!(before.conf.contains("http_port = 8069"));
    assert!(before.conf.contains("dbfilter = ^%d$"));
    assert_eq!(before.command, "odoo-bin -c odoo.conf");

    core.set_reload_policy(10, ReloadPolicy { reload_python: true, update_on_data_change: false })
        .unwrap();
    let after = core.preview_odoo_conf(10, &env).unwrap();
    assert!(after.command.ends_with("--dev=reload,qweb,xml"), "{}", after.command);
    assert!(!after.conf.contains("dev_mode"), "the file must not pretend to carry this");
}

#[test]
fn a_project_holds_odoos_and_reports_what_it_holds() {
    let mut core = core_with_postgres_instance();
    let acme = core.create_project(1, "Acme".to_string(), 2, &stamp(2)).unwrap();
    let sandbox = core.create_project(2, "Sandbox".to_string(), 4, &stamp(3)).unwrap();
    for (id, name, version, port, project) in [
        (10, "Acme 17", "17.0", 8069, acme.id),
        (11, "Acme 16", "16.0", 8070, acme.id),
        (12, "Playground", "17.0", 8071, sandbox.id),
    ] {
        core.create_server_in_project(
            id,
            name.to_string(),
            version.to_string(),
            port,
            PG,
            Some(project),
            &stamp(id),
        )
        .unwrap();
    }

    let servers = core.list_servers();
    let in_acme = servers.iter().filter(|s| s.project_id == Some(acme.id)).count();
    assert_eq!(in_acme, 2, "both Acme Odoos should be filed under Acme");
    assert_eq!(servers.iter().filter(|s| s.project_id == Some(sandbox.id)).count(), 1);
    assert_eq!(core.count_servers_in_project(acme.id), 2);

    let renamed =
        core.rename_project(acme.id, "Acme Retail".to_string(), acme.color, &stamp(40)).unwrap();
    assert_eq!(renamed.name, "Acme Retail");
    assert_eq!(renamed.color, 2);
    assert_eq!(core.get_project(acme.id).unwrap().name, "Acme Retail");
}

#[test]
fn deleting_a_project_that_still_holds_odoos_is_refused() {
    let mut core = core_with_postgres_instance();
    let project = core.create_project(1, "Acme".to_string(), 0, &stamp(2)).unwrap();
    core.create_server_in_project(
        10,
        "Acme 17".to_string(),
        "17.0".to_string(),
        8069,
        PG,
        Some(project.id),
        &stamp(3),
    )
    .unwrap();

    match core.delete_project(project.id, &stamp(4)) {
        Err(CoreError::ProjectNotEmpty { server_count, .. }) => assert_eq!(server_count, 1),
        _ => panic!("expected ProjectNotEmpty"),
    }
    assert!(core.get_project(project.id).is_ok());

    let elsewhere = core.create_project(2, "Elsewhere".to_string(), 1, &stamp(5)).unwrap();
    core.move_server_to_project(10, elsewhere.id).unwrap();
    core.delete_project(project.id, &stamp(6)).unwrap();
    assert!(core.get_project(project.id).is_err());
    assert_eq!(core.get_server(10).unwrap().project_id, Some(elsewhere.id));
}

#[test]
fn duplicating_a_project_copies_setup_on_free_ports_and_never_copies_databases() {
    let mut core = core_with_postgres_instance();
    let source = core.create_project(1, "Acme".to_string(), 3, &stamp(2)).unwrap();
    core.create_server_in_project(
        10,
        "Acme 17".to_string(),
        "17.0".to_string(),
        8069,
        PG,
        Some(source.id),
        &stamp(3),
    )
    .unwrap();
    add_source(&mut core, 20, 10, "Private", SourceKind::Private, 0);
    add_source(&mut core, 21, 10, "OCA", SourceKind::Oca, 1);
    core.create_database(30, 10, "acme".to_string(), Ok(()), 5, &stamp(4)).unwrap();

    let ids = vec![CopyIds { server: 11, sources: vec![22, 23] }];
    let copy = core
        .duplicate_project(source.id, 2, "Acme (copy)".to_string(), &ids, &stamp(5))
        .unwrap();
    assert_ne!(copy.id, source.id);

    let servers = core.list_servers();
    let copied: Vec<_> = servers.iter().filter(|s| s.project_id == Some(copy.id)).collect();
    assert_eq!(copied.len(), 1, "the Odoo definition should have been reproduced");
    assert_eq!(copied[0].odoo_version, "17.0");
    assert_ne!(copied[0].port, 8069, "a copy must not reuse a port another Odoo already claims");
    assert_eq!(copied[0].state, ServerState::Stopped);

    let sources = core.list_addons_sources(copied[0].id);
    assert_eq!(sources.len(), 2);
    assert_eq!(sources[0].label, "Private");
    assert_eq!(sources[0].rank, 0);
    assert_eq!(sources[1].label, "OCA");

    assert_eq!(core.list_addons_sources(10).len(), 2);
    assert_eq!(core.list_databases(None).len(), 1, "databases are never copied");
}

#[test]
fn odoos_created_before_projects_existed_are_adopted_on_open() {
    let mut core = core_with_postgres_instance();
    create_server(&mut core, 10, "Legacy", "16.0", 8069);
    assert_eq!(core.get_server(10).unwrap().project_id, None);

    core.adopt_orphan_servers(1, &stamp(20)).unwrap();
    assert_eq!(core.list_projects().len(), 1);
    let project = core.list_projects()[0].id;
    assert_eq!(core.list_servers()[0].project_id, Some(project));

    core.adopt_orphan_servers(2, &stamp(21)).unwrap();
    assert_eq!(core.list_projects().len(), 1);
}

#[test]
fn create_server_persists_and_emits_event() {
    let mut core = core_with_postgres_instance();
    let before = core.events.len();
    let server = core
        .create_server(10, "acme".to_string(), "17.0".to_string(), 8069, PG, &stamp(2))
        .unwrap();
    assert_eq!(server.odoo_version, "17.0");
    assert_eq!(server.postgres_instance_id, PG);

    let listed = core.list_servers();
    assert_eq!(listed.len(), 1);
    assert_eq!(listed[0].id, server.id);

    assert_eq!(core.events.len(), before + 1);
    match &core.events[before].event {
        Event::ServerCreated { server_id, .. } => assert_eq!(*server_id, server.id),
        _ => panic!("unexpected event"),
    }
}

#[test]
fn update_server_state_tracks_started_at_without_a_real_odoo_process() {
    let mut core = core_with_postgres_instance();
    create_server(&mut core, 10, "acme", "17.0", 8069);
    assert_eq!(core.get_server(10).unwrap().started_at, None);

    core.update_server_state(10, ServerState::Starting, 100);
    assert_eq!(core.get_server(10).unwrap().started_at, None, "Starting isn't Running yet");

    core.update_server_state(10, ServerState::Running, 101);
    assert!(core.get_server(10).unwrap().started_at.is_some());

    core.update_server_state(10, ServerState::Stopped, 102);
    assert_eq!(core.get_server(10).unwrap().started_at, None);

    let logged = core.recent_events(10);
    assert_eq!(logged.len(), 2, "event log should be durable, not just broadcast");
}

#[test]
fn create_server_rejects_unknown_postgres_instance() {
    let mut core = Core::new();
    let err = core
        .create_server(10, "acme".to_string(), "17.0".to_string(), 8069, 99, &stamp(1))
        .unwrap_err();
    assert!(matches!(err, CoreError::NotFound(_)));
}

#[test]
fn current_git_branch_returns_none_when_no_private_addons_source_registered() {
    let mut core = core_with_postgres_instance();
    create_server(&mut core, 10, "acme", "17.0", 8069);
    add_source(&mut core, 20, 10, "oca-only", SourceKind::Oca, 0);
    assert_eq!(core.branch_folder(10).unwrap(), None);
    assert_eq!(core.current_git_branch(10, None).unwrap(), None);
}

#[test]
fn current_git_branch_returns_the_real_branch_of_the_linked_private_repo() {
    let mut core = core_with_postgres_instance();
    create_server(&mut core, 10, "acme", "17.0", 8069);
    add_source(&mut core, 20, 10, "repo", SourceKind::Private, 0);
    assert_eq!(core.branch_folder(10).unwrap().as_deref(), Some("/tmp/repo"));
    let said = Some(Ok("feature/new-invoicing".to_string()));
    assert_eq!(
        core.current_git_branch(10, said).unwrap(),
        Some("feature/new-invoicing".to_string())
    );
}

#[test]
fn current_git_branch_returns_none_when_private_source_is_not_a_git_repo() {
    let mut core = core_with_postgres_instance();
    create_server(&mut core, 10, "acme", "17.0", 8069);
    add_source(&mut core, 20, 10, "repo", SourceKind::Private, 0);
    let said = Some(Err(GitError::NotARepo("/tmp/repo".to_string())));
    assert_eq!(core.current_git_branch(10, said).unwrap(), None);
}

#[test]
fn current_git_branch_ignores_non_private_sources_even_if_they_are_git_repos() {
    let mut core = core_with_postgres_instance();
    create_server(&mut core, 10, "acme", "17.0", 8069);
    add_source(&mut core, 20, 10, "oca vendor repo", SourceKind::Oca, 0);
    assert_eq!(core.branch_folder(10).unwrap(), None, "only Private counts");
    let said = Some(Ok("vendor-branch".to_string()));
    assert_eq!(core.current_git_branch(10, said).unwrap(), None);
}

#[test]
fn current_git_branch_rejects_unknown_server() {
    let core = Core::new();
    let err = core.current_git_branch(99, None).unwrap_err();
    assert!(matches!(err, CoreError::NotFound(_)));
}

#[test]
fn shadowing_source_kind_round_trips_through_sqlite() {
    let mut core = core_with_postgres_instance();
    create_server(&mut core, 10, "acme", "17.0", 8069);
    let created = core
        .create_addons_source(
            20,
            10,
            "this repo".to_string(),
            "~/repos/acme-odoo/addons".to_string(),
            SourceKind::Private,
            0,
        )
        .unwrap();
    let listed = core.list_addons_sources(10);
    assert_eq!(listed.len(), 1);
    assert_eq!(listed[0].id, created.id);
    assert_eq!(listed[0].kind, SourceKind::Private);
    assert_eq!(listed[0].rank, 0);

    let row = orchestrator_core::db::encode_addons_source(listed[0]);
    let read_back = orchestrator_core::db::decode_addons_source(&row);
    assert_eq!(read_back.id, created.id);
    assert_eq!(read_back.kind, SourceKind::Private);
    assert_eq!(read_back.rank, 0);
}

#[test]
fn create_addons_source_rejects_unknown_server() {
    let mut core = Core::new();
    let err = core
        .create_addons_source(
            20,
            99,
            "orphan".to_string(),
            "/tmp".to_string(),
            SourceKind::Private,
            0,
        )
        .unwrap_err();
    assert!(matches!(err, CoreError::NotFound(_)));
}

#[test]
fn list_addons_sources_orders_by_rank() {
    let mut core = core_with_postgres_instance();
    create_server(&mut core, 10, "acme", "17.0", 8069);
    add_source(&mut core, 20, 10, "core", SourceKind::Core, 2);
    add_source(&mut core, 21, 10, "private", SourceKind::Private, 0);
    add_source(&mut core, 22, 10, "oca", SourceKind::Oca, 1);
    let labels: Vec<&str> = core.list_addons_sources(10).iter().map(|s| s.label.as_str()).collect();
    assert_eq!(labels, vec!["private", "oca", "core"], "rank 0 (loads first) should come first");
}

#[test]
fn scan_modules_emits_an_event_and_rejects_unknown_server() {
    let mut core = core_with_postgres_instance();
    let before = core.events.len();
    create_server(&mut core, 10, "acme", "17.0", 8069);

    let scan = core.scan_modules(10, &vec![], &stamp(30)).unwrap();
    assert_eq!(scan.server_id, 10);
    assert!(scan.modules.is_empty(), "no addons sources registered yet");

    assert!(matches!(core.events[before].event, Event::ServerCreated { .. }));
    assert!(matches!(
        core.events[before + 1].event,
        Event::ModulesScanned { module_count: 0, shadow_count: 0, .. }
    ));

    let err = core.scan_modules(99, &vec![], &stamp(31)).unwrap_err();
    assert!(matches!(err, CoreError::NotFound(_)));
}

#[test]
fn create_postgres_instance_persists_and_emits_event() {
    let mut core = Core::new();
    let instance = core
        .create_postgres_instance(
            PG,
            "main".to_string(),
            "16".to_string(),
            55420,
            "/tmp/pg-main".to_string(),
            &stamp(1),
        )
        .unwrap();
    assert_eq!(instance.pg_version, "16");

    let listed = core.list_postgres_instances();
    assert_eq!(listed.len(), 1);
    assert_eq!(listed[0].id, instance.id);
    assert_eq!(core.get_postgres_instance(instance.id).unwrap().label, "main");

    match &core.events[0].event {
        Event::PostgresInstanceCreated { instance_id, .. } => assert_eq!(*instance_id, instance.id),
        _ => panic!("unexpected event"),
    }
}

#[test]
fn get_postgres_instance_rejects_unknown_id() {
    let core = Core::new();
    let err = core.get_postgres_instance(99).unwrap_err();
    assert!(matches!(err, CoreError::NotFound(_)));
}

#[test]
fn postgres_instance_state_is_stopped_before_any_start() {
    let core = core_with_postgres_instance();
    assert_eq!(core.postgres_instance_state(PG, None).unwrap(), PgState::Stopped);
}

#[test]
fn postgres_instance_state_rejects_unknown_id() {
    let core = Core::new();
    let err = core.postgres_instance_state(99, None).unwrap_err();
    assert!(matches!(err, CoreError::NotFound(_)));
}

#[test]
fn a_cluster_that_does_not_run_is_not_connected_to() {
    let core = core_with_postgres_instance();
    let stopped = Surroundings { supervised: vec![], bin_dir: Some("/bin".to_string()) };
    assert!(matches!(
        core.pg_conn_info_for_running_instance(PG, &stopped).unwrap_err(),
        CoreError::PostgresInstanceNotRunning { instance_id: PG, state: PgState::Stopped }
    ));
    let running = Supervised { instance_id: PG, state: PgState::Running { pid: 7 } };
    let around = Surroundings { supervised: vec![running], bin_dir: Some("/bin".to_string()) };
    let conn = core.pg_conn_info_for_running_instance(PG, &around).unwrap();
    assert_eq!(conn.bin_dir, "/bin");
    assert_eq!(conn.host, "/tmp/pg");
}

#[test]
fn an_identifier_is_taken_once() {
    let mut core = core_with_postgres_instance();
    create_server(&mut core, 10, "acme", "17.0", 8069);
    let err = core
        .create_server(10, "again".to_string(), "17.0".to_string(), 8070, PG, &stamp(40))
        .unwrap_err();
    match err {
        CoreError::Sqlite(message) => {
            assert_eq!(message, "UNIQUE constraint failed: servers.id")
        }
        _ => panic!("expected a refusal by the store"),
    }
    assert_eq!(core.list_servers().len(), 1);
}

fn refusal(e: CoreError) -> String {
    match e {
        CoreError::Sqlite(message) => message,
        _ => panic!("expected a refusal by the store"),
    }
}

/// What happened stands, also where it cannot be told.
#[test]
fn a_change_stands_where_its_event_is_refused() {
    let mut core = core_with_postgres_instance();
    let told = "UNIQUE constraint failed: events.id";
    let err = core.create_project(1, "Acme".to_string(), 3, &stamp(1)).unwrap_err();
    assert_eq!(refusal(err), told);
    assert_eq!(core.get_project(1).unwrap().name, "Acme");
    assert!(core.rename_project(1, "Northwind".to_string(), 8, &stamp(1)).is_err());
    assert_eq!(core.get_project(1).unwrap().name, "Northwind");
    assert_eq!(core.get_project(1).unwrap().color, 2);
    assert!(core
        .create_server(10, "a".to_string(), "17.0".to_string(), 8069, PG, &stamp(1))
        .is_err());
    assert!(core.create_database(30, 10, "acme".to_string(), Ok(()), 5, &stamp(1)).is_err());
    assert!(core.get_database(30).is_ok());
    assert!(core.backup_database(30, "/b.sql".to_string(), false, 5, &stamp(1)).is_err());
    assert_eq!(core.get_database(30).unwrap().last_backup_at, Some(1));
    core.record_module_install(30, "sale", "h");
    assert!(core.drop_database(30, Ok(()), &stamp(1)).is_err());
    assert!(core.get_database(30).is_err());
    assert_eq!(core.module_install(30, "sale"), None);
    assert!(core.delete_project(1, &stamp(1)).is_err());
    assert!(core.list_projects().is_empty());
    assert_eq!(core.events.len(), 1, "nothing was told but the first");
}

/// Records are added one after another, so those before a refusal are there.
#[test]
fn what_came_before_a_refusal_is_there() {
    let mut core = core_with_postgres_instance();
    core.create_project(1, "Acme".to_string(), 0, &stamp(2)).unwrap();
    for (id, port) in [(10, 8069), (11, 8070)] {
        core.create_server_in_project(
            id,
            "acme".to_string(),
            "17.0".to_string(),
            port,
            PG,
            Some(1),
            &stamp(id),
        )
        .unwrap();
    }
    add_source(&mut core, 20, 10, "one", SourceKind::Private, 0);
    add_source(&mut core, 21, 10, "two", SourceKind::Oca, 1);
    let ids = vec![
        CopyIds { server: 12, sources: vec![22, 20] },
        CopyIds { server: 13, sources: vec![] },
    ];
    let err = core.duplicate_project(1, 2, "Copy".to_string(), &ids, &stamp(50)).unwrap_err();
    assert_eq!(refusal(err), "UNIQUE constraint failed: addons_sources.id");
    assert!(core.get_project(2).is_ok());
    assert_eq!(core.list_servers().len(), 3, "the first copy is there, the second is not");
    assert_eq!(core.list_addons_sources(12).len(), 1);

    let ids = vec![
        CopyIds { server: 14, sources: vec![30, 31] },
        CopyIds { server: 10, sources: vec![] },
    ];
    let err = core.duplicate_project(1, 3, "Again".to_string(), &ids, &stamp(51)).unwrap_err();
    assert_eq!(refusal(err), "UNIQUE constraint failed: servers.id");
    assert_eq!(core.list_servers().len(), 4);
    assert_eq!(core.list_addons_sources(14).len(), 2);
}

#[test]
fn a_free_port_is_one_that_nothing_uses() {
    assert_eq!(next_free_port(8069, &vec![]), 8069);
    assert_eq!(next_free_port(8069, &vec![8070, 8069]), 8071);
    assert_eq!(next_free_port(65535, &vec![65535]), 65535);
}

/// Sources are ranked behind those that are there.
#[test]
fn discovered_folders_are_adopted_behind_the_others() {
    let mut core = core_with_postgres_instance();
    create_server(&mut core, 10, "acme", "17.0", 8069);
    add_source(&mut core, 20, 10, "mine", SourceKind::Private, 4);
    let root = |path: &str| DiscoveredRoot {
        path: path.to_string(),
        label: path.to_string(),
        kind: SourceKind::Oca,
        module_count: 1,
        sample: vec![],
        why: String::new(),
    };
    let added = core.adopt_addons_roots(10, &vec![root("/a"), root("/b")], &vec![21, 22]).unwrap();
    let ranks: Vec<u32> = added.iter().map(|s| s.rank).collect();
    assert_eq!(ranks, vec![5, 6]);
    let labels: Vec<&str> = core.list_addons_sources(10).iter().map(|s| s.label.as_str()).collect();
    assert_eq!(labels, vec!["mine", "/a", "/b"]);
    let carried = core.carried_addons_for(10);
    assert_eq!(carried.len(), 3);
}

/// The latest event comes first, and no more than are asked for.
#[test]
fn the_latest_events_come_first() {
    let mut core = core_with_postgres_instance();
    create_server(&mut core, 10, "a", "17.0", 8069);
    create_server(&mut core, 11, "b", "17.0", 8070);
    let latest = core.recent_events(2);
    assert_eq!(latest.len(), 2);
    match &latest[0].event {
        Event::ServerCreated { name, .. } => assert_eq!(name, "b"),
        _ => panic!("unexpected event"),
    }
    assert!(latest[0].occurred_at >= latest[1].occurred_at);
}
