//! Databases: where they come from, where they are reached, and how they go.

use orchestrator_core::errors::CoreError;
use orchestrator_core::events::Event;
use orchestrator_core::model::{DatabaseOrigin, ServerState};
use orchestrator_core::postgres::PgState;
use orchestrator_core::proxy::{find_route, forward_host};
use orchestrator_core::records::{Core, Stamp};
use orchestrator_core::servers::{Supervised, Surroundings};

const PG: u128 = 500;
const SERVER: u128 = 10;

fn stamp(n: u128) -> Stamp {
    Stamp { event_id: 1_000_000 + n, now: n as i128 }
}

fn core_with_server() -> Core {
    let mut core = Core::new();
    core.create_postgres_instance(
        PG,
        "test".to_string(),
        "16".to_string(),
        5433,
        "/tmp/pg".to_string(),
        &stamp(1),
    )
    .unwrap();
    core.create_server(SERVER, "acme".to_string(), "17.0".to_string(), 8069, PG, &stamp(2))
        .unwrap();
    core
}

fn create(core: &mut Core, id: u128, server: u128, name: &str) {
    core.create_database(id, server, name.to_string(), Ok(()), 5, &stamp(id)).unwrap();
}

#[test]
fn create_database_scopes_to_its_server() {
    let mut core = core_with_server();
    core.create_server(11, "northwind".to_string(), "16.0".to_string(), 8070, PG, &stamp(3))
        .unwrap();
    create(&mut core, 30, SERVER, "acme");
    create(&mut core, 31, SERVER, "acme_test");
    create(&mut core, 32, 11, "northwind");
    assert_eq!(core.list_databases(Some(SERVER)).len(), 2);
    assert_eq!(core.list_databases(Some(11)).len(), 1);
    assert_eq!(core.list_databases(None).len(), 3);
}

#[test]
fn create_database_rejects_when_postgres_instance_not_running() {
    let core = core_with_server();
    let around = Surroundings { supervised: vec![], bin_dir: Some("/bin".to_string()) };
    let err = core.server_connection(SERVER, &around).unwrap_err();
    assert!(matches!(err, CoreError::PostgresInstanceNotRunning { .. }));
}

#[test]
fn a_database_that_was_not_made_is_not_noted() {
    let mut core = core_with_server();
    let failed = Err(CoreError::NotConfigured("no space".to_string()));
    let before = core.events.len();
    let err =
        core.create_database(30, SERVER, "acme".to_string(), failed, 5, &stamp(30)).unwrap_err();
    assert!(matches!(err, CoreError::NotConfigured(_)));
    assert!(core.list_databases(None).is_empty());
    assert_eq!(core.events.len(), before);
    let err = core.create_database(30, 99, "acme".to_string(), Ok(()), 5, &stamp(30)).unwrap_err();
    assert!(matches!(err, CoreError::NotFound(_)));
}

#[test]
fn a_database_remembers_where_its_contents_came_from() {
    let mut core = core_with_server();
    let made = core
        .create_database(30, SERVER, "made_here".to_string(), Ok(()), 5, &stamp(30))
        .unwrap();
    assert_eq!(made.origin, DatabaseOrigin::Created);
    assert!(!made.origin.may_hold_foreign_data());

    let copy = core
        .duplicate_database(31, made.id, "made_here_copy".to_string(), Ok(()), 5, &stamp(31))
        .unwrap();
    assert_eq!(copy.origin, DatabaseOrigin::Duplicated);

    let restored = core
        .restore_database(
            32,
            SERVER,
            "came_from_elsewhere".to_string(),
            Ok(()),
            Ok(()),
            5,
            &stamp(32),
        )
        .unwrap();
    assert_eq!(restored.origin, DatabaseOrigin::Restored);
    assert!(restored.origin.may_hold_foreign_data(), "a restored dump is the case this exists for");

    let listed = core.list_databases(Some(SERVER));
    let found = listed.iter().find(|d| d.name == "came_from_elsewhere").unwrap();
    assert_eq!(found.origin, DatabaseOrigin::Restored);
}

/// Where only the files of a backup could not be put in place, the database is there all the same.
#[test]
fn a_restored_database_is_kept_when_its_files_fail() {
    let mut core = core_with_server();
    let before = core.events.len();
    let files = Err(CoreError::Io("disk full".to_string()));
    let err = core
        .restore_database(32, SERVER, "back".to_string(), Ok(()), files, 5, &stamp(32))
        .unwrap_err();
    assert!(matches!(err, CoreError::Io(_)));
    assert_eq!(core.list_databases(None).len(), 1);
    assert_eq!(core.events.len(), before);
}

#[test]
fn a_dropped_database_is_still_named_in_the_log_afterwards() {
    let mut core = core_with_server();
    create(&mut core, 30, SERVER, "acme_live");
    core.record_module_install(30, "sale", "abc");
    core.drop_database(30, Ok(()), &stamp(40)).unwrap();

    let dropped = core
        .recent_events(50)
        .iter()
        .find_map(|e| match &e.event {
            Event::DatabaseDropped { database_id: 30, server_id, name } => {
                Some((*server_id, name.clone()))
            }
            _ => None,
        })
        .expect("the drop should be in the log");
    assert_eq!(dropped.1, "acme_live", "nothing else remembers the name");
    assert_eq!(dropped.0, SERVER);
    assert!(core.get_database(30).is_err());
    assert_eq!(core.module_install(30, "sale"), None);
}

#[test]
fn a_backup_event_says_where_the_dump_went_and_where_it_belongs() {
    let mut core = core_with_server();
    create(&mut core, 30, SERVER, "acme_live");
    core.backup_database(30, "/backups/acme_live.sql".to_string(), false, 9, &stamp(41)).unwrap();
    match &core.recent_events(1)[0].event {
        Event::DatabaseBackedUp { server_id, path, format, .. } => {
            assert_eq!(*server_id, SERVER);
            assert_eq!(path, "/backups/acme_live.sql");
            assert_eq!(format, "dump");
        }
        _ => panic!("the backup should be in the log"),
    }
    assert_eq!(core.get_database(30).unwrap().last_backup_at, Some(41));
    core.backup_database(30, "/backups/x.sql".to_string(), true, 9, &stamp(42)).unwrap();
    match &core.recent_events(1)[0].event {
        Event::DatabaseBackedUp { format, .. } => assert_eq!(format, "dump+filestore"),
        _ => panic!("the backup should be in the log"),
    }
}

#[test]
fn adopting_a_database_that_does_not_exist_is_refused() {
    let mut core = core_with_server();
    let err = core
        .adopt_database(30, SERVER, "never_existed".to_string(), Ok(false), &stamp(30))
        .unwrap_err();
    assert!(matches!(err, CoreError::NotFound(_)));
    let adopted =
        core.adopt_database(30, SERVER, "there".to_string(), Ok(true), &stamp(30)).unwrap();
    assert_eq!(adopted.origin, DatabaseOrigin::Adopted);
    let err =
        core.adopt_database(31, SERVER, "there".to_string(), Ok(true), &stamp(31)).unwrap_err();
    assert_eq!(err.message(), "there is already known to this app");
}

/// One Odoo that serves several databases and one of its own route the same way.
#[test]
fn one_odoo_with_several_databases_and_one_odoo_of_its_own_route_the_same_way() {
    let mut core = core_with_server();
    core.create_server(11, "Northwind 16".to_string(), "16.0".to_string(), 8070, PG, &stamp(3))
        .unwrap();
    core.update_server_state(SERVER, ServerState::Running, 4);
    core.update_server_state(11, ServerState::Running, 4);
    create(&mut core, 30, SERVER, "acme");
    create(&mut core, 31, SERVER, "acme_test");
    create(&mut core, 32, 11, "northwind");
    let routes = core.routing_table();
    let acme = find_route(&routes, "acme.localhost").unwrap();
    assert_eq!((acme.port, acme.running), (8069, true));
    assert_eq!(forward_host(acme), "acme.localhost");
    let test = find_route(&routes, "acme_test.localhost").unwrap();
    assert_eq!(test.port, 8069, "same process, different database");
    assert_eq!(forward_host(test), "acme_test.localhost");
    assert_eq!(find_route(&routes, "northwind.localhost").unwrap().port, 8070);
}

#[test]
fn a_custom_domain_reaches_its_database_without_odoo_knowing_the_domain() {
    let mut core = core_with_server();
    create(&mut core, 30, SERVER, "acme_prod");
    core.set_database_domain(30, Some(" Books.Acme.test ")).unwrap();
    let routes = core.routing_table();
    let found = find_route(&routes, "books.acme.test").unwrap();
    assert_eq!(forward_host(found), "acme_prod.localhost");
    assert!(find_route(&routes, "acme_prod.localhost").is_none());
}

#[test]
fn two_databases_cannot_be_given_the_same_domain() {
    let mut core = core_with_server();
    create(&mut core, 30, SERVER, "one");
    create(&mut core, 31, SERVER, "two");
    core.set_database_domain(30, Some("shared.localhost")).unwrap();
    match core.set_database_domain(31, Some("shared.localhost")).unwrap_err() {
        CoreError::DomainTaken { domain, database } => {
            assert_eq!(domain, "shared.localhost");
            assert_eq!(database, "one");
        }
        _ => panic!("a second database must not be allowed onto a taken domain"),
    }
    assert!(core.set_database_domain(30, Some("shared.localhost")).is_ok());
    assert!(matches!(
        core.set_database_domain(31, Some("one.localhost")),
        Ok(_)
    ));
    let err = core.set_database_domain(31, Some("  ")).unwrap_err();
    assert_eq!(err.message(), "a domain can't be blank");
    assert!(core.set_database_domain(31, None).unwrap().domain.is_none());
}

/// What is recorded of a module is what is read, and of no other anything changes.
#[test]
fn an_install_is_recorded_once() {
    let mut core = core_with_server();
    core.record_module_install(30, "sale", "one");
    core.record_module_install(30, "base", "x");
    core.record_module_install(30, "sale", "two");
    assert_eq!(core.module_install(30, "sale").as_deref(), Some("two"));
    assert_eq!(core.module_install(30, "base").as_deref(), Some("x"));
    assert_eq!(core.module_install(31, "sale"), None);
    core.forget_module_installs(30);
    assert_eq!(core.module_install(30, "sale"), None);
}

#[test]
fn a_database_is_reached_through_its_cluster() {
    let mut core = core_with_server();
    create(&mut core, 30, SERVER, "acme");
    let running = Supervised { instance_id: PG, state: PgState::Running { pid: 7 } };
    let around = Surroundings { supervised: vec![running], bin_dir: Some("/bin".to_string()) };
    let (database, server, conn) = core.database_connection(30, &around).unwrap();
    assert_eq!(database.name, "acme");
    assert_eq!(server.id, SERVER);
    assert_eq!((conn.host.as_str(), conn.port, conn.user.as_str()), ("/tmp/pg", 5433, "postgres"));
    assert_eq!(conn.as_odoo().user, "odoo");
    assert!(matches!(core.database_connection(99, &around), Err(CoreError::NotFound(_))));
}
