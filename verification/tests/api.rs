//! The rules of the HTTP interface, and what errors say.

use orchestrator_core::api::{
    base_url, chosen_roots, core_error_to_status, default_log_limit, default_true, events_limit,
    explicit_paths, generate_token, lag_notice, log_limit, may_open_socket, plan_error_to_status,
    require_token, source_name, token_from,
};
use orchestrator_core::codec::{new_id, now};
use orchestrator_core::discovery::DiscoveredRoot;
use orchestrator_core::errors::CoreError;
use orchestrator_core::filestore::FilestoreError;
use orchestrator_core::git::GitError;
use orchestrator_core::model::SourceKind;
use orchestrator_core::odoo::OdooError;
use orchestrator_core::odoo_runtime::{OdooRuntimeError, RuntimeSource};
use orchestrator_core::openupgrade::OpenUpgradeError;
use orchestrator_core::pg_admin::PgAdminError;
use orchestrator_core::postgres::{PgError, PgState};
use orchestrator_core::records::Stamp;

/// Only the token itself opens a path that is not open to everybody.
#[test]
fn only_the_token_opens() {
    assert!(require_token("/health", None, "secret"));
    assert!(require_token("/ws/events", None, "secret"));
    assert!(!require_token("/servers", None, "secret"));
    assert!(!require_token("/servers", Some("secret"), "secret"));
    assert!(!require_token("/servers", Some("Bearer secretx"), "secret"));
    assert!(require_token("/servers", Some("Bearer secret"), "secret"));
    assert!(may_open_socket(Some("secret"), "secret"));
    assert!(!may_open_socket(Some("other"), "secret") && !may_open_socket(None, "secret"));
}

#[test]
fn a_token_is_made_by_chance() {
    let token = generate_token();
    assert_eq!(token.len(), 32);
    assert!(token.chars().all(|c| c.is_ascii_alphanumeric()));
    assert_ne!(token, generate_token());
    assert_eq!(token_from(&vec![0, 25, 26, 51, 52, 61]), "azAZ09");
}

#[test]
fn a_new_identifier_is_random() {
    let id = new_id();
    assert_eq!((id >> 76) & 0xf, 4);
    assert_eq!((id >> 62) & 3, 2);
    assert_ne!(id, new_id());
    let stamp = Stamp::fresh();
    assert_ne!(stamp.event_id, 0);
    assert!(now() >= stamp.now && stamp.now > 1_600_000_000_000_000_000);
}

#[test]
fn each_error_has_its_status() {
    assert_eq!(core_error_to_status(&CoreError::NotFound("x".to_string())), 404);
    assert_eq!(core_error_to_status(&CoreError::Postgres(PgError::AlreadyRunning)), 409);
    assert_eq!(core_error_to_status(&CoreError::Odoo(OdooError::PortInUse { port: 1 })), 409);
    assert_eq!(
        core_error_to_status(&CoreError::SnapshotHasNoFilestore { snapshot_id: 1 }),
        422
    );
    assert_eq!(core_error_to_status(&CoreError::Io("x".to_string())), 500);
    let unset = CoreError::NotConfigured("x".to_string());
    assert_eq!(core_error_to_status(&unset), 500);
    assert_eq!(plan_error_to_status(&unset), 422);
}

#[test]
fn each_error_says_what_happened() {
    let id = "00000000-0000-0000-0000-000000000001";
    for (e, shown) in [
        (CoreError::Sqlite("x".to_string()), "database error: x".to_string()),
        (CoreError::Serde("x".to_string()), "serialization error: x".to_string()),
        (CoreError::NotFound("x".to_string()), "not found: x".to_string()),
        (
            CoreError::PostgresInstanceNotRunning { instance_id: 1, state: PgState::Stopped },
            format!(
                "postgres instance {id} is not running (state: Stopped) — start it before creating a database on it"
            ),
        ),
        (CoreError::Io("x".to_string()), "filesystem error: x".to_string()),
        (
            CoreError::SnapshotNotForDatabase { snapshot_id: 1, database_id: 1 },
            format!(
                "snapshot {id} was not taken from database {id}, so it cannot be used to revert it"
            ),
        ),
        (
            CoreError::SnapshotHasNoFilestore { snapshot_id: 1 },
            format!("snapshot {id} has no filestore copy to revert to"),
        ),
        (
            CoreError::ProjectNotEmpty { project_id: 1, server_count: 2 },
            format!("project {id} still holds 2 Odoo(s) — remove them first"),
        ),
        (
            CoreError::PythonRuntime("x".to_string()),
            "couldn't build Odoo's Python environment: x".to_string(),
        ),
        (
            CoreError::DomainTaken { domain: "a".to_string(), database: "b".to_string() },
            "a already points at the database b".to_string(),
        ),
        (CoreError::OpenUpgrade(OpenUpgradeError::Io("x".to_string())), "x".to_string()),
        (
            CoreError::Git(GitError::Spawn("x".to_string())),
            "git error: couldn't run git: x".to_string(),
        ),
    ] {
        assert_eq!(e.message(), shown);
    }
    assert!(CoreError::Postgres(PgError::Failed("x".to_string())).message().ends_with('x'));
    assert!(CoreError::OdooRuntime(OdooRuntimeError::Io("x".to_string()))
        .message()
        .starts_with("odoo runtime error: "));
    assert!(CoreError::Filestore(FilestoreError::SourceNotFound("/x".to_string()))
        .message()
        .starts_with("filestore snapshot error: "));
    let spawn = PgAdminError::Spawn { command: "psql".to_string(), source: "x".to_string() };
    assert!(CoreError::PgAdmin(spawn).message().starts_with("postgres admin error: "));
    assert_eq!(
        CoreError::Odoo(OdooError::ExitedDuringStartup { exit_code: Some(3) }).message(),
        "odoo error: process exited before becoming ready (exit code: Some(3))"
    );
}

#[test]
fn what_a_request_leaves_out_is_assumed() {
    assert_eq!(default_log_limit(), 1000);
    assert_eq!(log_limit(None), 1000);
    assert_eq!(log_limit(Some(9999)), 5000);
    assert_eq!(log_limit(Some(3)), 3);
    assert_eq!(events_limit(None), 50);
    assert_eq!(events_limit(Some(7)), 7);
    assert!(default_true());
    let some = |s: &str| Some(s.to_string());
    assert_eq!(
        explicit_paths(&some("a"), &some("b"), &some("c")),
        Some(("a".to_string(), "b".to_string(), "c".to_string()))
    );
    assert_eq!(explicit_paths(&some("a"), &None, &some("c")), None);
    assert_eq!(source_name(RuntimeSource::Cache), "cache");
    assert_eq!(source_name(RuntimeSource::Adopted), "adopted");
    assert_eq!(source_name(RuntimeSource::Fetched), "fetched");
    assert_eq!(
        lag_notice(12),
        "… 12 lines dropped: output arrived faster than this window could read it"
    );
    assert_eq!(base_url("127.0.0.1:80"), "http://127.0.0.1:80");
}

#[test]
fn only_the_folders_that_were_asked_for_are_taken() {
    let root = |path: &str| DiscoveredRoot {
        path: path.to_string(),
        label: String::new(),
        kind: SourceKind::Private,
        module_count: 0,
        sample: vec![],
        why: String::new(),
    };
    let chosen = chosen_roots(
        vec![root("/a"), root("/b"), root("/c")],
        &vec!["/c".to_string(), "/a".to_string()],
    );
    let paths: Vec<&str> = chosen.iter().map(|r| r.path.as_str()).collect();
    assert_eq!(paths, vec!["/a", "/c"]);
}
