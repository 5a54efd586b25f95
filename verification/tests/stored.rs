//! Records as rows: what is written is what is read.

use orchestrator_core::codec::{can_hold, moment_at, now, parse_dt, parse_id};
use orchestrator_core::db::{
    decode_database, decode_event, decode_kind, decode_origin, decode_postgres_instance,
    decode_project, decode_server, decode_state, encode_database, encode_event, encode_origin,
    encode_postgres_instance, encode_project, encode_server, encode_snapshot, encode_state,
    kind_str, map_snapshot_row,
};
use orchestrator_core::events::{Event, EventEnvelope};
use orchestrator_core::model::{
    Database, DatabaseOrigin, OdooServer, PostgresInstance, Project, ServerState, Snapshot,
    SourceKind,
};

const ID: u128 = 0x1234_5678_9abc_def0_1234_5678_9abc_def0;
const ID_TEXT: &str = "12345678-9abc-def0-1234-56789abcdef0";

#[test]
fn an_identifier_reads_back() {
    assert_eq!(parse_id(ID_TEXT), ID);
    assert_eq!(parse_id("123456789ABCDEF0123456789abcdef0"), ID);
    assert_eq!(parse_id("not an identifier"), 0);
    assert_eq!(parse_id(""), 0);
}

#[test]
fn a_point_in_time_reads_back() {
    let row = encode_project(&Project::new(ID, "p".to_string(), 8, 1_700_000_000_123_456_789));
    assert_eq!(row.created_at, "2023-11-14T22:13:20.123456789+00:00");
    assert_eq!(parse_dt(&row.created_at, 0), 1_700_000_000_123_456_789);
    assert_eq!(parse_dt("1970-01-01T00:00:01Z", 5), 1_000_000_000);
    assert_eq!(parse_dt("1970-01-01T01:00:01+01:00", 5), 1_000_000_000);
    assert_eq!(parse_dt("yesterday", 5), 5);
}

#[test]
fn the_clock_shows_the_present() {
    assert_eq!(moment_at(0, 7), 7);
    assert_eq!(moment_at(-1, 7), -999_999_993);
    assert_eq!(moment_at(1_700_000_000, 123_456_789), 1_700_000_000_123_456_789);
    let shown = now();
    assert!(shown > 1_600_000_000_000_000_000 && can_hold(shown));
}

/// A time far away is kept, as long as its year has four digits.
#[test]
fn a_distant_point_in_time_reads_back() {
    for written in [
        "0000-01-01T00:00:00+00:00",
        "1500-06-30T12:00:00.500+00:00",
        "1969-12-31T23:59:59.999999999+00:00",
        "2300-01-01T00:00:00.000001+00:00",
        "9999-12-31T23:59:59.999999999+00:00",
    ] {
        let read = parse_dt(written, 5);
        assert_ne!(read, 5);
        let row = encode_project(&Project::new(ID, "p".to_string(), 8, read));
        assert_eq!(row.created_at, written);
    }
    assert_eq!(parse_dt("0000-01-01T00:00:00Z", 5), moment_at(-62_167_219_200, 0));
    assert_eq!(parse_dt("9999-12-31T23:59:59Z", 5), moment_at(253_402_300_799, 0));
    let beyond = encode_project(&Project::new(ID, "p".to_string(), 8, moment_at(253_402_300_800, 0)));
    assert_eq!(beyond.created_at, "+10000-01-01T00:00:00+00:00");
    assert_eq!(parse_dt(&beyond.created_at, 5), 5);
}

#[test]
fn the_first_and_the_last_point_in_time_can_be_written() {
    let first = moment_at(-8_334_601_228_800, 0);
    let last = moment_at(8_210_266_876_799, 999_999_999);
    assert!(can_hold(first) && can_hold(last));
    assert!(!can_hold(first - 1) && !can_hold(last + 1));
    let row = |t: i128| encode_project(&Project::new(ID, "p".to_string(), 8, t));
    assert_eq!(row(first).created_at, "-262143-01-01T00:00:00+00:00");
    assert_eq!(row(last).created_at, "+262142-12-31T23:59:59.999999999+00:00");
}

#[test]
fn a_project_reads_back() {
    let project = Project::new(ID, "Acme".to_string(), 8, 77);
    assert_eq!(project.color, 2);
    let row = encode_project(&project);
    assert_eq!(row.id, ID_TEXT);
    assert_eq!(row.color, 2);
    let back = decode_project(&row, 0);
    assert_eq!((back.id, back.name.as_str(), back.color, back.created_at), (ID, "Acme", 2, 77));
}

#[test]
fn a_server_reads_back() {
    let mut server = OdooServer::new(ID, "a".to_string(), "17.0".to_string(), 65535, 9, 77);
    server.state = ServerState::Crashed { exit_code: -9 };
    server.reload.reload_python = true;
    server = server.in_project(5);
    let row = encode_server(&server);
    assert_eq!((row.state.as_str(), row.exit_code), ("crashed", Some(-9)));
    assert_eq!((row.reload_python, row.update_on_data_change), (1, 0));
    let back = decode_server(&row, 0);
    assert_eq!(back.state, server.state);
    assert_eq!(back.reload, server.reload);
    assert_eq!(back.project_id, Some(5));
    assert_eq!(back.port, 65535);
    assert_eq!(back.started_at, None);
    assert_eq!(back.postgres_instance_id, 9);
}

#[test]
fn a_database_reads_back() {
    let mut database =
        Database::from_origin(ID, 3, "acme".to_string(), DatabaseOrigin::Restored, 77);
    assert_eq!(database.hostname(), "acme.localhost");
    database.domain = Some("books.test".to_string());
    database.last_backup_at = Some(88);
    database.size_bytes = 4096;
    assert_eq!(database.hostname(), "books.test");
    let row = encode_database(&database).unwrap();
    assert_eq!(row.origin, "restored");
    let back = decode_database(&row, 0);
    assert_eq!(back.origin, DatabaseOrigin::Restored);
    assert_eq!(back.domain.as_deref(), Some("books.test"));
    assert_eq!(back.last_backup_at, Some(88));
    assert_eq!(back.size_bytes, 4096);
    database.size_bytes = u64::MAX;
    assert!(encode_database(&database).is_none(), "the store counts with signed numbers");
}

#[test]
fn a_cluster_and_a_snapshot_read_back() {
    let instance = PostgresInstance::new(
        ID,
        "main".to_string(),
        "16".to_string(),
        5433,
        "/pg".to_string(),
        77,
    );
    let back = decode_postgres_instance(&encode_postgres_instance(&instance), 0);
    assert_eq!((back.id, back.port, back.data_dir.as_str()), (ID, 5433, "/pg"));
    let snapshot = Snapshot::new(
        ID,
        1,
        2,
        "acme".to_string(),
        "snap".to_string(),
        "before".to_string(),
        Some("/files".to_string()),
        77,
    )
    .on_branch(Some("main".to_string()));
    let back = map_snapshot_row(&encode_snapshot(&snapshot), 0);
    assert_eq!(back.id, ID);
    assert_eq!(back.git_branch.as_deref(), Some("main"));
    assert_eq!(back.filestore_snapshot_path.as_deref(), Some("/files"));
    assert_eq!(back.snapshot_database_name, "snap");
}

#[test]
fn an_event_reads_back() {
    let event = || Event::ServerStarted { server_id: 4 };
    let row = encode_event(&EventEnvelope::timed(ID, 77, event(), 12)).unwrap();
    assert_eq!(row.kind, "server_started");
    assert_eq!(row.duration_ms, Some(12));
    let back = decode_event(&row, event(), 0);
    assert_eq!((back.id, back.occurred_at, back.duration_ms), (ID, 77, Some(12)));
    assert_eq!(EventEnvelope::new(ID, 77, event()).duration_ms, None);
    let early = EventEnvelope::timed(ID, moment_at(-100_000_000_000, 0), event(), 12);
    assert_eq!(encode_event(&early).unwrap().duration_ms, Some(12));
    assert!(encode_event(&EventEnvelope::timed(ID, 77, event(), u64::MAX)).is_none());
}

#[test]
fn names_read_back() {
    for kind in [SourceKind::Private, SourceKind::Oca, SourceKind::Core] {
        assert_eq!(decode_kind(kind_str(kind)), kind);
    }
    for state in [
        ServerState::Stopped,
        ServerState::Starting,
        ServerState::Running,
        ServerState::Stopping,
        ServerState::Crashed { exit_code: 3 },
    ] {
        let (name, exit_code) = encode_state(&state);
        assert_eq!(decode_state(name, exit_code), state);
    }
    for origin in [
        DatabaseOrigin::Created,
        DatabaseOrigin::Duplicated,
        DatabaseOrigin::Restored,
        DatabaseOrigin::Adopted,
    ] {
        assert_eq!(decode_origin(encode_origin(origin)), origin);
    }
    assert_eq!(decode_origin("something new"), DatabaseOrigin::Adopted);
}
