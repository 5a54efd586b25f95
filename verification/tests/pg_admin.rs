//! Commands to PostgreSQL and what they answer.

use orchestrator_core::git::CommandOutput;
use orchestrator_core::pg_admin::{
    check_success, create_database, database_exists, drop_database, dump_database,
    duplicate_database, ensure_role, escape_identifier, escape_sql_literal, execute,
    grant_schema_privileges, query_rows, query_scalar, restore_database, role_exists, rows_of,
    says_one, scalar_of, PgConnInfo,
};

fn conn() -> PgConnInfo {
    PgConnInfo::new("/bin".to_string(), "/pg".to_string(), 5433)
}

fn with(rest: &[&str]) -> Vec<String> {
    let mut all = vec!["-h", "/pg", "-p", "5433", "-U", "postgres"];
    all.extend(rest);
    all.iter().map(|s| s.to_string()).collect()
}

#[test]
fn quoting_reads_back() {
    assert_eq!(escape_sql_literal("o'brien's"), "o''brien''s");
    assert_eq!(escape_identifier("a\"b"), "a\"\"b");
}

/// A database is made in UTF-8 whatever the machine's locale is.
#[test]
fn every_database_this_app_makes_is_utf8_whatever_the_machine_locale() {
    let c = create_database(&conn(), "acme");
    assert_eq!(c.program, "/bin/createdb");
    assert_eq!(
        c.args,
        with(&[
            "--encoding=UTF8",
            "--template=template0",
            "--lc-collate=C",
            "--lc-ctype=C",
            "acme"
        ])
    );
    let (first, second) = restore_database(&conn(), "acme");
    assert_eq!(first.args, c.args);
    assert_eq!(second.args, with(&["acme"]));
}

#[test]
fn commands_quote_what_they_name() {
    assert_eq!(drop_database(&conn(), "a").args, with(&["--if-exists", "a"]));
    assert_eq!(
        database_exists(&conn(), "o'x").args,
        with(&["-tAc", "SELECT 1 FROM pg_database WHERE datname = 'o''x'", "postgres"])
    );
    assert_eq!(
        role_exists(&conn(), "odoo").args,
        with(&["-tAc", "SELECT 1 FROM pg_roles WHERE rolname = 'odoo'", "postgres"])
    );
    let (end, copy) = duplicate_database(&conn(), "a", "b\"c");
    assert!(end.args.last().unwrap().contains("pg_terminate_backend"));
    assert_eq!(
        copy.args,
        with(&["postgres", "-c", "CREATE DATABASE \"b\"\"c\" TEMPLATE \"a\""])
    );
    assert_eq!(dump_database(&conn(), "a", "/x.sql").args, with(&["--file", "/x.sql", "a"]));
    assert_eq!(
        grant_schema_privileges(&conn(), "a", "odoo").args,
        with(&["a", "-c", "GRANT ALL ON SCHEMA public TO \"odoo\""])
    );
    assert_eq!(query_scalar(&conn(), "a", "SELECT 1").args, with(&["a", "-tAc", "SELECT 1"]));
    assert_eq!(execute(&conn(), "a", "SELECT 1").args, with(&["a", "-tAc", "SELECT 1"]));
    assert_eq!(
        query_rows(&conn(), "a", "SELECT 1").args,
        with(&["a", "-F", "\t", "-Atc", "SELECT 1"])
    );
}

#[test]
fn a_role_is_created_once() {
    assert!(ensure_role(&conn(), "odoo", " 1\n").is_none());
    let c = ensure_role(&conn(), "odoo", "").unwrap();
    assert_eq!(c.args, with(&["postgres", "-c", "CREATE ROLE \"odoo\" LOGIN CREATEDB"]));
}

#[test]
fn answers_are_read() {
    assert!(says_one("1\n") && !says_one("0\n"));
    assert_eq!(scalar_of(" 17.0 \n").as_deref(), Some("17.0"));
    assert_eq!(scalar_of("\n"), None);
    assert_eq!(
        rows_of("a\tinstalled\t1.0\nb\tuninstalled\t\n\n"),
        vec![vec!["a", "installed", "1.0"], vec!["b", "uninstalled", ""]]
    );
    let output = CommandOutput {
        success: false,
        exit_code: Some(2),
        stdout: String::new(),
        stderr: " no such database\n".to_string(),
    };
    let e = check_success(&output, "dropdb").unwrap_err();
    assert!(e.message().contains("dropdb") && e.message().contains("no such database"));
}
