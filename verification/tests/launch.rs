//! Starting a server and preparing commands on its databases.

use orchestrator_core::commands::{
    command_outcome, find_module, holds_odoo_tables, module_flag_args, neutralize_args,
    uninstall_args, uninstall_script, version_query,
};
use orchestrator_core::environment::Environment;
use orchestrator_core::errors::CoreError;
use orchestrator_core::events::Event;
use orchestrator_core::launch::{
    looks_like_git_url, modules_from, python_steps, requirements, slugify, stream_name,
    venv_folder, ModulesFrom, Prepared, PythonStep, Storage,
};
use orchestrator_core::model::{ReloadPolicy, ServerState, SourceKind};
use orchestrator_core::odoo::{LogStream, OdooState, OneShotOutput};
use orchestrator_core::pg_admin::PgAdminError;
use orchestrator_core::postgres::PgState;
use orchestrator_core::records::{Core, Stamp};
use orchestrator_core::servers::{Supervised, Surroundings};

const PG: u128 = 500;
const SERVER: u128 = 10;
const SERVER_TEXT: &str = "00000000-0000-0000-0000-00000000000a";

fn stamp(n: u128) -> Stamp {
    Stamp { event_id: 1_000_000 + n, now: n as i128 }
}

fn core_with_database() -> Core {
    let mut core = Core::new();
    core.create_postgres_instance(
        PG,
        "test".to_string(),
        "16".to_string(),
        5433,
        "/tmp/pg".to_string(),
        &stamp(1),
    )
    .unwrap();
    core.create_server(SERVER, "acme".to_string(), "17.0".to_string(), 8069, PG, &stamp(2))
        .unwrap();
    core.create_database(30, SERVER, "acme".to_string(), Ok(()), 5, &stamp(3)).unwrap();
    for (id, path, rank) in [(20, "/oca", 1), (21, "/mine", 0)] {
        core.create_addons_source(
            id,
            SERVER,
            path.to_string(),
            path.to_string(),
            SourceKind::Private,
            rank,
        )
        .unwrap();
    }
    core
}

fn running() -> Surroundings {
    let supervised = vec![Supervised { instance_id: PG, state: PgState::Running { pid: 7 } }];
    Surroundings { supervised, bin_dir: Some("/bin".to_string()) }
}

fn prepared() -> Prepared {
    core_with_database().prepare_odoo_runtime_for_database(30, "/app/run", &running()).unwrap()
}

fn output(success: bool, stderr: &str) -> OneShotOutput {
    OneShotOutput {
        success,
        exit_code: Some(if success { 0 } else { 1 }),
        stdout: "out".to_string(),
        stderr: stderr.to_string(),
    }
}

/// What is shown before a start is what the start writes and runs.
#[test]
fn a_start_writes_what_was_shown() {
    let mut core = core_with_database();
    core.set_reload_policy(
        SERVER,
        ReloadPolicy { reload_python: true, update_on_data_change: false },
    )
    .unwrap();
    let mut env = Environment::new();
    env.with_environment("/app".to_string(), vec![]);
    let shown = core.preview_odoo_conf(SERVER, &env).unwrap();
    let launch = core
        .start_server(SERVER, "/co".to_string(), "/co/py".to_string(), "/app/run", &running())
        .unwrap();
    assert_eq!(launch.conf, shown.conf);
    assert_eq!(launch.filestore_dir, format!("/app/run/{SERVER_TEXT}/filestore"));
    assert_eq!(launch.conf_path, format!("/app/run/{SERVER_TEXT}/odoo.conf"));
    assert_eq!(
        launch.config.args,
        vec![
            "/co/odoo-bin".to_string(),
            "-c".to_string(),
            launch.conf_path.clone(),
            "--dev=reload,qweb,xml".to_string()
        ]
    );
    assert_eq!(launch.config.startup_timeout_ms, 120_000);
    assert_eq!(launch.config.port, 8069);
    assert!(launch.conf.contains("addons_path = /mine,/oca\n"), "{}", launch.conf);
}

#[test]
fn a_server_is_not_started_without_its_cluster() {
    let core = core_with_database();
    let around = Surroundings { supervised: vec![], bin_dir: Some("/bin".to_string()) };
    let err = core
        .start_server(SERVER, "/co".to_string(), "/py".to_string(), "/run", &around)
        .unwrap_err();
    assert!(matches!(err, CoreError::PostgresInstanceNotRunning { .. }));
    let none = Surroundings { supervised: running().supervised, bin_dir: None };
    let err =
        core.start_server(SERVER, "/co".to_string(), "/py".to_string(), "/run", &none).unwrap_err();
    assert!(matches!(err, CoreError::NotFound(_)));
}

#[test]
fn commands_name_the_database_and_its_configuration() {
    let p = prepared();
    let conf = format!("/app/run/{SERVER_TEXT}/odoo.conf");
    let names = vec!["sale".to_string(), "stock".to_string()];
    assert_eq!(
        module_flag_args(&p, "/co", "-i", &names),
        vec![
            "/co/odoo-bin",
            "-c",
            conf.as_str(),
            "-d",
            "acme",
            "-i",
            "sale,stock",
            "--stop-after-init",
            "--no-http"
        ]
    );
    assert_eq!(
        uninstall_args(&p, "/co"),
        vec!["/co/odoo-bin", "shell", "-c", conf.as_str(), "-d", "acme", "--no-http"]
    );
    assert_eq!(
        neutralize_args(&p, "/co"),
        vec!["/co/odoo-bin", "neutralize", "-c", conf.as_str(), "-d", "acme"]
    );
    assert_eq!(
        uninstall_script(&vec!["sale".to_string(), "o'brien".to_string()]),
        "records = env['ir.module.module'].search([('name', 'in', ['sale', 'o\\'brien'])])\n\
         records.button_immediate_uninstall()\nenv.cr.commit()\n"
    );
    let query = version_query(&p, "o'brien");
    assert_eq!(
        query.args.last().unwrap(),
        "SELECT latest_version FROM ir_module_module WHERE name = 'o''brien'"
    );
    assert_eq!(query.program, "/bin/psql");
}

#[test]
fn a_failed_command_says_what_it_was_to_do() {
    assert!(command_outcome("acme", "install", output(true, "")).is_ok());
    let e = command_outcome("acme", "install", output(false, "boom")).unwrap_err();
    assert_eq!(e.message(), "odoo module install failed for database acme: boom");
}

#[test]
fn every_module_that_was_installed_is_noted() {
    let mut core = core_with_database();
    let names = vec!["sale".to_string(), "stock".to_string()];
    let stamps = vec![stamp(50), stamp(51)];
    core.install_modules(30, "acme", &names, output(true, ""), &stamps).unwrap();
    match &core.recent_events(1)[0].event {
        Event::ModuleInstalled { technical_name, .. } => assert_eq!(technical_name, "stock"),
        _ => panic!("unexpected event"),
    }
    core.uninstall_modules(30, "acme", &names, output(true, ""), &vec![stamp(52), stamp(53)])
        .unwrap();
    assert!(matches!(core.recent_events(1)[0].event, Event::ModuleUninstalled { .. }));
    core.upgrade_module(30, "sale".to_string(), Ok(None), &stamp(54)).unwrap();
    match &core.recent_events(1)[0].event {
        Event::ModuleUpgraded { to_version, .. } => assert_eq!(to_version, "unknown"),
        _ => panic!("unexpected event"),
    }
    core.neutralize_database(30, "acme", output(true, ""), 5, &stamp(55)).unwrap();
    assert!(matches!(
        core.recent_events(1)[0].event,
        Event::DatabaseNeutralized { database_id: 30 }
    ));
    let before = core.events.len();
    assert!(core.install_modules(30, "acme", &names, output(false, "x"), &stamps).is_err());
    assert_eq!(core.events.len(), before);
    core.remember_module_contents(30, &names, &vec![Some("h".to_string()), None]);
    assert_eq!(core.module_install(30, "sale").as_deref(), Some("h"));
    assert_eq!(core.module_install(30, "stock"), None);
    assert!(find_module(&vec![], "sale").is_none());
}

#[test]
fn a_database_without_tables_of_odoo_is_left_alone() {
    assert!(holds_odoo_tables(&Ok(Some("t".to_string()))));
    assert!(!holds_odoo_tables(&Ok(Some("f".to_string()))));
    assert!(!holds_odoo_tables(&Ok(None)));
    let e = PgAdminError::Spawn { command: "psql".to_string(), source: "gone".to_string() };
    assert!(!holds_odoo_tables(&Err(e)));
}

#[test]
fn modules_come_from_a_folder_or_a_repository() {
    let mut env = Environment::new();
    let url = || "https://example.com/a.git".to_string();
    assert!(looks_like_git_url(" git@example.com:a/b "));
    assert!(looks_like_git_url("ssh://x") && looks_like_git_url("http://x"));
    assert!(!looks_like_git_url("/home/me/addons"));
    assert!(matches!(
        modules_from(&env, SERVER, "x", url()),
        Err(CoreError::NotConfigured(_))
    ));
    match modules_from(&env, SERVER, "x", "/mine".to_string()).unwrap() {
        ModulesFrom::Folder(path) => assert_eq!(path, "/mine"),
        ModulesFrom::Clone { .. } => panic!("this is a folder"),
    }
    env.with_environment("/app".to_string(), vec![]);
    match modules_from(&env, SERVER, "My Modules!", url()).unwrap() {
        ModulesFrom::Clone { url: from, dest } => {
            assert_eq!(from, url());
            assert_eq!(dest, format!("/app/modules/{SERVER_TEXT}/my-modules"));
        }
        ModulesFrom::Folder(_) => panic!("this is a repository"),
    }
}

#[test]
fn a_slug_is_a_plain_name() {
    assert_eq!(slugify("  Acme & Söhne  "), "acme---s-hne");
    assert_eq!(slugify("--x--"), "x");
    assert_eq!(slugify("!!!"), "modules");
    assert_eq!(slugify("ÀÉ"), "modules");
    assert_eq!(slugify(""), "modules");
    assert_eq!(slugify("\u{2003} ΟΔΟΣ \u{3000}"), "modules");
    assert_eq!(slugify("\u{212a}elvin"), "kelvin", "the Kelvin sign is a k in lower case");
}

#[test]
fn a_slug_of_a_slug_is_the_same_slug() {
    for label in ["  Acme & Söhne  ", "--x--", "!!!", "ÀÉ", "OCA/web 17.0", "\u{130}x"] {
        let slug = slugify(label);
        assert_eq!(slugify(&slug), slug);
        assert!(slug.chars().all(|c| c.is_ascii_lowercase() || c.is_ascii_digit() || c == '-'));
        assert!(!slug.is_empty() && !slug.starts_with('-') && !slug.ends_with('-'));
    }
}

#[test]
fn requirements_are_read_without_comments() {
    let text = "# all\nBabel==2.9 # pinned\n\n   \nlxml\n";
    assert_eq!(requirements(text), vec!["Babel==2.9", "lxml"]);
    assert_eq!(venv_folder("/app", "17.0"), "/app/venvs/17.0");
    assert_eq!(stream_name(LogStream::Stdout), "stdout");
    assert_eq!(stream_name(LogStream::Stderr), "stderr");
}

#[test]
fn an_interpreter_that_is_there_is_used() {
    assert!(python_steps("/app/venvs/17.0", true).is_empty());
    let steps = python_steps("/app/venvs/17.0", false);
    assert_eq!(steps.len(), 4);
    assert!(matches!(&steps[0], PythonStep::InstallPython { version } if version == "3.11"));
    assert!(matches!(
        &steps[1],
        PythonStep::MakeEnvironment { version, folder }
            if version == "3.11" && folder == "/app/venvs/17.0"
    ));
    assert!(matches!(&steps[2], PythonStep::InstallRequirements));
    assert!(matches!(&steps[3], PythonStep::Install { package } if package == "setuptools<81"));
}

#[test]
fn storage_is_used_started_or_made() {
    let core = core_with_database();
    let mut env = Environment::new();
    assert!(matches!(core.ensure_storage(&env, &running()).unwrap(), Storage::Ready(PG)));
    let stopped = Surroundings { supervised: vec![], bin_dir: None };
    assert!(matches!(core.ensure_storage(&env, &stopped).unwrap(), Storage::Start(PG)));
    let empty = Core::new();
    assert!(matches!(empty.ensure_storage(&env, &stopped), Err(CoreError::NotConfigured(_))));
    env.with_environment("/app".to_string(), vec![]);
    match empty.ensure_storage(&env, &stopped).unwrap() {
        Storage::Create { data_dir } => assert_eq!(data_dir, "/app/databases"),
        _ => panic!("there is nothing yet"),
    }
}

#[test]
fn what_processes_do_is_noted() {
    let mut core = core_with_database();
    core.on_odoo_state(SERVER, OdooState::Running { pid: 3 }, &stamp(60));
    assert_eq!(core.get_server(SERVER).unwrap().state, ServerState::Running);
    assert!(matches!(core.recent_events(1)[0].event, Event::ServerStarted { .. }));
    core.on_odoo_state(SERVER, OdooState::Crashed { exit_code: None }, &stamp(61));
    let crashed = core.get_server(SERVER).unwrap();
    assert_eq!(crashed.state, ServerState::Crashed { exit_code: -1 });
    assert_eq!(crashed.started_at, None);
    let before = core.events.len();
    core.on_odoo_state(SERVER, OdooState::Starting, &stamp(62));
    assert_eq!(core.events.len(), before, "nobody is told of a start that is under way");
    core.on_postgres_state(PG, PgState::Running { pid: 4 }, &stamp(63));
    assert!(matches!(core.recent_events(1)[0].event, Event::PostgresRunning { pid: 4, .. }));
}
