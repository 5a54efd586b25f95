//! The supervision of an Odoo process.

use orchestrator_core::odoo::{
    last_look, looks_like_http, LastAction, LogStream, OdooConfig, OdooError, OdooNotification,
    OdooState, OdooSupervisor, StartAction, StartEvent, StopAction, LAST_LOOKS,
};

fn supervisor() -> OdooSupervisor {
    OdooSupervisor::new(OdooConfig::new(
        "/py".to_string(),
        "/co".to_string(),
        vec!["/co/odoo-bin".to_string(), "-c".to_string()],
        8069,
    ))
}

/// A supervisor whose process answers.
fn started() -> (OdooSupervisor, u64) {
    let mut sup = supervisor();
    let (generation, _) = sup.begin_start().unwrap();
    let (action, _) = sup.on_start_event(generation, StartEvent::PortProbed { answers: false });
    assert!(matches!(action, StartAction::Spawn));
    sup.on_start_event(generation, StartEvent::Spawned { pid: 42 });
    let probed = StartEvent::Probed { pid: 42, ready: true, deadline_passed: false };
    let (action, note) = sup.on_start_event(generation, probed);
    assert!(matches!(action, StartAction::Done { result: Ok(()), kill: None }));
    assert!(matches!(note, Some(OdooNotification::State(OdooState::Running { pid: 42 }))));
    (sup, generation)
}

#[test]
fn full_lifecycle_start_ready_stop() {
    let fresh = supervisor();
    assert_eq!(fresh.state(), OdooState::Stopped);
    let (mut sup, generation) = started();
    assert!(matches!(sup.state(), OdooState::Running { .. }));
    let (action, notes) = sup.begin_stop();
    let wait = match action {
        StopAction::Terminate { wait } => wait,
        _ => panic!("the process is asked to end"),
    };
    assert_eq!(notes.len(), 1);
    assert!(matches!(sup.stop_tick(wait, false), StopAction::Sleep { ms: 150, .. }));
    sup.on_exit(generation, Some(0));
    assert_eq!(sup.state(), OdooState::Stopped);
    assert!(matches!(sup.stop_tick(wait, false), StopAction::Done));
}

#[test]
fn starting_twice_is_rejected() {
    let (mut sup, _) = started();
    assert!(matches!(sup.begin_start(), Err(OdooError::AlreadyRunning)));
}

#[test]
fn stop_without_start_is_a_harmless_no_op() {
    let mut sup = supervisor();
    let (action, notes) = sup.begin_stop();
    assert!(matches!(action, StopAction::Done));
    assert!(notes.is_empty());
}

#[test]
fn starting_on_a_port_something_else_holds_says_so_plainly() {
    let mut sup = supervisor();
    let (generation, _) = sup.begin_start().unwrap();
    let (action, _) = sup.on_start_event(generation, StartEvent::PortProbed { answers: true });
    match action {
        StartAction::Done { result: Err(e), kill: None } => {
            assert!(matches!(e, OdooError::PortInUse { port: 8069 }));
        }
        _ => panic!("the start is over"),
    }
    assert_eq!(sup.state(), OdooState::Stopped, "a refused start must not be stuck at Starting");
}

#[test]
fn detects_a_real_crash_via_process_exit() {
    let (mut sup, generation) = started();
    sup.on_exit(generation, Some(9));
    assert_eq!(sup.state(), OdooState::Crashed { exit_code: Some(9) });
    assert_eq!(sup.pid_to_stop(), None);
    let (action, notes) = sup.begin_stop();
    assert!(matches!(action, StopAction::Done));
    assert_eq!(notes.len(), 1);
    assert_eq!(sup.state(), OdooState::Stopped);
}

#[test]
fn startup_timeout_kills_the_process_and_reports_the_error() {
    let mut sup = supervisor();
    let (generation, _) = sup.begin_start().unwrap();
    sup.on_start_event(generation, StartEvent::Spawned { pid: 42 });
    let waiting = StartEvent::Probed { pid: 42, ready: false, deadline_passed: false };
    assert!(matches!(sup.on_start_event(generation, waiting).0, StartAction::Sleep));
    assert!(matches!(sup.on_start_event(generation, StartEvent::Woke).0, StartAction::Probe));
    let late = StartEvent::Probed { pid: 42, ready: false, deadline_passed: true };
    match sup.on_start_event(generation, late).0 {
        StartAction::Done { result: Err(e), kill: Some(42) } => {
            assert_eq!(
                e.message(),
                "odoo server didn't start serving on port 8069 within 30s"
            );
        }
        _ => panic!("the process is killed"),
    }
    assert_eq!(sup.state(), OdooState::Stopped);
}

#[test]
fn a_process_that_exits_while_starting_is_an_error() {
    let mut sup = supervisor();
    let (generation, _) = sup.begin_start().unwrap();
    sup.on_start_event(generation, StartEvent::Spawned { pid: 42 });
    sup.on_exit(generation, Some(1));
    match sup.on_start_event(generation, StartEvent::Woke).0 {
        StartAction::Done { result: Err(OdooError::ExitedDuringStartup { exit_code }), .. } => {
            assert_eq!(exit_code, Some(1));
        }
        _ => panic!("the start failed"),
    }
    let mut sup = supervisor();
    let (generation, _) = sup.begin_start().unwrap();
    let failed = StartEvent::SpawnFailed { reason: "no such file".to_string() };
    match sup.on_start_event(generation, failed).0 {
        StartAction::Done { result: Err(e), .. } => {
            assert!(e.message().contains("/co/odoo-bin -c"));
        }
        _ => panic!("the start failed"),
    }
}

/// What arrives late from an earlier start changes nothing.
#[test]
fn late_news_changes_nothing() {
    let (mut sup, first) = started();
    sup.on_exit(first, Some(1));
    let (second, _) = sup.begin_start().unwrap();
    assert!(sup.on_exit(first, Some(2)).is_none());
    assert_eq!(sup.state(), OdooState::Starting);
    assert!(sup.set_state_if_current(first, OdooState::Stopped).is_none());
    assert!(sup.notify_log_if_current(first, LogStream::Stdout, "x".to_string()).is_none());
    assert!(matches!(
        sup.notify_log_if_current(second, LogStream::Stderr, "y".to_string()),
        Some(OdooNotification::Log { stream: LogStream::Stderr, .. })
    ));
}

#[test]
fn a_process_that_does_not_end_is_killed() {
    let (mut sup, _) = started();
    assert_eq!(sup.pid_to_stop(), Some(42));
    let (action, _) = sup.begin_stop();
    let StopAction::Terminate { wait } = action else { panic!("the process is asked to end") };
    let StopAction::Kill { wait } = sup.stop_tick(wait, true) else { panic!("it is killed") };
    let mut wait = wait;
    let mut looks = 0;
    while let StopAction::Sleep { ms, wait: next } = sup.stop_tick(wait, true) {
        assert_eq!(ms, 100);
        wait = next;
        looks += 1;
    }
    assert_eq!(looks, 30);
}

#[test]
fn an_http_server_is_known_by_its_answer() {
    assert!(looks_like_http(b"HTTP/1.0 200 OK"));
    assert!(!looks_like_http(b"HTTP"));
    assert!(!looks_like_http(b"SSH-2.0"));
}

/// A process whose supervisor is gone has two seconds to end.
#[test]
fn a_process_left_behind_is_killed_at_last() {
    assert_eq!(last_look(20, false), LastAction::Done);
    let mut looks = LAST_LOOKS;
    let mut waited: u64 = 0;
    while let LastAction::Sleep { ms, looks_left } = last_look(looks, true) {
        waited += ms;
        looks = looks_left;
    }
    assert_eq!(waited, 2000);
    assert_eq!(last_look(looks, true), LastAction::Kill);
}
