//! Supervises one Odoo process: what a request, a probe's answer, the process's output and its
//! exit do to the supervisor's state, and what is to be done next.
//!
//! Every start has a generation. Whatever arrives late from an earlier generation is ignored.

use crate::text;
use vstd::prelude::*;
use vstd::string::*;

verus! {

/// What the process is doing.
#[derive(Debug, Clone, Copy, PartialEq, Eq, Structural)]
pub enum OdooState {
    Stopped,
    Starting,
    Running { pid: u32 },
    Stopping,
    Crashed { exit_code: Option<i32> },
}

/// One of the process's two output streams.
#[derive(Debug, Clone, Copy, PartialEq, Eq, Structural)]
pub enum LogStream {
    Stdout,
    Stderr,
}

/// What a listener is told: a new state, or one line of output.
#[derive(Debug)]
pub enum OdooNotification {
    State(OdooState),
    Log { stream: LogStream, line: String },
}

/// Why a start failed.
#[derive(Debug)]
pub enum OdooError {
    AlreadyRunning,
    Spawn { command: String, source: String },
    ExitedDuringStartup { exit_code: Option<i32> },
    StartupTimeout { port: u16, timeout_secs: u64 },
    PortInUse { port: u16 },
}

/// What is shown of an optional exit code.
pub open spec fn exit_code_text(code: Option<i32>) -> Seq<char> {
    match code {
        Some(n) => "Some("@ + text::signed_decimal_of(n as int) + ")"@,
        None => "None"@,
    }
}

/// An optional exit code as it is shown.
pub fn show_exit_code(code: Option<i32>) -> (r: String)
    ensures
        r@ == exit_code_text(code),
{
    match code {
        Some(n) => {
            let mut shown = text::joined("Some(", text::signed_decimal(n as i64).as_str());
            shown.append(")");
            shown
        },
        None => "None".to_owned(),
    }
}

/// What is shown of an error.
pub open spec fn odoo_error_text(e: OdooError) -> Seq<char> {
    match e {
        OdooError::AlreadyRunning => "odoo server is already running or stopping"@,
        OdooError::Spawn { command, source } => "couldn't spawn "@ + command@ + ": "@ + source@,
        OdooError::ExitedDuringStartup { exit_code } =>
        "process exited before becoming ready (exit code: "@ + exit_code_text(exit_code) + ")"@,
        OdooError::StartupTimeout { port, timeout_secs } =>
        "odoo server didn't start serving on port "@ + text::decimal_of(port as nat) + " within "@
            + text::decimal_of(timeout_secs as nat) + "s"@,
        OdooError::PortInUse { port } => "something is already serving port "@ + text::decimal_of(
            port as nat,
        ) + " — if that's an Odoo this app lost track of, stop it and try again"@,
    }
}

impl OdooError {
    /// What is shown of the error.
    pub fn message(&self) -> (r: String)
        ensures
            r@ == odoo_error_text(*self),
    {
        match self {
            OdooError::AlreadyRunning => "odoo server is already running or stopping".to_owned(),
            OdooError::Spawn { command, source } => {
                let mut out = text::joined("couldn't spawn ", command.as_str());
                out.append(": ");
                out.append(source.as_str());
                out
            },
            OdooError::ExitedDuringStartup { exit_code } => {
                let code = show_exit_code(*exit_code);
                let mut out = text::joined(
                    "process exited before becoming ready (exit code: ",
                    code.as_str(),
                );
                out.append(")");
                out
            },
            OdooError::StartupTimeout { port, timeout_secs } => {
                let mut out = text::joined(
                    "odoo server didn't start serving on port ",
                    text::decimal(*port as u64).as_str(),
                );
                out.append(" within ");
                out.append(text::decimal(*timeout_secs).as_str());
                out.append("s");
                out
            },
            OdooError::PortInUse { port } => {
                let mut out = text::joined(
                    "something is already serving port ",
                    text::decimal(*port as u64).as_str(),
                );
                out.append(" — if that's an Odoo this app lost track of, stop it and try again");
                out
            },
        }
    }
}

/// Everything that is needed to run one Odoo process.
#[derive(Debug)]
pub struct OdooConfig {
    pub python_bin: String,
    pub working_dir: String,
    pub args: Vec<String>,
    pub env: Vec<(String, String)>,
    pub port: u16,
    pub startup_timeout_ms: u64,
    pub shutdown_timeout_ms: u64,
    pub health_check_interval_ms: u64,
}

impl OdooConfig {
    /// A configuration with an empty environment: half a minute to start, a quarter to stop, and
    /// a look every 300 milliseconds.
    pub fn new(python_bin: String, working_dir: String, args: Vec<String>, port: u16) -> (r: Self)
        ensures
            r.python_bin == python_bin,
            r.working_dir == working_dir,
            r.args == args,
            r.env@.len() == 0,
            r.port == port,
            r.startup_timeout_ms == 30_000,
            r.shutdown_timeout_ms == 15_000,
            r.health_check_interval_ms == 300,
    {
        OdooConfig {
            python_bin,
            working_dir,
            args,
            env: Vec::new(),
            port,
            startup_timeout_ms: 30_000,
            shutdown_timeout_ms: 15_000,
            health_check_interval_ms: 300,
        }
    }
}

/// What happened while a process was being started.
#[derive(Debug)]
pub enum StartEvent {
    /// Whether something already answers on the port.
    PortProbed { answers: bool },
    /// The process could not be spawned.
    SpawnFailed { reason: String },
    /// The process was spawned.
    Spawned { pid: u32 },
    /// The wait before the next look is over.
    Woke,
    /// Whether the process answers, and whether its time to start is over.
    Probed { pid: u32, ready: bool, deadline_passed: bool },
}

/// What to do next while a process is being started.
#[derive(Debug)]
pub enum StartAction {
    /// Spawn the process.
    Spawn,
    /// See whether it answers.
    Probe,
    /// Wait before the next look.
    Sleep,
    /// The start is over; kill the process first where one is given.
    Done { result: Result<(), OdooError>, kill: Option<u32> },
}

/// How a stop is getting on.
#[derive(Debug, Clone, Copy, PartialEq, Eq, Structural)]
pub struct StopWait {
    pub pid: u32,
    pub escalated: bool,
    pub ticks_left: u32,
}

/// What to do next while a process is being stopped.
#[derive(Debug, Clone, Copy, PartialEq, Eq, Structural)]
pub enum StopAction {
    /// The stop is over.
    Done,
    /// Ask the process to end, then wait as given.
    Terminate { wait: StopWait },
    /// Kill the process, then wait as given.
    Kill { wait: StopWait },
    /// Wait the given milliseconds, then look again.
    Sleep { ms: u64, wait: StopWait },
}

/// How often the process is looked at after it was killed.
pub const LOOKS_AFTER_KILL: u32 = 30;

/// How often a process is looked at once its supervisor is gone, before it is killed.
pub const LAST_LOOKS: u32 = 20;

/// What to do next about a process whose supervisor is gone.
#[derive(Debug, Clone, Copy, PartialEq, Eq, Structural)]
pub enum LastAction {
    /// The process is gone too.
    Done,
    /// Wait the given milliseconds, then look again, as often as given.
    Sleep { ms: u64, looks_left: u32 },
    /// Kill the process.
    Kill,
}

/// The supervisor of one Odoo process.
#[derive(Debug)]
pub struct OdooSupervisor {
    pub config: OdooConfig,
    pub state: OdooState,
    pub current_pid: Option<u32>,
    pub generation: u64,
}

/// Whether a process is there to be signalled.
pub open spec fn is_alive(s: OdooState) -> bool {
    s is Starting || s is Running || s is Stopping
}

/// The supervisor with the state that a step of the given generation leads to; a process that is
/// over has no pid.
pub open spec fn moved(s: OdooSupervisor, generation: u64, to: OdooState) -> OdooSupervisor {
    if s.generation != generation {
        s
    } else {
        OdooSupervisor {
            state: to,
            current_pid: if to is Stopped || to is Crashed {
                None
            } else {
                s.current_pid
            },
            ..s
        }
    }
}

/// Whether a listener is told of the move.
pub open spec fn told(
    note: Option<OdooNotification>,
    s: OdooSupervisor,
    generation: u64,
    to: OdooState,
) -> bool {
    if s.generation == generation {
        note == Some(OdooNotification::State(to))
    } else {
        note is None
    }
}

impl OdooSupervisor {
    /// A supervisor of a process that was never started.
    pub fn new(config: OdooConfig) -> (r: Self)
        ensures
            r.config == config,
            r.state == OdooState::Stopped,
            r.current_pid is None,
            r.generation == 0,
    {
        OdooSupervisor { config, state: OdooState::Stopped, current_pid: None, generation: 0 }
    }

    /// What the process is doing.
    pub fn state(&self) -> (r: OdooState)
        ensures
            r == self.state,
    {
        self.state
    }

    /// Moves to a state, unless the process is of another generation by now.
    pub fn set_state_if_current(&mut self, generation: u64, new_state: OdooState) -> (note: Option<
        OdooNotification,
    >)
        ensures
            *final(self) == moved(*old(self), generation, new_state),
            told(note, *old(self), generation, new_state),
    {
        if self.generation != generation {
            return None;
        }
        match new_state {
            OdooState::Stopped | OdooState::Crashed { .. } => {
                self.current_pid = None;
            },
            _ => {},
        }
        self.state = new_state;
        Some(OdooNotification::State(new_state))
    }

    /// Begins a start: refused while a process is there, else a new generation is starting.
    pub fn begin_start(&mut self) -> (r: Result<(u64, OdooNotification), OdooError>)
        requires
            old(self).generation < u64::MAX,
        ensures
            match r {
                Err(e) => {
                    &&& is_alive(old(self).state)
                    &&& e == OdooError::AlreadyRunning
                    &&& *final(self) == *old(self)
                },
                Ok((generation, note)) => {
                    &&& !is_alive(old(self).state)
                    &&& generation == old(self).generation + 1
                    &&& note == OdooNotification::State(OdooState::Starting)
                    &&& *final(self) == (OdooSupervisor {
                        state: OdooState::Starting,
                        current_pid: None,
                        generation,
                        ..*old(self)
                    })
                },
            },
    {
        match self.state {
            OdooState::Running { .. } | OdooState::Starting | OdooState::Stopping => {
                return Err(OdooError::AlreadyRunning);
            },
            _ => {},
        }
        self.generation = self.generation + 1;
        self.state = OdooState::Starting;
        self.current_pid = None;
        Ok((self.generation, OdooNotification::State(OdooState::Starting)))
    }

    /// What to do about a process of the given generation that is coming up.
    fn next_look(&self, generation: u64) -> (r: StartAction)
        ensures
            r == look_at(*self, generation),
    {
        if self.generation != generation {
            return StartAction::Done { result: Ok(()), kill: None };
        }
        match self.state {
            OdooState::Crashed { exit_code } => StartAction::Done {
                result: Err(OdooError::ExitedDuringStartup { exit_code }),
                kill: None,
            },
            _ => StartAction::Probe,
        }
    }

    /// Takes in what happened during a start and says what to do next, and what listeners are
    /// told.
    ///
    /// A port that something else answers on is never claimed: the start fails. A start that
    /// another start or stop overtook ends quietly.
    pub fn on_start_event(&mut self, generation: u64, event: StartEvent) -> (r: (
        StartAction,
        Option<OdooNotification>,
    ))
        ensures
            is_start_step(*old(self), *final(self), generation, event, r),
    {
        match event {
            StartEvent::PortProbed { answers } => {
                if answers {
                    let note = self.set_state_if_current(generation, OdooState::Stopped);
                    let result = Err(OdooError::PortInUse { port: self.config.port });
                    (StartAction::Done { result, kill: None }, note)
                } else {
                    (StartAction::Spawn, None)
                }
            },
            StartEvent::SpawnFailed { reason } => {
                let note = self.set_state_if_current(generation, OdooState::Stopped);
                let command = text::join(&self.config.args, " ");
                let result = Err(OdooError::Spawn { command, source: reason });
                (StartAction::Done { result, kill: None }, note)
            },
            StartEvent::Spawned { pid } => {
                let action = self.next_look(generation);
                if self.generation == generation {
                    self.current_pid = Some(pid);
                }
                (action, None)
            },
            StartEvent::Woke => (self.next_look(generation), None),
            StartEvent::Probed { pid, ready, deadline_passed } => {
                if ready {
                    let note = self.set_state_if_current(generation, OdooState::Running { pid });
                    (StartAction::Done { result: Ok(()), kill: None }, note)
                } else if deadline_passed {
                    let note = self.set_state_if_current(generation, OdooState::Stopped);
                    let result = Err(
                        OdooError::StartupTimeout {
                            port: self.config.port,
                            timeout_secs: self.config.startup_timeout_ms / 1000,
                        },
                    );
                    (StartAction::Done { result, kill: Some(pid) }, note)
                } else {
                    (StartAction::Sleep, None)
                }
            },
        }
    }

    /// Begins a stop. Nothing is done where nothing runs or a stop is under way; a crash is put
    /// away; a process without a pid is over at once; any other is asked to end.
    pub fn begin_stop(&mut self) -> (r: (StopAction, Vec<OdooNotification>))
        requires
            old(self).generation < u64::MAX,
        ensures
            is_stop_begun(*old(self), *final(self), r),
    {
        let mut notes: Vec<OdooNotification> = Vec::new();
        match self.state {
            OdooState::Stopped | OdooState::Stopping => (StopAction::Done, notes),
            OdooState::Crashed { .. } => {
                self.state = OdooState::Stopped;
                self.generation = self.generation + 1;
                self.current_pid = None;
                notes.push(OdooNotification::State(OdooState::Stopped));
                assert(notes@ =~= seq![OdooNotification::State(OdooState::Stopped)]);
                (StopAction::Done, notes)
            },
            OdooState::Starting | OdooState::Running { .. } => {
                self.state = OdooState::Stopping;
                notes.push(OdooNotification::State(OdooState::Stopping));
                match self.current_pid {
                    Some(pid) => {
                        assert(notes@ =~= seq![OdooNotification::State(OdooState::Stopping)]);
                        (
                            StopAction::Terminate {
                                wait: StopWait { pid, escalated: false, ticks_left: 0 },
                            },
                            notes,
                        )
                    },
                    None => {
                        self.state = OdooState::Stopped;
                        notes.push(OdooNotification::State(OdooState::Stopped));
                        assert(notes@ =~= seq![
                            OdooNotification::State(OdooState::Stopping),
                            OdooNotification::State(OdooState::Stopped),
                        ]);
                        (StopAction::Done, notes)
                    },
                }
            },
        }
    }

    /// What to do about a process that was asked to end: until its time is over it is looked at
    /// every 150 milliseconds, then it is killed and looked at thirty times, every 100.
    pub fn stop_tick(&self, wait: StopWait, deadline_passed: bool) -> (r: StopAction)
        ensures
            r == ticked(self.state, wait, deadline_passed),
    {
        if !wait.escalated && deadline_passed {
            return StopAction::Kill {
                wait: StopWait { pid: wait.pid, escalated: true, ticks_left: LOOKS_AFTER_KILL },
            };
        }
        if wait.escalated && wait.ticks_left == 0 {
            return StopAction::Done;
        }
        match self.state {
            OdooState::Stopping => {},
            _ => {
                return StopAction::Done;
            },
        }
        if !wait.escalated {
            StopAction::Sleep { ms: 150, wait }
        } else {
            StopAction::Sleep {
                ms: 100,
                wait: StopWait {
                    pid: wait.pid,
                    escalated: true,
                    ticks_left: wait.ticks_left - 1,
                },
            }
        }
    }

    /// The process of a generation has ended: expected where it was asked to, else a crash.
    pub fn on_exit(&mut self, generation: u64, exit_code: Option<i32>) -> (note: Option<
        OdooNotification,
    >)
        ensures
            *final(self) == moved(*old(self), generation, after_exit(old(self).state, exit_code)),
            told(note, *old(self), generation, after_exit(old(self).state, exit_code)),
    {
        let new_state = match self.state {
            OdooState::Stopping => OdooState::Stopped,
            _ => OdooState::Crashed { exit_code },
        };
        self.set_state_if_current(generation, new_state)
    }

    /// A line of output of the process of a generation.
    pub fn notify_log_if_current(&self, generation: u64, stream: LogStream, line: String) -> (note:
        Option<OdooNotification>)
        ensures
            note == (if self.generation == generation {
                Some(OdooNotification::Log { stream, line })
            } else {
                None
            }),
    {
        if self.generation == generation {
            Some(OdooNotification::Log { stream, line })
        } else {
            None
        }
    }

    /// The process to end when the supervisor goes away.
    pub fn pid_to_stop(&self) -> (r: Option<u32>)
        ensures
            r == (if is_alive(self.state) {
                self.current_pid
            } else {
                None
            }),
    {
        match self.state {
            OdooState::Running { .. } | OdooState::Starting | OdooState::Stopping => self.current_pid,
            _ => None,
        }
    }
}

/// What to do about a process that was asked to end because its supervisor is gone: it is looked
/// at every 100 milliseconds, and killed once no look is left.
pub fn last_look(looks_left: u32, alive: bool) -> (r: LastAction)
    ensures
        r == looked(looks_left, alive),
{
    if looks_left == 0 {
        LastAction::Kill
    } else if !alive {
        LastAction::Done
    } else {
        LastAction::Sleep { ms: 100, looks_left: looks_left - 1 }
    }
}

/// What one look at a process that is to stop leads to.
pub open spec fn ticked(state: OdooState, wait: StopWait, deadline_passed: bool) -> StopAction {
    if !wait.escalated && deadline_passed {
        StopAction::Kill {
            wait: StopWait { pid: wait.pid, escalated: true, ticks_left: LOOKS_AFTER_KILL },
        }
    } else if wait.escalated && wait.ticks_left == 0 {
        StopAction::Done
    } else if !(state is Stopping) {
        StopAction::Done
    } else if !wait.escalated {
        StopAction::Sleep { ms: 150, wait }
    } else {
        StopAction::Sleep {
            ms: 100,
            wait: StopWait { ticks_left: (wait.ticks_left - 1) as u32, ..wait },
        }
    }
}

/// What one of the last looks at a process leads to.
pub open spec fn looked(looks_left: u32, alive: bool) -> LastAction {
    if looks_left == 0 {
        LastAction::Kill
    } else if !alive {
        LastAction::Done
    } else {
        LastAction::Sleep { ms: 100, looks_left: (looks_left - 1) as u32 }
    }
}

/// What comes of an event while a process starts.
pub open spec fn is_start_step(
    before: OdooSupervisor,
    after: OdooSupervisor,
    generation: u64,
    event: StartEvent,
    r: (StartAction, Option<OdooNotification>),
) -> bool {
    match event {
        StartEvent::PortProbed { answers } => if answers {
            &&& after == moved(before, generation, OdooState::Stopped)
            &&& told(r.1, before, generation, OdooState::Stopped)
            &&& r.0 == (StartAction::Done {
                result: Err(OdooError::PortInUse { port: before.config.port }),
                kill: None,
            })
        } else {
            &&& after == before
            &&& r.0 == StartAction::Spawn
            &&& r.1 is None
        },
        StartEvent::SpawnFailed { reason } => {
            &&& after == moved(before, generation, OdooState::Stopped)
            &&& told(r.1, before, generation, OdooState::Stopped)
            &&& r.0 matches StartAction::Done { result, kill }
            &&& kill is None
            &&& result matches Err(OdooError::Spawn { command, source })
            &&& command@ == text::joined_with(text::views(before.config.args@), " "@)
            &&& source == reason
        },
        StartEvent::Spawned { pid } => {
            &&& after == (OdooSupervisor {
                current_pid: if before.generation == generation {
                    Some(pid)
                } else {
                    before.current_pid
                },
                ..before
            })
            &&& r.0 == look_at(before, generation)
            &&& r.1 is None
        },
        StartEvent::Woke => {
            &&& after == before
            &&& r.0 == look_at(before, generation)
            &&& r.1 is None
        },
        StartEvent::Probed { pid, ready, deadline_passed } => if ready {
            &&& after == moved(before, generation, OdooState::Running { pid })
            &&& told(r.1, before, generation, OdooState::Running { pid })
            &&& r.0 == (StartAction::Done { result: Ok(()), kill: None })
        } else if deadline_passed {
            &&& after == moved(before, generation, OdooState::Stopped)
            &&& told(r.1, before, generation, OdooState::Stopped)
            &&& r.0 == (StartAction::Done {
                result: Err(
                    OdooError::StartupTimeout {
                        port: before.config.port,
                        timeout_secs: before.config.startup_timeout_ms / 1000,
                    },
                ),
                kill: Some(pid),
            })
        } else {
            &&& after == before
            &&& r.0 == StartAction::Sleep
            &&& r.1 is None
        },
    }
}

/// What comes of the request to stop.
pub open spec fn is_stop_begun(
    before: OdooSupervisor,
    after: OdooSupervisor,
    r: (StopAction, Vec<OdooNotification>),
) -> bool {
    match before.state {
        OdooState::Stopped | OdooState::Stopping => {
            &&& after == before
            &&& r.0 == StopAction::Done
            &&& r.1@.len() == 0
        },
        OdooState::Crashed { .. } => {
            &&& after == (OdooSupervisor {
                state: OdooState::Stopped,
                current_pid: None,
                generation: (before.generation + 1) as u64,
                ..before
            })
            &&& r.0 == StopAction::Done
            &&& r.1@ == seq![OdooNotification::State(OdooState::Stopped)]
        },
        OdooState::Starting | OdooState::Running { .. } => match before.current_pid {
            None => {
                &&& after == (OdooSupervisor {
                    state: OdooState::Stopped,
                    ..before
                })
                &&& r.0 == StopAction::Done
                &&& r.1@ == seq![
                    OdooNotification::State(OdooState::Stopping),
                    OdooNotification::State(OdooState::Stopped),
                ]
            },
            Some(pid) => {
                &&& after == (OdooSupervisor {
                    state: OdooState::Stopping,
                    ..before
                })
                &&& r.0 == (StopAction::Terminate {
                    wait: StopWait { pid, escalated: false, ticks_left: 0 },
                })
                &&& r.1@ == seq![OdooNotification::State(OdooState::Stopping)]
            },
        },
    }
}

/// What a process of a generation that is coming up needs: nothing where it was overtaken, an
/// error where it crashed, else another look.
pub open spec fn look_at(s: OdooSupervisor, generation: u64) -> StartAction {
    if s.generation != generation {
        StartAction::Done { result: Ok(()), kill: None }
    } else {
        match s.state {
            OdooState::Crashed { exit_code } => StartAction::Done {
                result: Err(OdooError::ExitedDuringStartup { exit_code }),
                kill: None,
            },
            _ => StartAction::Probe,
        }
    }
}

/// What an exit leads to.
pub open spec fn after_exit(state: OdooState, exit_code: Option<i32>) -> OdooState {
    if state is Stopping {
        OdooState::Stopped
    } else {
        OdooState::Crashed { exit_code }
    }
}

/// What arrives late from an earlier start changes nothing: neither an exit nor a move of another
/// generation.
pub proof fn law_late_news_changes_nothing(s: OdooSupervisor, generation: u64, to: OdooState)
    requires
        s.generation != generation,
    ensures
        moved(s, generation, to) == s,
        look_at(s, generation) == (StartAction::Done { result: Ok(()), kill: None }),
{
}

/// Whether an answer is that of an HTTP server.
pub fn looks_like_http(answer: &[u8]) -> (r: bool)
    ensures
        r == (answer@.len() >= 5 && answer@[0] == 0x48u8 && answer@[1] == 0x54u8 && answer@[2]
            == 0x54u8 && answer@[3] == 0x50u8 && answer@[4] == 0x2fu8),
{
    answer.len() >= 5 && answer[0] == 0x48 && answer[1] == 0x54 && answer[2] == 0x54 && answer[3]
        == 0x50 && answer[4] == 0x2f
}

/// What a command that ran to its end left.
#[derive(Debug)]
pub struct OneShotOutput {
    pub success: bool,
    pub exit_code: Option<i32>,
    pub stdout: String,
    pub stderr: String,
}

/// News of the present start is taken in: the state becomes what was told, and the process is
/// forgotten exactly where it is gone.
pub proof fn law_present_news_is_taken_in(s: OdooSupervisor, to: OdooState)
    ensures
        moved(s, s.generation, to).state == to,
        moved(s, s.generation, to).generation == s.generation,
        moved(s, s.generation, to).config == s.config,
        to is Stopped || to is Crashed ==> moved(s, s.generation, to).current_pid is None,
        to is Starting || to is Running || to is Stopping ==> moved(s, s.generation, to).current_pid
            == s.current_pid,
        is_alive(to) <==> !(to is Stopped) && !(to is Crashed),
{
}

/// A process that ends while it is asked to stop has stopped; one that ends by itself has crashed,
/// with its code. A start that finds its process crashed fails with that code.
pub proof fn law_an_exit_is_a_stop_or_a_crash(s: OdooSupervisor, exit_code: Option<i32>)
    ensures
        s.state is Stopping <==> after_exit(s.state, exit_code) is Stopped,
        !(s.state is Stopping) ==> after_exit(s.state, exit_code) == (OdooState::Crashed {
            exit_code,
        }),
        s.state == (OdooState::Crashed { exit_code }) ==> look_at(s, s.generation)
            == (StartAction::Done {
            result: Err(OdooError::ExitedDuringStartup { exit_code }),
            kill: None,
        }),
        !(s.state is Crashed) ==> look_at(s, s.generation) is Probe,
{
}

/// A start succeeds only when the process answers, fails when the port is taken, when nothing
/// could be spawned, when the process crashed or when the time is over, and otherwise goes on.
/// Late news of another start leaves the supervisor alone.
pub proof fn law_a_start_ends_when_the_process_answers(
    before: OdooSupervisor,
    after: OdooSupervisor,
    generation: u64,
    event: StartEvent,
    r: (StartAction, Option<OdooNotification>),
)
    requires
        is_start_step(before, after, generation, event, r),
    ensures
        after.config == before.config && after.generation == before.generation,
        before.generation != generation ==> after == before && r.1 is None,
        after.state is Running && after.state != before.state ==> (event matches StartEvent::Probed {
            pid,
            ready,
            deadline_passed,
        } && ready && after.state == (OdooState::Running { pid })),
        before.generation == generation ==> match event {
            StartEvent::PortProbed { answers } => (r.0 is Spawn <==> !answers) && (after.state
                is Stopped <==> answers || before.state is Stopped),
            StartEvent::SpawnFailed { reason } => after.state is Stopped && (
            r.0 matches StartAction::Done { result, kill } && result is Err && kill is None),
            StartEvent::Spawned { pid } => after.current_pid == Some(pid) && after.state
                == before.state,
            StartEvent::Woke => after == before && (r.0 is Probe <==> !(before.state is Crashed)),
            StartEvent::Probed { pid, ready, deadline_passed } => {
                &&& ready ==> after.state == (OdooState::Running { pid }) && r.0 == (
                StartAction::Done { result: Ok(()), kill: None })
                &&& !ready && !deadline_passed ==> after == before && r.0 is Sleep
                &&& !ready && deadline_passed ==> after.state is Stopped && (
                r.0 matches StartAction::Done { result, kill } && result is Err && kill == Some(
                    pid,
                ))
            },
        },
        before.generation == generation && after.state != before.state ==> r.1 == Some(
            OdooNotification::State(after.state),
        ),
{
}

/// Asking to stop reaches the process that runs, and only that; without one, all is stopped at
/// once, and what has stopped or is stopping is left alone.
pub proof fn law_a_stop_reaches_the_process(
    before: OdooSupervisor,
    after: OdooSupervisor,
    r: (StopAction, Vec<OdooNotification>),
)
    requires
        is_stop_begun(before, after, r),
        before.generation < u64::MAX,
    ensures
        after.config == before.config,
        r.0 matches StopAction::Terminate { wait } ==> Some(wait.pid) == before.current_pid
            && !wait.escalated && after.state is Stopping,
        r.0 is Terminate <==> (before.state is Starting || before.state is Running)
            && before.current_pid is Some,
        before.state is Crashed ==> after.state is Stopped && after.generation == before.generation
            + 1,
        before.state is Stopped || before.state is Stopping ==> after == before && r.1@.len() == 0,
        (before.state is Starting || before.state is Running) && before.current_pid is None
            ==> after.state is Stopped,
        r.1@.len() > 0 ==> r.1@.last() == OdooNotification::State(after.state),
{
}

/// A stop that lasts is made a kill once, when its time is over, and then ends after a number of
/// looks at most; it never turns to another process.
pub proof fn law_a_stop_comes_to_an_end(state: OdooState, wait: StopWait, deadline_passed: bool)
    ensures
        ticked(state, wait, deadline_passed) is Kill <==> !wait.escalated && deadline_passed,
        ticked(state, wait, deadline_passed) matches StopAction::Kill { wait: next } ==> next.pid
            == wait.pid && next.escalated && next.ticks_left == 30,
        ticked(state, wait, deadline_passed) matches StopAction::Sleep { ms, wait: next }
            ==> next.pid == wait.pid && next.escalated == wait.escalated && state is Stopping && (
        wait.escalated ==> ms == 100 && next.ticks_left + 1 == wait.ticks_left) && (!wait.escalated
            ==> ms == 150 && next.ticks_left == wait.ticks_left),
        wait.escalated && wait.ticks_left == 0 ==> ticked(state, wait, deadline_passed) is Done,
        wait.escalated && !(state is Stopping) ==> ticked(state, wait, deadline_passed) is Done,
        state is Stopping && !(wait.escalated && wait.ticks_left == 0) ==> !(ticked(
            state,
            wait,
            deadline_passed,
        ) is Done),
        !(ticked(state, wait, deadline_passed) is Terminate),
{
}

/// The last looks end with the process, and when they are used up the process is killed.
pub proof fn law_the_last_looks_come_to_an_end(looks_left: u32, alive: bool)
    ensures
        looked(looks_left, alive) is Kill <==> looks_left == 0,
        looked(looks_left, alive) is Done <==> looks_left > 0 && !alive,
        looked(looks_left, alive) matches LastAction::Sleep { ms, looks_left: next } ==> ms == 100
            && next + 1 == looks_left,
{
}

} // verus!
