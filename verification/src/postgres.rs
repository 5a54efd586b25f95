//! What a PostgreSQL cluster is doing, and why it may refuse.

use crate::odoo;
use crate::text;
use vstd::prelude::*;
use vstd::string::*;

verus! {

/// What a cluster is doing.
#[derive(Debug, Clone, Copy, PartialEq, Eq, Structural)]
pub enum PgState {
    Stopped,
    Starting,
    Running { pid: u32 },
    Stopping,
    Crashed { exit_code: Option<i32> },
}

/// A state as it is shown.
pub open spec fn pg_state_text(s: PgState) -> Seq<char> {
    match s {
        PgState::Stopped => "Stopped"@,
        PgState::Starting => "Starting"@,
        PgState::Running { pid } => "Running { pid: "@ + text::decimal_of(pid as nat) + " }"@,
        PgState::Stopping => "Stopping"@,
        PgState::Crashed { exit_code } => "Crashed { exit_code: "@ + odoo::exit_code_text(exit_code)
            + " }"@,
    }
}

impl PgState {
    /// The state as it is shown.
    pub fn text(self) -> (r: String)
        ensures
            r@ == pg_state_text(self),
    {
        match self {
            PgState::Stopped => "Stopped".to_owned(),
            PgState::Starting => "Starting".to_owned(),
            PgState::Running { pid } => {
                let mut out = text::joined(
                    "Running { pid: ",
                    text::decimal(pid as u64).as_str(),
                );
                out.append(" }");
                out
            },
            PgState::Stopping => "Stopping".to_owned(),
            PgState::Crashed { exit_code } => {
                let mut out = text::joined(
                    "Crashed { exit_code: ",
                    odoo::show_exit_code(exit_code).as_str(),
                );
                out.append(" }");
                out
            },
        }
    }
}

/// Why a cluster did not do as it was told.
#[derive(Debug)]
pub enum PgError {
    AlreadyRunning,
    NotRunning,
    /// Anything else, as it is shown.
    Failed(String),
}

/// What is shown of an error.
pub open spec fn pg_error_shown(e: PgError) -> Seq<char> {
    match e {
        PgError::AlreadyRunning => "postgres is already running"@,
        PgError::NotRunning => "postgres is not running"@,
        PgError::Failed(message) => message@,
    }
}

impl PgError {
    /// What is shown of the error.
    pub fn message(&self) -> (r: String)
        ensures
            r@ == pg_error_shown(*self),
    {
        match self {
            PgError::AlreadyRunning => "postgres is already running".to_owned(),
            PgError::NotRunning => "postgres is not running".to_owned(),
            PgError::Failed(message) => message.clone(),
        }
    }
}

} // verus!
