//! Why a request failed.

use crate::codec;
use crate::filestore;
use crate::filestore::FilestoreError;
use crate::git;
use crate::git::GitError;
use crate::model::Id;
use crate::odoo;
use crate::odoo::OdooError;
use crate::odoo_runtime;
use crate::odoo_runtime::OdooRuntimeError;
use crate::openupgrade;
use crate::openupgrade::OpenUpgradeError;
use crate::pg_admin;
use crate::pg_admin::PgAdminError;
use crate::postgres;
use crate::postgres::{PgError, PgState};
use crate::text;
use vstd::prelude::*;
use vstd::string::*;

verus! {

/// Why a request failed. Where the reason lies outside this library, it is kept as it is shown.
#[derive(Debug)]
pub enum CoreError {
    Sqlite(String),
    Serde(String),
    NotFound(String),
    Postgres(PgError),
    PgAdmin(PgAdminError),
    PostgresInstanceNotRunning { instance_id: Id, state: PgState },
    Io(String),
    Filestore(FilestoreError),
    SnapshotNotForDatabase { snapshot_id: Id, database_id: Id },
    SnapshotHasNoFilestore { snapshot_id: Id },
    Odoo(OdooError),
    ModuleCommandFailed { database: String, action: String, stdout: String, stderr: String },
    ProjectNotEmpty { project_id: Id, server_count: u32 },
    OdooRuntime(OdooRuntimeError),
    Git(GitError),
    PythonRuntime(String),
    OpenUpgrade(OpenUpgradeError),
    NotConfigured(String),
    DomainTaken { domain: String, database: String },
}

/// What is shown of an error.
pub open spec fn core_error_text(e: CoreError) -> Seq<char> {
    match e {
        CoreError::Sqlite(s) => "database error: "@ + s@,
        CoreError::Serde(s) => "serialization error: "@ + s@,
        CoreError::NotFound(s) => "not found: "@ + s@,
        CoreError::Postgres(e) => "postgres error: "@ + postgres::pg_error_shown(e),
        CoreError::PgAdmin(e) => "postgres admin error: "@ + pg_admin::pg_error_text(e),
        CoreError::PostgresInstanceNotRunning { instance_id, state } => "postgres instance "@
            + codec::uuid_text(instance_id) + " is not running (state: "@ + postgres::pg_state_text(
            state,
        ) + ") — start it before creating a database on it"@,
        CoreError::Io(s) => "filesystem error: "@ + s@,
        CoreError::Filestore(e) => "filestore snapshot error: "@ + filestore::filestore_error_text(
            e,
        ),
        CoreError::SnapshotNotForDatabase { snapshot_id, database_id } => "snapshot "@
            + codec::uuid_text(snapshot_id) + " was not taken from database "@ + codec::uuid_text(
            database_id,
        ) + ", so it cannot be used to revert it"@,
        CoreError::SnapshotHasNoFilestore { snapshot_id } => "snapshot "@ + codec::uuid_text(
            snapshot_id,
        ) + " has no filestore copy to revert to"@,
        CoreError::Odoo(e) => "odoo error: "@ + odoo::odoo_error_text(e),
        CoreError::ModuleCommandFailed { database, action, stdout, stderr } => "odoo module "@
            + action@ + " failed for database "@ + database@ + ": "@ + stderr@,
        CoreError::ProjectNotEmpty { project_id, server_count } => "project "@ + codec::uuid_text(
            project_id,
        ) + " still holds "@ + text::decimal_of(server_count as nat)
            + " Odoo(s) — remove them first"@,
        CoreError::OdooRuntime(e) => "odoo runtime error: "@ + odoo_runtime::runtime_error_text(e),
        CoreError::Git(e) => "git error: "@ + git::git_error_text(e),
        CoreError::PythonRuntime(s) => "couldn't build Odoo's Python environment: "@ + s@,
        CoreError::OpenUpgrade(e) => openupgrade::openupgrade_error_text(e),
        CoreError::NotConfigured(s) => s@,
        CoreError::DomainTaken { domain, database } => domain@
            + " already points at the database "@ + database@,
    }
}

impl CoreError {
    /// What is shown of the error.
    pub fn message(&self) -> (r: String)
        ensures
            r@ == core_error_text(*self),
    {
        match self {
            CoreError::Sqlite(s) => text::joined("database error: ", s.as_str()),
            CoreError::Serde(s) => text::joined("serialization error: ", s.as_str()),
            CoreError::NotFound(s) => text::joined("not found: ", s.as_str()),
            CoreError::Postgres(e) => text::joined("postgres error: ", e.message().as_str()),
            CoreError::PgAdmin(e) => text::joined("postgres admin error: ", e.message().as_str()),
            CoreError::PostgresInstanceNotRunning { instance_id, state } => {
                let mut out = text::joined(
                    "postgres instance ",
                    codec::id_text(*instance_id).as_str(),
                );
                out.append(" is not running (state: ");
                out.append(state.text().as_str());
                out.append(") — start it before creating a database on it");
                out
            },
            CoreError::Io(s) => text::joined("filesystem error: ", s.as_str()),
            CoreError::Filestore(e) => text::joined(
                "filestore snapshot error: ",
                e.message().as_str(),
            ),
            CoreError::SnapshotNotForDatabase { snapshot_id, database_id } => {
                let mut out = text::joined("snapshot ", codec::id_text(*snapshot_id).as_str());
                out.append(" was not taken from database ");
                out.append(codec::id_text(*database_id).as_str());
                out.append(", so it cannot be used to revert it");
                out
            },
            CoreError::SnapshotHasNoFilestore { snapshot_id } => {
                let mut out = text::joined("snapshot ", codec::id_text(*snapshot_id).as_str());
                out.append(" has no filestore copy to revert to");
                out
            },
            CoreError::Odoo(e) => text::joined("odoo error: ", e.message().as_str()),
            CoreError::ModuleCommandFailed { database, action, stdout: _, stderr } => {
                let mut out = text::joined("odoo module ", action.as_str());
                out.append(" failed for database ");
                out.append(database.as_str());
                out.append(": ");
                out.append(stderr.as_str());
                out
            },
            CoreError::ProjectNotEmpty { project_id, server_count } => {
                let mut out = text::joined("project ", codec::id_text(*project_id).as_str());
                out.append(" still holds ");
                out.append(text::decimal(*server_count as u64).as_str());
                out.append(" Odoo(s) — remove them first");
                out
            },
            CoreError::OdooRuntime(e) => text::joined("odoo runtime error: ", e.message().as_str()),
            CoreError::Git(e) => text::joined("git error: ", e.message().as_str()),
            CoreError::PythonRuntime(s) => text::joined(
                "couldn't build Odoo's Python environment: ",
                s.as_str(),
            ),
            CoreError::OpenUpgrade(e) => e.message(),
            CoreError::NotConfigured(s) => s.clone(),
            CoreError::DomainTaken { domain, database } => {
                let mut out = text::joined(domain.as_str(), " already points at the database ");
                out.append(database.as_str());
                out
            },
        }
    }
}

proof fn lemma_ends_with(a: Seq<char>, b: Seq<char>)
    ensures
        b.is_suffix_of(a + b),
{
    assert((a + b).subrange(a.len() as int, (a + b).len() as int) =~= b);
}

proof fn lemma_holds(a: Seq<char>, part: Seq<char>, b: Seq<char>)
    ensures
        text::has_part(a + part + b, part),
{
    let whole = a + part + b;
    assert(whole.subrange(a.len() as int, a.len() as int + part.len()) =~= part);
}

/// What is said of an error ends with what was said of its cause, and names what it is about.
pub proof fn law_an_error_says_its_cause(e: CoreError)
    ensures
        match e {
            CoreError::Sqlite(s) => s@.is_suffix_of(core_error_text(e)),
            CoreError::Serde(s) => s@.is_suffix_of(core_error_text(e)),
            CoreError::NotFound(s) => s@.is_suffix_of(core_error_text(e)),
            CoreError::Io(s) => s@.is_suffix_of(core_error_text(e)),
            CoreError::PythonRuntime(s) => s@.is_suffix_of(core_error_text(e)),
            CoreError::NotConfigured(s) => core_error_text(e) == s@,
            CoreError::Postgres(why) => postgres::pg_error_shown(why).is_suffix_of(
                core_error_text(e),
            ),
            CoreError::PgAdmin(why) => pg_admin::pg_error_text(why).is_suffix_of(
                core_error_text(e),
            ),
            CoreError::Filestore(why) => filestore::filestore_error_text(why).is_suffix_of(
                core_error_text(e),
            ),
            CoreError::Odoo(why) => odoo::odoo_error_text(why).is_suffix_of(core_error_text(e)),
            CoreError::OdooRuntime(why) => odoo_runtime::runtime_error_text(why).is_suffix_of(
                core_error_text(e),
            ),
            CoreError::Git(why) => git::git_error_text(why).is_suffix_of(core_error_text(e)),
            CoreError::ModuleCommandFailed { database, action, stdout, stderr } => {
                &&& stderr@.is_suffix_of(core_error_text(e))
                &&& text::has_part(core_error_text(e), database@)
                &&& text::has_part(core_error_text(e), action@)
            },
            CoreError::DomainTaken { domain, database } => {
                &&& domain@.is_prefix_of(core_error_text(e))
                &&& database@.is_suffix_of(core_error_text(e))
            },
            CoreError::SnapshotNotForDatabase { snapshot_id, database_id } => {
                &&& text::has_part(core_error_text(e), codec::uuid_text(snapshot_id))
                &&& text::has_part(core_error_text(e), codec::uuid_text(database_id))
            },
            CoreError::SnapshotHasNoFilestore { snapshot_id } => text::has_part(
                core_error_text(e),
                codec::uuid_text(snapshot_id),
            ),
            CoreError::ProjectNotEmpty { project_id, server_count } => {
                &&& text::has_part(core_error_text(e), codec::uuid_text(project_id))
                &&& text::has_part(core_error_text(e), text::decimal_of(server_count as nat))
            },
            CoreError::PostgresInstanceNotRunning { instance_id, state } => {
                &&& text::has_part(core_error_text(e), codec::uuid_text(instance_id))
                &&& text::has_part(core_error_text(e), postgres::pg_state_text(state))
            },
            CoreError::OpenUpgrade(why) => core_error_text(e)
                == openupgrade::openupgrade_error_text(why),
        },
{
    let whole = core_error_text(e);
    match e {
        CoreError::Sqlite(s) => lemma_ends_with("database error: "@, s@),
        CoreError::Serde(s) => lemma_ends_with("serialization error: "@, s@),
        CoreError::NotFound(s) => lemma_ends_with("not found: "@, s@),
        CoreError::Io(s) => lemma_ends_with("filesystem error: "@, s@),
        CoreError::PythonRuntime(s) => lemma_ends_with(
            "couldn't build Odoo's Python environment: "@,
            s@,
        ),
        CoreError::Postgres(why) => lemma_ends_with(
            "postgres error: "@,
            postgres::pg_error_shown(why),
        ),
        CoreError::PgAdmin(why) => lemma_ends_with(
            "postgres admin error: "@,
            pg_admin::pg_error_text(why),
        ),
        CoreError::Filestore(why) => lemma_ends_with(
            "filestore snapshot error: "@,
            filestore::filestore_error_text(why),
        ),
        CoreError::Odoo(why) => lemma_ends_with("odoo error: "@, odoo::odoo_error_text(why)),
        CoreError::OdooRuntime(why) => lemma_ends_with(
            "odoo runtime error: "@,
            odoo_runtime::runtime_error_text(why),
        ),
        CoreError::Git(why) => lemma_ends_with("git error: "@, git::git_error_text(why)),
        CoreError::ModuleCommandFailed { database, action, stdout, stderr } => {
            let a = "odoo module "@;
            let b = " failed for database "@;
            let c = ": "@;
            lemma_ends_with(a + action@ + b + database@ + c, stderr@);
            lemma_holds(a + action@ + b, database@, c + stderr@);
            assert(a + action@ + b + database@ + (c + stderr@) =~= whole);
            lemma_holds(a, action@, b + database@ + c + stderr@);
            assert(a + action@ + (b + database@ + c + stderr@) =~= whole);
        },
        CoreError::DomainTaken { domain, database } => {
            let a = " already points at the database "@;
            lemma_ends_with(domain@ + a, database@);
            assert(whole.subrange(0, domain@.len() as int) =~= domain@);
        },
        CoreError::SnapshotNotForDatabase { snapshot_id, database_id } => {
            let a = "snapshot "@;
            let b = " was not taken from database "@;
            let c = ", so it cannot be used to revert it"@;
            let s = codec::uuid_text(snapshot_id);
            let d = codec::uuid_text(database_id);
            lemma_holds(a, s, b + d + c);
            assert(a + s + (b + d + c) =~= whole);
            lemma_holds(a + s + b, d, c);
        },
        CoreError::SnapshotHasNoFilestore { snapshot_id } => {
            lemma_holds(
                "snapshot "@,
                codec::uuid_text(snapshot_id),
                " has no filestore copy to revert to"@,
            );
        },
        CoreError::ProjectNotEmpty { project_id, server_count } => {
            let a = "project "@;
            let b = " still holds "@;
            let c = " Odoo(s) — remove them first"@;
            let p = codec::uuid_text(project_id);
            let n = text::decimal_of(server_count as nat);
            lemma_holds(a, p, b + n + c);
            assert(a + p + (b + n + c) =~= whole);
            lemma_holds(a + p + b, n, c);
        },
        CoreError::PostgresInstanceNotRunning { instance_id, state } => {
            let a = "postgres instance "@;
            let b = " is not running (state: "@;
            let c = ") — start it before creating a database on it"@;
            let i = codec::uuid_text(instance_id);
            let n = postgres::pg_state_text(state);
            lemma_holds(a, i, b + n + c);
            assert(a + i + (b + n + c) =~= whole);
            lemma_holds(a + i + b, n, c);
        },
        _ => {},
    }
}

} // verus!
