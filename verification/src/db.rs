//! How the records are kept as rows of text and numbers, and what a row means when it is read.

use crate::codec;
use crate::events;
use crate::events::{Event, EventEnvelope};
use crate::model::{
    AddonsSource, Database, DatabaseOrigin, Moment, OdooServer, PostgresInstance, Project,
    ReloadPolicy, ServerState, Snapshot, SourceKind,
};
use crate::text;
use vstd::prelude::*;
use vstd::string::*;

verus! {

// --- names of cases -------------------------------------------------------

/// The stored name of a kind of source.
pub open spec fn kind_name(kind: SourceKind) -> Seq<char> {
    match kind {
        SourceKind::Private => "private"@,
        SourceKind::Oca => "oca"@,
        SourceKind::Core => "core"@,
    }
}

/// The kind that a stored name means; any other name means private.
pub open spec fn kind_named(name: Seq<char>) -> SourceKind {
    if name == "oca"@ {
        SourceKind::Oca
    } else if name == "core"@ {
        SourceKind::Core
    } else {
        SourceKind::Private
    }
}

/// The stored name of a kind of source.
pub fn kind_str(kind: SourceKind) -> (r: &'static str)
    ensures
        r@ == kind_name(kind),
{
    match kind {
        SourceKind::Private => "private",
        SourceKind::Oca => "oca",
        SourceKind::Core => "core",
    }
}

/// The kind that a stored name means.
pub fn decode_kind(name: &str) -> (r: SourceKind)
    ensures
        r == kind_named(name@),
{
    if text::same_text(name, "oca") {
        SourceKind::Oca
    } else if text::same_text(name, "core") {
        SourceKind::Core
    } else {
        SourceKind::Private
    }
}

/// The stored name and exit code of a state.
pub open spec fn state_columns(state: ServerState) -> (Seq<char>, Option<i32>) {
    match state {
        ServerState::Stopped => ("stopped"@, None),
        ServerState::Starting => ("starting"@, None),
        ServerState::Running => ("running"@, None),
        ServerState::Stopping => ("stopping"@, None),
        ServerState::Crashed { exit_code } => ("crashed"@, Some(exit_code)),
    }
}

/// The state that a stored name and exit code mean; any other name means stopped.
pub open spec fn state_named(name: Seq<char>, exit_code: Option<i32>) -> ServerState {
    if name == "starting"@ {
        ServerState::Starting
    } else if name == "running"@ {
        ServerState::Running
    } else if name == "stopping"@ {
        ServerState::Stopping
    } else if name == "crashed"@ {
        ServerState::Crashed {
            exit_code: match exit_code {
                Some(n) => n,
                None => -1i32,
            },
        }
    } else {
        ServerState::Stopped
    }
}

/// The stored name and exit code of a state.
pub fn encode_state(state: &ServerState) -> (r: (&'static str, Option<i32>))
    ensures
        (r.0@, r.1) == state_columns(*state),
{
    match state {
        ServerState::Stopped => ("stopped", None),
        ServerState::Starting => ("starting", None),
        ServerState::Running => ("running", None),
        ServerState::Stopping => ("stopping", None),
        ServerState::Crashed { exit_code } => ("crashed", Some(*exit_code)),
    }
}

/// The state that a stored name and exit code mean.
pub fn decode_state(name: &str, exit_code: Option<i32>) -> (r: ServerState)
    ensures
        r == state_named(name@, exit_code),
{
    if text::same_text(name, "starting") {
        ServerState::Starting
    } else if text::same_text(name, "running") {
        ServerState::Running
    } else if text::same_text(name, "stopping") {
        ServerState::Stopping
    } else if text::same_text(name, "crashed") {
        ServerState::Crashed { exit_code: exit_code.unwrap_or(-1) }
    } else {
        ServerState::Stopped
    }
}

/// The stored name of an origin.
pub open spec fn origin_name(origin: DatabaseOrigin) -> Seq<char> {
    match origin {
        DatabaseOrigin::Created => "created"@,
        DatabaseOrigin::Duplicated => "duplicated"@,
        DatabaseOrigin::Restored => "restored"@,
        DatabaseOrigin::Adopted => "adopted"@,
    }
}

/// The origin that a stored name means; any other name means adopted, the one that promises
/// least.
pub open spec fn origin_named(name: Seq<char>) -> DatabaseOrigin {
    if name == "created"@ {
        DatabaseOrigin::Created
    } else if name == "duplicated"@ {
        DatabaseOrigin::Duplicated
    } else if name == "restored"@ {
        DatabaseOrigin::Restored
    } else {
        DatabaseOrigin::Adopted
    }
}

/// The stored name of an origin.
pub fn encode_origin(origin: DatabaseOrigin) -> (r: &'static str)
    ensures
        r@ == origin_name(origin),
{
    match origin {
        DatabaseOrigin::Created => "created",
        DatabaseOrigin::Duplicated => "duplicated",
        DatabaseOrigin::Restored => "restored",
        DatabaseOrigin::Adopted => "adopted",
    }
}

/// The origin that a stored name means.
pub fn decode_origin(name: &str) -> (r: DatabaseOrigin)
    ensures
        r == origin_named(name@),
{
    if text::same_text(name, "created") {
        DatabaseOrigin::Created
    } else if text::same_text(name, "duplicated") {
        DatabaseOrigin::Duplicated
    } else if text::same_text(name, "restored") {
        DatabaseOrigin::Restored
    } else {
        DatabaseOrigin::Adopted
    }
}

/// A kind is read back as it was stored.
pub proof fn law_a_kind_reads_back(kind: SourceKind)
    ensures
        kind_named(kind_name(kind)) == kind,
{
    reveal_strlit("private");
    reveal_strlit("oca");
    reveal_strlit("core");
    assert("oca"@.len() == 3 && "core"@.len() == 4 && "private"@.len() == 7);
}

/// A state is read back as it was stored.
pub proof fn law_a_state_reads_back(state: ServerState)
    ensures
        state_named(state_columns(state).0, state_columns(state).1) == state,
{
    reveal_strlit("stopped");
    reveal_strlit("starting");
    reveal_strlit("running");
    reveal_strlit("stopping");
    reveal_strlit("crashed");
    assert("starting"@[2] == 'a' && "stopping"@[2] == 'o');
    assert("stopped"@[0] == 's' && "running"@[0] == 'r' && "crashed"@[0] == 'c');
    assert("starting"@.len() == 8 && "stopping"@.len() == 8);
    assert("stopped"@.len() == 7 && "running"@.len() == 7 && "crashed"@.len() == 7);
}

/// An origin is read back as it was stored.
pub proof fn law_an_origin_reads_back(origin: DatabaseOrigin)
    ensures
        origin_named(origin_name(origin)) == origin,
{
    reveal_strlit("created");
    reveal_strlit("duplicated");
    reveal_strlit("restored");
    reveal_strlit("adopted");
    assert("created"@[0] == 'c' && "duplicated"@[0] == 'd' && "restored"@[0] == 'r'
        && "adopted"@[0] == 'a');
}

// --- optional columns -----------------------------------------------------

/// The point in time of an optional column.
pub open spec fn stored_opt_moment(s: Option<String>, now: Moment) -> Option<Moment> {
    match s {
        Some(t) => Some(codec::stored_moment(t@, now)),
        None => None,
    }
}

/// The text of an optional identifier.
pub open spec fn opt_id_text(id: Option<crate::model::Id>) -> Option<Seq<char>> {
    match id {
        Some(id) => Some(codec::uuid_text(id)),
        None => None,
    }
}

/// The text of an optional point in time.
pub open spec fn opt_moment_text(t: Option<Moment>) -> Option<Seq<char>> {
    match t {
        Some(t) => Some(codec::rfc3339_of(t)),
        None => None,
    }
}

/// Whether an optional point in time is one.
pub open spec fn opt_held(t: Option<Moment>) -> bool {
    t matches Some(t) ==> codec::is_held(t)
}

/// Whether an optional point in time lies in the years that a text can write.
pub open spec fn opt_written(t: Option<Moment>) -> bool {
    t matches Some(t) ==> codec::is_written(t)
}

fn encode_opt_moment(t: Option<Moment>) -> (r: Option<String>)
    requires
        opt_held(t),
    ensures
        text::opt_view(r) == opt_moment_text(t),
        opt_written(t) ==> forall|now: Moment| #[trigger] stored_opt_moment(r, now) == t,
{
    match t {
        Some(t) => Some(codec::moment_text(t)),
        None => None,
    }
}

fn decode_opt_moment(s: &Option<String>, now: Moment) -> (r: Option<Moment>)
    ensures
        r == stored_opt_moment(*s, now),
{
    match s {
        Some(t) => Some(codec::parse_dt(t.as_str(), now)),
        None => None,
    }
}

// --- projects -------------------------------------------------------------

/// A row of the table of projects.
#[derive(Debug)]
pub struct ProjectRow {
    pub id: String,
    pub name: String,
    pub color: i64,
    pub created_at: String,
}

/// What a row of the table of projects means.
pub open spec fn project_in(row: ProjectRow, now: Moment) -> Project {
    Project {
        id: codec::stored_id(row.id@),
        name: row.name,
        color: row.color as u8,
        created_at: codec::stored_moment(row.created_at@, now),
    }
}

/// What the columns of the table of projects hold.
pub open spec fn writes_project(row: ProjectRow, p: Project) -> bool {
    &&& row.id@ == codec::uuid_text(p.id)
    &&& row.name == p.name
    &&& row.color == p.color
    &&& row.created_at@ == codec::rfc3339_of(p.created_at)
}

/// The row of a project: it is read back as that project, if its time is in the years 0 to 9999.
pub fn encode_project(p: &Project) -> (r: ProjectRow)
    requires
        codec::is_held(p.created_at),
    ensures
        writes_project(r, *p),
        codec::is_written(p.created_at) ==> forall|now: Moment| #[trigger]
            project_in(r, now) == *p,
{
    proof {
        codec::law_an_id_reads_back(p.id);
    }
    ProjectRow {
        id: codec::id_text(p.id),
        name: p.name.clone(),
        color: p.color as i64,
        created_at: codec::moment_text(p.created_at),
    }
}

/// The project that a row means.
pub fn decode_project(row: &ProjectRow, now: Moment) -> (r: Project)
    ensures
        r == project_in(*row, now),
{
    Project {
        id: codec::parse_id(row.id.as_str()),
        name: row.name.clone(),
        color: #[verifier::truncate] (row.color as u8),
        created_at: codec::parse_dt(row.created_at.as_str(), now),
    }
}

// --- servers --------------------------------------------------------------

/// A row of the table of servers.
#[derive(Debug)]
pub struct ServerRow {
    pub id: String,
    pub project_id: Option<String>,
    pub name: String,
    pub odoo_version: String,
    pub port: i64,
    pub postgres_instance_id: String,
    pub state: String,
    pub exit_code: Option<i32>,
    pub reload_python: i64,
    pub update_on_data_change: i64,
    pub started_at: Option<String>,
    pub created_at: String,
}

/// What a row of the table of servers means.
pub open spec fn server_in(row: ServerRow, now: Moment) -> OdooServer {
    OdooServer {
        id: codec::stored_id(row.id@),
        project_id: match row.project_id {
            Some(s) => codec::uuid_in(s@),
            None => None,
        },
        name: row.name,
        odoo_version: row.odoo_version,
        port: row.port as u16,
        postgres_instance_id: codec::stored_id(row.postgres_instance_id@),
        state: state_named(row.state@, row.exit_code),
        reload: ReloadPolicy {
            reload_python: row.reload_python != 0,
            update_on_data_change: row.update_on_data_change != 0,
        },
        started_at: stored_opt_moment(row.started_at, now),
        created_at: codec::stored_moment(row.created_at@, now),
    }
}

/// What the columns of the table of servers hold.
pub open spec fn writes_server(row: ServerRow, s: OdooServer) -> bool {
    &&& row.id@ == codec::uuid_text(s.id)
    &&& text::opt_view(row.project_id) == opt_id_text(s.project_id)
    &&& row.name == s.name
    &&& row.odoo_version == s.odoo_version
    &&& row.port == s.port
    &&& row.postgres_instance_id@ == codec::uuid_text(s.postgres_instance_id)
    &&& row.state@ == state_columns(s.state).0
    &&& row.exit_code == state_columns(s.state).1
    &&& row.reload_python == (if s.reload.reload_python {
        1int
    } else {
        0
    })
    &&& row.update_on_data_change == (if s.reload.update_on_data_change {
        1int
    } else {
        0
    })
    &&& text::opt_view(row.started_at) == opt_moment_text(s.started_at)
    &&& row.created_at@ == codec::rfc3339_of(s.created_at)
}

/// The row of a server: it is read back as that server, if its times are in the years 0 to 9999.
pub fn encode_server(s: &OdooServer) -> (r: ServerRow)
    requires
        opt_held(s.started_at),
        codec::is_held(s.created_at),
    ensures
        writes_server(r, *s),
        opt_written(s.started_at) && codec::is_written(s.created_at) ==> forall|now: Moment|
            #[trigger]
            server_in(r, now) == *s,
{
    let (state, exit_code) = encode_state(&s.state);
    proof {
        codec::law_an_id_reads_back(s.id);
        codec::law_an_id_reads_back(s.postgres_instance_id);
        if let Some(p) = s.project_id {
            codec::law_an_id_reads_back(p);
        }
        law_a_state_reads_back(s.state);
    }
    let row = ServerRow {
        id: codec::id_text(s.id),
        project_id: match s.project_id {
            Some(p) => Some(codec::id_text(p)),
            None => None,
        },
        name: s.name.clone(),
        odoo_version: s.odoo_version.clone(),
        port: s.port as i64,
        postgres_instance_id: codec::id_text(s.postgres_instance_id),
        state: state.to_owned(),
        exit_code,
        reload_python: if s.reload.reload_python {
            1
        } else {
            0
        },
        update_on_data_change: if s.reload.update_on_data_change {
            1
        } else {
            0
        },
        started_at: encode_opt_moment(s.started_at),
        created_at: codec::moment_text(s.created_at),
    };
    proof {
        if opt_written(s.started_at) && codec::is_written(s.created_at) {
            assert forall|now: Moment| #[trigger] server_in(row, now) == *s by {
                assert(stored_opt_moment(row.started_at, now) == s.started_at);
            }
        }
    }
    row
}

/// The server that a row means.
pub fn decode_server(row: &ServerRow, now: Moment) -> (r: OdooServer)
    ensures
        r == server_in(*row, now),
{
    OdooServer {
        id: codec::parse_id(row.id.as_str()),
        project_id: match &row.project_id {
            Some(s) => codec::parse_uuid(s.as_str()),
            None => None,
        },
        name: row.name.clone(),
        odoo_version: row.odoo_version.clone(),
        port: #[verifier::truncate] (row.port as u16),
        postgres_instance_id: codec::parse_id(row.postgres_instance_id.as_str()),
        state: decode_state(row.state.as_str(), row.exit_code),
        reload: ReloadPolicy {
            reload_python: row.reload_python != 0,
            update_on_data_change: row.update_on_data_change != 0,
        },
        started_at: decode_opt_moment(&row.started_at, now),
        created_at: codec::parse_dt(row.created_at.as_str(), now),
    }
}

// --- sources --------------------------------------------------------------

/// A row of the table of sources.
#[derive(Debug)]
pub struct AddonsSourceRow {
    pub id: String,
    pub server_id: String,
    pub label: String,
    pub path_or_url: String,
    pub kind: String,
    pub rank: i64,
}

/// What a row of the table of sources means.
pub open spec fn source_in(row: AddonsSourceRow) -> AddonsSource {
    AddonsSource {
        id: codec::stored_id(row.id@),
        server_id: codec::stored_id(row.server_id@),
        label: row.label,
        path_or_url: row.path_or_url,
        kind: kind_named(row.kind@),
        rank: row.rank as u32,
    }
}

/// What the columns of the table of sources hold.
pub open spec fn writes_source(row: AddonsSourceRow, s: AddonsSource) -> bool {
    &&& row.id@ == codec::uuid_text(s.id)
    &&& row.server_id@ == codec::uuid_text(s.server_id)
    &&& row.label == s.label
    &&& row.path_or_url == s.path_or_url
    &&& row.kind@ == kind_name(s.kind)
    &&& row.rank == s.rank
}

/// The row of a source: it is read back as that source.
pub fn encode_addons_source(s: &AddonsSource) -> (r: AddonsSourceRow)
    ensures
        writes_source(r, *s),
        source_in(r) == *s,
{
    proof {
        codec::law_an_id_reads_back(s.id);
        codec::law_an_id_reads_back(s.server_id);
        law_a_kind_reads_back(s.kind);
    }
    AddonsSourceRow {
        id: codec::id_text(s.id),
        server_id: codec::id_text(s.server_id),
        label: s.label.clone(),
        path_or_url: s.path_or_url.clone(),
        kind: kind_str(s.kind).to_owned(),
        rank: s.rank as i64,
    }
}

/// The source that a row means.
pub fn decode_addons_source(row: &AddonsSourceRow) -> (r: AddonsSource)
    ensures
        r == source_in(*row),
{
    AddonsSource {
        id: codec::parse_id(row.id.as_str()),
        server_id: codec::parse_id(row.server_id.as_str()),
        label: row.label.clone(),
        path_or_url: row.path_or_url.clone(),
        kind: decode_kind(row.kind.as_str()),
        rank: #[verifier::truncate] (row.rank as u32),
    }
}

// --- databases ------------------------------------------------------------

/// A row of the table of databases.
#[derive(Debug)]
pub struct DatabaseRow {
    pub id: String,
    pub server_id: String,
    pub name: String,
    pub size_bytes: i64,
    pub last_backup_at: Option<String>,
    pub created_at: String,
    pub domain: Option<String>,
    pub origin: String,
}

/// What a row of the table of databases means.
pub open spec fn database_in(row: DatabaseRow, now: Moment) -> Database {
    Database {
        id: codec::stored_id(row.id@),
        server_id: codec::stored_id(row.server_id@),
        name: row.name,
        origin: origin_named(row.origin@),
        domain: row.domain,
        size_bytes: row.size_bytes as u64,
        last_backup_at: stored_opt_moment(row.last_backup_at, now),
        created_at: codec::stored_moment(row.created_at@, now),
    }
}

/// What the columns of the table of databases hold.
pub open spec fn writes_database(row: DatabaseRow, d: Database) -> bool {
    &&& row.id@ == codec::uuid_text(d.id)
    &&& row.server_id@ == codec::uuid_text(d.server_id)
    &&& row.name == d.name
    &&& row.size_bytes == d.size_bytes
    &&& text::opt_view(row.last_backup_at) == opt_moment_text(d.last_backup_at)
    &&& row.created_at@ == codec::rfc3339_of(d.created_at)
    &&& row.domain == d.domain
    &&& row.origin@ == origin_name(d.origin)
}

/// The row of a database: it is read back as that database, if its times are in the years 0 to
/// 9999. There is none where the size does not fit in the signed numbers of the store.
pub fn encode_database(d: &Database) -> (r: Option<DatabaseRow>)
    requires
        opt_held(d.last_backup_at),
        codec::is_held(d.created_at),
    ensures
        match r {
            Some(row) => {
                &&& d.size_bytes <= i64::MAX
                &&& writes_database(row, *d)
                &&& opt_written(d.last_backup_at) && codec::is_written(d.created_at) ==> forall|
                    now: Moment,
                | #[trigger]
                    database_in(row, now) == *d
            },
            None => d.size_bytes > i64::MAX,
        },
{
    if d.size_bytes > 0x7fff_ffff_ffff_ffff {
        return None;
    }
    proof {
        codec::law_an_id_reads_back(d.id);
        codec::law_an_id_reads_back(d.server_id);
        law_an_origin_reads_back(d.origin);
    }
    let row = DatabaseRow {
        id: codec::id_text(d.id),
        server_id: codec::id_text(d.server_id),
        name: d.name.clone(),
        size_bytes: d.size_bytes as i64,
        last_backup_at: encode_opt_moment(d.last_backup_at),
        created_at: codec::moment_text(d.created_at),
        domain: d.domain.clone(),
        origin: encode_origin(d.origin).to_owned(),
    };
    proof {
        if opt_written(d.last_backup_at) && codec::is_written(d.created_at) {
            assert forall|now: Moment| #[trigger] database_in(row, now) == *d by {
                assert(stored_opt_moment(row.last_backup_at, now) == d.last_backup_at);
            }
        }
    }
    Some(row)
}

/// The database that a row means.
pub fn decode_database(row: &DatabaseRow, now: Moment) -> (r: Database)
    ensures
        r == database_in(*row, now),
{
    Database {
        id: codec::parse_id(row.id.as_str()),
        server_id: codec::parse_id(row.server_id.as_str()),
        name: row.name.clone(),
        origin: decode_origin(row.origin.as_str()),
        domain: row.domain.clone(),
        size_bytes: #[verifier::truncate] (row.size_bytes as u64),
        last_backup_at: decode_opt_moment(&row.last_backup_at, now),
        created_at: codec::parse_dt(row.created_at.as_str(), now),
    }
}

// --- clusters -------------------------------------------------------------

/// A row of the table of PostgreSQL clusters.
#[derive(Debug)]
pub struct PostgresInstanceRow {
    pub id: String,
    pub label: String,
    pub pg_version: String,
    pub port: i64,
    pub data_dir: String,
    pub created_at: String,
}

/// What a row of the table of clusters means.
pub open spec fn instance_in(row: PostgresInstanceRow, now: Moment) -> PostgresInstance {
    PostgresInstance {
        id: codec::stored_id(row.id@),
        label: row.label,
        pg_version: row.pg_version,
        port: row.port as u16,
        data_dir: row.data_dir,
        created_at: codec::stored_moment(row.created_at@, now),
    }
}

/// What the columns of the table of clusters hold.
pub open spec fn writes_instance(row: PostgresInstanceRow, p: PostgresInstance) -> bool {
    &&& row.id@ == codec::uuid_text(p.id)
    &&& row.label == p.label
    &&& row.pg_version == p.pg_version
    &&& row.port == p.port
    &&& row.data_dir == p.data_dir
    &&& row.created_at@ == codec::rfc3339_of(p.created_at)
}

/// The row of a cluster: it is read back as that cluster, if its time is in the years 0 to 9999.
pub fn encode_postgres_instance(p: &PostgresInstance) -> (r: PostgresInstanceRow)
    requires
        codec::is_held(p.created_at),
    ensures
        writes_instance(r, *p),
        codec::is_written(p.created_at) ==> forall|now: Moment| #[trigger]
            instance_in(r, now) == *p,
{
    proof {
        codec::law_an_id_reads_back(p.id);
    }
    PostgresInstanceRow {
        id: codec::id_text(p.id),
        label: p.label.clone(),
        pg_version: p.pg_version.clone(),
        port: p.port as i64,
        data_dir: p.data_dir.clone(),
        created_at: codec::moment_text(p.created_at),
    }
}

/// The cluster that a row means.
pub fn decode_postgres_instance(row: &PostgresInstanceRow, now: Moment) -> (r: PostgresInstance)
    ensures
        r == instance_in(*row, now),
{
    PostgresInstance {
        id: codec::parse_id(row.id.as_str()),
        label: row.label.clone(),
        pg_version: row.pg_version.clone(),
        port: #[verifier::truncate] (row.port as u16),
        data_dir: row.data_dir.clone(),
        created_at: codec::parse_dt(row.created_at.as_str(), now),
    }
}

// --- snapshots ------------------------------------------------------------

/// A row of the table of snapshots.
#[derive(Debug)]
pub struct SnapshotRow {
    pub id: String,
    pub server_id: String,
    pub database_id: String,
    pub source_database_name: String,
    pub snapshot_database_name: String,
    pub name: String,
    pub filestore_snapshot_path: Option<String>,
    pub git_branch: Option<String>,
    pub created_at: String,
}

/// What a row of the table of snapshots means.
pub open spec fn snapshot_in(row: SnapshotRow, now: Moment) -> Snapshot {
    Snapshot {
        id: codec::stored_id(row.id@),
        server_id: codec::stored_id(row.server_id@),
        database_id: codec::stored_id(row.database_id@),
        source_database_name: row.source_database_name,
        snapshot_database_name: row.snapshot_database_name,
        name: row.name,
        git_branch: row.git_branch,
        filestore_snapshot_path: row.filestore_snapshot_path,
        created_at: codec::stored_moment(row.created_at@, now),
    }
}

/// What the columns of the table of snapshots hold.
pub open spec fn writes_snapshot(row: SnapshotRow, s: Snapshot) -> bool {
    &&& row.id@ == codec::uuid_text(s.id)
    &&& row.server_id@ == codec::uuid_text(s.server_id)
    &&& row.database_id@ == codec::uuid_text(s.database_id)
    &&& row.source_database_name == s.source_database_name
    &&& row.snapshot_database_name == s.snapshot_database_name
    &&& row.name == s.name
    &&& row.filestore_snapshot_path == s.filestore_snapshot_path
    &&& row.git_branch == s.git_branch
    &&& row.created_at@ == codec::rfc3339_of(s.created_at)
}

/// The row of a snapshot: it is read back as that snapshot, if its time is in the years 0 to 9999.
pub fn encode_snapshot(s: &Snapshot) -> (r: SnapshotRow)
    requires
        codec::is_held(s.created_at),
    ensures
        writes_snapshot(r, *s),
        codec::is_written(s.created_at) ==> forall|now: Moment| #[trigger]
            snapshot_in(r, now) == *s,
{
    proof {
        codec::law_an_id_reads_back(s.id);
        codec::law_an_id_reads_back(s.server_id);
        codec::law_an_id_reads_back(s.database_id);
    }
    SnapshotRow {
        id: codec::id_text(s.id),
        server_id: codec::id_text(s.server_id),
        database_id: codec::id_text(s.database_id),
        source_database_name: s.source_database_name.clone(),
        snapshot_database_name: s.snapshot_database_name.clone(),
        name: s.name.clone(),
        filestore_snapshot_path: s.filestore_snapshot_path.clone(),
        git_branch: s.git_branch.clone(),
        created_at: codec::moment_text(s.created_at),
    }
}

/// The snapshot that a row means.
pub fn map_snapshot_row(row: &SnapshotRow, now: Moment) -> (r: Snapshot)
    ensures
        r == snapshot_in(*row, now),
{
    Snapshot {
        id: codec::parse_id(row.id.as_str()),
        server_id: codec::parse_id(row.server_id.as_str()),
        database_id: codec::parse_id(row.database_id.as_str()),
        source_database_name: row.source_database_name.clone(),
        snapshot_database_name: row.snapshot_database_name.clone(),
        name: row.name.clone(),
        git_branch: row.git_branch.clone(),
        filestore_snapshot_path: row.filestore_snapshot_path.clone(),
        created_at: codec::parse_dt(row.created_at.as_str(), now),
    }
}

// --- events ---------------------------------------------------------------

/// A row of the table of events, but for what the event itself holds.
#[derive(Debug)]
pub struct EventRow {
    pub id: String,
    pub kind: String,
    pub occurred_at: String,
    pub duration_ms: Option<i64>,
}

/// What a row of the table of events means, with the event that was stored in it.
pub open spec fn envelope_in(row: EventRow, event: Event, now: Moment) -> EventEnvelope {
    EventEnvelope {
        id: codec::stored_id(row.id@),
        occurred_at: codec::stored_moment(row.occurred_at@, now),
        duration_ms: match row.duration_ms {
            Some(ms) => Some(ms as u64),
            None => None,
        },
        event,
    }
}

/// The row of an event: with the event it is read back as it was, if its time is in the years 0 to
/// 9999. There is none where the duration does not fit in the signed numbers of the store.
pub fn encode_event(e: &EventEnvelope) -> (r: Option<EventRow>)
    requires
        codec::is_held(e.occurred_at),
    ensures
        match r {
            Some(row) => {
                &&& e.duration_ms matches Some(ms) ==> ms <= i64::MAX
                &&& row.id@ == codec::uuid_text(e.id)
                &&& row.kind@ == events::kind_of(e.event)
                &&& row.occurred_at@ == codec::rfc3339_of(e.occurred_at)
                &&& row.duration_ms == (match e.duration_ms {
                    Some(ms) => Some(ms as i64),
                    None => None,
                })
                &&& codec::is_written(e.occurred_at) ==> forall|now: Moment| #[trigger]
                    envelope_in(row, e.event, now) == *e
            },
            None => e.duration_ms matches Some(ms) && ms > i64::MAX,
        },
{
    proof {
        codec::law_an_id_reads_back(e.id);
    }
    let duration_ms = match e.duration_ms {
        Some(ms) => {
            if ms > 0x7fff_ffff_ffff_ffff {
                return None;
            }
            Some(ms as i64)
        },
        None => None,
    };
    Some(
        EventRow {
            id: codec::id_text(e.id),
            kind: e.event.kind().to_owned(),
            occurred_at: codec::moment_text(e.occurred_at),
            duration_ms,
        },
    )
}

/// The event that a row means.
pub fn decode_event(row: &EventRow, event: Event, now: Moment) -> (r: EventEnvelope)
    ensures
        r == envelope_in(*row, event, now),
{
    EventEnvelope {
        id: codec::parse_id(row.id.as_str()),
        occurred_at: codec::parse_dt(row.occurred_at.as_str(), now),
        duration_ms: match row.duration_ms {
            Some(ms) => Some(#[verifier::truncate] (ms as u64)),
            None => None,
        },
        event,
    }
}

/// A name that nobody gave is read as the harmless case: a private source, a server that has
/// stopped, a database whose data is not one's own.
pub proof fn law_an_unknown_name_reads_as_the_harmless_case(
    name: Seq<char>,
    exit_code: Option<i32>,
)
    ensures
        name != kind_name(SourceKind::Oca) && name != kind_name(SourceKind::Core) ==> kind_named(
            name,
        ) is Private,
        (forall|s: ServerState| #[trigger] state_columns(s).0 != name) ==> state_named(
            name,
            exit_code,
        ) is Stopped,
        (forall|o: DatabaseOrigin| #[trigger] origin_name(o) != name) ==> origin_named(name)
            is Adopted,
        state_named("crashed"@, None) == (ServerState::Crashed { exit_code: -1i32 }),
{
    law_a_state_reads_back(ServerState::Starting);
    let states = seq![
        ServerState::Starting,
        ServerState::Running,
        ServerState::Stopping,
        ServerState::Crashed { exit_code: 0i32 },
    ];
    assert(state_columns(states[0]).0 == "starting"@);
    assert(state_columns(states[1]).0 == "running"@);
    assert(state_columns(states[2]).0 == "stopping"@);
    assert(state_columns(states[3]).0 == "crashed"@);
    assert(origin_name(DatabaseOrigin::Created) == "created"@);
    assert(origin_name(DatabaseOrigin::Duplicated) == "duplicated"@);
    assert(origin_name(DatabaseOrigin::Restored) == "restored"@);
    reveal_strlit("crashed");
    reveal_strlit("starting");
    reveal_strlit("running");
    reveal_strlit("stopping");
    assert("crashed"@[0] != "starting"@[0] && "crashed"@[0] != "running"@[0] && "crashed"@[0]
        != "stopping"@[0]);
}

/// A row is read field by field: a change of one column changes that field and no other.
pub proof fn law_a_row_is_read_field_by_field(
    server: ServerRow,
    database: DatabaseRow,
    now: Moment,
)
    ensures
        server_in(server, now).name == server.name,
        server_in(server, now).odoo_version == server.odoo_version,
        0 <= server.port <= u16::MAX ==> server_in(server, now).port == server.port,
        server_in(server, now).reload.reload_python <==> server.reload_python != 0,
        server_in(server, now).reload.update_on_data_change <==> server.update_on_data_change != 0,
        server.project_id is None ==> server_in(server, now).project_id is None,
        server.started_at is None <==> server_in(server, now).started_at is None,
        database_in(database, now).name == database.name,
        database_in(database, now).domain == database.domain,
        0 <= database.size_bytes ==> database_in(database, now).size_bytes == database.size_bytes,
        database.last_backup_at is None <==> database_in(database, now).last_backup_at is None,
        codec::moment_in(database.created_at@) is None ==> database_in(database, now).created_at
            == now,
        codec::moment_in(database.created_at@) matches Some(t) ==> database_in(
            database,
            now,
        ).created_at == t,
{
}

} // verus!
