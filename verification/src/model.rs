//! What the orchestrator keeps: projects, Odoo servers, their databases, where their modules come
//! from, the PostgreSQL instances that store the databases, and snapshots.

use crate::text;
use vstd::prelude::*;
use vstd::string::*;

verus! {

/// An identifier: the 128 bits of a UUID.
pub type Id = u128;

/// A point in time: nanoseconds since the Unix epoch.
pub type Moment = i128;

/// Where modules come from, and with it in which order they are loaded.
#[derive(Debug, Clone, Copy, PartialEq, Eq, Structural)]
pub enum SourceKind {
    Private,
    Oca,
    Core,
}

/// A folder (or git URL) that modules are loaded from. Rank 0 is loaded first and wins.
#[derive(Debug)]
pub struct AddonsSource {
    pub id: Id,
    pub server_id: Id,
    pub label: String,
    pub path_or_url: String,
    pub kind: SourceKind,
    pub rank: u32,
}

impl Clone for AddonsSource {
    fn clone(&self) -> (r: Self)
        ensures
            r == *self,
    {
        AddonsSource {
            id: self.id,
            server_id: self.server_id,
            label: self.label.clone(),
            path_or_url: self.path_or_url.clone(),
            kind: self.kind,
            rank: self.rank,
        }
    }
}

/// What a server is doing.
#[derive(Debug, Clone, Copy, PartialEq, Eq, Structural)]
pub enum ServerState {
    Stopped,
    Starting,
    Running,
    Stopping,
    Crashed { exit_code: i32 },
}

impl Default for ServerState {
    fn default() -> (r: Self)
        ensures
            r == ServerState::Stopped,
    {
        ServerState::Stopped
    }
}

/// The number of project colours.
pub const PROJECT_COLORS: u8 = 6;

/// A project: a named, coloured group of servers.
#[derive(Debug)]
pub struct Project {
    pub id: Id,
    pub name: String,
    pub color: u8,
    pub created_at: Moment,
}

impl Clone for Project {
    fn clone(&self) -> (r: Self)
        ensures
            r == *self,
    {
        Project {
            id: self.id,
            name: self.name.clone(),
            color: self.color,
            created_at: self.created_at,
        }
    }
}

impl Project {
    /// A new project; the colour is brought into the range of the palette.
    pub fn new(id: Id, name: String, color: u8, created_at: Moment) -> (r: Self)
        ensures
            r.id == id,
            r.name == name,
            r.color == color % 6,
            r.created_at == created_at,
    {
        Project { id, name, color: color % PROJECT_COLORS, created_at }
    }
}

/// What a server does when code on disk changes.
#[derive(Debug, Clone, Copy, PartialEq, Eq, Structural)]
pub struct ReloadPolicy {
    pub reload_python: bool,
    pub update_on_data_change: bool,
}

impl Default for ReloadPolicy {
    /// Nothing reloads until it is asked to.
    fn default() -> (r: Self)
        ensures
            !r.reload_python,
            !r.update_on_data_change,
    {
        ReloadPolicy { reload_python: false, update_on_data_change: false }
    }
}

impl ReloadPolicy {
    /// The policy with those switches changed that are given.
    pub fn patched(self, reload_python: Option<bool>, update_on_data_change: Option<bool>) -> (r:
        Self)
        ensures
            r.reload_python == (match reload_python {
                Some(b) => b,
                None => self.reload_python,
            }),
            r.update_on_data_change == (match update_on_data_change {
                Some(b) => b,
                None => self.update_on_data_change,
            }),
    {
        ReloadPolicy {
            reload_python: reload_python.unwrap_or(self.reload_python),
            update_on_data_change: update_on_data_change.unwrap_or(self.update_on_data_change),
        }
    }
}

/// An Odoo server: a process on a port, with databases.
#[derive(Debug)]
pub struct OdooServer {
    pub id: Id,
    pub project_id: Option<Id>,
    pub name: String,
    pub odoo_version: String,
    pub port: u16,
    pub postgres_instance_id: Id,
    pub state: ServerState,
    pub reload: ReloadPolicy,
    pub started_at: Option<Moment>,
    pub created_at: Moment,
}

impl Clone for OdooServer {
    fn clone(&self) -> (r: Self)
        ensures
            r == *self,
    {
        OdooServer {
            id: self.id,
            project_id: self.project_id,
            name: self.name.clone(),
            odoo_version: self.odoo_version.clone(),
            port: self.port,
            postgres_instance_id: self.postgres_instance_id,
            state: self.state,
            reload: self.reload,
            started_at: self.started_at,
            created_at: self.created_at,
        }
    }
}

impl OdooServer {
    /// A server that was never started, in no project.
    pub fn new(
        id: Id,
        name: String,
        odoo_version: String,
        port: u16,
        postgres_instance_id: Id,
        created_at: Moment,
    ) -> (r: Self)
        ensures
            r.id == id,
            r.project_id is None,
            r.name == name,
            r.odoo_version == odoo_version,
            r.port == port,
            r.postgres_instance_id == postgres_instance_id,
            r.state == ServerState::Stopped,
            !r.reload.reload_python,
            !r.reload.update_on_data_change,
            r.started_at is None,
            r.created_at == created_at,
    {
        OdooServer {
            id,
            project_id: None,
            name,
            odoo_version,
            port,
            postgres_instance_id,
            state: ServerState::Stopped,
            reload: ReloadPolicy::default(),
            started_at: None,
            created_at,
        }
    }

    /// The server, filed under a project.
    pub fn in_project(self, project_id: Id) -> (r: Self)
        ensures
            r == (OdooServer { project_id: Some(project_id), ..self }),
    {
        let mut server = self;
        server.project_id = Some(project_id);
        server
    }
}

/// How a database came to be here.
#[derive(Debug, Clone, Copy, PartialEq, Eq, Structural)]
pub enum DatabaseOrigin {
    Created,
    Duplicated,
    Restored,
    Adopted,
}

impl DatabaseOrigin {
    /// Whether the database may hold somebody else's data: it was restored or adopted.
    pub fn may_hold_foreign_data(self) -> (r: bool)
        ensures
            r == (self is Restored || self is Adopted),
    {
        match self {
            DatabaseOrigin::Restored | DatabaseOrigin::Adopted => true,
            DatabaseOrigin::Created | DatabaseOrigin::Duplicated => false,
        }
    }
}

/// A database of a server.
#[derive(Debug)]
pub struct Database {
    pub id: Id,
    pub server_id: Id,
    pub name: String,
    pub origin: DatabaseOrigin,
    pub domain: Option<String>,
    pub size_bytes: u64,
    pub last_backup_at: Option<Moment>,
    pub created_at: Moment,
}

impl Clone for Database {
    fn clone(&self) -> (r: Self)
        ensures
            r == *self,
    {
        Database {
            id: self.id,
            server_id: self.server_id,
            name: self.name.clone(),
            origin: self.origin,
            domain: self.domain.clone(),
            size_bytes: self.size_bytes,
            last_backup_at: self.last_backup_at,
            created_at: self.created_at,
        }
    }
}

/// The address of a database: its own domain, or its name under `.localhost`.
pub open spec fn hostname_of(d: Database) -> Seq<char> {
    match d.domain {
        Some(own) => own@,
        None => d.name@ + ".localhost"@,
    }
}

impl Database {
    /// A database made by this application.
    pub fn new(id: Id, server_id: Id, name: String, created_at: Moment) -> (r: Self)
        ensures
            r.id == id,
            r.server_id == server_id,
            r.name == name,
            r.origin is Created,
            r.domain is None,
            r.size_bytes == 0,
            r.last_backup_at is None,
            r.created_at == created_at,
    {
        Self::from_origin(id, server_id, name, DatabaseOrigin::Created, created_at)
    }

    /// A database of the given origin, not measured, not backed up, without a domain of its own.
    pub fn from_origin(
        id: Id,
        server_id: Id,
        name: String,
        origin: DatabaseOrigin,
        created_at: Moment,
    ) -> (r: Self)
        ensures
            r.id == id,
            r.server_id == server_id,
            r.name == name,
            r.origin == origin,
            r.domain is None,
            r.size_bytes == 0,
            r.last_backup_at is None,
            r.created_at == created_at,
    {
        Database {
            id,
            server_id,
            name,
            origin,
            domain: None,
            size_bytes: 0,
            last_backup_at: None,
            created_at,
        }
    }

    /// The address of the database.
    pub fn hostname(&self) -> (r: String)
        ensures
            r@ == hostname_of(*self),
    {
        match &self.domain {
            Some(own) => own.clone(),
            None => text::joined(self.name.as_str(), ".localhost"),
        }
    }
}

/// A PostgreSQL cluster that stores databases.
#[derive(Debug)]
pub struct PostgresInstance {
    pub id: Id,
    pub label: String,
    pub pg_version: String,
    pub port: u16,
    pub data_dir: String,
    pub created_at: Moment,
}

impl Clone for PostgresInstance {
    fn clone(&self) -> (r: Self)
        ensures
            r == *self,
    {
        PostgresInstance {
            id: self.id,
            label: self.label.clone(),
            pg_version: self.pg_version.clone(),
            port: self.port,
            data_dir: self.data_dir.clone(),
            created_at: self.created_at,
        }
    }
}

impl PostgresInstance {
    /// A PostgreSQL cluster.
    pub fn new(
        id: Id,
        label: String,
        pg_version: String,
        port: u16,
        data_dir: String,
        created_at: Moment,
    ) -> (r: Self)
        ensures
            r == (PostgresInstance { id, label, pg_version, port, data_dir, created_at }),
    {
        PostgresInstance { id, label, pg_version, port, data_dir, created_at }
    }
}

/// A frozen copy of a database, and of its files where it has any.
#[derive(Debug)]
pub struct Snapshot {
    pub id: Id,
    pub server_id: Id,
    pub database_id: Id,
    pub source_database_name: String,
    pub snapshot_database_name: String,
    pub name: String,
    pub git_branch: Option<String>,
    pub filestore_snapshot_path: Option<String>,
    pub created_at: Moment,
}

impl Clone for Snapshot {
    fn clone(&self) -> (r: Self)
        ensures
            r == *self,
    {
        Snapshot {
            id: self.id,
            server_id: self.server_id,
            database_id: self.database_id,
            source_database_name: self.source_database_name.clone(),
            snapshot_database_name: self.snapshot_database_name.clone(),
            name: self.name.clone(),
            git_branch: self.git_branch.clone(),
            filestore_snapshot_path: self.filestore_snapshot_path.clone(),
            created_at: self.created_at,
        }
    }
}

impl Snapshot {
    /// A snapshot that knows no branch.
    pub fn new(
        id: Id,
        server_id: Id,
        database_id: Id,
        source_database_name: String,
        snapshot_database_name: String,
        name: String,
        filestore_snapshot_path: Option<String>,
        created_at: Moment,
    ) -> (r: Self)
        ensures
            r == (Snapshot {
                id,
                server_id,
                database_id,
                source_database_name,
                snapshot_database_name,
                name,
                git_branch: None,
                filestore_snapshot_path,
                created_at,
            }),
    {
        Snapshot {
            id,
            server_id,
            database_id,
            source_database_name,
            snapshot_database_name,
            name,
            git_branch: None,
            filestore_snapshot_path,
            created_at,
        }
    }

    /// The snapshot, taken on a branch.
    pub fn on_branch(self, branch: Option<String>) -> (r: Self)
        ensures
            r == (Snapshot { git_branch: branch, ..self }),
    {
        let mut snapshot = self;
        snapshot.git_branch = branch;
        snapshot
    }
}

} // verus!
