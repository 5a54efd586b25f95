//! What happens, as it is recorded and announced.

use crate::model::{Id, Moment};
use vstd::prelude::*;

verus! {

/// Something that happened.
#[derive(Debug)]
pub enum Event {
    ProjectCreated { project_id: Id, name: String },
    ProjectRenamed { project_id: Id, name: String },
    ProjectDeleted { project_id: Id },
    ProjectDuplicated { project_id: Id, source_project_id: Id, server_count: u32 },
    ServerCreated { server_id: Id, name: String, odoo_version: String, postgres_instance_id: Id },
    ServerStarted { server_id: Id },
    ServerStopped { server_id: Id },
    ServerCrashed { server_id: Id, exit_code: i32 },
    DatabaseCreated { database_id: Id, server_id: Id, name: String },
    DatabaseDuplicated { database_id: Id, source_database_id: Id },
    DatabaseDropped { database_id: Id, server_id: Id, name: String },
    DatabaseBackedUp { database_id: Id, server_id: Id, format: String, path: String },
    DatabaseRestored { database_id: Id },
    DatabaseNeutralized { database_id: Id },
    TemplateCached { key: String, modules: Vec<String> },
    UpgradeStarted { database_id: Id, working_database_id: Id, from: String, to: String, hops: u32 },
    UpgradeHopFinished { working_database_id: Id, from: String, to: String },
    UpgradeHopFailed { working_database_id: Id, from: String, to: String, message: String },
    UpgradeFinished { database_id: Id, working_database_id: Id, to: String },
    ModulesScanned { server_id: Id, module_count: u32, shadow_count: u32 },
    ModuleInstalled { database_id: Id, technical_name: String },
    ModuleUpgraded { database_id: Id, technical_name: String, to_version: String },
    ModuleUninstalled { database_id: Id, technical_name: String },
    PostgresInstanceCreated { instance_id: Id, label: String, pg_version: String },
    PostgresStarting { instance_id: Id },
    PostgresRunning { instance_id: Id, pid: u32 },
    PostgresStopping { instance_id: Id },
    PostgresStopped { instance_id: Id },
    PostgresCrashed { instance_id: Id, exit_code: Option<i32> },
    SnapshotCreated { snapshot_id: Id, database_id: Id, name: String, has_filestore: bool },
    SnapshotDeleted { snapshot_id: Id },
    DatabaseRevertedToSnapshot { database_id: Id, snapshot_id: Id, counter_snapshot_id: Option<Id> },
    EditorAttached { database_id: Id },
}

/// The name of what happened.
pub open spec fn kind_of(e: Event) -> Seq<char> {
    match e {
        Event::ProjectCreated { .. } => "project_created"@,
        Event::ProjectRenamed { .. } => "project_renamed"@,
        Event::ProjectDeleted { .. } => "project_deleted"@,
        Event::ProjectDuplicated { .. } => "project_duplicated"@,
        Event::ServerCreated { .. } => "server_created"@,
        Event::ServerStarted { .. } => "server_started"@,
        Event::ServerStopped { .. } => "server_stopped"@,
        Event::ServerCrashed { .. } => "server_crashed"@,
        Event::DatabaseCreated { .. } => "database_created"@,
        Event::DatabaseDuplicated { .. } => "database_duplicated"@,
        Event::DatabaseDropped { .. } => "database_dropped"@,
        Event::DatabaseBackedUp { .. } => "database_backed_up"@,
        Event::DatabaseRestored { .. } => "database_restored"@,
        Event::DatabaseNeutralized { .. } => "database_neutralized"@,
        Event::TemplateCached { .. } => "template_cached"@,
        Event::UpgradeStarted { .. } => "upgrade_started"@,
        Event::UpgradeHopFinished { .. } => "upgrade_hop_finished"@,
        Event::UpgradeHopFailed { .. } => "upgrade_hop_failed"@,
        Event::UpgradeFinished { .. } => "upgrade_finished"@,
        Event::ModulesScanned { .. } => "modules_scanned"@,
        Event::ModuleInstalled { .. } => "module_installed"@,
        Event::ModuleUpgraded { .. } => "module_upgraded"@,
        Event::ModuleUninstalled { .. } => "module_uninstalled"@,
        Event::PostgresInstanceCreated { .. } => "postgres_instance_created"@,
        Event::PostgresStarting { .. } => "postgres_starting"@,
        Event::PostgresRunning { .. } => "postgres_running"@,
        Event::PostgresStopping { .. } => "postgres_stopping"@,
        Event::PostgresStopped { .. } => "postgres_stopped"@,
        Event::PostgresCrashed { .. } => "postgres_crashed"@,
        Event::SnapshotCreated { .. } => "snapshot_created"@,
        Event::SnapshotDeleted { .. } => "snapshot_deleted"@,
        Event::DatabaseRevertedToSnapshot { .. } => "database_reverted_to_snapshot"@,
        Event::EditorAttached { .. } => "editor_attached"@,
    }
}

impl Event {
    /// The name of what happened.
    pub fn kind(&self) -> (r: &'static str)
        ensures
            r@ == kind_of(*self),
    {
        match self {
            Event::ProjectCreated { .. } => "project_created",
            Event::ProjectRenamed { .. } => "project_renamed",
            Event::ProjectDeleted { .. } => "project_deleted",
            Event::ProjectDuplicated { .. } => "project_duplicated",
            Event::ServerCreated { .. } => "server_created",
            Event::ServerStarted { .. } => "server_started",
            Event::ServerStopped { .. } => "server_stopped",
            Event::ServerCrashed { .. } => "server_crashed",
            Event::DatabaseCreated { .. } => "database_created",
            Event::DatabaseDuplicated { .. } => "database_duplicated",
            Event::DatabaseDropped { .. } => "database_dropped",
            Event::DatabaseBackedUp { .. } => "database_backed_up",
            Event::DatabaseRestored { .. } => "database_restored",
            Event::DatabaseNeutralized { .. } => "database_neutralized",
            Event::TemplateCached { .. } => "template_cached",
            Event::UpgradeStarted { .. } => "upgrade_started",
            Event::UpgradeHopFinished { .. } => "upgrade_hop_finished",
            Event::UpgradeHopFailed { .. } => "upgrade_hop_failed",
            Event::UpgradeFinished { .. } => "upgrade_finished",
            Event::ModulesScanned { .. } => "modules_scanned",
            Event::ModuleInstalled { .. } => "module_installed",
            Event::ModuleUpgraded { .. } => "module_upgraded",
            Event::ModuleUninstalled { .. } => "module_uninstalled",
            Event::PostgresInstanceCreated { .. } => "postgres_instance_created",
            Event::PostgresStarting { .. } => "postgres_starting",
            Event::PostgresRunning { .. } => "postgres_running",
            Event::PostgresStopping { .. } => "postgres_stopping",
            Event::PostgresStopped { .. } => "postgres_stopped",
            Event::PostgresCrashed { .. } => "postgres_crashed",
            Event::SnapshotCreated { .. } => "snapshot_created",
            Event::SnapshotDeleted { .. } => "snapshot_deleted",
            Event::DatabaseRevertedToSnapshot { .. } => "database_reverted_to_snapshot",
            Event::EditorAttached { .. } => "editor_attached",
        }
    }
}

/// An event with its identifier, its time and, where it was measured, how long it took.
#[derive(Debug)]
pub struct EventEnvelope {
    pub id: Id,
    pub occurred_at: Moment,
    pub duration_ms: Option<u64>,
    pub event: Event,
}

impl EventEnvelope {
    /// An event that was not measured.
    pub fn new(id: Id, occurred_at: Moment, event: Event) -> (r: Self)
        ensures
            r == (EventEnvelope { id, occurred_at, duration_ms: None, event }),
    {
        EventEnvelope { id, occurred_at, duration_ms: None, event }
    }

    /// An event that took the given milliseconds.
    pub fn timed(id: Id, occurred_at: Moment, event: Event, took_ms: u64) -> (r: Self)
        ensures
            r == (EventEnvelope { id, occurred_at, duration_ms: Some(took_ms), event }),
    {
        EventEnvelope { id, occurred_at, duration_ms: Some(took_ms), event }
    }
}

} // verus!
