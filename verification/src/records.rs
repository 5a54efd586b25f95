//! What the orchestrator knows, and what it does with it: projects, servers, sources of modules,
//! clusters, databases, snapshots, and the record of what happened.

use crate::codec;
use crate::errors::CoreError;
use crate::events::{Event, EventEnvelope};
use crate::model::{
    AddonsSource, Database, Id, Moment, OdooServer, PostgresInstance, Project, ServerState,
    Snapshot,
};
use crate::order;
use crate::rows;
use crate::rows::Row;
use crate::text;
use vstd::prelude::*;
use vstd::string::*;

verus! {

/// What the files of a module came to when it was last installed or updated on a database.
#[derive(Debug)]
pub struct ModuleInstall {
    pub database_id: Id,
    pub technical_name: String,
    pub content_hash: String,
}

/// What is known.
#[derive(Debug)]
pub struct Core {
    pub projects: Vec<Project>,
    pub servers: Vec<OdooServer>,
    pub sources: Vec<AddonsSource>,
    pub databases: Vec<Database>,
    pub instances: Vec<PostgresInstance>,
    pub snapshots: Vec<Snapshot>,
    pub installs: Vec<ModuleInstall>,
    pub events: Vec<EventEnvelope>,
}

/// What is known, as sequences.
#[verifier::ext_equal]
pub struct State {
    pub projects: Seq<Project>,
    pub servers: Seq<OdooServer>,
    pub sources: Seq<AddonsSource>,
    pub databases: Seq<Database>,
    pub instances: Seq<PostgresInstance>,
    pub snapshots: Seq<Snapshot>,
    pub installs: Seq<ModuleInstall>,
    pub events: Seq<EventEnvelope>,
}

impl View for Core {
    type V = State;

    open spec fn view(&self) -> State {
        State {
            projects: self.projects@,
            servers: self.servers@,
            sources: self.sources@,
            databases: self.databases@,
            instances: self.instances@,
            snapshots: self.snapshots@,
            installs: self.installs@,
            events: self.events@,
        }
    }
}

/// What chance and the clock give a request that records an event.
#[derive(Debug, Clone, Copy)]
pub struct Stamp {
    pub event_id: Id,
    pub now: Moment,
}

impl Stamp {
    /// A new identifier and the present time.
    pub fn fresh() -> (r: Self)
        ensures
            codec::is_random(r.event_id),
            r.event_id != 0,
    {
        Stamp { event_id: codec::new_id(), now: codec::now() }
    }
}

// --- what always holds ----------------------------------------------------

/// Whether every server belongs to a project that is there, or to none.
pub open spec fn projects_are_there(s: State) -> bool {
    forall|i: int|
        0 <= i < s.servers.len() ==> ((#[trigger] s.servers[i]).project_id matches Some(p)
            ==> rows::taken(s.projects, p))
}

/// Whether every server keeps its databases in a cluster that is there.
pub open spec fn instances_are_there(s: State) -> bool {
    forall|i: int|
        0 <= i < s.servers.len() ==> rows::taken(
            s.instances,
            (#[trigger] s.servers[i]).postgres_instance_id,
        )
}

/// Whether the server of everything that belongs to a server is there.
pub open spec fn servers_are_there(s: State) -> bool {
    &&& forall|i: int|
        0 <= i < s.sources.len() ==> rows::taken(s.servers, (#[trigger] s.sources[i]).server_id)
    &&& forall|i: int|
        0 <= i < s.databases.len() ==> rows::taken(
            s.servers,
            (#[trigger] s.databases[i]).server_id,
        )
    &&& forall|i: int|
        0 <= i < s.snapshots.len() ==> rows::taken(
            s.servers,
            (#[trigger] s.snapshots[i]).server_id,
        )
}

/// Whether it is known since when a server runs exactly as far as what it does tells: a running
/// server has been started, one that stopped or crashed has not.
pub open spec fn uptimes_fit(s: State) -> bool {
    forall|i: int| 0 <= i < s.servers.len() ==> uptime_fits(#[trigger] s.servers[i])
}

/// Whether it is known since when a server runs exactly as far as what it does tells.
pub open spec fn uptime_fits(server: OdooServer) -> bool {
    match server.state {
        ServerState::Running => server.started_at is Some,
        ServerState::Stopped => server.started_at is None,
        ServerState::Crashed { .. } => server.started_at is None,
        _ => true,
    }
}

/// What always holds: no identifier is used twice in a table, nothing belongs to a record that is
/// not there, and no server that stopped has an uptime.
pub open spec fn sound(s: State) -> bool {
    &&& rows::distinct(s.projects)
    &&& rows::distinct(s.servers)
    &&& rows::distinct(s.sources)
    &&& rows::distinct(s.databases)
    &&& rows::distinct(s.instances)
    &&& rows::distinct(s.snapshots)
    &&& rows::distinct(s.events)
    &&& projects_are_there(s)
    &&& instances_are_there(s)
    &&& servers_are_there(s)
    &&& uptimes_fit(s)
}

/// Whether an error says that something with the identifier is not there.
pub open spec fn is_missing(e: CoreError, what: Seq<char>, id: Id) -> bool {
    e matches CoreError::NotFound(m) && m@ == what + codec::uuid_text(id)
}

/// What is known once an event is recorded.
pub open spec fn told(s: State, stamp: Stamp, took: Option<u64>, event: Event) -> State {
    State {
        events: s.events.push(
            EventEnvelope {
                id: stamp.event_id,
                occurred_at: stamp.now,
                duration_ms: took,
                event,
            },
        ),
        ..s
    }
}

/// Whether an event can be recorded.
pub open spec fn may_tell(s: State, stamp: Stamp) -> bool {
    !rows::taken(s.events, stamp.event_id)
}

/// The latest events, the latest first: of those at the same time, the one recorded last.
pub open spec fn latest(events: Seq<EventEnvelope>, limit: nat) -> Seq<EventEnvelope> {
    let all = rows::listing(events, None).reverse();
    if all.len() <= limit {
        all
    } else {
        all.take(limit as int)
    }
}

/// Events are listed the latest first, and an event that is left out is not later than those that
/// are listed.
pub proof fn law_the_latest_events_come_first(events: Seq<EventEnvelope>, limit: nat)
    ensures
        latest(events, limit).len() == if events.len() <= limit {
            events.len()
        } else {
            limit
        },
        forall|i: int, j: int|
            0 <= i < j < latest(events, limit).len() ==> (#[trigger] latest(
                events,
                limit,
            )[i]).occurred_at >= (#[trigger] latest(events, limit)[j]).occurred_at,
        forall|e: EventEnvelope|
            events.contains(e) && !(#[trigger] latest(events, limit).contains(e)) ==> forall|i: int|
                0 <= i < latest(events, limit).len() ==> (#[trigger] latest(
                    events,
                    limit,
                )[i]).occurred_at >= e.occurred_at,
{
    let all = rows::listing(events, None);
    rows::law_a_listing_is_ordered(events);
    let back = all.reverse();
    let out = latest(events, limit);
    assert forall|i: int, j: int| 0 <= i < j < out.len() implies (#[trigger] out[i]).occurred_at
        >= (#[trigger] out[j]).occurred_at by {
        assert(out[i] == all[all.len() - 1 - i] && out[j] == all[all.len() - 1 - j]);
    }
    assert forall|e: EventEnvelope|
        events.contains(e) && !(#[trigger] out.contains(e)) implies forall|i: int|
        0 <= i < out.len() ==> (#[trigger] out[i]).occurred_at >= e.occurred_at by {
        assert(all.contains(e));
        let p = choose|p: int| 0 <= p < all.len() && all[p] == e;
        let q = all.len() - 1 - p;
        assert(back[q] == e);
        if q < out.len() {
            assert(out[q] == e);
        }
        assert forall|i: int| 0 <= i < out.len() implies (#[trigger] out[i]).occurred_at
            >= e.occurred_at by {
            assert(out[i] == all[all.len() - 1 - i]);
        }
    }
}

proof fn lemma_told(s: State, stamp: Stamp, took: Option<u64>, event: Event)
    requires
        sound(s),
        may_tell(s, stamp),
    ensures
        sound(told(s, stamp, took, event)),
{
    let envelope = EventEnvelope {
        id: stamp.event_id,
        occurred_at: stamp.now,
        duration_ms: took,
        event,
    };
    rows::lemma_push_distinct(s.events, envelope);
}

/// More records leave every identifier taken.
pub proof fn lemma_still_taken<T: Row>(rows: Seq<T>, row: T)
    ensures
        forall|id: Id| rows::taken(rows, id) ==> #[trigger] rows::taken(rows.push(row), id),
{
    assert forall|id: Id| rows::taken(rows, id) implies #[trigger] rows::taken(
        rows.push(row),
        id,
    ) by {
        rows::lemma_push_taken(rows, row, id);
    }
}

/// A record that changes and keeps its identifier leaves every identifier as it was.
pub proof fn lemma_as_taken<T: Row>(rows: Seq<T>, k: int, row: T)
    requires
        0 <= k < rows.len(),
        row.row_id() == rows[k].row_id(),
    ensures
        distinct_too(rows, rows.update(k, row)),
        forall|id: Id| #[trigger] rows::taken(rows.update(k, row), id) == rows::taken(rows, id),
{
    rows::lemma_update_keeps(rows, k, row, 0);
    assert forall|id: Id| #[trigger] rows::taken(rows.update(k, row), id) == rows::taken(
        rows,
        id,
    ) by {
        rows::lemma_update_keeps(rows, k, row, id);
    }
}

/// What comes of the request to rename a project.
pub open spec fn project_renamed(
    before: State,
    after: State,
    r: Result<Project, CoreError>,
    project_id: Id,
    name: String,
    color: u8,
    stamp: Stamp,
) -> bool {
    match r {
        Ok(project) => {
            let was = rows::row_of(before.projects, project_id);
            &&& rows::taken(before.projects, project_id)
            &&& may_tell(before, stamp)
            &&& project == (Project { name, color: (color % 6) as u8, ..was })
            &&& after == told(
                State {
                    projects: before.projects.update(
                        rows::place_of(before.projects, project_id) as int,
                        project,
                    ),
                    ..before
                },
                stamp,
                None,
                Event::ProjectRenamed { project_id, name },
            )
        },
        Err(e) => if !rows::taken(before.projects, project_id) {
            is_missing(e, "project "@, project_id) && after == before
        } else {
            let was = rows::row_of(before.projects, project_id);
            &&& !may_tell(before, stamp)
            &&& rows::is_taken_error(e, "events"@)
            &&& after == (State {
                projects: before.projects.update(
                    rows::place_of(before.projects, project_id) as int,
                    Project { name, color: (color % 6) as u8, ..was },
                ),
                ..before
            })
        },
    }
}

/// What comes of the request to delete a project.
pub open spec fn project_gone(
    before: State,
    after: State,
    r: Result<(), CoreError>,
    project_id: Id,
    stamp: Stamp,
) -> bool {
    match r {
        Ok(_) => {
            &&& rows::taken(before.projects, project_id)
            &&& rows::belonging(before.servers, Some(project_id)).len() == 0
            &&& may_tell(before, stamp)
            &&& after == told(
                State {
                    projects: before.projects.remove(
                        rows::place_of(before.projects, project_id) as int,
                    ),
                    ..before
                },
                stamp,
                None,
                Event::ProjectDeleted { project_id },
            )
        },
        Err(e) => {
            let held = rows::belonging(before.servers, Some(project_id)).len();
            if !rows::taken(before.projects, project_id) {
                is_missing(e, "project "@, project_id) && after == before
            } else if held > 0 {
                &&& e == (CoreError::ProjectNotEmpty {
                    project_id,
                    server_count: held as u32,
                })
                &&& after == before
            } else {
                &&& !may_tell(before, stamp)
                &&& rows::is_taken_error(e, "events"@)
                &&& after == (State {
                    projects: before.projects.remove(
                        rows::place_of(before.projects, project_id) as int,
                    ),
                    ..before
                })
            }
        },
    }
}

/// Whether the second table is without doubles where the first is.
pub open spec fn distinct_too<T: Row>(before: Seq<T>, after: Seq<T>) -> bool {
    rows::distinct(before) ==> rows::distinct(after)
}

pub(crate) fn missing(what: &str, id: Id) -> (r: CoreError)
    ensures
        is_missing(r, what@, id),
{
    CoreError::NotFound(text::joined(what, codec::id_text(id).as_str()))
}

pub(crate) fn taken_error(table: &str) -> (r: CoreError)
    ensures
        rows::is_taken_error(r, table@),
{
    let mut message = text::joined("UNIQUE constraint failed: ", table);
    message.append(".id");
    CoreError::Sqlite(message)
}

impl Core {
    /// Nothing is known yet.
    pub fn new() -> (r: Self)
        ensures
            r@ == (State {
                projects: Seq::empty(),
                servers: Seq::empty(),
                sources: Seq::empty(),
                databases: Seq::empty(),
                instances: Seq::empty(),
                snapshots: Seq::empty(),
                installs: Seq::empty(),
                events: Seq::empty(),
            }),
            sound(r@),
    {
        Core {
            projects: Vec::new(),
            servers: Vec::new(),
            sources: Vec::new(),
            databases: Vec::new(),
            instances: Vec::new(),
            snapshots: Vec::new(),
            installs: Vec::new(),
            events: Vec::new(),
        }
    }

    // --- events -----------------------------------------------------------

    /// Records an event; its identifier must not be taken.
    pub fn append(&mut self, envelope: EventEnvelope) -> (r: Result<(), CoreError>)
        ensures
            match r {
                Ok(_) => {
                    &&& !rows::taken(old(self)@.events, envelope.id)
                    &&& final(self)@ == (State {
                        events: old(self)@.events.push(envelope),
                        ..old(self)@
                    })
                },
                Err(e) => {
                    &&& rows::taken(old(self)@.events, envelope.id)
                    &&& final(self)@ == old(self)@
                    &&& rows::is_taken_error(e, "events"@)
                },
            },
            sound(old(self)@) ==> sound(final(self)@),
    {
        proof {
            if sound(self@) && !rows::taken(self@.events, envelope.id) {
                rows::lemma_push_distinct(self@.events, envelope);
            }
        }
        rows::insert(&mut self.events, envelope, "events")
    }

    /// The latest events, the latest first, at most as many as asked for.
    pub fn recent_events(&self, limit: u32) -> (r: Vec<&EventEnvelope>)
        ensures
            order::owned(r@) == latest(self@.events, limit as nat),
    {
        let listed = rows::list(&self.events, None);
        let ghost all = order::owned(listed@);
        let mut out: Vec<&EventEnvelope> = Vec::new();
        let mut i: usize = listed.len();
        assert(order::owned(out@) =~= all.reverse().take(0));
        while i > 0 && (out.len() as u64) < (limit as u64)
            invariant
                i <= listed@.len() == all.len(),
                all == order::owned(listed@),
                out@.len() == all.len() - i,
                out@.len() <= limit,
                order::owned(out@) == all.reverse().take(all.len() - i),
            decreases i,
        {
            let ghost before = order::owned(out@);
            i = i - 1;
            out.push(listed[i]);
            assert(all.reverse()[all.len() - i - 1] == all[i as int]);
            assert(order::owned(out@) =~= all.reverse().take(all.len() - i));
        }
        out
    }

    pub(crate) fn record(&mut self, stamp: &Stamp, took: Option<u64>, event: Event)
        requires
            may_tell(old(self)@, *stamp),
        ensures
            final(self)@ == told(old(self)@, *stamp, took, event),
            sound(old(self)@) ==> sound(final(self)@),
    {
        proof {
            if sound(self@) {
                lemma_told(self@, *stamp, took, event);
            }
        }
        self.events.push(
            EventEnvelope {
                id: stamp.event_id,
                occurred_at: stamp.now,
                duration_ms: took,
                event,
            },
        );
    }

    /// Whether an event can be recorded. What it tells of has happened by then, and stands where
    /// it cannot be told.
    pub(crate) fn can_record(&self, stamp: &Stamp) -> (r: Result<(), CoreError>)
        ensures
            match r {
                Ok(_) => may_tell(self@, *stamp),
                Err(e) => !may_tell(self@, *stamp) && rows::is_taken_error(e, "events"@),
            },
    {
        match rows::find(&self.events, stamp.event_id) {
            Some(_) => Err(taken_error("events")),
            None => Ok(()),
        }
    }

    // --- projects ---------------------------------------------------------

    /// Makes a project.
    pub fn create_project(&mut self, id: Id, name: String, color: u8, stamp: &Stamp) -> (r: Result<
        Project,
        CoreError,
    >)
        ensures
            match r {
                Ok(project) => {
                    &&& !rows::taken(old(self)@.projects, id)
                    &&& may_tell(old(self)@, *stamp)
                    &&& project == (Project {
                        id,
                        name,
                        color: (color % 6) as u8,
                        created_at: stamp.now,
                    })
                    &&& final(self)@ == told(
                        State {
                            projects: old(self)@.projects.push(project),
                            ..old(self)@
                        },
                        *stamp,
                        None,
                        Event::ProjectCreated { project_id: id, name },
                    )
                },
                Err(e) => if rows::taken(old(self)@.projects, id) {
                    rows::is_taken_error(e, "projects"@) && final(self)@ == old(self)@
                } else {
                    let project = Project {
                        id,
                        name,
                        color: (color % 6) as u8,
                        created_at: stamp.now,
                    };
                    &&& !may_tell(old(self)@, *stamp)
                    &&& rows::is_taken_error(e, "events"@)
                    &&& final(self)@ == (State {
                        projects: old(self)@.projects.push(project),
                        ..old(self)@
                    })
                },
            },
            sound(old(self)@) ==> sound(final(self)@),
    {
        if rows::find(&self.projects, id).is_some() {
            return Err(taken_error("projects"));
        }
        let project = Project::new(id, name, color, stamp.now);
        proof {
            lemma_still_taken(self@.projects, project);
            if sound(self@) {
                rows::lemma_push_distinct(self@.projects, project);
            }
        }
        self.projects.push(project.clone());
        if let Err(e) = self.can_record(stamp) {
            return Err(e);
        }
        let name = project.name.clone();
        self.record(stamp, None, Event::ProjectCreated { project_id: id, name });
        Ok(project)
    }

    /// All projects, in the order in which they were made.
    pub fn list_projects(&self) -> (r: Vec<&Project>)
        ensures
            order::owned(r@) == rows::listing(self@.projects, None),
    {
        rows::list(&self.projects, None)
    }

    /// The project with the identifier.
    pub fn get_project(&self, project_id: Id) -> (r: Result<Project, CoreError>)
        ensures
            match r {
                Ok(project) => rows::taken(self@.projects, project_id) && project == rows::row_of(
                    self@.projects,
                    project_id,
                ),
                Err(e) => !rows::taken(self@.projects, project_id) && is_missing(
                    e,
                    "project "@,
                    project_id,
                ),
            },
    {
        match rows::find(&self.projects, project_id) {
            Some(k) => Ok(self.projects[k].clone()),
            None => Err(missing("project ", project_id)),
        }
    }

    /// Gives a project another name and colour.
    pub fn rename_project(&mut self, project_id: Id, name: String, color: u8, stamp: &Stamp) -> (r:
        Result<Project, CoreError>)
        ensures
            project_renamed(old(self)@, final(self)@, r, project_id, name, color, *stamp),
            sound(old(self)@) ==> sound(final(self)@),
    {
        let k = match rows::find(&self.projects, project_id) {
            Some(k) => k,
            None => {
                return Err(missing("project ", project_id));
            },
        };
        let project = Project {
            id: self.projects[k].id,
            name: name.clone(),
            color: color % 6,
            created_at: self.projects[k].created_at,
        };
        proof {
            lemma_as_taken(self@.projects, k as int, project);
        }
        self.projects.set(k, project.clone());
        if let Err(e) = self.can_record(stamp) {
            return Err(e);
        }
        self.record(stamp, None, Event::ProjectRenamed { project_id, name });
        Ok(project)
    }

    /// Removes a project; one that still holds servers is kept.
    pub fn delete_project(&mut self, project_id: Id, stamp: &Stamp) -> (r: Result<(), CoreError>)
        ensures
            project_gone(old(self)@, final(self)@, r, project_id, *stamp),
            sound(old(self)@) ==> sound(final(self)@),
    {
        let k = match rows::find(&self.projects, project_id) {
            Some(k) => k,
            None => {
                return Err(missing("project ", project_id));
            },
        };
        let held: usize = self.count_servers_in_project(project_id);
        if held > 0 {
            return Err(CoreError::ProjectNotEmpty { project_id, server_count: held as u32 });
        }
        let ghost before = self@;
        self.projects.remove(k);
        proof {
            if sound(before) {
                rows::lemma_place_of(before.projects, project_id);
                rows::lemma_remove(before.projects, k as int, 0);
                assert forall|i: int| 0 <= i < before.servers.len() implies ((
                #[trigger] before.servers[i]).project_id matches Some(p) ==> rows::taken(
                    self@.projects,
                    p,
                )) by {
                    if let Some(p) = before.servers[i].project_id {
                        rows::lemma_remove(before.projects, k as int, p);
                        if p == project_id {
                            lemma_member_belongs(before.servers, i, project_id);
                        }
                    }
                }
            }
        }
        if let Err(e) = self.can_record(stamp) {
            return Err(e);
        }
        self.record(stamp, None, Event::ProjectDeleted { project_id });
        Ok(())
    }

    /// How many servers a project holds.
    pub fn count_servers_in_project(&self, project_id: Id) -> (r: usize)
        ensures
            r == rows::belonging(self@.servers, Some(project_id)).len(),
    {
        let held = rows::list(&self.servers, Some(project_id));
        proof {
            rows::law_a_listing_is_ordered(rows::belonging(self@.servers, Some(project_id)));
        }
        assert(held@.len() == order::owned(held@).len());
        held.len()
    }
}

/// A record of a table is among those that belong to what it belongs to.
pub proof fn lemma_member_belongs<T: Row>(rows: Seq<T>, i: int, parent: Id)
    requires
        0 <= i < rows.len(),
        rows[i].row_parent() == Some(parent),
    ensures
        rows::belonging(rows, Some(parent)).len() > 0,
    decreases rows.len(),
{
    reveal(Seq::filter);
    let is_member = |t: T| t.row_parent() == Some(parent);
    if i < rows.len() - 1 {
        lemma_member_belongs(rows.drop_last(), i, parent);
    }
}

/// What happens is told by one event at the end of the record, with its time, and nothing else
/// changes.
pub proof fn law_telling_adds_one_event(s: State, stamp: Stamp, took: Option<u64>, event: Event)
    ensures
        told(s, stamp, took, event).events.drop_last() == s.events,
        told(s, stamp, took, event).events.last().id == stamp.event_id,
        told(s, stamp, took, event).events.last().occurred_at == stamp.now,
        told(s, stamp, took, event).events.last().duration_ms == took,
        told(s, stamp, took, event).events.last().event == event,
        told(s, stamp, took, event).projects == s.projects,
        told(s, stamp, took, event).servers == s.servers,
        told(s, stamp, took, event).sources == s.sources,
        told(s, stamp, took, event).databases == s.databases,
        told(s, stamp, took, event).instances == s.instances,
        told(s, stamp, took, event).snapshots == s.snapshots,
        told(s, stamp, took, event).installs == s.installs,
{
}

/// In a sound state no two records share an identifier, and every record that one refers to is
/// there.
pub proof fn law_nothing_refers_to_what_is_not_there(s: State, i: int, j: int)
    requires
        sound(s),
    ensures
        0 <= i < j < s.servers.len() ==> s.servers[i].id != s.servers[j].id,
        0 <= i < j < s.databases.len() ==> s.databases[i].id != s.databases[j].id,
        0 <= i < j < s.sources.len() ==> s.sources[i].id != s.sources[j].id,
        0 <= i < j < s.snapshots.len() ==> s.snapshots[i].id != s.snapshots[j].id,
        0 <= i < j < s.instances.len() ==> s.instances[i].id != s.instances[j].id,
        0 <= i < j < s.projects.len() ==> s.projects[i].id != s.projects[j].id,
        0 <= i < j < s.events.len() ==> s.events[i].id != s.events[j].id,
        0 <= i < s.servers.len() ==> exists|k: int|
            0 <= k < s.instances.len() && (#[trigger] s.instances[k]).id
                == s.servers[i].postgres_instance_id,
        0 <= i < s.servers.len() && s.servers[i].project_id is Some ==> exists|k: int|
            0 <= k < s.projects.len() && Some((#[trigger] s.projects[k]).id)
                == s.servers[i].project_id,
        0 <= i < s.databases.len() ==> exists|k: int|
            0 <= k < s.servers.len() && (#[trigger] s.servers[k]).id == s.databases[i].server_id,
        0 <= i < s.sources.len() ==> exists|k: int|
            0 <= k < s.servers.len() && (#[trigger] s.servers[k]).id == s.sources[i].server_id,
        0 <= i < s.snapshots.len() ==> exists|k: int|
            0 <= k < s.servers.len() && (#[trigger] s.servers[k]).id == s.snapshots[i].server_id,
        0 <= i < s.servers.len() && s.servers[i].state is Running ==> s.servers[i].started_at is Some,
        0 <= i < s.servers.len() && s.servers[i].state is Stopped ==> s.servers[i].started_at is None,
{
    if 0 <= i < j < s.servers.len() {
        assert(s.servers[i].row_id() != s.servers[j].row_id());
    }
    if 0 <= i < j < s.databases.len() {
        assert(s.databases[i].row_id() != s.databases[j].row_id());
    }
    if 0 <= i < j < s.sources.len() {
        assert(s.sources[i].row_id() != s.sources[j].row_id());
    }
    if 0 <= i < j < s.snapshots.len() {
        assert(s.snapshots[i].row_id() != s.snapshots[j].row_id());
    }
    if 0 <= i < j < s.instances.len() {
        assert(s.instances[i].row_id() != s.instances[j].row_id());
    }
    if 0 <= i < j < s.projects.len() {
        assert(s.projects[i].row_id() != s.projects[j].row_id());
    }
    if 0 <= i < j < s.events.len() {
        assert(s.events[i].row_id() != s.events[j].row_id());
    }
    if 0 <= i < s.servers.len() {
        let server = s.servers[i];
        assert(uptime_fits(server));
        assert(rows::taken(s.instances, server.postgres_instance_id));
        rows::lemma_place_of(s.instances, server.postgres_instance_id);
        assert(rows::row_of(s.instances, server.postgres_instance_id).id
            == server.postgres_instance_id);
        if let Some(p) = server.project_id {
            rows::lemma_place_of(s.projects, p);
            assert(rows::row_of(s.projects, p).id == p);
        }
    }
    if 0 <= i < s.databases.len() {
        assert(rows::taken(s.servers, s.databases[i].server_id));
        rows::lemma_place_of(s.servers, s.databases[i].server_id);
        assert(rows::row_of(s.servers, s.databases[i].server_id).id == s.databases[i].server_id);
    }
    if 0 <= i < s.sources.len() {
        assert(rows::taken(s.servers, s.sources[i].server_id));
        rows::lemma_place_of(s.servers, s.sources[i].server_id);
        assert(rows::row_of(s.servers, s.sources[i].server_id).id == s.sources[i].server_id);
    }
    if 0 <= i < s.snapshots.len() {
        assert(rows::taken(s.servers, s.snapshots[i].server_id));
        rows::lemma_place_of(s.servers, s.snapshots[i].server_id);
        assert(rows::row_of(s.servers, s.snapshots[i].server_id).id == s.snapshots[i].server_id);
    }
}

/// Renaming changes the name and the color of that project, and of no other.
pub proof fn law_only_the_named_project_is_renamed(
    before: State,
    after: State,
    r: Result<Project, CoreError>,
    project_id: Id,
    name: String,
    color: u8,
    stamp: Stamp,
    i: int,
)
    requires
        project_renamed(before, after, r, project_id, name, color, stamp),
        rows::distinct(before.projects),
        0 <= i < before.projects.len(),
    ensures
        after.projects.len() == before.projects.len(),
        before.projects[i].id != project_id ==> after.projects[i] == before.projects[i],
        before.projects[i].id == project_id ==> {
            &&& after.projects[i].name == name
            &&& after.projects[i].color < 6
            &&& color < 6 ==> after.projects[i].color == color
            &&& after.projects[i].id == project_id
            &&& after.projects[i].created_at == before.projects[i].created_at
        },
        r is Ok ==> after.events.drop_last() == before.events && after.events.last().event == (
        Event::ProjectRenamed { project_id, name }),
        after.servers == before.servers,
{
    if rows::taken(before.projects, project_id) {
        rows::lemma_place_of(before.projects, project_id);
        let k = rows::place_of(before.projects, project_id) as int;
        assert(before.projects[k].id == project_id);
        if i < k {
            assert(before.projects[i].row_id() != before.projects[k].row_id());
        } else if k < i {
            assert(before.projects[k].row_id() != before.projects[i].row_id());
        }
    } else {
        assert(before.projects[i].row_id() != project_id);
    }
}

/// A project that holds a server stays, and the answer says how many it holds; one that holds none
/// goes, and no other project does.
pub proof fn law_a_project_with_servers_stays(
    before: State,
    after: State,
    r: Result<(), CoreError>,
    project_id: Id,
    stamp: Stamp,
    server: OdooServer,
    project: Project,
)
    requires
        project_gone(before, after, r, project_id, stamp),
        rows::distinct(before.projects),
    ensures
        before.servers.contains(server) && server.project_id == Some(project_id) ==> after == before
            && r is Err,
        after.projects.contains(project) ==> before.projects.contains(project),
        before.projects.contains(project) && project.id != project_id ==> after.projects.contains(
            project,
        ),
        before.projects.contains(project) && project.id == project_id && r is Ok
            ==> !after.projects.contains(project),
        r matches Err(CoreError::ProjectNotEmpty { project_id: which, server_count }) ==> which
            == project_id && server_count == before.servers.filter(
            |s: OdooServer| s.project_id == Some(project_id),
        ).len() as u32,
        after.servers == before.servers,
        after.databases == before.databases,
{
    if before.servers.contains(server) && server.project_id == Some(project_id) {
        let i = choose|i: int| 0 <= i < before.servers.len() && before.servers[i] == server;
        lemma_member_belongs(before.servers, i, project_id);
    }
    let held = rows::belonging(before.servers, Some(project_id));
    let named = before.servers.filter(|s: OdooServer| s.project_id == Some(project_id));
    assert((|t: OdooServer| t.row_parent() == Some(project_id)) =~= (|s: OdooServer|
        s.project_id == Some(project_id)));
    assert(held == named);
    let k = rows::place_of(before.projects, project_id) as int;
    let out = before.projects.remove(k);
    if rows::taken(before.projects, project_id) {
        rows::lemma_place_of(before.projects, project_id);
        assert(before.projects[k].id == project_id);
        if before.projects.contains(project) {
            let i = choose|i: int| 0 <= i < before.projects.len() && before.projects[i] == project;
            if i < k {
                assert(out[i] == project);
            } else if i > k {
                assert(out[i - 1] == project);
            }
        }
        if out.contains(project) {
            let j = choose|j: int| 0 <= j < out.len() && out[j] == project;
            let i = if j < k {
                j
            } else {
                j + 1
            };
            assert(before.projects[i] == project);
            if i < k {
                assert(before.projects[i].row_id() != before.projects[k].row_id());
            } else {
                assert(before.projects[k].row_id() != before.projects[i].row_id());
            }
        }
    }
}

} // verus!
