//! Servers, where their modules come from, and the clusters that store their databases.

use crate::discovery::DiscoveredRoot;
use crate::errors::CoreError;
use crate::events::Event;
use crate::git::GitError;
use crate::model::{
    AddonsSource, Id, Moment, OdooServer, PostgresInstance, Project, ReloadPolicy, ServerState,
    SourceKind,
};
use crate::modules;
use crate::modules::{ModuleScan, ScannedSource};
use crate::order;
use crate::pg_admin::PgConnInfo;
use crate::postgres::PgState;
use crate::records;
use crate::records::{Core, Stamp, State};
use crate::rows;
use crate::rows::Row;
use crate::text;
use vstd::prelude::*;
use vstd::string::*;

verus! {

// --- ports ----------------------------------------------------------------

/// The first port from `preferred` on that is not used; the last port of all is taken in any
/// case.
pub open spec fn free_port(preferred: u16, used: Seq<u16>) -> u16
    decreases 65536 - preferred,
{
    if !used.contains(preferred) || preferred == 65535 {
        preferred
    } else if preferred + 1 == 65535 {
        65535
    } else {
        free_port((preferred + 1) as u16, used)
    }
}

/// A port that is given out is not used already, unless no other is left; it is the first such
/// from the preferred one on.
pub proof fn law_a_free_port_is_free(preferred: u16, used: Seq<u16>)
    ensures
        preferred <= free_port(preferred, used),
        !used.contains(free_port(preferred, used)) || free_port(preferred, used) == 65535,
        forall|p: u16|
            preferred <= p < free_port(preferred, used) ==> #[trigger] used.contains(p),
    decreases 65536 - preferred,
{
    if used.contains(preferred) && preferred < 65534 {
        law_a_free_port_is_free((preferred + 1) as u16, used);
    }
}

fn is_used(port: u16, used: &Vec<u16>) -> (r: bool)
    ensures
        r == used@.contains(port),
{
    let mut i: usize = 0;
    while i < used.len()
        invariant
            i <= used@.len(),
            forall|j: int| 0 <= j < i ==> used@[j] != port,
        decreases used@.len() - i,
    {
        if used[i] == port {
            return true;
        }
        i = i + 1;
    }
    false
}

/// The first port from `preferred` on that is not used.
pub fn next_free_port(preferred: u16, used: &Vec<u16>) -> (r: u16)
    ensures
        r == free_port(preferred, used@),
{
    let mut port: u16 = preferred;
    while is_used(port, used)
        invariant
            free_port(port, used@) == free_port(preferred, used@),
        decreases 65535 - port,
    {
        if port >= 65534 {
            return 65535;
        }
        port = port + 1;
    }
    port
}

// --- what is running ------------------------------------------------------

/// What the supervisor of a cluster says of it.
#[derive(Debug, Clone, Copy)]
pub struct Supervised {
    pub instance_id: Id,
    pub state: PgState,
}

/// What is found on the machine: the clusters that are supervised, and where the programs of
/// PostgreSQL are, if they were found.
#[derive(Debug)]
pub struct Surroundings {
    pub supervised: Vec<Supervised>,
    pub bin_dir: Option<String>,
}

/// What the supervisor of a cluster says, where it has one.
pub open spec fn supervised_as(supervised: Seq<Supervised>, id: Id) -> Option<PgState>
    decreases supervised.len(),
{
    if supervised.len() == 0 {
        None
    } else if supervised[0].instance_id == id {
        Some(supervised[0].state)
    } else {
        supervised_as(supervised.skip(1), id)
    }
}

/// What a cluster is doing; one that never had a supervisor is stopped.
pub open spec fn doing(around: Surroundings, id: Id) -> PgState {
    match supervised_as(around.supervised@, id) {
        Some(state) => state,
        None => PgState::Stopped,
    }
}

/// Whether a cluster can be connected to.
pub open spec fn reachable(s: State, around: Surroundings, id: Id) -> bool {
    rows::taken(s.instances, id) && doing(around, id) is Running && around.bin_dir is Some
}

/// Whether `conn` connects to the cluster.
pub open spec fn connects(s: State, around: Surroundings, id: Id, conn: PgConnInfo) -> bool {
    &&& around.bin_dir == Some(conn.bin_dir)
    &&& conn.host == rows::row_of(s.instances, id).data_dir
    &&& conn.port == rows::row_of(s.instances, id).port
    &&& conn.user@ == "postgres"@
}

/// Whether an error says why a cluster cannot be connected to.
pub open spec fn is_unreachable(s: State, around: Surroundings, id: Id, e: CoreError) -> bool {
    if !rows::taken(s.instances, id) {
        records::is_missing(e, "postgres instance "@, id)
    } else if !(doing(around, id) is Running) {
        e == (CoreError::PostgresInstanceNotRunning { instance_id: id, state: doing(around, id) })
    } else {
        around.bin_dir is None && (e matches CoreError::NotFound(m) && m@ == NO_POSTGRES@)
    }
}

/// Whether an error says why the cluster of a server cannot be connected to.
pub open spec fn server_is_out_of_reach(
    s: State,
    around: Surroundings,
    server_id: Id,
    e: CoreError,
) -> bool {
    if !rows::taken(s.servers, server_id) {
        records::is_missing(e, "server "@, server_id)
    } else {
        is_unreachable(
            s,
            around,
            rows::row_of(s.servers, server_id).postgres_instance_id,
            e,
        )
    }
}

/// What the supervisor of a cluster says, where it has one.
pub fn supervised_state(supervised: &Vec<Supervised>, id: Id) -> (r: Option<PgState>)
    ensures
        r == supervised_as(supervised@, id),
{
    let mut i: usize = 0;
    assert(supervised@.skip(0) =~= supervised@);
    while i < supervised.len()
        invariant
            i <= supervised@.len(),
            supervised_as(supervised@, id) == supervised_as(supervised@.skip(i as int), id),
        decreases supervised@.len() - i,
    {
        if supervised[i].instance_id == id {
            return Some(supervised[i].state);
        }
        assert(supervised@.skip(i as int).skip(1) =~= supervised@.skip(i + 1));
        i = i + 1;
    }
    None
}

// --- copying a project ----------------------------------------------------

/// The identifiers of the copy of one server and of the copies of its sources.
#[derive(Debug)]
pub struct CopyIds {
    pub server: Id,
    pub sources: Vec<Id>,
}

/// The ports of the copies: each the first that is free from the port of its server on.
pub open spec fn copy_ports(servers: Seq<OdooServer>, used: Seq<u16>) -> Seq<u16>
    decreases servers.len(),
{
    if servers.len() == 0 {
        Seq::empty()
    } else {
        let before = copy_ports(servers.drop_last(), used);
        before.push(free_port(servers.last().port, used + before))
    }
}

/// The copy of a server: its name, its version and its cluster, never started, and reloading
/// nothing.
pub open spec fn server_copy(
    server: OdooServer,
    id: Id,
    project_id: Id,
    port: u16,
    now: Moment,
) -> OdooServer {
    OdooServer {
        id,
        project_id: Some(project_id),
        port,
        state: ServerState::Stopped,
        reload: ReloadPolicy { reload_python: false, update_on_data_change: false },
        started_at: None,
        created_at: now,
        ..server
    }
}

/// The copies of servers.
pub open spec fn server_copies(
    servers: Seq<OdooServer>,
    used: Seq<u16>,
    ids: Seq<CopyIds>,
    project_id: Id,
    now: Moment,
) -> Seq<OdooServer> {
    Seq::new(
        servers.len(),
        |i: int|
            server_copy(servers[i], ids[i].server, project_id, copy_ports(servers, used)[i], now),
    )
}

/// The copies of the sources of one server.
pub open spec fn own_source_copies(sources: Seq<AddonsSource>, ids: CopyIds) -> Seq<AddonsSource> {
    Seq::new(
        sources.len(),
        |j: int| AddonsSource { id: ids.sources@[j], server_id: ids.server, ..sources[j] },
    )
}

/// The copies of the sources of servers.
pub open spec fn source_copies(
    servers: Seq<OdooServer>,
    sources: Seq<AddonsSource>,
    ids: Seq<CopyIds>,
) -> Seq<AddonsSource>
    decreases servers.len(),
{
    if servers.len() == 0 {
        Seq::empty()
    } else {
        source_copies(servers.drop_last(), sources, ids) + own_source_copies(
            rows::listing(sources, Some(servers.last().id)),
            ids[servers.len() - 1],
        )
    }
}

/// The copies of the sources of servers, server by server.
pub open spec fn source_groups(
    servers: Seq<OdooServer>,
    sources: Seq<AddonsSource>,
    ids: Seq<CopyIds>,
) -> Seq<Seq<AddonsSource>> {
    Seq::new(
        servers.len(),
        |i: int| own_source_copies(rows::listing(sources, Some(servers[i].id)), ids[i]),
    )
}

/// What is known once servers are added one after another, each with its sources; and the table
/// with a taken identifier, where one ended it.
pub open spec fn copied_over(
    s: State,
    servers: Seq<OdooServer>,
    groups: Seq<Seq<AddonsSource>>,
) -> (State, Option<Seq<char>>)
    decreases servers.len(),
{
    if servers.len() == 0 {
        (s, None)
    } else {
        let (before, ended) = copied_over(s, servers.drop_last(), groups.drop_last());
        let server = servers.last();
        let group = groups.last();
        if ended is Some {
            (before, ended)
        } else if rows::taken(before.servers, server.id) {
            (before, Some("servers"@))
        } else {
            (
                State {
                    servers: before.servers.push(server),
                    sources: rows::with_fitting(before.sources, group),
                    ..before
                },
                if rows::all_fit(before.sources, group) {
                    None
                } else {
                    Some("addons_sources"@)
                },
            )
        }
    }
}

/// The sources of servers, server by server.
spec fn groups_of(groups: Seq<Vec<AddonsSource>>) -> Seq<Seq<AddonsSource>> {
    groups.map_values(|g: Vec<AddonsSource>| g@)
}

/// Whether what a server belongs to is there.
spec fn fits_in(s: State, server: OdooServer) -> bool {
    &&& server.project_id matches Some(p) ==> rows::taken(s.projects, p)
    &&& rows::taken(s.instances, server.postgres_instance_id)
    &&& records::uptime_fits(server)
}

proof fn lemma_copying_ends(
    s: State,
    servers: Seq<OdooServer>,
    groups: Seq<Seq<AddonsSource>>,
    k: int,
)
    requires
        0 <= k <= servers.len(),
        servers.len() == groups.len(),
        copied_over(s, servers.take(k), groups.take(k)).1 is Some,
    ensures
        copied_over(s, servers, groups) == copied_over(s, servers.take(k), groups.take(k)),
    decreases servers.len() - k,
{
    if k == servers.len() {
        assert(servers.take(k) =~= servers);
        assert(groups.take(k) =~= groups);
    } else {
        assert(servers.take(k + 1).drop_last() =~= servers.take(k));
        assert(groups.take(k + 1).drop_last() =~= groups.take(k));
        lemma_copying_ends(s, servers, groups, k + 1);
    }
}

/// Where no identifier is taken, all servers and all their sources are added.
proof fn lemma_copied_in_full(
    s: State,
    servers: Seq<OdooServer>,
    copied: Seq<OdooServer>,
    sources: Seq<AddonsSource>,
    ids: Seq<CopyIds>,
)
    requires
        servers.len() == copied.len(),
    ensures
        copied_over(s, servers, source_groups(copied, sources, ids)).1 is None ==> copied_over(
            s,
            servers,
            source_groups(copied, sources, ids),
        ).0 == (State {
            servers: s.servers + servers,
            sources: s.sources + source_copies(copied, sources, ids),
            ..s
        }),
    decreases servers.len(),
{
    let groups = source_groups(copied, sources, ids);
    let (reached, ended) = copied_over(s, servers, groups);
    if servers.len() == 0 {
        assert(s.servers + servers =~= s.servers);
        assert(s.sources + source_copies(copied, sources, ids) =~= s.sources);
    } else if ended is None {
        let rest = servers.drop_last();
        lemma_copied_in_full(s, rest, copied.drop_last(), sources, ids);
        assert(groups.drop_last() =~= source_groups(copied.drop_last(), sources, ids));
        let before = copied_over(s, rest, groups.drop_last()).0;
        let group = groups.last();
        assert(group.take(group.len() as int) =~= group);
        assert(s.servers + servers =~= before.servers.push(servers.last()));
        assert(s.sources + source_copies(copied, sources, ids) =~= before.sources + group);
    }
}

/// Sources of servers that are there leave what is known sound.
proof fn lemma_added_sources(s: State, more: Seq<AddonsSource>)
    requires
        records::sound(s),
        rows::addable(s.sources, more),
        forall|i: int|
            0 <= i < more.len() ==> rows::taken(s.servers, (#[trigger] more[i]).server_id),
    ensures
        records::sound(State { sources: s.sources + more, ..s }),
{
    rows::lemma_added(s.sources, more);
    let after = s.sources + more;
    assert forall|i: int| 0 <= i < after.len() implies rows::taken(
        s.servers,
        (#[trigger] after[i]).server_id,
    ) by {
        if i < s.sources.len() {
            assert(after[i] == s.sources[i]);
        } else {
            assert(after[i] == more[i - s.sources.len()]);
        }
    }
}

/// Whether there are enough identifiers for the copies.
pub open spec fn enough_ids(
    servers: Seq<OdooServer>,
    sources: Seq<AddonsSource>,
    ids: Seq<CopyIds>,
) -> bool {
    &&& ids.len() >= servers.len()
    &&& forall|i: int|
        0 <= i < servers.len() ==> (#[trigger] ids[i]).sources@.len() >= rows::listing(
            sources,
            Some(servers[i].id),
        ).len()
}

/// The ports that servers use.
pub open spec fn ports_of(servers: Seq<OdooServer>) -> Seq<u16> {
    servers.map_values(|s: OdooServer| s.port)
}

proof fn lemma_copy_ports_len(servers: Seq<OdooServer>, used: Seq<u16>)
    ensures
        copy_ports(servers, used).len() == servers.len(),
    decreases servers.len(),
{
    if servers.len() > 0 {
        lemma_copy_ports_len(servers.drop_last(), used);
    }
}

/// The copies of a project never use a port twice, nor one that is used, as long as ports are
/// left.
pub proof fn law_copies_get_ports_of_their_own(servers: Seq<OdooServer>, used: Seq<u16>, i: int)
    requires
        0 <= i < servers.len(),
        copy_ports(servers, used)[i] != 65535,
    ensures
        !used.contains(copy_ports(servers, used)[i]),
        forall|j: int| 0 <= j < i ==> #[trigger] copy_ports(servers, used)[j] != copy_ports(
            servers,
            used,
        )[i],
    decreases servers.len(),
{
    let before = copy_ports(servers.drop_last(), used);
    lemma_copy_ports_len(servers.drop_last(), used);
    if i < servers.len() - 1 {
        law_copies_get_ports_of_their_own(servers.drop_last(), used, i);
        assert forall|j: int| 0 <= j < i implies #[trigger] copy_ports(servers, used)[j]
            != copy_ports(servers, used)[i] by {
            assert(copy_ports(servers, used)[j] == before[j]);
        }
    } else {
        let port = free_port(servers.last().port, used + before);
        law_a_free_port_is_free(servers.last().port, used + before);
        if used.contains(port) {
            let k = choose|k: int| 0 <= k < used.len() && used[k] == port;
            assert((used + before)[k] == port);
        }
        assert forall|j: int| 0 <= j < i implies #[trigger] copy_ports(servers, used)[j] != port by {
            if before[j] == port {
                assert((used + before)[used.len() + j] == port);
            }
        }
    }
}

fn copies_of_sources(entries: &Vec<&AddonsSource>, ids: &CopyIds) -> (r: Vec<AddonsSource>)
    requires
        ids.sources@.len() >= entries@.len(),
    ensures
        r@ == own_source_copies(order::owned(entries@), *ids),
{
    let mut out: Vec<AddonsSource> = Vec::new();
    let mut j: usize = 0;
    while j < entries.len()
        invariant
            j <= entries@.len() <= ids.sources@.len(),
            out@.len() == j,
            forall|k: int|
                0 <= k < j ==> #[trigger] out@[k] == (AddonsSource {
                    id: ids.sources@[k],
                    server_id: ids.server,
                    ..*entries@[k]
                }),
        decreases entries@.len() - j,
    {
        let mut copy = entries[j].clone();
        copy.id = ids.sources[j];
        copy.server_id = ids.server;
        out.push(copy);
        j = j + 1;
    }
    assert(out@ =~= own_source_copies(order::owned(entries@), *ids));
    out
}

// --- addons ---------------------------------------------------------------

/// A source that goes along when a database moves to another version.
#[derive(Debug)]
pub struct CarriedAddon {
    pub label: String,
    pub kind: SourceKind,
    pub path_or_url: String,
}

/// The sources that go along: all but those of Odoo itself.
pub open spec fn carried(sources: Seq<AddonsSource>) -> Seq<CarriedAddon>
    decreases sources.len(),
{
    if sources.len() == 0 {
        Seq::empty()
    } else {
        let before = carried(sources.drop_last());
        let s = sources.last();
        if s.kind is Core {
            before
        } else {
            before.push(CarriedAddon { label: s.label, kind: s.kind, path_or_url: s.path_or_url })
        }
    }
}

/// What comes of the request to copy a project.
pub open spec fn project_copied(
    before: State,
    after: State,
    r: Result<Project, CoreError>,
    project_id: Id,
    new_id: Id,
    new_name: String,
    ids: Seq<CopyIds>,
    stamp: Stamp,
) -> bool {
    let copied = rows::listing(before.servers, Some(project_id));
    let servers = server_copies(
        copied,
        ports_of(before.servers),
        ids,
        new_id,
        stamp.now,
    );
    let sources = source_copies(copied, before.sources, ids);
    let made = Project {
        id: new_id,
        name: new_name,
        color: (rows::row_of(before.projects, project_id).color % 6) as u8,
        created_at: stamp.now,
    };
    let (reached, ended) = copied_over(
        State { projects: before.projects.push(made), ..before },
        servers,
        source_groups(copied, before.sources, ids),
    );
    match r {
        Ok(project) => {
            &&& rows::taken(before.projects, project_id)
            &&& !rows::taken(before.projects, new_id)
            &&& ended is None
            &&& records::may_tell(before, stamp)
            &&& project == made
            &&& after == records::told(
                State {
                    projects: before.projects.push(project),
                    servers: before.servers + servers,
                    sources: before.sources + sources,
                    ..before
                },
                stamp,
                None,
                Event::ProjectDuplicated {
                    project_id: new_id,
                    source_project_id: project_id,
                    server_count: copied.len() as u32,
                },
            )
        },
        Err(e) => if !rows::taken(before.projects, project_id) {
            records::is_missing(e, "project "@, project_id) && after == before
        } else if rows::taken(before.projects, new_id) {
            rows::is_taken_error(e, "projects"@) && after == before
        } else {
            &&& after == reached
            &&& match ended {
                Some(table) => rows::is_taken_error(e, table),
                None => !records::may_tell(before, stamp) && rows::is_taken_error(
                    e,
                    "events"@,
                ),
            }
        },
    }
}

/// Whether a source has the path.
pub open spec fn has_path(sources: Seq<AddonsSource>, path: Seq<char>) -> bool {
    exists|i: int| 0 <= i < sources.len() && (#[trigger] sources[i]).path_or_url@ == path
}

/// The first rank behind all sources.
pub open spec fn rank_behind(sources: Seq<AddonsSource>) -> int
    decreases sources.len(),
{
    if sources.len() == 0 {
        0
    } else {
        let before = rank_behind(sources.drop_last());
        let next = sources.last().rank + 1;
        if next > before {
            next
        } else {
            before
        }
    }
}

/// The sources that come of addons folders: those whose path is not there yet, ranked on from
/// `rank` in the order in which they stand.
pub open spec fn sources_from(
    roots: Seq<DiscoveredRoot>,
    existing: Seq<AddonsSource>,
    ids: Seq<Id>,
    server_id: Id,
) -> Seq<AddonsSource>
    decreases roots.len(),
{
    if roots.len() == 0 {
        Seq::empty()
    } else {
        let before = sources_from(roots.drop_last(), existing, ids, server_id);
        let root = roots.last();
        if has_path(existing, root.path@) {
            before
        } else {
            before.push(
                AddonsSource {
                    id: ids[before.len() as int],
                    server_id,
                    label: root.label,
                    path_or_url: root.path,
                    kind: root.kind,
                    rank: (rank_behind(existing) + before.len()) as u32,
                },
            )
        }
    }
}

proof fn lemma_sources_from_len(
    roots: Seq<DiscoveredRoot>,
    existing: Seq<AddonsSource>,
    ids: Seq<Id>,
    server_id: Id,
)
    ensures
        sources_from(roots, existing, ids, server_id).len() <= roots.len(),
        forall|i: int|
            0 <= i < sources_from(roots, existing, ids, server_id).len() ==> (
            #[trigger] sources_from(roots, existing, ids, server_id)[i]).server_id == server_id,
    decreases roots.len(),
{
    if roots.len() > 0 {
        lemma_sources_from_len(roots.drop_last(), existing, ids, server_id);
    }
}

proof fn lemma_every_path_is_there(
    roots: Seq<DiscoveredRoot>,
    existing: Seq<AddonsSource>,
    ids: Seq<Id>,
    server_id: Id,
    i: int,
)
    requires
        0 <= i < roots.len(),
    ensures
        has_path(existing, roots[i].path@) || has_path(
            sources_from(roots, existing, ids, server_id),
            roots[i].path@,
        ),
    decreases roots.len(),
{
    let rest = roots.drop_last();
    let before = sources_from(rest, existing, ids, server_id);
    let all = sources_from(roots, existing, ids, server_id);
    if i < rest.len() {
        lemma_every_path_is_there(rest, existing, ids, server_id, i);
        assert(rest[i] == roots[i]);
        if has_path(before, roots[i].path@) {
            let k = choose|k: int|
                0 <= k < before.len() && (#[trigger] before[k]).path_or_url@ == roots[i].path@;
            assert(all[k] == before[k]);
        }
    } else if !has_path(existing, roots[i].path@) {
        assert(all[before.len() as int].path_or_url@ == roots[i].path@);
    }
}

proof fn lemma_nothing_to_adopt(
    roots: Seq<DiscoveredRoot>,
    existing: Seq<AddonsSource>,
    ids: Seq<Id>,
    server_id: Id,
)
    requires
        forall|i: int| 0 <= i < roots.len() ==> has_path(existing, (#[trigger] roots[i]).path@),
    ensures
        sources_from(roots, existing, ids, server_id).len() == 0,
    decreases roots.len(),
{
    if roots.len() > 0 {
        let rest = roots.drop_last();
        assert forall|i: int| 0 <= i < rest.len() implies has_path(
            existing,
            (#[trigger] rest[i]).path@,
        ) by {
            assert(rest[i] == roots[i]);
        }
        lemma_nothing_to_adopt(rest, existing, ids, server_id);
        assert(roots.last() == roots[roots.len() - 1]);
    }
}

/// Folders that were adopted are not adopted again.
pub proof fn law_folders_are_adopted_once(
    sources: Seq<AddonsSource>,
    roots: Seq<DiscoveredRoot>,
    ids: Seq<Id>,
    later_ids: Seq<Id>,
    server_id: Id,
)
    ensures
        ({
            let existing = rows::listing(sources, Some(server_id));
            let after = sources + sources_from(roots, existing, ids, server_id);
            sources_from(
                roots,
                rows::listing(after, Some(server_id)),
                later_ids,
                server_id,
            ).len() == 0
        }),
{
    let existing = rows::listing(sources, Some(server_id));
    let more = sources_from(roots, existing, ids, server_id);
    let after = sources + more;
    let listed = rows::listing(after, Some(server_id));
    lemma_sources_from_len(roots, existing, ids, server_id);
    assert forall|i: int| 0 <= i < roots.len() implies has_path(
        listed,
        (#[trigger] roots[i]).path@,
    ) by {
        let path = roots[i].path@;
        lemma_every_path_is_there(roots, existing, ids, server_id, i);
        let held = if has_path(existing, path) {
            let k = choose|k: int|
                0 <= k < existing.len() && (#[trigger] existing[k]).path_or_url@ == path;
            existing[k]
        } else {
            let k = choose|k: int| 0 <= k < more.len() && (#[trigger] more[k]).path_or_url@ == path;
            more[k]
        };
        if has_path(existing, path) {
            assert(existing.contains(held));
            rows::lemma_listed_is_there(sources, server_id, held);
            let k = choose|k: int| 0 <= k < sources.len() && sources[k] == held;
            assert(after[k] == held);
        } else {
            let k = choose|k: int| 0 <= k < more.len() && (#[trigger] more[k]).path_or_url@ == path;
            assert(after[sources.len() + k] == held);
            assert(held.server_id == server_id);
        }
        rows::lemma_is_listed(after, server_id, held);
        let k = choose|k: int| 0 <= k < listed.len() && listed[k] == held;
        assert(listed[k].path_or_url@ == path);
    }
    lemma_nothing_to_adopt(roots, listed, later_ids, server_id);
}

/// What comes of the request to take over folders of modules.
pub open spec fn roots_adopted(
    before: State,
    after: State,
    r: Result<Vec<AddonsSource>, CoreError>,
    server_id: Id,
    roots: Seq<DiscoveredRoot>,
    ids: Seq<Id>,
) -> bool {
    let existing = rows::listing(before.sources, Some(server_id));
    let more = sources_from(roots, existing, ids, server_id);
    match r {
        Ok(added) => {
            &&& added@ == more
            &&& more.len() > 0 ==> rows::taken(before.servers, server_id)
            &&& rows::all_fit(before.sources, more)
            &&& after == (State {
                sources: before.sources + more,
                ..before
            })
        },
        Err(e) => if !rows::taken(before.servers, server_id) {
            &&& more.len() > 0
            &&& records::is_missing(e, "server "@, server_id)
            &&& after == before
        } else {
            &&& !rows::all_fit(before.sources, more)
            &&& rows::is_taken_error(e, "addons_sources"@)
            &&& after == (State {
                sources: rows::with_fitting(before.sources, more),
                ..before
            })
        },
    }
}

/// The first source of somebody's own code.
pub open spec fn own_code(sources: Seq<AddonsSource>) -> Option<AddonsSource>
    decreases sources.len(),
{
    if sources.len() == 0 {
        None
    } else if own_code(sources.drop_last()) is Some {
        own_code(sources.drop_last())
    } else if sources.last().kind is Private {
        Some(sources.last())
    } else {
        None
    }
}

/// When a server that comes into the state was started: a running one now; one that is over, not
/// at all.
pub open spec fn started_when(state: ServerState, before: Option<Moment>, now: Moment) -> Option<
    Moment,
> {
    match state {
        ServerState::Running => Some(now),
        ServerState::Stopped => None,
        ServerState::Crashed { .. } => None,
        ServerState::Starting => before,
        ServerState::Stopping => before,
    }
}

impl Core {
    // --- clusters ---------------------------------------------------------

    /// Makes a cluster known.
    pub fn create_postgres_instance(
        &mut self,
        id: Id,
        label: String,
        pg_version: String,
        port: u16,
        data_dir: String,
        stamp: &Stamp,
    ) -> (r: Result<PostgresInstance, CoreError>)
        ensures
            match r {
                Ok(instance) => {
                    &&& !rows::taken(old(self)@.instances, id)
                    &&& records::may_tell(old(self)@, *stamp)
                    &&& instance == (PostgresInstance {
                        id,
                        label,
                        pg_version,
                        port,
                        data_dir,
                        created_at: stamp.now,
                    })
                    &&& final(self)@ == records::told(
                        State {
                            instances: old(self)@.instances.push(instance),
                            ..old(self)@
                        },
                        *stamp,
                        None,
                        Event::PostgresInstanceCreated { instance_id: id, label, pg_version },
                    )
                },
                Err(e) => if rows::taken(old(self)@.instances, id) {
                    rows::is_taken_error(e, "postgres_instances"@) && final(self)@ == old(self)@
                } else {
                    let instance = PostgresInstance {
                        id,
                        label,
                        pg_version,
                        port,
                        data_dir,
                        created_at: stamp.now,
                    };
                    &&& !records::may_tell(old(self)@, *stamp)
                    &&& rows::is_taken_error(e, "events"@)
                    &&& final(self)@ == (State {
                        instances: old(self)@.instances.push(instance),
                        ..old(self)@
                    })
                },
            },
            records::sound(old(self)@) ==> records::sound(final(self)@),
    {
        if rows::find(&self.instances, id).is_some() {
            return Err(records::taken_error("postgres_instances"));
        }
        let instance = PostgresInstance::new(id, label, pg_version, port, data_dir, stamp.now);
        proof {
            records::lemma_still_taken(self@.instances, instance);
            if records::sound(self@) {
                rows::lemma_push_distinct(self@.instances, instance);
            }
        }
        self.instances.push(instance.clone());
        if let Err(e) = self.can_record(stamp) {
            return Err(e);
        }
        let label = instance.label.clone();
        let pg_version = instance.pg_version.clone();
        self.record(
            stamp,
            None,
            Event::PostgresInstanceCreated { instance_id: id, label, pg_version },
        );
        Ok(instance)
    }

    /// All clusters, in the order in which they were made known.
    pub fn list_postgres_instances(&self) -> (r: Vec<&PostgresInstance>)
        ensures
            order::owned(r@) == rows::listing(self@.instances, None),
    {
        rows::list(&self.instances, None)
    }

    /// The cluster with the identifier.
    pub fn get_postgres_instance(&self, id: Id) -> (r: Result<PostgresInstance, CoreError>)
        ensures
            match r {
                Ok(instance) => rows::taken(self@.instances, id) && instance == rows::row_of(
                    self@.instances,
                    id,
                ),
                Err(e) => !rows::taken(self@.instances, id) && records::is_missing(
                    e,
                    "postgres instance "@,
                    id,
                ),
            },
    {
        match rows::find(&self.instances, id) {
            Some(k) => Ok(self.instances[k].clone()),
            None => Err(records::missing("postgres instance ", id)),
        }
    }

    /// What a cluster is doing: `supervised` is what its supervisor says, where it has one; a
    /// cluster that never had one is stopped.
    pub fn postgres_instance_state(&self, id: Id, supervised: Option<PgState>) -> (r: Result<
        PgState,
        CoreError,
    >)
        ensures
            match r {
                Ok(state) => rows::taken(self@.instances, id) && state == (match supervised {
                    Some(state) => state,
                    None => PgState::Stopped,
                }),
                Err(e) => !rows::taken(self@.instances, id) && records::is_missing(
                    e,
                    "postgres instance "@,
                    id,
                ),
            },
    {
        match self.get_postgres_instance(id) {
            Ok(_) => match supervised {
                Some(state) => Ok(state),
                None => Ok(PgState::Stopped),
            },
            Err(e) => Err(e),
        }
    }

    /// How to connect to a cluster, which has to be running.
    pub fn pg_conn_info_for_running_instance(&self, id: Id, around: &Surroundings) -> (r: Result<
        PgConnInfo,
        CoreError,
    >)
        ensures
            match r {
                Ok(conn) => reachable(self@, *around, id) && connects(self@, *around, id, conn),
                Err(e) => is_unreachable(self@, *around, id, e),
            },
    {
        let instance = match self.get_postgres_instance(id) {
            Ok(instance) => instance,
            Err(e) => {
                return Err(e);
            },
        };
        let state = match supervised_state(&around.supervised, id) {
            Some(state) => state,
            None => PgState::Stopped,
        };
        match state {
            PgState::Running { .. } => {},
            _ => {
                return Err(CoreError::PostgresInstanceNotRunning { instance_id: id, state });
            },
        }
        match &around.bin_dir {
            Some(dir) => Ok(PgConnInfo::new(dir.clone(), instance.data_dir, instance.port)),
            None => Err(CoreError::NotFound(NO_POSTGRES.to_owned())),
        }
    }

    /// A server and how to connect to its cluster.
    pub fn server_connection(&self, server_id: Id, around: &Surroundings) -> (r: Result<
        (OdooServer, PgConnInfo),
        CoreError,
    >)
        ensures
            match r {
                Ok((server, conn)) => {
                    &&& rows::taken(self@.servers, server_id)
                    &&& server == rows::row_of(self@.servers, server_id)
                    &&& reachable(self@, *around, server.postgres_instance_id)
                    &&& connects(self@, *around, server.postgres_instance_id, conn)
                },
                Err(e) => server_is_out_of_reach(self@, *around, server_id, e),
            },
    {
        let server = match self.get_server(server_id) {
            Ok(server) => server,
            Err(e) => {
                return Err(e);
            },
        };
        match self.pg_conn_info_for_running_instance(server.postgres_instance_id, around) {
            Ok(conn) => Ok((server, conn)),
            Err(e) => Err(e),
        }
    }

    // --- servers ----------------------------------------------------------

    /// Makes a server that is in no project.
    pub fn create_server(
        &mut self,
        id: Id,
        name: String,
        odoo_version: String,
        port: u16,
        postgres_instance_id: Id,
        stamp: &Stamp,
    ) -> (r: Result<OdooServer, CoreError>)
        ensures
            server_made(
                old(self)@,
                final(self)@,
                r,
                id,
                name,
                odoo_version,
                port,
                postgres_instance_id,
                None,
                *stamp,
            ),
            records::sound(old(self)@) ==> records::sound(final(self)@),
    {
        self.create_server_in_project(
            id,
            name,
            odoo_version,
            port,
            postgres_instance_id,
            None,
            stamp,
        )
    }

    /// Makes a server; its cluster, and its project where it is to have one, have to be there.
    pub fn create_server_in_project(
        &mut self,
        id: Id,
        name: String,
        odoo_version: String,
        port: u16,
        postgres_instance_id: Id,
        project_id: Option<Id>,
        stamp: &Stamp,
    ) -> (r: Result<OdooServer, CoreError>)
        ensures
            server_made(
                old(self)@,
                final(self)@,
                r,
                id,
                name,
                odoo_version,
                port,
                postgres_instance_id,
                project_id,
                *stamp,
            ),
            records::sound(old(self)@) ==> records::sound(final(self)@),
    {
        if rows::find(&self.instances, postgres_instance_id).is_none() {
            return Err(records::missing("postgres instance ", postgres_instance_id));
        }
        let mut server = OdooServer::new(
            id,
            name,
            odoo_version,
            port,
            postgres_instance_id,
            stamp.now,
        );
        if let Some(project_id) = project_id {
            if rows::find(&self.projects, project_id).is_none() {
                return Err(records::missing("project ", project_id));
            }
            server = server.in_project(project_id);
        }
        if rows::find(&self.servers, id).is_some() {
            return Err(records::taken_error("servers"));
        }
        proof {
            records::lemma_still_taken(self@.servers, server);
            if records::sound(self@) {
                rows::lemma_push_distinct(self@.servers, server);
            }
        }
        self.servers.push(server.clone());
        if let Err(e) = self.can_record(stamp) {
            return Err(e);
        }
        let name = server.name.clone();
        let odoo_version = server.odoo_version.clone();
        self.record(
            stamp,
            None,
            Event::ServerCreated { server_id: id, name, odoo_version, postgres_instance_id },
        );
        Ok(server)
    }

    /// All servers, in the order in which they were made.
    pub fn list_servers(&self) -> (r: Vec<&OdooServer>)
        ensures
            order::owned(r@) == rows::listing(self@.servers, None),
    {
        rows::list(&self.servers, None)
    }

    /// The server with the identifier.
    pub fn get_server(&self, server_id: Id) -> (r: Result<OdooServer, CoreError>)
        ensures
            match r {
                Ok(server) => rows::taken(self@.servers, server_id) && server == rows::row_of(
                    self@.servers,
                    server_id,
                ),
                Err(e) => !rows::taken(self@.servers, server_id) && records::is_missing(
                    e,
                    "server "@,
                    server_id,
                ),
            },
    {
        match rows::find(&self.servers, server_id) {
            Some(k) => Ok(self.servers[k].clone()),
            None => Err(records::missing("server ", server_id)),
        }
    }

    fn change_server(&mut self, k: usize, server: OdooServer)
        requires
            k < old(self)@.servers.len(),
            server.id == old(self)@.servers[k as int].id,
            server.postgres_instance_id == old(self)@.servers[k as int].postgres_instance_id,
            server.project_id == old(self)@.servers[k as int].project_id || (
            server.project_id matches Some(p) && rows::taken(old(self)@.projects, p)),
            records::uptime_fits(old(self)@.servers[k as int]) ==> records::uptime_fits(server),
        ensures
            final(self)@ == (State {
                servers: old(self)@.servers.update(k as int, server),
                ..old(self)@
            }),
            records::sound(old(self)@) ==> records::sound(final(self)@),
    {
        proof {
            records::lemma_as_taken(self@.servers, k as int, server);
        }
        self.servers.set(k, server);
    }

    /// Files a server under a project.
    pub fn move_server_to_project(&mut self, server_id: Id, project_id: Id) -> (r: Result<
        OdooServer,
        CoreError,
    >)
        ensures
            server_moved(old(self)@, final(self)@, r, server_id, project_id),
            records::sound(old(self)@) ==> records::sound(final(self)@),
    {
        let k = match rows::find(&self.servers, server_id) {
            Some(k) => k,
            None => {
                return Err(records::missing("server ", server_id));
            },
        };
        if rows::find(&self.projects, project_id).is_none() {
            return Err(records::missing("project ", project_id));
        }
        let server = self.servers[k].clone().in_project(project_id);
        self.change_server(k, server.clone());
        Ok(server)
    }

    /// Says what a server does when code on disk changes.
    pub fn set_reload_policy(&mut self, server_id: Id, policy: ReloadPolicy) -> (r: Result<
        OdooServer,
        CoreError,
    >)
        ensures
            policy_set(old(self)@, final(self)@, r, server_id, policy),
            records::sound(old(self)@) ==> records::sound(final(self)@),
    {
        let k = match rows::find(&self.servers, server_id) {
            Some(k) => k,
            None => {
                return Err(records::missing("server ", server_id));
            },
        };
        let mut server = self.servers[k].clone();
        server.reload = policy;
        self.change_server(k, server.clone());
        Ok(server)
    }

    /// Notes what a server is doing, and with it since when it runs; a server that is not there
    /// is passed over.
    pub fn update_server_state(&mut self, server_id: Id, state: ServerState, now: Moment)
        ensures
            state_noted(old(self)@, final(self)@, server_id, state, now),
            records::sound(old(self)@) ==> records::sound(final(self)@),
    {
        if let Some(k) = rows::find(&self.servers, server_id) {
            let mut server = self.servers[k].clone();
            server.state = state;
            match state {
                ServerState::Running => {
                    server.started_at = Some(now);
                },
                ServerState::Stopped | ServerState::Crashed { .. } => {
                    server.started_at = None;
                },
                ServerState::Starting | ServerState::Stopping => {},
            }
            self.change_server(k, server);
        }
    }

    // --- sources ----------------------------------------------------------

    /// Adds a source of modules to a server.
    pub fn create_addons_source(
        &mut self,
        id: Id,
        server_id: Id,
        label: String,
        path_or_url: String,
        kind: SourceKind,
        rank: u32,
    ) -> (r: Result<AddonsSource, CoreError>)
        ensures
            match r {
                Ok(source) => {
                    &&& rows::taken(old(self)@.servers, server_id)
                    &&& !rows::taken(old(self)@.sources, id)
                    &&& source == (AddonsSource { id, server_id, label, path_or_url, kind, rank })
                    &&& final(self)@ == (State {
                        sources: old(self)@.sources.push(source),
                        ..old(self)@
                    })
                },
                Err(e) => {
                    &&& final(self)@ == old(self)@
                    &&& if !rows::taken(old(self)@.servers, server_id) {
                        records::is_missing(e, "server "@, server_id)
                    } else {
                        rows::taken(old(self)@.sources, id) && rows::is_taken_error(
                            e,
                            "addons_sources"@,
                        )
                    }
                },
            },
            records::sound(old(self)@) ==> records::sound(final(self)@),
    {
        if rows::find(&self.servers, server_id).is_none() {
            return Err(records::missing("server ", server_id));
        }
        let source = AddonsSource { id, server_id, label, path_or_url, kind, rank };
        proof {
            if records::sound(self@) && !rows::taken(self@.sources, id) {
                rows::lemma_push_distinct(self@.sources, source);
            }
        }
        match rows::insert(&mut self.sources, source.clone(), "addons_sources") {
            Ok(_) => Ok(source),
            Err(e) => Err(e),
        }
    }

    /// The sources of a server, the first to load first.
    pub fn list_addons_sources(&self, server_id: Id) -> (r: Vec<&AddonsSource>)
        ensures
            order::owned(r@) == rows::listing(self@.sources, Some(server_id)),
    {
        rows::list(&self.sources, Some(server_id))
    }

    /// The sources of a server that go along to another version.
    pub fn carried_addons_for(&self, server_id: Id) -> (r: Vec<CarriedAddon>)
        ensures
            r@ == carried(rows::listing(self@.sources, Some(server_id))),
    {
        let sources = self.list_addons_sources(server_id);
        let ghost all = order::owned(sources@);
        let mut out: Vec<CarriedAddon> = Vec::new();
        let mut i: usize = 0;
        assert(all.take(0) =~= Seq::<AddonsSource>::empty());
        while i < sources.len()
            invariant
                i <= sources@.len(),
                all == order::owned(sources@),
                out@ == carried(all.take(i as int)),
            decreases sources@.len() - i,
        {
            let s = sources[i];
            proof {
                assert(all.take(i + 1).drop_last() =~= all.take(i as int));
                assert(all.take(i + 1).last() == *s);
            }
            match s.kind {
                SourceKind::Core => {},
                _ => {
                    out.push(
                        CarriedAddon {
                            label: s.label.clone(),
                            kind: s.kind,
                            path_or_url: s.path_or_url.clone(),
                        },
                    );
                },
            }
            i = i + 1;
        }
        assert(all.take(i as int) =~= all);
        out
    }

    /// Adds addons folders that were found to a server, behind the sources that it has and
    /// without those that it has already. `ids` are the identifiers of the new sources.
    pub fn adopt_addons_roots(
        &mut self,
        server_id: Id,
        roots: &Vec<DiscoveredRoot>,
        ids: &Vec<Id>,
    ) -> (r: Result<Vec<AddonsSource>, CoreError>)
        requires
            ids@.len() >= roots@.len(),
            rank_behind(rows::listing(old(self)@.sources, Some(server_id))) + roots@.len()
                <= u32::MAX,
        ensures
            roots_adopted(old(self)@, final(self)@, r, server_id, roots@, ids@),
            records::sound(old(self)@) ==> records::sound(final(self)@),
    {
        let ghost before = self@;
        let ghost existing = rows::listing(self@.sources, Some(server_id));
        let mut added: Vec<AddonsSource> = Vec::new();
        {
            let current = self.list_addons_sources(server_id);
            let first: u32 = first_rank_behind(&current);
            let mut i: usize = 0;
            assert(roots@.take(0) =~= Seq::<DiscoveredRoot>::empty());
            while i < roots.len()
                invariant
                    i <= roots@.len() <= ids@.len(),
                    existing == order::owned(current@),
                    first == rank_behind(existing),
                    first + roots@.len() <= u32::MAX,
                    added@.len() <= i,
                    added@ == sources_from(roots@.take(i as int), existing, ids@, server_id),
                decreases roots@.len() - i,
            {
                proof {
                    assert(roots@.take(i + 1).drop_last() =~= roots@.take(i as int));
                    assert(roots@.take(i + 1).last() == roots@[i as int]);
                }
                let root = &roots[i];
                if !path_is_there(&current, root.path.as_str()) {
                    let n: usize = added.len();
                    added.push(
                        AddonsSource {
                            id: ids[n],
                            server_id,
                            label: root.label.clone(),
                            path_or_url: root.path.clone(),
                            kind: root.kind,
                            rank: first + (n as u32),
                        },
                    );
                }
                i = i + 1;
            }
            assert(roots@.take(i as int) =~= roots@);
        }
        if added.len() > 0 {
            if rows::find(&self.servers, server_id).is_none() {
                return Err(records::missing("server ", server_id));
            }
        }
        proof {
            let fits = rows::fitting(self@.sources, added@) as int;
            rows::lemma_fitting(self@.sources, added@);
            lemma_sources_from_len(roots@, existing, ids@, server_id);
            assert(added@.take(added@.len() as int) =~= added@);
            if records::sound(before) {
                lemma_added_sources(before, added@.take(fits));
            }
        }
        let more = copies(&added);
        match rows::insert_all(&mut self.sources, more, "addons_sources") {
            Ok(_) => Ok(added),
            Err(e) => Err(e),
        }
    }

    /// The folder whose branch is the branch of a server: its first source of somebody's own
    /// code.
    pub fn branch_folder(&self, server_id: Id) -> (r: Result<Option<String>, CoreError>)
        ensures
            match r {
                Ok(folder) => rows::taken(self@.servers, server_id) && match own_code(
                    rows::listing(self@.sources, Some(server_id)),
                ) {
                    Some(source) => folder == Some(source.path_or_url),
                    None => folder is None,
                },
                Err(e) => !rows::taken(self@.servers, server_id) && records::is_missing(
                    e,
                    "server "@,
                    server_id,
                ),
            },
    {
        if rows::find(&self.servers, server_id).is_none() {
            return Err(records::missing("server ", server_id));
        }
        let sources = self.list_addons_sources(server_id);
        let ghost all = order::owned(sources@);
        let mut i: usize = 0;
        assert(all.take(0) =~= Seq::<AddonsSource>::empty());
        while i < sources.len()
            invariant
                i <= sources@.len(),
                all == order::owned(sources@),
                all == rows::listing(self@.sources, Some(server_id)),
                own_code(all.take(i as int)) is None,
                rows::taken(self@.servers, server_id),
            decreases sources@.len() - i,
        {
            let s = sources[i];
            proof {
                assert(all.take(i + 1).drop_last() =~= all.take(i as int));
                assert(all.take(i + 1).last() == *s);
            }
            match s.kind {
                SourceKind::Private => {
                    proof {
                        lemma_own_code_stays(all, i + 1);
                    }
                    return Ok(Some(s.path_or_url.clone()));
                },
                _ => {},
            }
            i = i + 1;
        }
        assert(all.take(i as int) =~= all);
        Ok(None)
    }

    /// The branch of a server: `said` is what the folder of its own code is on, or why there is
    /// no telling; it is asked only where there is such a folder.
    pub fn current_git_branch(&self, server_id: Id, said: Option<Result<String, GitError>>) -> (r:
        Result<Option<String>, CoreError>)
        ensures
            match r {
                Ok(branch) => {
                    &&& rows::taken(self@.servers, server_id)
                    &&& branch == (match own_code(
                        rows::listing(self@.sources, Some(server_id)),
                    ) {
                        Some(_) => match said {
                            Some(Ok(branch)) => Some(branch),
                            _ => None,
                        },
                        None => None,
                    })
                },
                Err(e) => !rows::taken(self@.servers, server_id) && records::is_missing(
                    e,
                    "server "@,
                    server_id,
                ),
            },
    {
        match self.branch_folder(server_id) {
            Ok(Some(_)) => match said {
                Some(Ok(branch)) => Ok(Some(branch)),
                _ => Ok(None),
            },
            Ok(None) => Ok(None),
            Err(e) => Err(e),
        }
    }

    /// Reads the modules of a server: `scanned` are its sources with what their folders hold.
    pub fn scan_modules(&mut self, server_id: Id, scanned: &Vec<ScannedSource>, stamp: &Stamp) -> (r:
        Result<ModuleScan, CoreError>)
        ensures
            match r {
                Ok(scan) => {
                    &&& rows::taken(old(self)@.servers, server_id)
                    &&& records::may_tell(old(self)@, *stamp)
                    &&& modules::is_scan_of(scan, server_id, stamp.now, scanned@)
                    &&& final(self)@ == records::told(
                        old(self)@,
                        *stamp,
                        None,
                        Event::ModulesScanned {
                            server_id,
                            module_count: scan.modules@.len() as u32,
                            shadow_count: scan.collisions@.len() as u32,
                        },
                    )
                },
                Err(e) => {
                    &&& final(self)@ == old(self)@
                    &&& if !rows::taken(old(self)@.servers, server_id) {
                        records::is_missing(e, "server "@, server_id)
                    } else {
                        !records::may_tell(old(self)@, *stamp) && rows::is_taken_error(
                            e,
                            "events"@,
                        )
                    }
                },
            },
            records::sound(old(self)@) ==> records::sound(final(self)@),
    {
        if rows::find(&self.servers, server_id).is_none() {
            return Err(records::missing("server ", server_id));
        }
        if let Err(e) = self.can_record(stamp) {
            return Err(e);
        }
        let scan = modules::scan(server_id, stamp.now, scanned);
        self.record(
            stamp,
            None,
            Event::ModulesScanned {
                server_id,
                module_count: scan.modules.len() as u32,
                shadow_count: scan.collisions.len() as u32,
            },
        );
        Ok(scan)
    }

    // --- projects with their servers --------------------------------------

    /// Files every server that is in no project under a new one. Where there is none, nothing
    /// happens.
    pub fn adopt_orphan_servers(&mut self, id: Id, stamp: &Stamp) -> (r: Result<(), CoreError>)
        ensures
            orphans_adopted(old(self)@, final(self)@, r, id, *stamp),
            records::sound(old(self)@) ==> records::sound(final(self)@),
    {
        let ghost before = self@;
        let mut adopted: Vec<OdooServer> = Vec::new();
        let mut count: usize = 0;
        let mut i: usize = 0;
        assert(before.servers.take(0) =~= Seq::<OdooServer>::empty());
        while i < self.servers.len()
            invariant
                i <= self.servers@.len(),
                before == self@,
                count <= i,
                count == orphans(before.servers.take(i as int)),
                adopted@.len() == i,
                forall|j: int|
                    0 <= j < i ==> #[trigger] adopted@[j] == filed_under(before.servers[j], id),
            decreases self.servers@.len() - i,
        {
            proof {
                assert(before.servers.take(i + 1).drop_last() =~= before.servers.take(i as int));
                assert(before.servers.take(i + 1).last() == before.servers[i as int]);
            }
            let server = self.servers[i].clone();
            match server.project_id {
                Some(_) => {
                    adopted.push(server);
                },
                None => {
                    count = count + 1;
                    adopted.push(server.in_project(id));
                },
            }
            i = i + 1;
        }
        assert(before.servers.take(i as int) =~= before.servers);
        assert(adopted@ =~= all_filed_under(before.servers, id));
        if count == 0 {
            return Ok(());
        }
        if rows::find(&self.projects, id).is_some() {
            return Err(records::taken_error("projects"));
        }
        let project = Project::new(id, "My work".to_owned(), 0, stamp.now);
        let mut name = text::joined(project.name.as_str(), " (");
        name.append(text::decimal(count as u64).as_str());
        name.append(" existing)");
        proof {
            records::lemma_still_taken(self@.projects, project);
            rows::lemma_push_taken(self@.projects, project, id);
            if records::sound(before) {
                rows::lemma_push_distinct(self@.projects, project);
                lemma_filing_is_sound(before, id, self@.projects.push(project));
            }
        }
        self.projects.push(project);
        self.servers = adopted;
        assert(orphan_project(project, id, *stamp));
        let ghost middle = self@;
        assert(middle =~= State {
            projects: before.projects.push(project),
            servers: all_filed_under(before.servers, id),
            ..before
        });
        if let Err(e) = self.can_record(stamp) {
            return Err(e);
        }
        self.record(stamp, None, Event::ProjectCreated { project_id: id, name });
        assert(name@ == "My work"@ + " ("@ + text::decimal_of(count as nat) + " existing)"@);
        Ok(())
    }

    /// Makes a copy of a project: its servers, on ports of their own, with their sources, and
    /// none of their databases. `ids` are the identifiers of the copies.
    pub fn duplicate_project(
        &mut self,
        project_id: Id,
        new_id: Id,
        new_name: String,
        ids: &Vec<CopyIds>,
        stamp: &Stamp,
    ) -> (r: Result<Project, CoreError>)
        requires
            enough_ids(
                rows::listing(old(self)@.servers, Some(project_id)),
                old(self)@.sources,
                ids@,
            ),
        ensures
            project_copied(old(self)@, final(self)@, r, project_id, new_id, new_name, ids@, *stamp),
            records::sound(old(self)@) ==> records::sound(final(self)@),
    {
        let ghost before = self@;
        let ghost copied = rows::listing(self@.servers, Some(project_id));
        let color: u8 = match rows::find(&self.projects, project_id) {
            Some(k) => self.projects[k].color,
            None => {
                return Err(records::missing("project ", project_id));
            },
        };
        if rows::find(&self.projects, new_id).is_some() {
            return Err(records::taken_error("projects"));
        }
        let mut used = self.used_ports();
        let mut servers: Vec<OdooServer> = Vec::new();
        let mut groups: Vec<Vec<AddonsSource>> = Vec::new();
        let count: usize;
        {
            let originals = rows::list(&self.servers, Some(project_id));
            let ghost taken_ports = used@;
            count = originals.len();
            let mut i: usize = 0;
            assert(copied.take(0) =~= Seq::<OdooServer>::empty());
            assert(used@ =~= taken_ports + copy_ports(copied.take(0), taken_ports));
            while i < originals.len()
                invariant
                    i <= originals@.len() == copied.len() == count,
                    before == self@,
                    copied == order::owned(originals@),
                    enough_ids(copied, before.sources, ids@),
                    used@ == taken_ports + copy_ports(copied.take(i as int), taken_ports),
                    servers@.len() == i,
                    copy_ports(copied.take(i as int), taken_ports).len() == i,
                    forall|j: int|
                        0 <= j < i ==> #[trigger] servers@[j] == server_copy(
                            copied[j],
                            ids@[j].server,
                            new_id,
                            copy_ports(copied.take(i as int), taken_ports)[j],
                            stamp.now,
                        ),
                    groups@.len() == i,
                    forall|j: int|
                        0 <= j < i ==> #[trigger] groups@[j]@ == source_groups(
                            copied,
                            before.sources,
                            ids@,
                        )[j],
                decreases originals@.len() - i,
            {
                let original = originals[i];
                let ghost ports = copy_ports(copied.take(i as int), taken_ports);
                proof {
                    assert(copied.take(i + 1).drop_last() =~= copied.take(i as int));
                    assert(copied.take(i + 1).last() == *original);
                }
                let port: u16 = next_free_port(original.port, &used);
                used.push(port);
                assert(used@ =~= taken_ports + ports.push(port));
                let copy = OdooServer::new(
                    ids[i].server,
                    original.name.clone(),
                    original.odoo_version.clone(),
                    port,
                    original.postgres_instance_id,
                    stamp.now,
                ).in_project(new_id);
                assert(copy == server_copy(
                    copied[i as int],
                    ids@[i as int].server,
                    new_id,
                    port,
                    stamp.now,
                ));
                servers.push(copy);
                let entries = rows::list(&self.sources, Some(original.id));
                assert(entries@.len() == order::owned(entries@).len());
                groups.push(copies_of_sources(&entries, &ids[i]));
                i = i + 1;
            }
            assert(copied.take(i as int) =~= copied);
            assert(taken_ports == ports_of(before.servers));
            assert(servers@ =~= server_copies(
                copied,
                ports_of(before.servers),
                ids@,
                new_id,
                stamp.now,
            ));
        }
        let project = Project::new(new_id, new_name, color, stamp.now);
        let ghost start = State { projects: before.projects.push(project), ..before };
        let ghost all = groups_of(groups@);
        proof {
            assert(all =~= source_groups(copied, before.sources, ids@));
            records::lemma_still_taken(before.projects, project);
            rows::lemma_push_taken(before.projects, project, new_id);
            if records::sound(before) {
                rows::lemma_push_distinct(before.projects, project);
                assert forall|i: int| 0 <= i < servers@.len() implies fits_in(
                    start,
                    #[trigger] servers@[i],
                ) by {
                    lemma_listed_is_there(before.servers, Some(project_id), i);
                    let j = choose|j: int|
                        0 <= j < before.servers.len() && before.servers[j] == copied[i];
                    assert(rows::taken(
                        before.instances,
                        before.servers[j].postgres_instance_id,
                    ));
                }
            }
            lemma_copied_in_full(start, servers@, copied, before.sources, ids@);
        }
        self.projects.push(project.clone());
        if let Err(e) = self.add_copies(servers, groups) {
            return Err(e);
        }
        if let Err(e) = self.can_record(stamp) {
            return Err(e);
        }
        self.record(
            stamp,
            None,
            Event::ProjectDuplicated {
                project_id: new_id,
                source_project_id: project_id,
                server_count: count as u32,
            },
        );
        Ok(project)
    }

    /// Adds servers with their sources, one server after another, until an identifier comes that
    /// is taken.
    fn add_copies(&mut self, servers: Vec<OdooServer>, groups: Vec<Vec<AddonsSource>>) -> (r: Result<
        (),
        CoreError,
    >)
        requires
            servers@.len() == groups@.len(),
            forall|i: int, j: int|
                0 <= i < servers@.len() && 0 <= j < groups@[i]@.len() ==> (
                #[trigger] groups@[i]@[j]).server_id == servers@[i].id,
        ensures
            ({
                let (reached, ended) = copied_over(old(self)@, servers@, groups_of(groups@));
                &&& final(self)@ == reached
                &&& match r {
                    Ok(_) => ended is None,
                    Err(e) => ended matches Some(table) && rows::is_taken_error(e, table),
                }
            }),
            records::sound(old(self)@) && (forall|i: int|
                0 <= i < servers@.len() ==> fits_in(old(self)@, #[trigger] servers@[i]))
                ==> records::sound(final(self)@),
    {
        let ghost start = self@;
        let ghost all = servers@;
        let ghost every = groups_of(groups@);
        let ghost orderly = records::sound(start) && (forall|i: int|
            0 <= i < all.len() ==> fits_in(start, #[trigger] all[i]));
        let ghost grouped = groups@;
        let count: usize = servers.len();
        let mut rest = servers;
        let mut rest_groups = groups;
        let mut i: usize = 0;
        assert(all.skip(0) =~= all);
        assert(grouped.skip(0) =~= grouped);
        while i < count
            invariant
                i <= count == all.len(),
                start == old(self)@,
                all == servers@,
                grouped == groups@,
                all.len() == grouped.len(),
                every == groups_of(grouped),
                forall|i: int, j: int|
                    0 <= i < all.len() && 0 <= j < grouped[i]@.len() ==> (
                    #[trigger] grouped[i]@[j]).server_id == all[i].id,
                rest@ == all.skip(i as int),
                rest_groups@ == grouped.skip(i as int),
                copied_over(start, all.take(i as int), every.take(i as int)) == (
                    self@,
                    None::<Seq<char>>,
                ),
                self@.projects == start.projects,
                self@.instances == start.instances,
                orderly == (records::sound(start) && (forall|i: int|
                    0 <= i < all.len() ==> fits_in(start, #[trigger] all[i]))),
                orderly ==> records::sound(self@),
            decreases count - i,
        {
            let ghost before = self@;
            let server = rest.remove(0);
            let group = rest_groups.remove(0);
            proof {
                assert(rest@ =~= all.skip(i + 1));
                assert(rest_groups@ =~= grouped.skip(i + 1));
                assert(server == all[i as int]);
                assert(group == grouped[i as int]);
                assert(all.take(i + 1).drop_last() =~= all.take(i as int));
                assert(every.take(i + 1).drop_last() =~= every.take(i as int));
                assert(all.take(i + 1).last() == server);
                assert(every.take(i + 1).last() == group@);
                records::lemma_still_taken(before.servers, server);
                rows::lemma_push_taken(before.servers, server, server.id);
                if orderly {
                    assert(fits_in(start, all[i as int]));
                    if !rows::taken(before.servers, server.id) {
                        rows::lemma_push_distinct(before.servers, server);
                    }
                }
            }
            if let Err(e) = rows::insert(&mut self.servers, server, "servers") {
                proof {
                    lemma_copying_ends(start, all, every, i + 1);
                    assert(self@ =~= before);
                }
                return Err(e);
            }
            let ghost middle = self@;
            proof {
                let fits = rows::fitting(middle.sources, group@) as int;
                rows::lemma_fitting(middle.sources, group@);
                assert(group@.take(group@.len() as int) =~= group@);
                assert forall|j: int| 0 <= j < fits implies rows::taken(
                    middle.servers,
                    (#[trigger] group@.take(fits)[j]).server_id,
                ) by {
                    assert(grouped[i as int]@[j].server_id == all[i as int].id);
                }
                if orderly {
                    assert(records::sound(middle));
                    lemma_added_sources(middle, group@.take(fits));
                }
            }
            if let Err(e) = rows::insert_all(&mut self.sources, group, "addons_sources") {
                proof {
                    lemma_copying_ends(start, all, every, i + 1);
                }
                return Err(e);
            }
            i = i + 1;
        }
        assert(all.take(i as int) =~= all);
        assert(every.take(i as int) =~= every);
        Ok(())
    }

    /// The ports that servers use.
    pub fn used_ports(&self) -> (r: Vec<u16>)
        ensures
            r@ == ports_of(self@.servers),
    {
        let mut out: Vec<u16> = Vec::new();
        let mut i: usize = 0;
        while i < self.servers.len()
            invariant
                i <= self.servers@.len(),
                out@.len() == i,
                forall|j: int| 0 <= j < i ==> #[trigger] out@[j] == self.servers@[j].port,
            decreases self.servers@.len() - i,
        {
            out.push(self.servers[i].port);
            i = i + 1;
        }
        assert(out@ =~= ports_of(self@.servers));
        out
    }
}

/// What is said where no PostgreSQL is installed.
pub const NO_POSTGRES: &'static str =
    "no Postgres binaries found (dev/test environments need a system Postgres install; the shipped app bundles its own runtime instead)";

/// What the records say once the state of a server is noted.
pub open spec fn state_noted(
    before: State,
    after: State,
    server_id: Id,
    state: ServerState,
    now: Moment,
) -> bool {
    after == (if rows::taken(before.servers, server_id) {
        let was = rows::row_of(before.servers, server_id);
        State {
            servers: before.servers.update(
                rows::place_of(before.servers, server_id) as int,
                OdooServer {
                    state,
                    started_at: started_when(state, was.started_at, now),
                    ..was
                },
            ),
            ..before
        }
    } else {
        before
    })
}

/// What comes of the request to move a server to a project.
pub open spec fn server_moved(
    before: State,
    after: State,
    r: Result<OdooServer, CoreError>,
    server_id: Id,
    project_id: Id,
) -> bool {
    match r {
        Ok(server) => {
            let was = rows::row_of(before.servers, server_id);
            &&& rows::taken(before.servers, server_id)
            &&& rows::taken(before.projects, project_id)
            &&& server == (OdooServer { project_id: Some(project_id), ..was })
            &&& after == (State {
                servers: before.servers.update(
                    rows::place_of(before.servers, server_id) as int,
                    server,
                ),
                ..before
            })
        },
        Err(e) => {
            &&& after == before
            &&& if !rows::taken(before.servers, server_id) {
                records::is_missing(e, "server "@, server_id)
            } else {
                !rows::taken(before.projects, project_id) && records::is_missing(
                    e,
                    "project "@,
                    project_id,
                )
            }
        },
    }
}

/// What comes of the request to set how a server reloads.
pub open spec fn policy_set(
    before: State,
    after: State,
    r: Result<OdooServer, CoreError>,
    server_id: Id,
    policy: ReloadPolicy,
) -> bool {
    match r {
        Ok(server) => {
            let was = rows::row_of(before.servers, server_id);
            &&& rows::taken(before.servers, server_id)
            &&& server == (OdooServer { reload: policy, ..was })
            &&& after == (State {
                servers: before.servers.update(
                    rows::place_of(before.servers, server_id) as int,
                    server,
                ),
                ..before
            })
        },
        Err(e) => {
            &&& after == before
            &&& !rows::taken(before.servers, server_id)
            &&& records::is_missing(e, "server "@, server_id)
        },
    }
}

/// What comes of the request to make a server.
pub open spec fn server_made(
    before: State,
    after: State,
    r: Result<OdooServer, CoreError>,
    id: Id,
    name: String,
    odoo_version: String,
    port: u16,
    postgres_instance_id: Id,
    project_id: Option<Id>,
    stamp: Stamp,
) -> bool {
    let made = OdooServer {
        id,
        project_id,
        name,
        odoo_version,
        port,
        postgres_instance_id,
        state: ServerState::Stopped,
        reload: ReloadPolicy { reload_python: false, update_on_data_change: false },
        started_at: None,
        created_at: stamp.now,
    };
    match r {
        Ok(server) => {
            &&& rows::taken(before.instances, postgres_instance_id)
            &&& project_id matches Some(p) ==> rows::taken(before.projects, p)
            &&& !rows::taken(before.servers, id)
            &&& records::may_tell(before, stamp)
            &&& server == made
            &&& after == records::told(
                State { servers: before.servers.push(server), ..before },
                stamp,
                None,
                Event::ServerCreated { server_id: id, name, odoo_version, postgres_instance_id },
            )
        },
        Err(e) => if !rows::taken(before.instances, postgres_instance_id) {
            &&& records::is_missing(e, "postgres instance "@, postgres_instance_id)
            &&& after == before
        } else if project_id matches Some(p) && !rows::taken(before.projects, p) {
            records::is_missing(e, "project "@, project_id->0) && after == before
        } else if rows::taken(before.servers, id) {
            rows::is_taken_error(e, "servers"@) && after == before
        } else {
            &&& !records::may_tell(before, stamp)
            &&& rows::is_taken_error(e, "events"@)
            &&& after == (State { servers: before.servers.push(made), ..before })
        },
    }
}

/// How many servers are in no project.
pub open spec fn orphans(servers: Seq<OdooServer>) -> nat
    decreases servers.len(),
{
    if servers.len() == 0 {
        0
    } else if servers.last().project_id is None {
        orphans(servers.drop_last()) + 1
    } else {
        orphans(servers.drop_last())
    }
}

/// The server; under the project, if it was under none.
pub open spec fn filed_under(server: OdooServer, project_id: Id) -> OdooServer {
    if server.project_id is None {
        OdooServer { project_id: Some(project_id), ..server }
    } else {
        server
    }
}

/// The servers; those that were under no project, under the given one.
pub open spec fn all_filed_under(servers: Seq<OdooServer>, project_id: Id) -> Seq<OdooServer> {
    servers.map_values(|s: OdooServer| filed_under(s, project_id))
}

/// The project that servers without one are filed under.
pub open spec fn orphan_project(project: Project, id: Id, stamp: Stamp) -> bool {
    project.id == id && project.name@ == "My work"@ && project.color == 0 && project.created_at
        == stamp.now
}

/// What comes of the request to file servers that are in no project.
pub open spec fn orphans_adopted(
    before: State,
    after: State,
    r: Result<(), CoreError>,
    id: Id,
    stamp: Stamp,
) -> bool {
    let count = orphans(before.servers);
    if count == 0 {
        r is Ok && after == before
    } else {
        match r {
            Ok(_) => {
                &&& !rows::taken(before.projects, id)
                &&& records::may_tell(before, stamp)
                &&& exists|project: Project, name: String|
                    {
                        &&& #[trigger] orphan_project(project, id, stamp)
                        &&& name@ == "My work"@ + " ("@ + text::decimal_of(count) + " existing)"@
                        &&& after == #[trigger] records::told(
                            State {
                                projects: before.projects.push(project),
                                servers: all_filed_under(before.servers, id),
                                ..before
                            },
                            stamp,
                            None,
                            Event::ProjectCreated { project_id: id, name },
                        )
                    }
            },
            Err(e) => if rows::taken(before.projects, id) {
                rows::is_taken_error(e, "projects"@) && after == before
            } else {
                &&& !records::may_tell(before, stamp)
                &&& rows::is_taken_error(e, "events"@)
                &&& exists|project: Project|
                    #[trigger] orphan_project(project, id, stamp) && after == (State {
                        projects: before.projects.push(project),
                        servers: all_filed_under(before.servers, id),
                        ..before
                    })
            },
        }
    }
}

/// After servers without a project were filed, none is without a project.
pub proof fn law_no_server_stays_without_a_project(servers: Seq<OdooServer>, project_id: Id)
    ensures
        forall|i: int|
            0 <= i < servers.len() ==> (#[trigger] all_filed_under(
                servers,
                project_id,
            )[i]).project_id is Some,
{
}

proof fn lemma_filing_is_sound(before: State, id: Id, projects: Seq<Project>)
    requires
        records::sound(before),
        rows::distinct(projects),
        rows::taken(projects, id),
        forall|p: Id| rows::taken(before.projects, p) ==> #[trigger] rows::taken(projects, p),
    ensures
        records::sound(
            State { projects, servers: all_filed_under(before.servers, id), ..before },
        ),
{
    let filed = all_filed_under(before.servers, id);
    let after = State { projects, servers: filed, ..before };
    assert forall|i: int, j: int| 0 <= i < j < filed.len() implies (
    #[trigger] filed[i]).id != (#[trigger] filed[j]).id by {
        assert(before.servers[i].id != before.servers[j].id) by {
            assert(rows::distinct(before.servers));
            let a = before.servers[i];
            let b = before.servers[j];
        }
    }
    assert(rows::distinct(filed));
    assert forall|p: Id| rows::taken(before.servers, p) implies #[trigger] rows::taken(
        filed,
        p,
    ) by {
        let k = choose|i: int|
            0 <= i < before.servers.len() && rows::Row::row_id(#[trigger] before.servers[i]) == p;
        assert(rows::Row::row_id(filed[k]) == p);
    }
    assert forall|i: int| 0 <= i < filed.len() implies ((
    #[trigger] filed[i]).project_id matches Some(p) ==> rows::taken(projects, p)) by {
        let s = before.servers[i];
    }
    assert forall|i: int| 0 <= i < filed.len() implies rows::taken(
        before.instances,
        (#[trigger] filed[i]).postgres_instance_id,
    ) by {
        let s = before.servers[i];
    }
    assert(records::servers_are_there(after)) by {
        assert forall|i: int| 0 <= i < before.sources.len() implies rows::taken(
            filed,
            (#[trigger] before.sources[i]).server_id,
        ) by {
            assert(rows::taken(before.servers, before.sources[i].server_id));
        }
        assert forall|i: int| 0 <= i < before.databases.len() implies rows::taken(
            filed,
            (#[trigger] before.databases[i]).server_id,
        ) by {
            assert(rows::taken(before.servers, before.databases[i].server_id));
        }
        assert forall|i: int| 0 <= i < before.snapshots.len() implies rows::taken(
            filed,
            (#[trigger] before.snapshots[i]).server_id,
        ) by {
            assert(rows::taken(before.servers, before.snapshots[i].server_id));
        }
    }
}

proof fn lemma_listed_is_there(servers: Seq<OdooServer>, parent: Option<Id>, i: int)
    requires
        0 <= i < rows::listing(servers, parent).len(),
    ensures
        servers.contains(rows::listing(servers, parent)[i]),
{
    let chosen = rows::belonging(servers, parent);
    rows::law_a_listing_is_ordered(chosen);
    let s = rows::listing(servers, parent)[i];
    assert(rows::in_order(chosen).contains(s));
    assert(chosen.contains(s));
    if let Some(p) = parent {
        let k = choose|k: int| 0 <= k < chosen.len() && chosen[k] == s;
        lemma_filtered_is_there(servers, p, k);
    }
}

proof fn lemma_filtered_is_there(servers: Seq<OdooServer>, parent: Id, k: int)
    requires
        0 <= k < rows::belonging(servers, Some(parent)).len(),
    ensures
        servers.contains(rows::belonging(servers, Some(parent))[k]),
    decreases servers.len(),
{
    reveal(Seq::filter);
    if servers.len() > 0 {
        let rest = servers.drop_last();
        let before = rows::belonging(rest, Some(parent));
        if k < before.len() {
            lemma_filtered_is_there(rest, parent, k);
            let i = choose|i: int| 0 <= i < rest.len() && rest[i] == before[k];
            assert(servers[i] == before[k]);
        } else {
            assert(servers[servers.len() - 1] == servers.last());
        }
    }
}

proof fn lemma_own_code_stays(sources: Seq<AddonsSource>, k: int)
    requires
        0 <= k <= sources.len(),
        own_code(sources.take(k)) is Some,
    ensures
        own_code(sources) == own_code(sources.take(k)),
    decreases sources.len() - k,
{
    if k == sources.len() {
        assert(sources.take(k) =~= sources);
    } else {
        assert(sources.take(k + 1).drop_last() =~= sources.take(k));
        lemma_own_code_stays(sources, k + 1);
    }
}

fn first_rank_behind(sources: &Vec<&AddonsSource>) -> (r: u32)
    requires
        rank_behind(order::owned(sources@)) <= u32::MAX,
    ensures
        r == rank_behind(order::owned(sources@)),
{
    let ghost all = order::owned(sources@);
    let mut out: u32 = 0;
    let mut i: usize = 0;
    assert(all.take(0) =~= Seq::<AddonsSource>::empty());
    while i < sources.len()
        invariant
            i <= sources@.len(),
            all == order::owned(sources@),
            rank_behind(all) <= u32::MAX,
            out == rank_behind(all.take(i as int)),
        decreases sources@.len() - i,
    {
        proof {
            assert(all.take(i + 1).drop_last() =~= all.take(i as int));
            assert(all.take(i + 1).last() == *sources@[i as int]);
            lemma_rank_behind_grows(all, i + 1);
        }
        let next: u32 = sources[i].rank + 1;
        if next > out {
            out = next;
        }
        i = i + 1;
    }
    assert(all.take(i as int) =~= all);
    out
}

proof fn lemma_rank_behind_grows(sources: Seq<AddonsSource>, k: int)
    requires
        0 <= k <= sources.len(),
    ensures
        rank_behind(sources.take(k)) <= rank_behind(sources),
    decreases sources.len() - k,
{
    if k == sources.len() {
        assert(sources.take(k) =~= sources);
    } else {
        assert(sources.take(k + 1).drop_last() =~= sources.take(k));
        lemma_rank_behind_grows(sources, k + 1);
    }
}

fn path_is_there(sources: &Vec<&AddonsSource>, path: &str) -> (r: bool)
    ensures
        r == has_path(order::owned(sources@), path@),
{
    let ghost all = order::owned(sources@);
    let mut i: usize = 0;
    while i < sources.len()
        invariant
            i <= sources@.len(),
            all == order::owned(sources@),
            forall|j: int| 0 <= j < i ==> (#[trigger] all[j]).path_or_url@ != path@,
        decreases sources@.len() - i,
    {
        if text::same_text(sources[i].path_or_url.as_str(), path) {
            assert(all[i as int].path_or_url@ == path@);
            return true;
        }
        i = i + 1;
    }
    false
}

fn copies(sources: &Vec<AddonsSource>) -> (r: Vec<AddonsSource>)
    ensures
        r@ == sources@,
{
    let mut out: Vec<AddonsSource> = Vec::new();
    let mut i: usize = 0;
    while i < sources.len()
        invariant
            i <= sources@.len(),
            out@ == sources@.take(i as int),
        decreases sources@.len() - i,
    {
        out.push(sources[i].clone());
        assert(out@ =~= sources@.take(i + 1));
        i = i + 1;
    }
    assert(out@ =~= sources@);
    out
}

/// What a cluster is doing is the first thing said of it; one that nothing is said of is stopped.
pub proof fn law_a_cluster_does_what_is_said_of_it(around: Surroundings, id: Id, k: int)
    ensures
        0 <= k < around.supervised@.len() && around.supervised@[k].instance_id == id && (forall|
            i: int,
        |
            0 <= i < k ==> (#[trigger] around.supervised@[i]).instance_id != id) ==> doing(around, id)
            == around.supervised@[k].state,
        (forall|i: int|
            0 <= i < around.supervised@.len() ==> (#[trigger] around.supervised@[i]).instance_id
                != id) ==> doing(around, id) is Stopped,
{
    lemma_supervised(around.supervised@, id, k);
}

proof fn lemma_supervised(supervised: Seq<Supervised>, id: Id, k: int)
    ensures
        0 <= k < supervised.len() && supervised[k].instance_id == id && (forall|i: int|
            0 <= i < k ==> (#[trigger] supervised[i]).instance_id != id) ==> supervised_as(
            supervised,
            id,
        ) == Some(supervised[k].state),
        (forall|i: int|
            0 <= i < supervised.len() ==> (#[trigger] supervised[i]).instance_id != id)
            ==> supervised_as(supervised, id) is None,
    decreases supervised.len(),
{
    if supervised.len() > 0 {
        let rest = supervised.skip(1);
        lemma_supervised(rest, id, k - 1);
        assert(forall|i: int| 0 <= i < rest.len() ==> rest[i] == supervised[i + 1]);
    }
}

/// A connection leads to the cluster with that identifier, over its folder and its port, as the
/// user `postgres`; a cluster is out of reach exactly where it is unknown, does not run, or the
/// programs are not there.
pub proof fn law_a_connection_leads_to_its_cluster(
    s: State,
    around: Surroundings,
    id: Id,
    conn: PgConnInfo,
    e: CoreError,
    k: int,
)
    requires
        0 <= k < s.instances.len(),
        s.instances[k].id == id,
        rows::distinct(s.instances),
    ensures
        connects(s, around, id, conn) ==> conn.port == s.instances[k].port && conn.host
            == s.instances[k].data_dir && around.bin_dir == Some(conn.bin_dir) && conn.user@
            == "postgres"@,
        reachable(s, around, id) <==> doing(around, id) is Running && around.bin_dir is Some,
        reachable(s, around, id) ==> !is_unreachable(s, around, id, e),
        is_unreachable(s, around, id, e) && !(doing(around, id) is Running)
            ==> e == (CoreError::PostgresInstanceNotRunning {
            instance_id: id,
            state: doing(around, id),
        }),
{
    rows::law_a_record_is_found_by_its_identifier(s.instances, s.instances[k], id);
    assert(s.instances.contains(s.instances[k]));
}

/// The copy of a server is the same server under another identifier in another project: stopped,
/// with nothing watched, and with a port of its own.
pub proof fn law_a_copied_server_is_the_same_server(
    servers: Seq<OdooServer>,
    used: Seq<u16>,
    ids: Seq<CopyIds>,
    project_id: Id,
    now: Moment,
    i: int,
)
    requires
        0 <= i < servers.len() <= ids.len(),
    ensures
        server_copies(servers, used, ids, project_id, now).len() == servers.len(),
        ({
            let copy = server_copies(servers, used, ids, project_id, now)[i];
            &&& copy.name == servers[i].name
            &&& copy.odoo_version == servers[i].odoo_version
            &&& copy.postgres_instance_id == servers[i].postgres_instance_id
            &&& copy.id == ids[i].server
            &&& copy.project_id == Some(project_id)
            &&& copy.state is Stopped
            &&& copy.started_at is None
            &&& !copy.reload.reload_python && !copy.reload.update_on_data_change
            &&& copy.created_at == now
            &&& copy.port >= servers[i].port
            &&& forall|p: u16|
                servers[i].port <= p < copy.port ==> #[trigger] used.contains(p) || exists|j: int|
                    0 <= j < i && (#[trigger] server_copies(
                        servers,
                        used,
                        ids,
                        project_id,
                        now,
                    )[j]).port == p
            &&& copy.port != 65535 ==> !used.contains(copy.port)
            &&& copy.port != 65535 ==> forall|j: int|
                0 <= j < i ==> (#[trigger] server_copies(
                    servers,
                    used,
                    ids,
                    project_id,
                    now,
                )[j]).port != copy.port
        }),
{
    let all = server_copies(servers, used, ids, project_id, now);
    let ports = copy_ports(servers, used);
    lemma_nearest_ports(servers, used, i);
    assert(forall|j: int| 0 <= j < servers.len() ==> #[trigger] all[j].port == ports[j]);
    assert forall|p: u16| servers[i].port <= p < all[i].port implies #[trigger] used.contains(p)
        || exists|j: int| 0 <= j < i && (#[trigger] all[j]).port == p by {
        if !used.contains(p) {
            let j = choose|j: int| 0 <= j < i && #[trigger] ports[j] == p;
            assert(all[j].port == p);
        }
    }
    if all[i].port != 65535 {
        law_copies_get_ports_of_their_own(servers, used, i);
        assert forall|j: int| 0 <= j < i implies (#[trigger] all[j]).port != all[i].port by {
            assert(ports[j] != ports[i]);
        }
    }
}

proof fn lemma_nearest_ports(servers: Seq<OdooServer>, used: Seq<u16>, i: int)
    requires
        0 <= i < servers.len(),
    ensures
        copy_ports(servers, used).len() == servers.len(),
        copy_ports(servers, used)[i] >= servers[i].port,
        forall|p: u16|
            servers[i].port <= p < copy_ports(servers, used)[i] && !#[trigger] used.contains(p)
                ==> exists|j: int| 0 <= j < i && #[trigger] copy_ports(servers, used)[j] == p,
    decreases servers.len(),
{
    let rest = servers.drop_last();
    let before = copy_ports(rest, used);
    let ports = copy_ports(servers, used);
    if rest.len() > 0 {
        lemma_nearest_ports(rest, used, if i < rest.len() {
            i
        } else {
            0
        });
    }
    assert(before.len() == rest.len());
    if i < rest.len() {
        assert(rest[i] == servers[i]);
        assert forall|p: u16|
            servers[i].port <= p < ports[i] && !#[trigger] used.contains(p) implies exists|j: int|
            0 <= j < i && #[trigger] ports[j] == p by {
            let j = choose|j: int| 0 <= j < i && #[trigger] before[j] == p;
            assert(ports[j] == p);
        }
    } else {
        let taken = used + before;
        law_a_free_port_is_free(servers.last().port, taken);
        assert forall|p: u16|
            servers[i].port <= p < ports[i] && !#[trigger] used.contains(p) implies exists|j: int|
            0 <= j < i && #[trigger] ports[j] == p by {
            assert(taken.contains(p));
            let n = choose|n: int| 0 <= n < taken.len() && taken[n] == p;
            if n < used.len() {
                assert(used[n] == p);
            } else {
                assert(ports[n - used.len()] == p);
            }
        }
    }
}

/// Every source of a copied server is copied, under an identifier of its own, to the copy of that
/// server; nothing else of it changes.
pub proof fn law_a_copied_server_keeps_its_sources(
    servers: Seq<OdooServer>,
    sources: Seq<AddonsSource>,
    ids: Seq<CopyIds>,
    i: int,
    source: AddonsSource,
    copy: AddonsSource,
)
    requires
        servers.len() <= ids.len(),
    ensures
        0 <= i < servers.len() && sources.contains(source) && source.server_id == servers[i].id
            ==> exists|k: int|
            {
                &&& 0 <= k < source_copies(servers, sources, ids).len()
                &&& (#[trigger] source_copies(servers, sources, ids)[k]).server_id
                    == ids[i].server
                &&& source_copies(servers, sources, ids)[k].label == source.label
                &&& source_copies(servers, sources, ids)[k].path_or_url == source.path_or_url
                &&& source_copies(servers, sources, ids)[k].kind == source.kind
                &&& source_copies(servers, sources, ids)[k].rank == source.rank
            },
        source_copies(servers, sources, ids).contains(copy) ==> exists|n: int, k: int|
            {
                &&& 0 <= n < servers.len()
                &&& 0 <= k < sources.len()
                &&& (#[trigger] sources[k]).server_id == (#[trigger] servers[n]).id
                &&& copy.server_id == ids[n].server
                &&& copy.path_or_url == sources[k].path_or_url
                &&& copy.label == sources[k].label
                &&& copy.rank == sources[k].rank
                &&& copy.kind == sources[k].kind
            },
    decreases servers.len(),
{
    if servers.len() > 0 {
        let rest = servers.drop_last();
        law_a_copied_server_keeps_its_sources(rest, sources, ids, i, source, copy);
        let before = source_copies(rest, sources, ids);
        let own = rows::listing(sources, Some(servers.last().id));
        let made = own_source_copies(own, ids[servers.len() - 1]);
        let all = source_copies(servers, sources, ids);
        assert(all == before + made);
        assert(forall|n: int| 0 <= n < rest.len() ==> rest[n] == servers[n]);
        if 0 <= i < servers.len() && sources.contains(source) && source.server_id == servers[i].id {
            if i < rest.len() {
                let k = choose|k: int|
                    {
                        &&& 0 <= k < before.len()
                        &&& (#[trigger] before[k]).server_id == ids[i].server
                        &&& before[k].label == source.label
                        &&& before[k].path_or_url == source.path_or_url
                        &&& before[k].kind == source.kind
                        &&& before[k].rank == source.rank
                    };
                assert(all[k] == before[k]);
            } else {
                rows::lemma_is_listed(sources, servers.last().id, source);
                let j = choose|j: int| 0 <= j < own.len() && own[j] == source;
                assert(all[before.len() + j] == made[j]);
            }
        }
        if all.contains(copy) {
            let m = choose|m: int| 0 <= m < all.len() && all[m] == copy;
            if m < before.len() {
                assert(before[m] == copy);
                assert(before.contains(copy));
                let (n, k) = choose|n: int, k: int|
                    {
                        &&& 0 <= n < rest.len()
                        &&& 0 <= k < sources.len()
                        &&& (#[trigger] sources[k]).server_id == (#[trigger] rest[n]).id
                        &&& copy.server_id == ids[n].server
                        &&& copy.path_or_url == sources[k].path_or_url
                        &&& copy.label == sources[k].label
                        &&& copy.rank == sources[k].rank
                        &&& copy.kind == sources[k].kind
                    };
                assert(servers[n] == rest[n]);
            } else {
                let j = m - before.len();
                assert(made[j] == copy);
                assert(own.contains(own[j]));
                rows::lemma_listed_is_there(sources, servers.last().id, own[j]);
                let k = choose|k: int| 0 <= k < sources.len() && sources[k] == own[j];
                assert(servers[servers.len() - 1] == servers.last());
                assert(sources[k].server_id == servers[servers.len() - 1].id);
            }
        }
    }
}

/// Carried along are all the sources but the core ones, in the order of the list.
pub proof fn law_every_own_source_is_carried(sources: Seq<AddonsSource>)
    ensures
        carried(sources) == sources.filter(|s: AddonsSource| !(s.kind is Core)).map_values(
            |s: AddonsSource|
                CarriedAddon { label: s.label, kind: s.kind, path_or_url: s.path_or_url },
        ),
    decreases sources.len(),
{
    let pick = |s: AddonsSource| !(s.kind is Core);
    let turn = |s: AddonsSource|
        CarriedAddon { label: s.label, kind: s.kind, path_or_url: s.path_or_url };
    order::lemma_picked(sources, pick, turn);
    if sources.len() > 0 {
        law_every_own_source_is_carried(sources.drop_last());
    }
}

/// The next rank is one above the highest, and zero where there is none.
pub proof fn law_the_next_rank_is_above_all(sources: Seq<AddonsSource>)
    ensures
        forall|i: int| 0 <= i < sources.len() ==> (#[trigger] sources[i]).rank < rank_behind(sources),
        sources.len() == 0 ==> rank_behind(sources) == 0,
        sources.len() > 0 ==> exists|i: int|
            0 <= i < sources.len() && (#[trigger] sources[i]).rank + 1 == rank_behind(sources),
    decreases sources.len(),
{
    if sources.len() > 0 {
        let rest = sources.drop_last();
        law_the_next_rank_is_above_all(rest);
        assert(forall|i: int| 0 <= i < rest.len() ==> rest[i] == sources[i]);
        assert(sources[sources.len() - 1] == sources.last());
        if rest.len() > 0 {
            let k = choose|i: int|
                0 <= i < rest.len() && (#[trigger] rest[i]).rank + 1 == rank_behind(rest);
            assert(sources[k] == rest[k]);
        }
        assert forall|i: int| 0 <= i < sources.len() implies (#[trigger] sources[i]).rank
            < rank_behind(sources) by {
            if i < rest.len() {
                assert(rest[i] == sources[i]);
            }
        }
    }
}

/// Folders become sources in their order: those that the server has not got yet, behind all that
/// it has, each with the label and the kind of its folder.
pub proof fn law_new_folders_become_sources(
    roots: Seq<DiscoveredRoot>,
    existing: Seq<AddonsSource>,
    ids: Seq<Id>,
    server_id: Id,
    k: int,
)
    requires
        rank_behind(existing) + roots.len() <= u32::MAX,
    ensures
        ({
            let added = sources_from(roots, existing, ids, server_id);
            let fresh = roots.filter(
                |root: DiscoveredRoot|
                    forall|i: int|
                        0 <= i < existing.len() ==> (#[trigger] existing[i]).path_or_url@
                            != root.path@,
            );
            &&& added.len() == fresh.len()
            &&& 0 <= k < added.len() ==> {
                &&& added[k].path_or_url == fresh[k].path
                &&& added[k].label == fresh[k].label
                &&& added[k].kind == fresh[k].kind
                &&& added[k].server_id == server_id
                &&& added[k].id == ids[k]
                &&& added[k].rank == rank_behind(existing) + k
            }
        }),
    decreases roots.len(),
{
    reveal(Seq::filter);
    if roots.len() > 0 {
        law_new_folders_become_sources(roots.drop_last(), existing, ids, server_id, k);
        let before = sources_from(roots.drop_last(), existing, ids, server_id);
        lemma_sources_from_len(roots.drop_last(), existing, ids, server_id);
        law_the_next_rank_is_above_all(existing);
    }
}

/// The folder whose branch counts is that of the first private source.
pub proof fn law_the_first_private_source_is_the_own_code(sources: Seq<AddonsSource>, k: int)
    ensures
        0 <= k < sources.len() && sources[k].kind is Private && (forall|i: int|
            0 <= i < k ==> !((#[trigger] sources[i]).kind is Private)) ==> own_code(sources) == Some(
            sources[k],
        ),
        (forall|i: int| 0 <= i < sources.len() ==> !((#[trigger] sources[i]).kind is Private))
            ==> own_code(sources) is None,
    decreases sources.len(),
{
    if sources.len() > 0 {
        let rest = sources.drop_last();
        law_the_first_private_source_is_the_own_code(rest, k);
        assert(forall|i: int| 0 <= i < rest.len() ==> rest[i] == sources[i]);
        assert(sources[sources.len() - 1] == sources.last());
        if k == sources.len() - 1 {
            assert(sources[k] == sources.last());
        }
    }
}

/// A server runs since it began to run; one that has stopped or crashed does not run, and while
/// it starts or stops the time stays.
pub proof fn law_a_server_runs_since_it_started(
    state: ServerState,
    before: Option<Moment>,
    now: Moment,
)
    ensures
        state is Running ==> started_when(state, before, now) == Some(now),
        state is Stopped || state is Crashed ==> started_when(state, before, now) is None,
        state is Starting || state is Stopping ==> started_when(state, before, now) == before,
{
}

/// A server that is made stands behind the others, stopped, as it was asked for, on a cluster and
/// in a project that are known.
pub proof fn law_a_made_server_is_there(
    before: State,
    after: State,
    r: Result<OdooServer, CoreError>,
    id: Id,
    name: String,
    odoo_version: String,
    port: u16,
    postgres_instance_id: Id,
    project_id: Option<Id>,
    stamp: Stamp,
)
    requires
        server_made(
            before,
            after,
            r,
            id,
            name,
            odoo_version,
            port,
            postgres_instance_id,
            project_id,
            stamp,
        ),
    ensures
        r matches Ok(server) ==> {
            &&& after.servers == before.servers.push(server)
            &&& server.id == id && server.name == name && server.odoo_version == odoo_version
            &&& server.port == port && server.postgres_instance_id == postgres_instance_id
            &&& server.project_id == project_id && server.created_at == stamp.now
            &&& server.state is Stopped && server.started_at is None
            &&& !server.reload.reload_python && !server.reload.update_on_data_change
            &&& exists|k: int|
                0 <= k < before.instances.len() && (#[trigger] before.instances[k]).id
                    == postgres_instance_id
            &&& project_id is Some ==> exists|k: int|
                0 <= k < before.projects.len() && Some((#[trigger] before.projects[k]).id)
                    == project_id
            &&& after.events.drop_last() == before.events
            &&& after.events.last().event == (Event::ServerCreated {
                server_id: id,
                name,
                odoo_version,
                postgres_instance_id,
            })
        },
        r is Err ==> after.events == before.events,
        after.databases == before.databases,
        after.sources == before.sources,
        after.instances == before.instances,
        after.projects == before.projects,
{
    if r is Ok {
        rows::lemma_place_of(before.instances, postgres_instance_id);
        assert(rows::row_of(before.instances, postgres_instance_id).id == postgres_instance_id);
        if let Some(p) = project_id {
            rows::lemma_place_of(before.projects, p);
            assert(rows::row_of(before.projects, p).id == p);
        }
    }
}

/// Servers without a project are filed under one new project; all others stay where they are, and
/// where every server has a project nothing happens.
pub proof fn law_every_orphan_is_filed(
    before: State,
    after: State,
    r: Result<(), CoreError>,
    id: Id,
    stamp: Stamp,
    i: int,
)
    requires
        orphans_adopted(before, after, r, id, stamp),
        0 <= i < before.servers.len(),
    ensures
        after.servers.len() == before.servers.len(),
        before.servers[i].project_id is Some ==> after.servers[i] == before.servers[i],
        before.servers[i].project_id is None && r is Ok ==> {
            &&& after.servers[i].project_id == Some(id)
            &&& after.servers[i].id == before.servers[i].id
            &&& after.servers[i].name == before.servers[i].name
            &&& after.servers[i].port == before.servers[i].port
            &&& after.servers[i].state == before.servers[i].state
            &&& after.projects.len() == before.projects.len() + 1
            &&& after.projects.last().id == id
            &&& after.projects.last().name@ == "My work"@
            &&& after.projects.last().created_at == stamp.now
        },
        (forall|k: int| 0 <= k < before.servers.len() ==> (#[trigger] before.servers[k]).project_id is Some)
            ==> after == before && r is Ok,
{
    lemma_orphans(before.servers);
    if orphans(before.servers) > 0 && after != before {
        assert(after.servers == all_filed_under(before.servers, id));
    }
}

proof fn lemma_orphans(servers: Seq<OdooServer>)
    ensures
        orphans(servers) == servers.filter(|s: OdooServer| s.project_id is None).len(),
        orphans(servers) == 0 <==> forall|k: int|
            0 <= k < servers.len() ==> (#[trigger] servers[k]).project_id is Some,
    decreases servers.len(),
{
    reveal(Seq::filter);
    if servers.len() > 0 {
        let rest = servers.drop_last();
        lemma_orphans(rest);
        assert(servers[servers.len() - 1] == servers.last());
        assert(forall|k: int| 0 <= k < rest.len() ==> rest[k] == servers[k]);
        if forall|k: int| 0 <= k < servers.len() ==> (#[trigger] servers[k]).project_id is Some {
            assert forall|k: int| 0 <= k < rest.len() implies (#[trigger] rest[k]).project_id is Some by {
                assert(servers[k].project_id is Some);
            }
        }
        if orphans(servers) == 0 {
            assert forall|k: int| 0 <= k < servers.len() implies (#[trigger] servers[k]).project_id is Some by {
                if k < rest.len() {
                    assert(rest[k].project_id is Some);
                }
            }
        }
    }
}

/// A project is copied with all its servers: each has a copy in the new project, of the same name
/// and version and on the same cluster; what was there stays as it was, and no database is copied.
pub proof fn law_a_project_is_copied_with_its_servers(
    before: State,
    after: State,
    r: Result<Project, CoreError>,
    project_id: Id,
    new_id: Id,
    new_name: String,
    ids: Seq<CopyIds>,
    stamp: Stamp,
    server: OdooServer,
    source: AddonsSource,
)
    requires
        project_copied(before, after, r, project_id, new_id, new_name, ids, stamp),
        enough_ids(rows::listing(before.servers, Some(project_id)), before.sources, ids),
        r is Ok,
    ensures
        after.projects == before.projects.push(r->Ok_0),
        r->Ok_0.id == new_id && r->Ok_0.name == new_name && r->Ok_0.created_at == stamp.now,
        before.servers.is_prefix_of(after.servers),
        before.sources.is_prefix_of(after.sources),
        after.servers.len() == before.servers.len() + rows::belonging(
            before.servers,
            Some(project_id),
        ).len(),
        before.servers.contains(server) && server.project_id == Some(project_id) ==> exists|k: int|
            {
                &&& before.servers.len() <= k < after.servers.len()
                &&& (#[trigger] after.servers[k]).name == server.name
                &&& after.servers[k].odoo_version == server.odoo_version
                &&& after.servers[k].postgres_instance_id == server.postgres_instance_id
                &&& after.servers[k].project_id == Some(new_id)
                &&& after.servers[k].state is Stopped
                &&& has_copy(after.sources, before.sources.len(), source, server, after.servers[k])
            },
        after.databases == before.databases,
        after.snapshots == before.snapshots,
        after.events.last().event == (Event::ProjectDuplicated {
            project_id: new_id,
            source_project_id: project_id,
            server_count: rows::belonging(before.servers, Some(project_id)).len() as u32,
        }),
{
    let copied = rows::listing(before.servers, Some(project_id));
    let used = ports_of(before.servers);
    let copies = server_copies(copied, used, ids, new_id, stamp.now);
    let more = source_copies(copied, before.sources, ids);
    assert(after.servers == before.servers + copies);
    assert(after.sources == before.sources + more);
    assert(after.servers.subrange(0, before.servers.len() as int) =~= before.servers);
    assert(after.sources.subrange(0, before.sources.len() as int) =~= before.sources);
    rows::law_a_listing_is_ordered(rows::belonging(before.servers, Some(project_id)));
    if before.servers.contains(server) && server.project_id == Some(project_id) {
        rows::lemma_is_listed(before.servers, project_id, server);
        let i = choose|i: int| 0 <= i < copied.len() && copied[i] == server;
        law_a_copied_server_is_the_same_server(copied, used, ids, new_id, stamp.now, i);
        let k = before.servers.len() + i;
        assert(after.servers[k] == copies[i]);
        if before.sources.contains(source) && source.server_id == server.id {
            law_a_copied_server_keeps_its_sources(copied, before.sources, ids, i, source, source);
            let n = choose|n: int|
                {
                    &&& 0 <= n < more.len()
                    &&& (#[trigger] more[n]).server_id == ids[i].server
                    &&& more[n].label == source.label
                    &&& more[n].path_or_url == source.path_or_url
                    &&& more[n].kind == source.kind
                    &&& more[n].rank == source.rank
                };
            assert(after.sources[before.sources.len() + n] == more[n]);
        }
    }
}

/// Whether a source of a server has a copy, behind a place, that belongs to the copy of the server.
pub open spec fn has_copy(
    sources: Seq<AddonsSource>,
    behind: nat,
    source: AddonsSource,
    server: OdooServer,
    copy: OdooServer,
) -> bool {
    sources.take(behind as int).contains(source) && source.server_id == server.id ==> exists|n: int|
        {
            &&& behind <= n < sources.len()
            &&& (#[trigger] sources[n]).server_id == copy.id
            &&& sources[n].path_or_url == source.path_or_url
            &&& sources[n].label == source.label
            &&& sources[n].kind == source.kind
            &&& sources[n].rank == source.rank
        }
}

/// After folders were taken over, the server has a source for each of them, and all the sources
/// that it had.
pub proof fn law_every_folder_is_taken_over(
    before: State,
    after: State,
    r: Result<Vec<AddonsSource>, CoreError>,
    server_id: Id,
    roots: Seq<DiscoveredRoot>,
    ids: Seq<Id>,
    i: int,
)
    requires
        roots_adopted(before, after, r, server_id, roots, ids),
        rank_behind(rows::listing(before.sources, Some(server_id))) + roots.len() <= u32::MAX,
        r is Ok,
    ensures
        before.sources.is_prefix_of(after.sources),
        after.sources == before.sources + r->Ok_0@,
        0 <= i < roots.len() ==> exists|k: int|
            {
                &&& 0 <= k < after.sources.len()
                &&& (#[trigger] after.sources[k]).server_id == server_id
                &&& after.sources[k].path_or_url@ == roots[i].path@
            },
        after.servers == before.servers,
        after.databases == before.databases,
{
    let existing = rows::listing(before.sources, Some(server_id));
    let more = sources_from(roots, existing, ids, server_id);
    assert(after.sources == before.sources + more);
    assert(after.sources.subrange(0, before.sources.len() as int) =~= before.sources);
    if 0 <= i < roots.len() {
        lemma_every_path_is_there(roots, existing, ids, server_id, i);
        if has_path(existing, roots[i].path@) {
            let n = choose|n: int|
                0 <= n < existing.len() && (#[trigger] existing[n]).path_or_url@ == roots[i].path@;
            assert(existing.contains(existing[n]));
            rows::lemma_listed_is_there(before.sources, server_id, existing[n]);
            let k = choose|k: int| 0 <= k < before.sources.len() && before.sources[k] == existing[n];
            assert(after.sources[k] == existing[n]);
        } else {
            let n = choose|n: int|
                0 <= n < more.len() && (#[trigger] more[n]).path_or_url@ == roots[i].path@;
            law_new_folders_become_sources(roots, existing, ids, server_id, n);
            assert(after.sources[before.sources.len() + n] == more[n]);
        }
    }
}

/// Noting a state, moving a server and setting how it reloads change that one thing of that one
/// server.
pub proof fn law_a_change_reaches_one_server(
    before: State,
    after: State,
    r: Result<OdooServer, CoreError>,
    server_id: Id,
    state: ServerState,
    now: Moment,
    project_id: Id,
    policy: ReloadPolicy,
    i: int,
)
    requires
        rows::distinct(before.servers),
        0 <= i < before.servers.len(),
    ensures
        state_noted(before, after, server_id, state, now) || server_moved(
            before,
            after,
            r,
            server_id,
            project_id,
        ) || policy_set(before, after, r, server_id, policy) ==> {
            &&& after.servers.len() == before.servers.len()
            &&& before.servers[i].id != server_id ==> after.servers[i] == before.servers[i]
            &&& after.servers[i].id == before.servers[i].id
            &&& after.servers[i].name == before.servers[i].name
            &&& after.servers[i].port == before.servers[i].port
            &&& after.servers[i].odoo_version == before.servers[i].odoo_version
            &&& after.servers[i].postgres_instance_id == before.servers[i].postgres_instance_id
            &&& after.databases == before.databases && after.events == before.events
        },
        before.servers[i].id == server_id ==> {
            &&& state_noted(before, after, server_id, state, now) ==> {
                &&& after.servers[i].state == state
                &&& after.servers[i].reload == before.servers[i].reload
                &&& after.servers[i].project_id == before.servers[i].project_id
                &&& state is Running ==> after.servers[i].started_at == Some(now)
                &&& state is Stopped || state is Crashed ==> after.servers[i].started_at is None
            }
            &&& server_moved(before, after, r, server_id, project_id) ==> {
                &&& r is Ok <==> exists|k: int|
                    0 <= k < before.projects.len() && (#[trigger] before.projects[k]).id
                        == project_id
                &&& r is Ok ==> after.servers[i].project_id == Some(project_id) && r->Ok_0
                    == after.servers[i]
                &&& r is Err ==> after == before
                &&& after.servers[i].state == before.servers[i].state
            }
            &&& policy_set(before, after, r, server_id, policy) ==> {
                &&& r is Ok
                &&& after.servers[i].reload == policy
                &&& r->Ok_0 == after.servers[i]
                &&& after.servers[i].state == before.servers[i].state
                &&& after.servers[i].project_id == before.servers[i].project_id
            }
        },
{
    if rows::taken(before.servers, server_id) {
        rows::lemma_place_of(before.servers, server_id);
        let k = rows::place_of(before.servers, server_id) as int;
        assert(before.servers[k].id == server_id);
        if i < k {
            assert(before.servers[i].row_id() != before.servers[k].row_id());
        } else if k < i {
            assert(before.servers[k].row_id() != before.servers[i].row_id());
        }
    } else {
        assert(before.servers[i].row_id() != server_id);
    }
    if rows::taken(before.projects, project_id) {
        rows::lemma_place_of(before.projects, project_id);
        assert(rows::row_of(before.projects, project_id).id == project_id);
    }
    assert forall|k: int| 0 <= k < before.projects.len() && (#[trigger] before.projects[k]).id
        == project_id implies rows::taken(before.projects, project_id) by {
        assert(before.projects[k].row_id() == project_id);
    }
}

} // verus!
