//! Databases: where they are reached, and what is noted when they come and go.

use crate::errors::CoreError;
use crate::events::Event;
use crate::model;
use crate::model::{Database, DatabaseOrigin, Id, Moment, OdooServer, ServerState};
use crate::order;
use crate::pg_admin::PgConnInfo;
use crate::records;
use crate::records::{Core, ModuleInstall, Stamp, State};
use crate::rows;
use crate::rows::Row;
use crate::servers;
use crate::servers::Surroundings;
use crate::text;
use vstd::prelude::*;
use vstd::string::*;

verus! {

// --- addresses ------------------------------------------------------------

/// Where a database is reached.
#[derive(Debug)]
pub struct Route {
    pub host: String,
    pub port: u16,
    pub database: String,
    pub server_id: Id,
    pub database_id: Id,
    pub running: bool,
}

/// Where a database is reached.
pub struct Address {
    pub host: Seq<char>,
    pub port: u16,
    pub database: Seq<char>,
    pub server_id: Id,
    pub database_id: Id,
    pub running: bool,
}

impl View for Route {
    type V = Address;

    open spec fn view(&self) -> Address {
        Address {
            host: self.host@,
            port: self.port,
            database: self.database@,
            server_id: self.server_id,
            database_id: self.database_id,
            running: self.running,
        }
    }
}

/// Where databases are reached.
pub open spec fn addresses(routes: Seq<Route>) -> Seq<Address> {
    routes.map_values(|r: Route| r@)
}

/// Where a database of a server is reached.
pub open spec fn address_of(d: Database, server: OdooServer) -> Address {
    Address {
        host: model::hostname_of(d),
        port: server.port,
        database: d.name@,
        server_id: server.id,
        database_id: d.id,
        running: server.state is Running,
    }
}

/// Where the databases are reached whose servers are there.
pub open spec fn addresses_of(databases: Seq<Database>, servers: Seq<OdooServer>) -> Seq<Address>
    decreases databases.len(),
{
    if databases.len() == 0 {
        Seq::empty()
    } else {
        let before = addresses_of(databases.drop_last(), servers);
        let d = databases.last();
        if rows::taken(servers, d.server_id) {
            before.push(address_of(d, rows::row_of(servers, d.server_id)))
        } else {
            before
        }
    }
}

/// Where all databases are reached.
pub open spec fn all_addresses(s: State) -> Seq<Address> {
    addresses_of(rows::listing(s.databases, None), s.servers)
}

/// The name of the first database other than the given one that is reached at the host.
pub open spec fn held_by(addresses: Seq<Address>, host: Seq<char>, database_id: Id) -> Option<
    Seq<char>,
>
    decreases addresses.len(),
{
    if addresses.len() == 0 {
        None
    } else if addresses[0].host == host && addresses[0].database_id != database_id {
        Some(addresses[0].database)
    } else {
        held_by(addresses.skip(1), host, database_id)
    }
}

/// A host that nobody else holds is the host of no other database.
pub proof fn lemma_held_by(addresses: Seq<Address>, host: Seq<char>, database_id: Id)
    ensures
        held_by(addresses, host, database_id) is None ==> forall|i: int|
            0 <= i < addresses.len() ==> (#[trigger] addresses[i]).host != host
                || addresses[i].database_id == database_id,
    decreases addresses.len(),
{
    if addresses.len() > 0 {
        let rest = addresses.skip(1);
        lemma_held_by(rest, host, database_id);
        if held_by(addresses, host, database_id) is None {
            assert forall|i: int| 0 <= i < addresses.len() implies (
            #[trigger] addresses[i]).host != host || addresses[i].database_id == database_id by {
                if i > 0 {
                    assert(rest[i - 1] == addresses[i]);
                }
            }
        }
    }
}

/// The domain that is meant: without the white space around it, in lower case.
pub open spec fn domain_meant(domain: Seq<char>) -> Seq<char> {
    text::lowercase_of(text::trimmed(domain))
}

/// What comes of the request to give a database a domain.
pub open spec fn domain_set(
    before: State,
    after: State,
    r: Result<Database, CoreError>,
    database_id: Id,
    domain: Option<Seq<char>>,
) -> bool {
    match r {
        Ok(database) => {
            let was = rows::row_of(before.databases, database_id);
            &&& rows::taken(before.databases, database_id)
            &&& database == (Database { domain: database.domain, ..was })
            &&& match domain {
                Some(d) => {
                    &&& domain_meant(d).len() > 0
                    &&& held_by(all_addresses(before), domain_meant(d), database_id) is None
                    &&& database.domain matches Some(own)
                    &&& own@ == domain_meant(d)
                },
                None => database.domain is None,
            }
            &&& after == (State {
                databases: before.databases.update(
                    rows::place_of(before.databases, database_id) as int,
                    database,
                ),
                ..before
            })
        },
        Err(e) => {
            &&& after == before
            &&& if !rows::taken(before.databases, database_id) {
                records::is_missing(e, "database "@, database_id)
            } else {
                &&& domain matches Some(d)
                &&& if domain_meant(d).len() == 0 {
                    e matches CoreError::NotConfigured(m) && m@ == "a domain can't be blank"@
                } else {
                    &&& held_by(all_addresses(before), domain_meant(d), database_id) matches Some(
                        other,
                    )
                    &&& e matches CoreError::DomainTaken { domain: wanted, database }
                    &&& wanted@ == domain_meant(d)
                    &&& database@ == other
                }
            }
        },
    }
}

// --- installs -------------------------------------------------------------

impl Clone for ModuleInstall {
    fn clone(&self) -> (r: Self)
        ensures
            r == *self,
    {
        ModuleInstall {
            database_id: self.database_id,
            technical_name: self.technical_name.clone(),
            content_hash: self.content_hash.clone(),
        }
    }
}

/// Whether a record is of the module on the database.
pub open spec fn is_install(m: ModuleInstall, database_id: Id, name: Seq<char>) -> bool {
    m.database_id == database_id && m.technical_name@ == name
}

/// What is recorded of a module on a database.
pub open spec fn recorded_hash(installs: Seq<ModuleInstall>, database_id: Id, name: Seq<char>) -> Option<
    Seq<char>,
>
    decreases installs.len(),
{
    if installs.len() == 0 {
        None
    } else if is_install(installs.last(), database_id, name) {
        Some(installs.last().content_hash@)
    } else {
        recorded_hash(installs.drop_last(), database_id, name)
    }
}

/// The records that are not of the database.
pub open spec fn without_database(installs: Seq<ModuleInstall>, database_id: Id) -> Seq<
    ModuleInstall,
> {
    installs.filter(|m: ModuleInstall| m.database_id != database_id)
}

/// The records that are not of the module on the database.
pub open spec fn without_install(
    installs: Seq<ModuleInstall>,
    database_id: Id,
    name: Seq<char>,
) -> Seq<ModuleInstall> {
    installs.filter(|m: ModuleInstall| !is_install(m, database_id, name))
}

/// What was recorded of a module on a database is what is read, and of no other module or
/// database anything changes.
pub proof fn law_a_recorded_install_is_read(
    installs: Seq<ModuleInstall>,
    new: ModuleInstall,
    database_id: Id,
    name: Seq<char>,
)
    ensures
        recorded_hash(
            without_install(installs, new.database_id, new.technical_name@).push(new),
            database_id,
            name,
        ) == (if is_install(new, database_id, name) {
            Some(new.content_hash@)
        } else {
            recorded_hash(installs, database_id, name)
        }),
{
    let kept = without_install(installs, new.database_id, new.technical_name@);
    assert(kept.push(new).drop_last() =~= kept);
    if !is_install(new, database_id, name) {
        lemma_without_install(installs, new.database_id, new.technical_name@, database_id, name);
    }
}

proof fn lemma_without_install(
    installs: Seq<ModuleInstall>,
    gone_id: Id,
    gone: Seq<char>,
    database_id: Id,
    name: Seq<char>,
)
    requires
        gone_id != database_id || gone != name,
    ensures
        recorded_hash(without_install(installs, gone_id, gone), database_id, name)
            == recorded_hash(installs, database_id, name),
    decreases installs.len(),
{
    reveal(Seq::filter);
    if installs.len() > 0 {
        let rest = installs.drop_last();
        lemma_without_install(rest, gone_id, gone, database_id, name);
        let kept = without_install(rest, gone_id, gone);
        assert(kept.push(installs.last()).drop_last() =~= kept);
    }
}

/// Nothing is recorded of a database that was forgotten.
pub proof fn law_a_forgotten_database_has_no_installs(
    installs: Seq<ModuleInstall>,
    database_id: Id,
    name: Seq<char>,
)
    ensures
        recorded_hash(without_database(installs, database_id), database_id, name) is None,
    decreases installs.len(),
{
    reveal(Seq::filter);
    if installs.len() > 0 {
        let rest = installs.drop_last();
        law_a_forgotten_database_has_no_installs(rest, database_id, name);
        let kept = without_database(rest, database_id);
        assert(kept.push(installs.last()).drop_last() =~= kept);
    }
}

// --- databases ------------------------------------------------------------

/// What comes of the request to add a database, once the cluster has it.
pub open spec fn database_added(
    before: State,
    after: State,
    r: Result<Database, CoreError>,
    database: Database,
    stamp: Stamp,
    took: Option<u64>,
    event: Event,
) -> bool {
    match r {
        Ok(added) => {
            &&& rows::taken(before.servers, database.server_id)
            &&& !rows::taken(before.databases, database.id)
            &&& records::may_tell(before, stamp)
            &&& added == database
            &&& after == records::told(
                State { databases: before.databases.push(database), ..before },
                stamp,
                took,
                event,
            )
        },
        Err(e) => if !rows::taken(before.servers, database.server_id) {
            records::is_missing(e, "server "@, database.server_id) && after == before
        } else if rows::taken(before.databases, database.id) {
            rows::is_taken_error(e, "databases"@) && after == before
        } else {
            &&& !records::may_tell(before, stamp)
            &&& rows::is_taken_error(e, "events"@)
            &&& after == (State { databases: before.databases.push(database), ..before })
        },
    }
}

/// A database as it is first noted.
pub open spec fn new_database(
    id: Id,
    server_id: Id,
    name: String,
    origin: DatabaseOrigin,
    stamp: Stamp,
) -> Database {
    Database {
        id,
        server_id,
        name,
        origin,
        domain: None,
        size_bytes: 0,
        last_backup_at: None,
        created_at: stamp.now,
    }
}

/// Whether an error says that a database is not there, or that its cluster cannot be connected
/// to.
pub open spec fn database_is_out_of_reach(
    s: State,
    around: Surroundings,
    database_id: Id,
    e: CoreError,
) -> bool {
    if !rows::taken(s.databases, database_id) {
        records::is_missing(e, "database "@, database_id)
    } else {
        servers::server_is_out_of_reach(
            s,
            around,
            rows::row_of(s.databases, database_id).server_id,
            e,
        )
    }
}

impl Core {
    /// The databases of a server, or all, in the order in which they were noted.
    pub fn list_databases(&self, server_id: Option<Id>) -> (r: Vec<&Database>)
        ensures
            order::owned(r@) == rows::listing(self@.databases, server_id),
    {
        rows::list(&self.databases, server_id)
    }

    /// The database with the identifier.
    pub fn get_database(&self, database_id: Id) -> (r: Result<Database, CoreError>)
        ensures
            match r {
                Ok(database) => rows::taken(self@.databases, database_id) && database
                    == rows::row_of(self@.databases, database_id),
                Err(e) => !rows::taken(self@.databases, database_id) && records::is_missing(
                    e,
                    "database "@,
                    database_id,
                ),
            },
    {
        match rows::find(&self.databases, database_id) {
            Some(k) => Ok(self.databases[k].clone()),
            None => Err(records::missing("database ", database_id)),
        }
    }

    /// A database, its server, and how to connect to its cluster.
    pub fn database_connection(&self, database_id: Id, around: &Surroundings) -> (r: Result<
        (Database, OdooServer, PgConnInfo),
        CoreError,
    >)
        ensures
            match r {
                Ok((database, server, conn)) => {
                    &&& rows::taken(self@.databases, database_id)
                    &&& database == rows::row_of(self@.databases, database_id)
                    &&& rows::taken(self@.servers, database.server_id)
                    &&& server == rows::row_of(self@.servers, database.server_id)
                    &&& servers::reachable(self@, *around, server.postgres_instance_id)
                    &&& servers::connects(self@, *around, server.postgres_instance_id, conn)
                },
                Err(e) => database_is_out_of_reach(self@, *around, database_id, e),
            },
    {
        let database = match self.get_database(database_id) {
            Ok(database) => database,
            Err(e) => {
                return Err(e);
            },
        };
        match self.server_connection(database.server_id, around) {
            Ok((server, conn)) => Ok((database, server, conn)),
            Err(e) => Err(e),
        }
    }

    // --- addresses --------------------------------------------------------

    /// Where all databases are reached.
    pub fn routing_table(&self) -> (r: Vec<Route>)
        ensures
            addresses(r@) == all_addresses(self@),
    {
        let databases = self.list_databases(None);
        let ghost all = order::owned(databases@);
        let mut out: Vec<Route> = Vec::new();
        let mut i: usize = 0;
        assert(all.take(0) =~= Seq::<Database>::empty());
        assert(addresses(out@) =~= addresses_of(all.take(0), self@.servers));
        while i < databases.len()
            invariant
                i <= databases@.len(),
                all == order::owned(databases@),
                addresses(out@) == addresses_of(all.take(i as int), self@.servers),
            decreases databases@.len() - i,
        {
            let d = databases[i];
            let ghost before = addresses(out@);
            proof {
                assert(all.take(i + 1).drop_last() =~= all.take(i as int));
                assert(all.take(i + 1).last() == *d);
            }
            if let Some(k) = rows::find(&self.servers, d.server_id) {
                let server = &self.servers[k];
                let running = match server.state {
                    ServerState::Running => true,
                    _ => false,
                };
                let route = Route {
                    host: d.hostname(),
                    port: server.port,
                    database: d.name.clone(),
                    server_id: server.id,
                    database_id: d.id,
                    running,
                };
                let ghost shown = route@;
                out.push(route);
                assert(shown == address_of(*d, *server));
                assert(addresses(out@) =~= before.push(shown));
            }
            i = i + 1;
        }
        assert(all.take(i as int) =~= all);
        out
    }

    /// Gives a database a domain of its own, or takes it away. A domain at which another database
    /// is reached is refused.
    pub fn set_database_domain(&mut self, database_id: Id, domain: Option<&str>) -> (r: Result<
        Database,
        CoreError,
    >)
        ensures
            domain_set(
                old(self)@,
                final(self)@,
                r,
                database_id,
                match domain {
                    Some(d) => Some(d@),
                    None => None,
                },
            ),
            records::sound(old(self)@) ==> records::sound(final(self)@),
    {
        let k = match rows::find(&self.databases, database_id) {
            Some(k) => k,
            None => {
                return Err(records::missing("database ", database_id));
            },
        };
        let mut database = self.databases[k].clone();
        match domain {
            Some(domain) => {
                let meant = text::lowercase(text::trim(domain).as_str());
                if meant.as_str().is_empty() {
                    return Err(CoreError::NotConfigured("a domain can't be blank".to_owned()));
                }
                let routes = self.routing_table();
                if let Some(other) = holder_of(&routes, meant.as_str(), database_id) {
                    return Err(CoreError::DomainTaken { domain: meant, database: other });
                }
                database.domain = Some(meant);
            },
            None => {
                database.domain = None;
            },
        }
        self.change_database(k, database.clone());
        Ok(database)
    }

    fn change_database(&mut self, k: usize, database: Database)
        requires
            k < old(self)@.databases.len(),
            database.id == old(self)@.databases[k as int].id,
            database.server_id == old(self)@.databases[k as int].server_id,
        ensures
            final(self)@ == (State {
                databases: old(self)@.databases.update(k as int, database),
                ..old(self)@
            }),
            records::sound(old(self)@) ==> records::sound(final(self)@),
    {
        proof {
            records::lemma_as_taken(self@.databases, k as int, database);
        }
        self.databases.set(k, database);
    }

    // --- coming and going -------------------------------------------------

    fn add_database(&mut self, database: Database, took: Option<u64>, event: Event, stamp: &Stamp) -> (r:
        Result<Database, CoreError>)
        ensures
            database_added(old(self)@, final(self)@, r, database, *stamp, took, event),
            records::sound(old(self)@) ==> records::sound(final(self)@),
    {
        if rows::find(&self.servers, database.server_id).is_none() {
            return Err(records::missing("server ", database.server_id));
        }
        if rows::find(&self.databases, database.id).is_some() {
            return Err(records::taken_error("databases"));
        }
        proof {
            if records::sound(self@) {
                rows::lemma_push_distinct(self@.databases, database);
            }
        }
        self.databases.push(database.clone());
        if let Err(e) = self.can_record(stamp) {
            return Err(e);
        }
        self.record(stamp, took, event);
        Ok(database)
    }

    /// Notes a database that was made: `made` says whether its cluster made it.
    pub fn create_database(
        &mut self,
        id: Id,
        server_id: Id,
        name: String,
        made: Result<(), CoreError>,
        took_ms: u64,
        stamp: &Stamp,
    ) -> (r: Result<Database, CoreError>)
        ensures
            match made {
                Ok(_) => database_added(
                    old(self)@,
                    final(self)@,
                    r,
                    new_database(id, server_id, name, DatabaseOrigin::Created, *stamp),
                    *stamp,
                    Some(took_ms),
                    Event::DatabaseCreated { database_id: id, server_id, name },
                ),
                Err(e) => r == Err::<Database, CoreError>(e) && final(self)@ == old(self)@,
            },
            records::sound(old(self)@) ==> records::sound(final(self)@),
    {
        if let Err(e) = made {
            return Err(e);
        }
        let database = Database::new(id, server_id, name, stamp.now);
        let name = database.name.clone();
        self.add_database(
            database,
            Some(took_ms),
            Event::DatabaseCreated { database_id: id, server_id, name },
            stamp,
        )
    }

    /// Notes a copy of a database: `made` says whether the cluster made it.
    pub fn duplicate_database(
        &mut self,
        id: Id,
        database_id: Id,
        new_name: String,
        made: Result<(), CoreError>,
        took_ms: u64,
        stamp: &Stamp,
    ) -> (r: Result<Database, CoreError>)
        ensures
            database_copied(old(self)@, final(self)@, r, id, database_id, new_name, made, took_ms, *stamp),
            records::sound(old(self)@) ==> records::sound(final(self)@),
    {
        let server_id = match rows::find(&self.databases, database_id) {
            Some(k) => self.databases[k].server_id,
            None => {
                return Err(records::missing("database ", database_id));
            },
        };
        if let Err(e) = made {
            return Err(e);
        }
        let database = Database::from_origin(
            id,
            server_id,
            new_name,
            DatabaseOrigin::Duplicated,
            stamp.now,
        );
        self.add_database(
            database,
            Some(took_ms),
            Event::DatabaseDuplicated { database_id: id, source_database_id: database_id },
            stamp,
        )
    }

    /// Notes a database that was read from a backup: `made` says whether the cluster read it,
    /// `files` whether its files could be put in place. Where only the files failed, the database
    /// is there all the same, but nothing is told of it.
    pub fn restore_database(
        &mut self,
        id: Id,
        server_id: Id,
        new_name: String,
        made: Result<(), CoreError>,
        files: Result<(), CoreError>,
        took_ms: u64,
        stamp: &Stamp,
    ) -> (r: Result<Database, CoreError>)
        ensures
            database_restored(old(self)@, final(self)@, r, id, server_id, new_name, made, files, took_ms, *stamp),
            records::sound(old(self)@) ==> records::sound(final(self)@),
    {
        if let Err(e) = made {
            return Err(e);
        }
        let database = Database::from_origin(
            id,
            server_id,
            new_name,
            DatabaseOrigin::Restored,
            stamp.now,
        );
        if let Err(e) = files {
            if rows::find(&self.servers, server_id).is_none() {
                return Err(records::missing("server ", server_id));
            }
            if rows::find(&self.databases, id).is_some() {
                return Err(records::taken_error("databases"));
            }
            proof {
                if records::sound(self@) {
                    rows::lemma_push_distinct(self@.databases, database);
                }
            }
            self.databases.push(database);
            return Err(e);
        }
        self.add_database(
            database,
            Some(took_ms),
            Event::DatabaseRestored { database_id: id },
            stamp,
        )
    }

    /// Notes a database that somebody else made in the cluster of a server: `exists` says whether
    /// the cluster has it.
    pub fn adopt_database(
        &mut self,
        id: Id,
        server_id: Id,
        name: String,
        exists: Result<bool, CoreError>,
        stamp: &Stamp,
    ) -> (r: Result<Database, CoreError>)
        ensures
            adopted(old(self)@, final(self)@, r, id, server_id, name, exists, *stamp),
            records::sound(old(self)@) ==> records::sound(final(self)@),
    {
        if rows::find(&self.servers, server_id).is_none() {
            return Err(records::missing("server ", server_id));
        }
        match exists {
            Err(e) => {
                return Err(e);
            },
            Ok(false) => {
                let mut message = text::joined("database ", name.as_str());
                message.append(" doesn't exist in that store");
                return Err(CoreError::NotFound(message));
            },
            Ok(true) => {},
        }
        if self.knows_database(server_id, name.as_str()) {
            return Err(
                CoreError::NotConfigured(
                    text::joined(name.as_str(), " is already known to this app"),
                ),
            );
        }
        let database = Database::from_origin(
            id,
            server_id,
            name,
            DatabaseOrigin::Adopted,
            stamp.now,
        );
        let name = database.name.clone();
        self.add_database(
            database,
            None,
            Event::DatabaseCreated { database_id: id, server_id, name },
            stamp,
        )
    }

    fn knows_database(&self, server_id: Id, name: &str) -> (r: bool)
        ensures
            r == known(self@.databases, server_id, name@),
    {
        let mut i: usize = 0;
        while i < self.databases.len()
            invariant
                i <= self.databases@.len(),
                forall|j: int|
                    0 <= j < i ==> !((#[trigger] self.databases@[j]).server_id == server_id
                        && self.databases@[j].name@ == name@),
            decreases self.databases@.len() - i,
        {
            let d = &self.databases[i];
            if d.server_id == server_id && text::same_text(d.name.as_str(), name) {
                assert(self@.databases[i as int].name@ == name@);
                return true;
            }
            i = i + 1;
        }
        false
    }

    /// Forgets a database; the cluster keeps it.
    pub fn forget_database(&mut self, database_id: Id, stamp: &Stamp) -> (r: Result<(), CoreError>)
        ensures
            database_gone(
                old(self)@,
                final(self)@,
                r,
                database_id,
                old(self)@.installs,
                *stamp,
            ),
            records::sound(old(self)@) ==> records::sound(final(self)@),
    {
        match self.remove_database(database_id) {
            Ok(database) => self.tell_dropped(database, stamp),
            Err(e) => Err(e),
        }
    }

    fn remove_database(&mut self, database_id: Id) -> (r: Result<Database, CoreError>)
        ensures
            match r {
                Ok(database) => {
                    &&& rows::taken(old(self)@.databases, database_id)
                    &&& database == rows::row_of(old(self)@.databases, database_id)
                    &&& database.id == database_id
                    &&& final(self)@ == (State {
                        databases: old(self)@.databases.remove(
                            rows::place_of(old(self)@.databases, database_id) as int,
                        ),
                        ..old(self)@
                    })
                },
                Err(e) => {
                    &&& !rows::taken(old(self)@.databases, database_id)
                    &&& records::is_missing(e, "database "@, database_id)
                    &&& final(self)@ == old(self)@
                },
            },
            records::sound(old(self)@) ==> records::sound(final(self)@),
    {
        let k = match rows::find(&self.databases, database_id) {
            Some(k) => k,
            None => {
                return Err(records::missing("database ", database_id));
            },
        };
        proof {
            rows::lemma_place_of(self@.databases, database_id);
            if records::sound(self@) {
                rows::lemma_remove(self@.databases, k as int, 0);
                lemma_removed_servers_are_there(self@, k as int);
            }
        }
        Ok(self.databases.remove(k))
    }

    fn tell_dropped(&mut self, database: Database, stamp: &Stamp) -> (r: Result<(), CoreError>)
        ensures
            match r {
                Ok(_) => {
                    &&& records::may_tell(old(self)@, *stamp)
                    &&& final(self)@ == records::told(
                        old(self)@,
                        *stamp,
                        None,
                        Event::DatabaseDropped {
                            database_id: database.id,
                            server_id: database.server_id,
                            name: database.name,
                        },
                    )
                },
                Err(e) => {
                    &&& !records::may_tell(old(self)@, *stamp)
                    &&& rows::is_taken_error(e, "events"@)
                    &&& final(self)@ == old(self)@
                },
            },
            records::sound(old(self)@) ==> records::sound(final(self)@),
    {
        if let Err(e) = self.can_record(stamp) {
            return Err(e);
        }
        self.record(
            stamp,
            None,
            Event::DatabaseDropped {
                database_id: database.id,
                server_id: database.server_id,
                name: database.name,
            },
        );
        Ok(())
    }

    /// Notes that a database was dropped, and forgets what was recorded of its modules: `dropped`
    /// says whether the cluster dropped it.
    pub fn drop_database(
        &mut self,
        database_id: Id,
        dropped: Result<(), CoreError>,
        stamp: &Stamp,
    ) -> (r: Result<(), CoreError>)
        ensures
            if !rows::taken(old(self)@.databases, database_id) || dropped is Ok {
                database_gone(
                    old(self)@,
                    final(self)@,
                    r,
                    database_id,
                    without_database(old(self)@.installs, database_id),
                    *stamp,
                )
            } else {
                r == Err::<(), CoreError>(dropped->Err_0) && final(self)@ == old(self)@
            },
            records::sound(old(self)@) ==> records::sound(final(self)@),
    {
        if rows::find(&self.databases, database_id).is_some() {
            if let Err(e) = dropped {
                return Err(e);
            }
        }
        match self.remove_database(database_id) {
            Ok(database) => {
                self.forget_module_installs(database_id);
                self.tell_dropped(database, stamp)
            },
            Err(e) => Err(e),
        }
    }

    /// Notes that a database was backed up to a file: with its files, or without.
    pub fn backup_database(
        &mut self,
        database_id: Id,
        dest_file: String,
        took_filestore: bool,
        took_ms: u64,
        stamp: &Stamp,
    ) -> (r: Result<(), CoreError>)
        ensures
            match r {
                Ok(_) => {
                    &&& rows::taken(old(self)@.databases, database_id)
                    &&& records::may_tell(old(self)@, *stamp)
                    &&& exists|format: String|
                        format@ == backup_format(took_filestore) && #[trigger] backed_up(
                            old(self)@,
                            final(self)@,
                            database_id,
                            format,
                            dest_file,
                            took_ms,
                            *stamp,
                        )
                },
                Err(e) => if !rows::taken(old(self)@.databases, database_id) {
                    &&& records::is_missing(e, "database "@, database_id)
                    &&& final(self)@ == old(self)@
                } else {
                    &&& !records::may_tell(old(self)@, *stamp)
                    &&& rows::is_taken_error(e, "events"@)
                    &&& final(self)@ == marked_as_backed_up(old(self)@, database_id, stamp.now)
                },
            },
            records::sound(old(self)@) ==> records::sound(final(self)@),
    {
        let k = match rows::find(&self.databases, database_id) {
            Some(k) => k,
            None => {
                return Err(records::missing("database ", database_id));
            },
        };
        let ghost before = self@;
        let mut database = self.databases[k].clone();
        database.last_backup_at = Some(stamp.now);
        let server_id = database.server_id;
        self.change_database(k, database);
        if let Err(e) = self.can_record(stamp) {
            return Err(e);
        }
        let format = if took_filestore {
            "dump+filestore".to_owned()
        } else {
            "dump".to_owned()
        };
        self.record(
            stamp,
            Some(took_ms),
            Event::DatabaseBackedUp { database_id, server_id, format, path: dest_file },
        );
        assert(backed_up(before, self@, database_id, format, dest_file, took_ms, *stamp));
        Ok(())
    }

    /// Notes the size of a database; one that is not there is passed over.
    pub fn set_database_size(&mut self, database_id: Id, size_bytes: u64)
        ensures
            size_set(old(self)@, final(self)@, database_id, size_bytes),
            records::sound(old(self)@) ==> records::sound(final(self)@),
    {
        if let Some(k) = rows::find(&self.databases, database_id) {
            let mut database = self.databases[k].clone();
            database.size_bytes = size_bytes;
            self.change_database(k, database);
        }
    }

    // --- installs ---------------------------------------------------------

    /// Records what the files of a module came to when it was put on a database, in place of what
    /// was recorded before.
    pub fn record_module_install(&mut self, database_id: Id, technical_name: &str, content_hash: &str)
        ensures
            exists|install: ModuleInstall|
                {
                    &&& install.database_id == database_id
                    &&& install.technical_name@ == technical_name@
                    &&& install.content_hash@ == content_hash@
                    &&& final(self)@ == (State {
                        installs: (#[trigger] without_install(
                            old(self)@.installs,
                            install.database_id,
                            install.technical_name@,
                        )).push(install),
                        ..old(self)@
                    })
                },
            records::sound(old(self)@) ==> records::sound(final(self)@),
    {
        let ghost all = self@.installs;
        let mut kept: Vec<ModuleInstall> = Vec::new();
        let mut i: usize = 0;
        proof {
            reveal(Seq::filter);
        }
        assert(kept@ =~= without_install(all.take(0), database_id, technical_name@));
        while i < self.installs.len()
            invariant
                i <= self.installs@.len(),
                all == self.installs@,
                kept@ == without_install(all.take(i as int), database_id, technical_name@),
            decreases self.installs@.len() - i,
        {
            proof {
                reveal(Seq::filter);
                assert(all.take(i + 1).drop_last() =~= all.take(i as int));
                assert(all.take(i + 1).last() == all[i as int]);
            }
            let m = &self.installs[i];
            if !(m.database_id == database_id && text::same_text(
                m.technical_name.as_str(),
                technical_name,
            )) {
                kept.push(m.clone());
            }
            i = i + 1;
        }
        assert(all.take(i as int) =~= all);
        let install = ModuleInstall {
            database_id,
            technical_name: technical_name.to_owned(),
            content_hash: content_hash.to_owned(),
        };
        kept.push(install);
        self.installs = kept;
        assert(self@ == (State {
            installs: without_install(all, install.database_id, install.technical_name@).push(
                install,
            ),
            ..old(self)@
        }));
    }

    /// What was recorded of a module on a database.
    pub fn module_install(&self, database_id: Id, technical_name: &str) -> (r: Option<String>)
        ensures
            text::opt_view(r) == recorded_hash(self@.installs, database_id, technical_name@),
    {
        let ghost all = self@.installs;
        let mut i: usize = self.installs.len();
        assert(all.take(i as int) =~= all);
        while i > 0
            invariant
                i <= self.installs@.len(),
                all == self@.installs,
                recorded_hash(all, database_id, technical_name@) == recorded_hash(
                    all.take(i as int),
                    database_id,
                    technical_name@,
                ),
            decreases i,
        {
            i = i - 1;
            proof {
                assert(all.take(i + 1).drop_last() =~= all.take(i as int));
                assert(all.take(i + 1).last() == all[i as int]);
            }
            let m = &self.installs[i];
            if m.database_id == database_id && text::same_text(
                m.technical_name.as_str(),
                technical_name,
            ) {
                return Some(m.content_hash.clone());
            }
        }
        assert(all.take(0) =~= Seq::<ModuleInstall>::empty());
        None
    }

    /// Forgets what was recorded of the modules on a database.
    pub fn forget_module_installs(&mut self, database_id: Id)
        ensures
            final(self)@ == (State {
                installs: without_database(old(self)@.installs, database_id),
                ..old(self)@
            }),
            records::sound(old(self)@) ==> records::sound(final(self)@),
    {
        let ghost all = self@.installs;
        let mut kept: Vec<ModuleInstall> = Vec::new();
        let mut i: usize = 0;
        proof {
            reveal(Seq::filter);
        }
        assert(kept@ =~= without_database(all.take(0), database_id));
        while i < self.installs.len()
            invariant
                i <= self.installs@.len(),
                all == self.installs@,
                kept@ == without_database(all.take(i as int), database_id),
            decreases self.installs@.len() - i,
        {
            proof {
                reveal(Seq::filter);
                assert(all.take(i + 1).drop_last() =~= all.take(i as int));
                assert(all.take(i + 1).last() == all[i as int]);
            }
            if self.installs[i].database_id != database_id {
                kept.push(self.installs[i].clone());
            }
            i = i + 1;
        }
        assert(all.take(i as int) =~= all);
        self.installs = kept;
    }
}

/// What comes of the request to copy a database.
pub open spec fn database_copied(
    before: State,
    after: State,
    r: Result<Database, CoreError>,
    id: Id,
    database_id: Id,
    new_name: String,
    made: Result<(), CoreError>,
    took_ms: u64,
    stamp: Stamp,
) -> bool {
    if !rows::taken(before.databases, database_id) {
        &&& r matches Err(e)
        &&& records::is_missing(e, "database "@, database_id)
        &&& after == before
    } else {
        match made {
            Ok(_) => database_added(
                before,
                after,
                r,
                new_database(
                    id,
                    rows::row_of(before.databases, database_id).server_id,
                    new_name,
                    DatabaseOrigin::Duplicated,
                    stamp,
                ),
                stamp,
                Some(took_ms),
                Event::DatabaseDuplicated {
                    database_id: id,
                    source_database_id: database_id,
                },
            ),
            Err(e) => r == Err::<Database, CoreError>(e) && after == before,
        }
    }
}

/// What comes of the request to restore a database.
pub open spec fn database_restored(
    before: State,
    after: State,
    r: Result<Database, CoreError>,
    id: Id,
    server_id: Id,
    new_name: String,
    made: Result<(), CoreError>,
    files: Result<(), CoreError>,
    took_ms: u64,
    stamp: Stamp,
) -> bool {
    match (made, files) {
        (Err(e), _) => r == Err::<Database, CoreError>(e) && after == before,
        (Ok(_), Ok(_)) => database_added(
            before,
            after,
            r,
            new_database(id, server_id, new_name, DatabaseOrigin::Restored, stamp),
            stamp,
            Some(took_ms),
            Event::DatabaseRestored { database_id: id },
        ),
        (Ok(_), Err(e)) => if !rows::taken(before.servers, server_id) {
            &&& r matches Err(e)
            &&& records::is_missing(e, "server "@, server_id)
            &&& after == before
        } else if rows::taken(before.databases, id) {
            &&& r matches Err(e)
            &&& rows::is_taken_error(e, "databases"@)
            &&& after == before
        } else {
            &&& r == Err::<Database, CoreError>(e)
            &&& after == (State {
                databases: before.databases.push(
                    new_database(
                        id,
                        server_id,
                        new_name,
                        DatabaseOrigin::Restored,
                        stamp,
                    ),
                ),
                ..before
            })
        },
    }
}

/// What the records say once the size of a database is noted.
pub open spec fn size_set(
    before: State,
    after: State,
    database_id: Id,
    size_bytes: u64,
) -> bool {
    after == (if rows::taken(before.databases, database_id) {
        State {
            databases: before.databases.update(
                rows::place_of(before.databases, database_id) as int,
                Database {
                    size_bytes,
                    ..rows::row_of(before.databases, database_id)
                },
            ),
            ..before
        }
    } else {
        before
    })
}

/// What a backup is called that holds the files too, or not.
pub open spec fn backup_format(took_filestore: bool) -> Seq<char> {
    if took_filestore {
        "dump+filestore"@
    } else {
        "dump"@
    }
}

/// What is known once it is noted when a database was last backed up.
pub open spec fn marked_as_backed_up(before: State, database_id: Id, now: Moment) -> State {
    State {
        databases: before.databases.update(
            rows::place_of(before.databases, database_id) as int,
            Database {
                last_backup_at: Some(now),
                ..rows::row_of(before.databases, database_id)
            },
        ),
        ..before
    }
}

/// What is known once a database was backed up.
pub open spec fn backed_up(
    before: State,
    after: State,
    database_id: Id,
    format: String,
    path: String,
    took_ms: u64,
    stamp: Stamp,
) -> bool {
    let was = rows::row_of(before.databases, database_id);
    after == records::told(
        marked_as_backed_up(before, database_id, stamp.now),
        stamp,
        Some(took_ms),
        Event::DatabaseBackedUp { database_id, server_id: was.server_id, format, path },
    )
}

/// Whether a server has a database of the name.
pub open spec fn known(databases: Seq<Database>, server_id: Id, name: Seq<char>) -> bool {
    exists|i: int|
        0 <= i < databases.len() && (#[trigger] databases[i]).server_id == server_id
            && databases[i].name@ == name
}

/// What comes of the request to note a database that somebody else made.
pub open spec fn adopted(
    before: State,
    after: State,
    r: Result<Database, CoreError>,
    id: Id,
    server_id: Id,
    name: String,
    exists: Result<bool, CoreError>,
    stamp: Stamp,
) -> bool {
    if !rows::taken(before.servers, server_id) {
        &&& r matches Err(e)
        &&& records::is_missing(e, "server "@, server_id)
        &&& after == before
    } else {
        match exists {
            Err(e) => r == Err::<Database, CoreError>(e) && after == before,
            Ok(false) => {
                &&& r matches Err(e)
                &&& e matches CoreError::NotFound(m)
                &&& m@ == "database "@ + name@ + " doesn't exist in that store"@
                &&& after == before
            },
            Ok(true) => if known(before.databases, server_id, name@) {
                &&& r matches Err(e)
                &&& e matches CoreError::NotConfigured(m)
                &&& m@ == name@ + " is already known to this app"@
                &&& after == before
            } else {
                database_added(
                    before,
                    after,
                    r,
                    new_database(id, server_id, name, DatabaseOrigin::Adopted, stamp),
                    stamp,
                    None,
                    Event::DatabaseCreated { database_id: id, server_id, name },
                )
            },
        }
    }
}

/// What comes of the request to forget a database.
pub open spec fn database_gone(
    before: State,
    after: State,
    r: Result<(), CoreError>,
    database_id: Id,
    installs: Seq<ModuleInstall>,
    stamp: Stamp,
) -> bool {
    let without = State {
        databases: before.databases.remove(rows::place_of(before.databases, database_id) as int),
        installs,
        ..before
    };
    match r {
        Ok(_) => {
            let was = rows::row_of(before.databases, database_id);
            &&& rows::taken(before.databases, database_id)
            &&& records::may_tell(before, stamp)
            &&& after == records::told(
                without,
                stamp,
                None,
                Event::DatabaseDropped {
                    database_id,
                    server_id: was.server_id,
                    name: was.name,
                },
            )
        },
        Err(e) => if !rows::taken(before.databases, database_id) {
            records::is_missing(e, "database "@, database_id) && after == before
        } else {
            &&& !records::may_tell(before, stamp)
            &&& rows::is_taken_error(e, "events"@)
            &&& after == without
        },
    }
}

proof fn lemma_removed_servers_are_there(s: State, k: int)
    requires
        0 <= k < s.databases.len(),
        records::servers_are_there(s),
    ensures
        records::servers_are_there(State { databases: s.databases.remove(k), ..s }),
{
    let out = s.databases.remove(k);
    assert forall|i: int| 0 <= i < out.len() implies rows::taken(
        s.servers,
        (#[trigger] out[i]).server_id,
    ) by {
        let p = if i < k { i } else { i + 1 };
        assert(out[i] == s.databases[p]);
    }
}

fn holder_of(routes: &Vec<Route>, host: &str, database_id: Id) -> (r: Option<String>)
    ensures
        text::opt_view(r) == held_by(addresses(routes@), host@, database_id),
{
    let ghost all = addresses(routes@);
    let mut i: usize = 0;
    assert(all.skip(0) =~= all);
    while i < routes.len()
        invariant
            i <= routes@.len(),
            all == addresses(routes@),
            held_by(all, host@, database_id) == held_by(all.skip(i as int), host@, database_id),
        decreases routes@.len() - i,
    {
        assert(all.skip(i as int)[0] == routes@[i as int]@);
        if routes[i].database_id != database_id && text::same_text(routes[i].host.as_str(), host) {
            return Some(routes[i].database.clone());
        }
        assert(all.skip(i as int).skip(1) =~= all.skip(i + 1));
        i = i + 1;
    }
    None
}

/// Once a database has a domain, no other database is reached there.
pub proof fn law_a_domain_leads_to_one_database(
    before: State,
    after: State,
    r: Result<Database, CoreError>,
    database_id: Id,
    domain: Seq<char>,
)
    requires
        domain_set(before, after, r, database_id, Some(domain)),
        r is Ok,
    ensures
        forall|i: int|
            0 <= i < after.databases.len() && (#[trigger] after.databases[i]).id != database_id
                && rows::taken(after.servers, after.databases[i].server_id)
                ==> model::hostname_of(after.databases[i]) != domain_meant(domain),
{
    let meant = domain_meant(domain);
    let k = rows::place_of(before.databases, database_id) as int;
    rows::lemma_place_of(before.databases, database_id);
    lemma_held_by(all_addresses(before), meant, database_id);
    assert forall|i: int|
        0 <= i < after.databases.len() && (#[trigger] after.databases[i]).id != database_id
            && rows::taken(after.servers, after.databases[i].server_id) implies model::hostname_of(
        after.databases[i],
    ) != meant by {
        let d = after.databases[i];
        assert(i != k);
        assert(d == before.databases[i]);
        let list = rows::listing(before.databases, None);
        rows::law_a_listing_is_ordered(before.databases);
        assert(before.databases.contains(d));
        assert(list.contains(d));
        let p = choose|p: int| 0 <= p < list.len() && list[p] == d;
        lemma_has_address(list, before.servers, p);
        let all = all_addresses(before);
        let q = choose|q: int|
            0 <= q < all.len() && all[q] == address_of(
                d,
                rows::row_of(before.servers, d.server_id),
            );
        assert(all[q].host == model::hostname_of(d) && all[q].database_id == d.id);
    }
}

proof fn lemma_has_address(databases: Seq<Database>, servers: Seq<OdooServer>, p: int)
    requires
        0 <= p < databases.len(),
        rows::taken(servers, databases[p].server_id),
    ensures
        exists|q: int|
            0 <= q < addresses_of(databases, servers).len() && #[trigger] addresses_of(
                databases,
                servers,
            )[q] == address_of(
                databases[p],
                rows::row_of(servers, databases[p].server_id),
            ),
    decreases databases.len(),
{
    let rest = databases.drop_last();
    let before = addresses_of(rest, servers);
    let all = addresses_of(databases, servers);
    let wanted = address_of(databases[p], rows::row_of(servers, databases[p].server_id));
    if p < rest.len() {
        lemma_has_address(rest, servers, p);
        let q = choose|q: int| 0 <= q < before.len() && #[trigger] before[q] == wanted;
        assert(all[q] == wanted);
    } else {
        assert(all[before.len() as int] == wanted);
    }
}

/// Every database whose server is known has an address, in the order of the list: its own domain
/// or its name under `localhost`, with the port of its server.
pub proof fn law_every_database_has_an_address(databases: Seq<Database>, servers: Seq<OdooServer>)
    ensures
        addresses_of(databases, servers) == databases.filter(
            |d: Database| rows::taken(servers, d.server_id),
        ).map_values(
            |d: Database|
                Address {
                    host: if d.domain is Some {
                        d.domain->0@
                    } else {
                        d.name@ + ".localhost"@
                    },
                    port: rows::row_of(servers, d.server_id).port,
                    database: d.name@,
                    server_id: d.server_id,
                    database_id: d.id,
                    running: rows::row_of(servers, d.server_id).state is Running,
                },
        ),
    decreases databases.len(),
{
    let pick = |d: Database| rows::taken(servers, d.server_id);
    let turn = |d: Database|
        Address {
            host: if d.domain is Some {
                d.domain->0@
            } else {
                d.name@ + ".localhost"@
            },
            port: rows::row_of(servers, d.server_id).port,
            database: d.name@,
            server_id: d.server_id,
            database_id: d.id,
            running: rows::row_of(servers, d.server_id).state is Running,
        };
    order::lemma_picked(databases, pick, turn);
    if databases.len() > 0 {
        law_every_database_has_an_address(databases.drop_last(), servers);
        let d = databases.last();
        if rows::taken(servers, d.server_id) {
            rows::lemma_place_of(servers, d.server_id);
            assert(rows::row_of(servers, d.server_id).id == d.server_id);
            assert(address_of(d, rows::row_of(servers, d.server_id)) == turn(d));
        }
    }
}

/// An address is held by the first other database that has it, and by none where no other has it.
pub proof fn law_an_address_is_held_by_another(
    addresses: Seq<Address>,
    host: Seq<char>,
    database_id: Id,
    k: int,
)
    ensures
        0 <= k < addresses.len() && addresses[k].host == host && addresses[k].database_id
            != database_id && (forall|i: int|
            0 <= i < k ==> (#[trigger] addresses[i]).host != host || addresses[i].database_id
                == database_id) ==> held_by(addresses, host, database_id) == Some(
            addresses[k].database,
        ),
        (forall|i: int|
            0 <= i < addresses.len() ==> (#[trigger] addresses[i]).host != host
                || addresses[i].database_id == database_id) ==> held_by(
            addresses,
            host,
            database_id,
        ) is None,
    decreases addresses.len(),
{
    if addresses.len() > 0 {
        let rest = addresses.skip(1);
        law_an_address_is_held_by_another(rest, host, database_id, k - 1);
        assert(forall|i: int| 0 <= i < rest.len() ==> rest[i] == addresses[i + 1]);
    }
}

/// A domain is taken without the white space round it and in small letters.
pub proof fn law_a_domain_is_trimmed_and_small(
    a: Seq<char>,
    domain: Seq<char>,
    b: Seq<char>,
    i: int,
)
    requires
        forall|i: int| 0 <= i < a.len() ==> text::is_white(#[trigger] a[i]),
        forall|i: int| 0 <= i < b.len() ==> text::is_white(#[trigger] b[i]),
        domain.len() > 0 ==> !text::is_white(domain[0]) && !text::is_white(domain.last()),
        text::all_ascii(domain),
    ensures
        domain_meant(a + domain + b).len() == domain.len(),
        0 <= i < domain.len() ==> domain_meant(a + domain + b)[i] == text::ascii_lower(domain[i]),
{
    text::law_trimming_takes_off_white_space(a, domain, b);
}

/// Setting a domain changes the domain of that database and nothing else; taking it away always
/// succeeds, and giving one fails exactly where it is blank or another database has it.
pub proof fn law_a_domain_is_given_or_taken_away(
    before: State,
    after: State,
    r: Result<Database, CoreError>,
    database_id: Id,
    domain: Option<Seq<char>>,
    i: int,
)
    requires
        domain_set(before, after, r, database_id, domain),
        rows::distinct(before.databases),
    ensures
        r is Ok <==> {
            &&& exists|k: int|
                0 <= k < before.databases.len() && (#[trigger] before.databases[k]).id
                    == database_id
            &&& domain is None || (domain_meant(domain->0).len() > 0 && held_by(
                all_addresses(before),
                domain_meant(domain->0),
                database_id,
            ) is None)
        },
        after.databases.len() == before.databases.len(),
        0 <= i < before.databases.len() && (r is Err || before.databases[i].id != database_id)
            ==> after.databases[i] == before.databases[i],
        0 <= i < before.databases.len() && r is Ok && before.databases[i].id == database_id ==> {
            &&& after.databases[i].name == before.databases[i].name
            &&& after.databases[i].server_id == before.databases[i].server_id
            &&& after.databases[i].origin == before.databases[i].origin
            &&& after.databases[i].size_bytes == before.databases[i].size_bytes
            &&& after.databases[i].last_backup_at == before.databases[i].last_backup_at
            &&& after.databases[i].created_at == before.databases[i].created_at
            &&& after.databases[i].domain is Some <==> domain is Some
            &&& domain is Some ==> after.databases[i].domain->0@ == domain_meant(domain->0)
            &&& r->Ok_0 == after.databases[i]
        },
        after.servers == before.servers && after.events == before.events && after.installs
            == before.installs,
{
    if rows::taken(before.databases, database_id) {
        rows::lemma_place_of(before.databases, database_id);
        let k = rows::place_of(before.databases, database_id) as int;
        assert(before.databases[k].id == database_id);
        if 0 <= i < before.databases.len() && before.databases[i].id == database_id && i != k {
            assert(before.databases[i].row_id() == before.databases[k].row_id());
            if i < k {
                assert(before.databases[i].row_id() != before.databases[k].row_id());
            } else {
                assert(before.databases[k].row_id() != before.databases[i].row_id());
            }
        }
    } else if 0 <= i < before.databases.len() {
        assert(before.databases[i].row_id() != database_id);
    }
    assert forall|k: int| 0 <= k < before.databases.len() && (#[trigger] before.databases[k]).id
        == database_id implies rows::taken(before.databases, database_id) by {
        assert(before.databases[k].row_id() == database_id);
    }
}

/// Nothing is read of an install where none was recorded for that database and module.
pub proof fn law_an_install_is_read_where_it_was_recorded(
    installs: Seq<ModuleInstall>,
    database_id: Id,
    name: Seq<char>,
    k: int,
)
    ensures
        0 <= k < installs.len() && installs[k].database_id == database_id
            && installs[k].technical_name@ == name && (forall|i: int|
            k < i < installs.len() ==> (#[trigger] installs[i]).database_id != database_id
                || installs[i].technical_name@ != name) ==> recorded_hash(
            installs,
            database_id,
            name,
        ) == Some(installs[k].content_hash@),
        (forall|i: int|
            0 <= i < installs.len() ==> (#[trigger] installs[i]).database_id != database_id
                || installs[i].technical_name@ != name) ==> recorded_hash(
            installs,
            database_id,
            name,
        ) is None,
    decreases installs.len(),
{
    if installs.len() > 0 {
        let rest = installs.drop_last();
        law_an_install_is_read_where_it_was_recorded(rest, database_id, name, k);
        assert(forall|i: int| 0 <= i < rest.len() ==> rest[i] == installs[i]);
        assert(installs[installs.len() - 1] == installs.last());
    }
}

/// A database that is added stands behind the others as it was given, on a server that is known,
/// under an identifier that was free; nothing else changes but the record of what happened.
pub proof fn law_an_added_database_is_there(
    before: State,
    after: State,
    r: Result<Database, CoreError>,
    database: Database,
    stamp: Stamp,
    took: Option<u64>,
    event: Event,
)
    requires
        database_added(before, after, r, database, stamp, took, event),
    ensures
        r matches Ok(added) ==> {
            &&& added == database
            &&& after.databases == before.databases.push(database)
            &&& after.events.drop_last() == before.events
            &&& after.events.last().event == event
            &&& after.events.last().duration_ms == took
            &&& after.events.last().occurred_at == stamp.now
            &&& exists|k: int|
                0 <= k < before.servers.len() && (#[trigger] before.servers[k]).id
                    == database.server_id
            &&& forall|k: int|
                0 <= k < before.databases.len() ==> (#[trigger] before.databases[k]).id
                    != database.id
        },
        r is Err ==> after.events == before.events,
        after.servers == before.servers,
        after.sources == before.sources,
        after.instances == before.instances,
        after.projects == before.projects,
        after.snapshots == before.snapshots,
        after.installs == before.installs,
{
    if r is Ok {
        rows::lemma_place_of(before.servers, database.server_id);
        assert(rows::row_of(before.servers, database.server_id).id == database.server_id);
        assert forall|k: int| 0 <= k < before.databases.len() implies (
        #[trigger] before.databases[k]).id != database.id by {
            assert(before.databases[k].row_id() == before.databases[k].id);
        }
    }
}

/// A new database has the name, the server and the origin that it was given, and nothing yet of
/// its own: no domain, no size, no backup.
pub proof fn law_a_new_database_is_empty(
    id: Id,
    server_id: Id,
    name: String,
    origin: DatabaseOrigin,
    stamp: Stamp,
)
    ensures
        new_database(id, server_id, name, origin, stamp).id == id,
        new_database(id, server_id, name, origin, stamp).server_id == server_id,
        new_database(id, server_id, name, origin, stamp).name == name,
        new_database(id, server_id, name, origin, stamp).origin == origin,
        new_database(id, server_id, name, origin, stamp).created_at == stamp.now,
        new_database(id, server_id, name, origin, stamp).domain is None,
        new_database(id, server_id, name, origin, stamp).last_backup_at is None,
        new_database(id, server_id, name, origin, stamp).size_bytes == 0,
{
}

/// Adopted is only a database that exists in its store and that nobody knows on that server.
pub proof fn law_only_a_stranger_is_adopted(
    before: State,
    after: State,
    r: Result<Database, CoreError>,
    id: Id,
    server_id: Id,
    name: String,
    exists_there: Result<bool, CoreError>,
    stamp: Stamp,
    i: int,
)
    requires
        adopted(before, after, r, id, server_id, name, exists_there, stamp),
    ensures
        r matches Ok(database) ==> {
            &&& exists_there == Ok::<bool, CoreError>(true)
            &&& database.name == name
            &&& database.server_id == server_id
            &&& database.id == id
            &&& database.origin is Adopted
            &&& after.databases == before.databases.push(database)
            &&& 0 <= i < before.databases.len() ==> before.databases[i].server_id != server_id
                || before.databases[i].name@ != name@
        },
        0 <= i < before.databases.len() && before.databases[i].server_id == server_id
            && before.databases[i].name@ == name@ ==> after == before,
        exists_there != Ok::<bool, CoreError>(true) ==> after == before,
{
}

/// A database that goes is taken out of the list, and no other is; its event names it.
pub proof fn law_only_the_named_database_goes(
    before: State,
    after: State,
    r: Result<(), CoreError>,
    database_id: Id,
    installs: Seq<ModuleInstall>,
    stamp: Stamp,
    d: Database,
)
    requires
        database_gone(before, after, r, database_id, installs, stamp),
        rows::distinct(before.databases),
    ensures
        after.databases.contains(d) ==> before.databases.contains(d),
        before.databases.contains(d) && d.id != database_id ==> after.databases.contains(d),
        before.databases.contains(d) && d.id == database_id ==> !after.databases.contains(d),
        r is Ok && before.databases.contains(d) && d.id == database_id ==> after.installs
            == installs && after.events.last().event == (Event::DatabaseDropped {
            database_id,
            server_id: d.server_id,
            name: d.name,
        }),
        after.servers == before.servers,
        after.snapshots == before.snapshots,
{
    let k = rows::place_of(before.databases, database_id) as int;
    let out = before.databases.remove(k);
    if rows::taken(before.databases, database_id) {
        rows::lemma_place_of(before.databases, database_id);
        assert(before.databases[k].id == database_id);
        assert(after.databases == out);
        if before.databases.contains(d) {
            let i = choose|i: int| 0 <= i < before.databases.len() && before.databases[i] == d;
            if i < k {
                assert(before.databases[i].row_id() != before.databases[k].row_id());
                assert(out[i] == d);
            } else if i > k {
                assert(before.databases[k].row_id() != before.databases[i].row_id());
                assert(out[i - 1] == d);
            }
        }
        if out.contains(d) {
            let j = choose|j: int| 0 <= j < out.len() && out[j] == d;
            let i = if j < k {
                j
            } else {
                j + 1
            };
            assert(before.databases[i] == d);
            if i < k {
                assert(before.databases[i].row_id() != before.databases[k].row_id());
            } else {
                assert(before.databases[k].row_id() != before.databases[i].row_id());
            }
        }
    } else if before.databases.contains(d) && d.id == database_id {
        let i = choose|i: int| 0 <= i < before.databases.len() && before.databases[i] == d;
        assert(before.databases[i].row_id() == database_id);
    }
}

/// A backup marks the time on the database that it was made of, and on no other, and is told of
/// with its file and with what it holds.
pub proof fn law_a_backup_marks_its_database(
    before: State,
    after: State,
    database_id: Id,
    format: String,
    path: String,
    took_ms: u64,
    stamp: Stamp,
    i: int,
)
    requires
        backed_up(before, after, database_id, format, path, took_ms, stamp),
        rows::taken(before.databases, database_id),
        rows::distinct(before.databases),
        0 <= i < before.databases.len(),
    ensures
        after.databases.len() == before.databases.len(),
        before.databases[i].id != database_id ==> after.databases[i] == before.databases[i],
        before.databases[i].id == database_id ==> {
            &&& after.databases[i].last_backup_at == Some(stamp.now)
            &&& after.databases[i].name == before.databases[i].name
            &&& after.databases[i].domain == before.databases[i].domain
            &&& after.databases[i].size_bytes == before.databases[i].size_bytes
            &&& after.databases[i].server_id == before.databases[i].server_id
            &&& after.events.last().event == (Event::DatabaseBackedUp {
                database_id,
                server_id: before.databases[i].server_id,
                format,
                path,
            })
        },
        after.events.drop_last() == before.events,
        after.events.last().duration_ms == Some(took_ms),
        backup_format(true) == "dump+filestore"@,
        backup_format(false) == "dump"@,
{
    rows::lemma_place_of(before.databases, database_id);
    let k = rows::place_of(before.databases, database_id) as int;
    assert(before.databases[k].id == database_id);
    if i < k {
        assert(before.databases[i].row_id() != before.databases[k].row_id());
    } else if i > k {
        assert(before.databases[k].row_id() != before.databases[i].row_id());
    }
}

/// A copy of a database is a new database of its own name on the server of the first, which stays
/// as it is; where it could not be made, nothing changes.
pub proof fn law_a_copy_is_on_the_same_server(
    before: State,
    after: State,
    r: Result<Database, CoreError>,
    id: Id,
    database: Database,
    new_name: String,
    made: Result<(), CoreError>,
    took_ms: u64,
    stamp: Stamp,
)
    requires
        database_copied(before, after, r, id, database.id, new_name, made, took_ms, stamp),
        rows::distinct(before.databases),
        before.databases.contains(database),
    ensures
        r matches Ok(copy) ==> {
            &&& made is Ok
            &&& copy.id == id
            &&& copy.name == new_name
            &&& copy.server_id == database.server_id
            &&& copy.origin is Duplicated
            &&& after.databases == before.databases.push(copy)
            &&& after.databases.contains(database)
            &&& after.events.last().event == (Event::DatabaseDuplicated {
                database_id: id,
                source_database_id: database.id,
            })
        },
        made is Err ==> after == before && r is Err,
{
    rows::law_a_record_is_found_by_its_identifier(before.databases, database, database.id);
    if let Ok(copy) = r {
        let k = choose|k: int| 0 <= k < before.databases.len() && before.databases[k] == database;
        assert(after.databases[k] == database);
    }
}

/// What is restored is a new database, told of only where its files were restored too; where they
/// were not, it is kept and the failure is answered.
pub proof fn law_a_restored_database_is_kept(
    before: State,
    after: State,
    r: Result<Database, CoreError>,
    id: Id,
    server_id: Id,
    new_name: String,
    made: Result<(), CoreError>,
    files: Result<(), CoreError>,
    took_ms: u64,
    stamp: Stamp,
)
    requires
        database_restored(before, after, r, id, server_id, new_name, made, files, took_ms, stamp),
    ensures
        made is Err ==> after == before && r is Err,
        r matches Ok(database) ==> {
            &&& made is Ok && files is Ok
            &&& database.id == id && database.name == new_name && database.server_id == server_id
            &&& database.origin is Restored
            &&& after.databases == before.databases.push(database)
            &&& after.events.last().event == (Event::DatabaseRestored { database_id: id })
            &&& after.events.last().duration_ms == Some(took_ms)
        },
        files is Err ==> r is Err && after.events == before.events,
        made is Ok && files is Err && rows::taken(before.servers, server_id) && !rows::taken(
            before.databases,
            id,
        ) ==> after.databases.len() == before.databases.len() + 1 && after.databases.last().name
            == new_name && after.databases.last().id == id,
        after.servers == before.servers,
{
}

/// Noting a size changes the size of that database, and of no other.
pub proof fn law_a_size_is_noted_of_one_database(
    before: State,
    after: State,
    database_id: Id,
    size_bytes: u64,
    i: int,
)
    requires
        size_set(before, after, database_id, size_bytes),
        rows::distinct(before.databases),
        0 <= i < before.databases.len(),
    ensures
        after.databases.len() == before.databases.len(),
        before.databases[i].id != database_id ==> after.databases[i] == before.databases[i],
        before.databases[i].id == database_id ==> after.databases[i] == (Database {
            size_bytes,
            ..before.databases[i]
        }),
        after.servers == before.servers && after.events == before.events,
{
    if rows::taken(before.databases, database_id) {
        rows::lemma_place_of(before.databases, database_id);
        let k = rows::place_of(before.databases, database_id) as int;
        assert(before.databases[k].id == database_id);
        if i < k {
            assert(before.databases[i].row_id() != before.databases[k].row_id());
        } else if k < i {
            assert(before.databases[k].row_id() != before.databases[i].row_id());
        }
    } else {
        assert(before.databases[i].row_id() != database_id);
    }
}

} // verus!
