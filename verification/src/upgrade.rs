//! Moving a database to a later version of Odoo, one version at a time, on a copy.

use crate::codec;
use crate::commands;
use crate::environment::Environment;
use crate::errors;
use crate::errors::CoreError;
use crate::events::Event;
use crate::model::{Database, Id, OdooServer};
use crate::odoo::OneShotOutput;
use crate::odoo_conf;
use crate::odoo_conf::OdooConfParams;
use crate::openupgrade;
use crate::openupgrade::Hop;
use crate::paths;
use crate::pg_admin;
use crate::pg_admin::{PgCommand, PgConnInfo};
use crate::records;
use crate::records::{Core, Stamp, State};
use crate::rows;
use crate::servers;
use crate::servers::{CarriedAddon, Surroundings};
use crate::text;
use vstd::prelude::*;
use vstd::string::*;

verus! {

// --- the plan -------------------------------------------------------------

/// What moving a database would take.
#[derive(Debug)]
pub struct UpgradePlan {
    pub database_id: Id,
    pub database_name: String,
    pub from: String,
    pub to: String,
    /// The name of the copy that is moved.
    pub into: String,
    pub hops: Vec<Hop>,
    pub carried_addons: Vec<CarriedAddon>,
}

/// What is there already for a step to a version.
#[derive(Debug, Clone, Copy, PartialEq, Eq, Structural)]
pub struct Readiness {
    pub odoo_ready: bool,
    pub openupgrade_ready: bool,
}

/// A text without any `.`.
pub open spec fn without_dots(s: Seq<char>) -> Seq<char>
    decreases s.len(),
{
    if s.len() == 0 {
        Seq::empty()
    } else if s.last() == '.' {
        without_dots(s.drop_last())
    } else {
        without_dots(s.drop_last()).push(s.last())
    }
}

fn drop_dots(s: &str) -> (r: String)
    ensures
        r@ == without_dots(s@),
{
    let chars = text::chars_of(s);
    let mut out = String::new();
    let mut i: usize = 0;
    assert(s@.take(0) =~= Seq::<char>::empty());
    assert(out@ =~= without_dots(s@.take(0)));
    while i < chars.len()
        invariant
            i <= chars@.len(),
            chars@ == s@,
            out@ == without_dots(s@.take(i as int)),
        decreases chars@.len() - i,
    {
        proof {
            assert(s@.take(i + 1).drop_last() =~= s@.take(i as int));
            assert(s@.take(i + 1).last() == chars@[i as int]);
        }
        if chars[i] != '.' {
            out.push(chars[i]);
        }
        i = i + 1;
    }
    assert(s@.take(i as int) =~= s@);
    out
}

/// The name of the copy of a database that is moved to a version.
pub open spec fn copy_name(database: Seq<char>, target: Seq<char>) -> Seq<char> {
    database + "_v"@ + without_dots(target)
}

/// Whether the steps of a plan are those of the chain, each from where the one before ends.
pub open spec fn hops_are(
    hops: Seq<Hop>,
    from: Seq<char>,
    chain: Seq<Seq<char>>,
    ready: Seq<Readiness>,
) -> bool {
    &&& hops.len() == chain.len()
    &&& forall|i: int|
        0 <= i < hops.len() ==> {
            let hop = #[trigger] hops[i];
            &&& hop.from@ == (if i == 0 {
                from
            } else {
                chain[i - 1]
            })
            &&& hop.to@ == chain[i]
            &&& hop.odoo_ready == ready[i].odoo_ready
            &&& hop.openupgrade_ready == ready[i].openupgrade_ready
        }
}

/// Whether an error says that there is no way from one version to the other.
pub open spec fn is_no_way(e: CoreError, from: Seq<char>, to: Seq<char>) -> bool {
    e matches CoreError::NotConfigured(m) && m@ == "there's no OpenUpgrade path from "@ + from
        + " to "@ + to
}

/// What comes of the request for a plan.
pub open spec fn planned(
    s: State,
    r: Result<UpgradePlan, CoreError>,
    database_id: Id,
    target: Seq<char>,
    env: Environment,
    ready: Seq<Readiness>,
) -> bool {
    let database = rows::row_of(s.databases, database_id);
    let server = rows::row_of(s.servers, database.server_id);
    if !rows::taken(s.databases, database_id) {
        r matches Err(e) && records::is_missing(e, "database "@, database_id)
    } else if !rows::taken(s.servers, database.server_id) {
        r matches Err(e) && records::is_missing(e, "server "@, database.server_id)
    } else {
        match openupgrade::hops_between(server.odoo_version@, target) {
            None => r matches Err(e) && is_no_way(e, server.odoo_version@, target),
            Some(chain) => if env.data_dir is None {
                r matches Err(CoreError::NotConfigured(m)) && m@
                    == "no data folder is configured for this app"@
            } else if env.store is None && chain.len() > 0 {
                r matches Err(CoreError::NotConfigured(m)) && m@
                    == "no Odoo folder is configured for this app"@
            } else {
                &&& r matches Ok(plan)
                &&& plan.database_id == database_id
                &&& plan.database_name == database.name
                &&& plan.from == server.odoo_version
                &&& plan.to@ == target
                &&& plan.into@ == copy_name(database.name@, target)
                &&& hops_are(plan.hops@, server.odoo_version@, chain, ready)
                &&& plan.carried_addons@ == servers::carried(
                    rows::listing(s.sources, Some(server.id)),
                )
            },
        }
    }
}

/// The versions that a database would pass through, so that what is there for each can be looked
/// up; none where there is no way.
pub open spec fn versions_ahead(s: State, database_id: Id, target: Seq<char>) -> Option<
    Seq<Seq<char>>,
> {
    let database = rows::row_of(s.databases, database_id);
    if !rows::taken(s.databases, database_id) || !rows::taken(s.servers, database.server_id) {
        None
    } else {
        openupgrade::hops_between(
            rows::row_of(s.servers, database.server_id).odoo_version@,
            target,
        )
    }
}

impl Clone for Hop {
    fn clone(&self) -> (r: Self)
        ensures
            r == *self,
    {
        Hop {
            from: self.from.clone(),
            to: self.to.clone(),
            odoo_ready: self.odoo_ready,
            openupgrade_ready: self.openupgrade_ready,
        }
    }
}

impl Core {
    /// The versions that a database would pass through.
    pub fn upgrade_chain(&self, database_id: Id, target: &str) -> (r: Option<Vec<String>>)
        ensures
            match r {
                Some(chain) => versions_ahead(self@, database_id, target@) == Some(
                    text::views(chain@),
                ),
                None => versions_ahead(self@, database_id, target@) is None,
            },
    {
        let database = match self.get_database(database_id) {
            Ok(database) => database,
            Err(_) => {
                return None;
            },
        };
        let server = match self.get_server(database.server_id) {
            Ok(server) => server,
            Err(_) => {
                return None;
            },
        };
        openupgrade::hops(server.odoo_version.as_str(), target)
    }

    /// Plans to move a database to a version: `ready` says what is there already for each of the
    /// versions that it passes through.
    pub fn plan_upgrade(
        &self,
        database_id: Id,
        target: &str,
        env: &Environment,
        ready: &Vec<Readiness>,
    ) -> (r: Result<UpgradePlan, CoreError>)
        requires
            versions_ahead(self@, database_id, target@) matches Some(chain) ==> ready@.len()
                >= chain.len(),
        ensures
            planned(self@, r, database_id, target@, *env, ready@),
    {
        let database = match self.get_database(database_id) {
            Ok(database) => database,
            Err(e) => {
                return Err(e);
            },
        };
        let server = match self.get_server(database.server_id) {
            Ok(server) => server,
            Err(e) => {
                return Err(e);
            },
        };
        proof {
            rows::lemma_place_of(self@.servers, database.server_id);
        }
        let chain = match openupgrade::hops(server.odoo_version.as_str(), target) {
            Some(chain) => chain,
            None => {
                let mut message = text::joined(
                    "there's no OpenUpgrade path from ",
                    server.odoo_version.as_str(),
                );
                message.append(" to ");
                message.append(target);
                return Err(CoreError::NotConfigured(message));
            },
        };
        let ghost versions = text::views(chain@);
        if let Err(e) = env.app_dir() {
            return Err(e);
        }
        if chain.len() > 0 {
            if let Err(e) = env.store() {
                return Err(e);
            }
        }
        let mut hops: Vec<Hop> = Vec::new();
        let mut i: usize = 0;
        while i < chain.len()
            invariant
                i <= chain@.len() <= ready@.len(),
                versions == text::views(chain@),
                hops@.len() == i,
                hops_are(hops@, server.odoo_version@, versions.take(i as int), ready@),
            decreases chain@.len() - i,
        {
            let from = if i == 0 {
                server.odoo_version.clone()
            } else {
                chain[i - 1].clone()
            };
            let ghost before = hops@;
            let hop = Hop {
                from,
                to: chain[i].clone(),
                odoo_ready: ready[i].odoo_ready,
                openupgrade_ready: ready[i].openupgrade_ready,
            };
            hops.push(hop);
            proof {
                let upto = versions.take(i + 1);
                assert forall|j: int| 0 <= j < hops@.len() implies {
                    let hop = #[trigger] hops@[j];
                    &&& hop.from@ == (if j == 0 {
                        server.odoo_version@
                    } else {
                        upto[j - 1]
                    })
                    &&& hop.to@ == upto[j]
                    &&& hop.odoo_ready == ready@[j].odoo_ready
                    &&& hop.openupgrade_ready == ready@[j].openupgrade_ready
                } by {
                    if j < i {
                        assert(hops@[j] == before[j]);
                        assert(versions.take(i as int)[j] == upto[j]);
                        if j > 0 {
                            assert(versions.take(i as int)[j - 1] == upto[j - 1]);
                        }
                    } else {
                        assert(upto[j] == chain@[j]@);
                        if j > 0 {
                            assert(upto[j - 1] == chain@[j - 1]@);
                        }
                    }
                }
            }
            i = i + 1;
        }
        assert(versions.take(i as int) =~= versions);
        let mut into = text::joined(database.name.as_str(), "_v");
        into.append(drop_dots(target).as_str());
        let carried_addons = self.carried_addons_for(server.id);
        Ok(
            UpgradePlan {
                database_id,
                database_name: database.name,
                from: server.odoo_version,
                to: target.to_owned(),
                into,
                hops,
                carried_addons,
            },
        )
    }
}

// --- carrying it out ------------------------------------------------------

/// A step that failed, and the snapshot from before it.
#[derive(Debug)]
pub struct FailedHop {
    pub hop: Hop,
    pub message: String,
    pub checkpoint_id: Id,
}

/// How far a move has come.
#[derive(Debug)]
pub struct UpgradeRun {
    pub plan: UpgradePlan,
    /// The copy that is moved, once it is made.
    pub working_database_id: Option<Id>,
    pub completed: Vec<Hop>,
    pub failed: Option<FailedHop>,
}

/// A move that is being carried out: how far it has come, and the snapshot from before the step
/// that is next, once it is taken.
#[derive(Debug)]
pub struct Upgrade {
    pub run: UpgradeRun,
    pub checkpoint_id: Option<Id>,
}

/// What to do next.
#[derive(Debug)]
pub enum UpgradeStep {
    /// Make the copy.
    Duplicate { into: String },
    /// Take a snapshot of the copy.
    Snapshot { working_database_id: Id, name: String },
    /// Move the copy to the next version.
    Migrate { working_database_id: Id, hop: Hop },
    /// The move is over.
    Finished,
}

/// The name of the snapshot from before a step.
pub open spec fn checkpoint_name(hop: Hop) -> Seq<char> {
    "before "@ + hop.from@ + " → "@ + hop.to@
}

/// Whether a move has come no further than its plan: what is completed are its first steps, and
/// there is a copy only where there are steps.
pub open spec fn on_plan(run: UpgradeRun) -> bool {
    &&& run.completed@.len() <= run.plan.hops@.len()
    &&& run.completed@ == run.plan.hops@.take(run.completed@.len() as int)
    &&& run.completed@.len() > 0 ==> run.working_database_id is Some
    &&& run.working_database_id is Some ==> run.plan.hops@.len() > 0
    &&& run.failed matches Some(f) ==> {
        &&& run.working_database_id is Some
        &&& run.completed@.len() < run.plan.hops@.len()
        &&& f.hop == run.plan.hops@[run.completed@.len() as int]
    }
}

/// Whether nothing is left to do: there are no steps, one failed, or all are completed.
pub open spec fn is_over(run: UpgradeRun) -> bool {
    run.plan.hops@.len() == 0 || run.failed is Some || run.completed@.len()
        >= run.plan.hops@.len()
}

/// What to do next.
pub open spec fn step_is(u: Upgrade, step: UpgradeStep) -> bool {
    let run = u.run;
    if is_over(run) {
        step is Finished
    } else {
        let hop = run.plan.hops@[run.completed@.len() as int];
        match run.working_database_id {
            None => step matches UpgradeStep::Duplicate { into } && into == run.plan.into,
            Some(working) => match u.checkpoint_id {
                None => {
                    &&& step matches UpgradeStep::Snapshot { working_database_id, name }
                    &&& working_database_id == working
                    &&& name@ == checkpoint_name(hop)
                },
                Some(_) => {
                    &&& step matches UpgradeStep::Migrate { working_database_id, hop: next }
                    &&& working_database_id == working
                    &&& next == hop
                },
            },
        }
    }
}

/// A move never goes on after a step that failed, never starts a step without a snapshot from
/// before it, and touches no database but its copy.
pub proof fn law_a_move_is_careful(u: Upgrade, step: UpgradeStep)
    requires
        on_plan(u.run),
        step_is(u, step),
    ensures
        u.run.failed is Some ==> step is Finished,
        step is Migrate ==> u.checkpoint_id is Some,
        step matches UpgradeStep::Migrate { working_database_id, hop } ==> u.run.working_database_id
            == Some(working_database_id),
        step matches UpgradeStep::Snapshot { working_database_id, name }
            ==> u.run.working_database_id == Some(working_database_id),
{
}

/// Whether a move is the one before, with its copy made.
pub open spec fn is_begun(before: Upgrade, after: Upgrade, working_database_id: Id) -> bool {
    &&& after.run == (UpgradeRun {
        working_database_id: Some(working_database_id),
        ..before.run
    })
    &&& after.checkpoint_id == before.checkpoint_id
}

/// Whether a move is the one before, with its next step tried.
pub open spec fn is_tried(before: Upgrade, after: Upgrade, result: Result<(), CoreError>) -> bool {
    let run = before.run;
    let hop = run.plan.hops@[run.completed@.len() as int];
    &&& after.run.plan == run.plan
    &&& after.run.working_database_id == run.working_database_id
    &&& match result {
        Ok(_) => {
            &&& after.run.completed@ == run.completed@.push(hop)
            &&& after.run.failed is None
            &&& after.checkpoint_id is None
        },
        Err(why) => {
            &&& after.run.completed == run.completed
            &&& after.checkpoint_id == before.checkpoint_id
            &&& after.run.failed matches Some(f)
            &&& f.hop == hop
            &&& f.message@ == errors::core_error_text(why)
            &&& before.checkpoint_id == Some(f.checkpoint_id)
        },
    }
}

/// The steps of a plan lead from the version of the database to the one that is asked for: the
/// first begins where the database is, each of the others where the one before ends, every one ends
/// at a version that OpenUpgrade has, and the last at the target.
pub proof fn law_a_plan_leads_to_the_target(
    s: State,
    plan: UpgradePlan,
    database_id: Id,
    target: Seq<char>,
    env: Environment,
    ready: Seq<Readiness>,
)
    requires
        planned(s, Ok(plan), database_id, target, env, ready),
    ensures
        plan.to@ == target,
        forall|i: int|
            0 < i < plan.hops@.len() ==> (#[trigger] plan.hops@[i]).from@ == plan.hops@[i - 1].to@,
        plan.hops@.len() > 0 ==> plan.hops@[0].from@ == plan.from@,
        forall|i: int|
            0 <= i < plan.hops@.len() ==> exists|k: int|
                0 <= k < 6 && (#[trigger] openupgrade::MIGRATABLE_TO@[k])@ == (
                #[trigger] plan.hops@[i]).to@,
        forall|k: int|
            0 <= k < 6 && (#[trigger] openupgrade::MIGRATABLE_TO@[k])@ == target
                && plan.hops@.len() > 0 ==> plan.hops@.last().to@ == target,
        forall|i: int, j: int|
            0 <= i < j < plan.hops@.len() ==> (#[trigger] plan.hops@[i]).to@ != (
            #[trigger] plan.hops@[j]).to@,
{
    let database = rows::row_of(s.databases, database_id);
    let server = rows::row_of(s.servers, database.server_id);
    let from = server.odoo_version@;
    let chain = openupgrade::hops_between(from, target)->0;
    let a = openupgrade::major_in(from)->0;
    let b = openupgrade::major_in(target)->0;
    assert forall|i: int| 0 <= i < plan.hops@.len() implies exists|k: int|
        0 <= k < 6 && (#[trigger] openupgrade::MIGRATABLE_TO@[k])@ == (
        #[trigger] plan.hops@[i]).to@ by {
        let m = (a + 1 + i) as nat;
        assert(openupgrade::is_migratable(m));
        assert(chain[i] == openupgrade::version_text(m));
        openupgrade::law_the_list_is_complete(0, m);
        assert(openupgrade::MIGRATABLE_TO@[19 - m]@ == plan.hops@[i].to@);
    }
    assert forall|i: int, j: int| 0 <= i < j < plan.hops@.len() implies (
    #[trigger] plan.hops@[i]).to@ != (#[trigger] plan.hops@[j]).to@ by {
        let m = (a + 1 + i) as nat;
        let n = (a + 1 + j) as nat;
        assert(openupgrade::is_migratable(m) && openupgrade::is_migratable(n));
        assert(chain[i] == openupgrade::version_text(m));
        assert(chain[j] == openupgrade::version_text(n));
        openupgrade::lemma_versions_differ(m, n);
    }
    assert forall|k: int|
        0 <= k < 6 && (#[trigger] openupgrade::MIGRATABLE_TO@[k])@ == target && plan.hops@.len()
            > 0 implies plan.hops@.last().to@ == target by {
        openupgrade::law_the_list_is_complete(k, 0);
        openupgrade::lemma_major_of_listed(k);
        assert(b == 19 - k);
        assert(chain[b - a - 1] == openupgrade::version_text(b));
    }
}

/// Every step of a plan is run once and in turn: what is to be migrated next is the step behind
/// those that are completed, from the version that the last of them reached. The snapshot before it
/// is called after it; and the move is over exactly where a step failed or none is left.
pub proof fn law_every_hop_is_run_in_turn(u: Upgrade, step: UpgradeStep)
    requires
        on_plan(u.run),
        step_is(u, step),
    ensures
        ({
            let done = u.run.completed@.len() as int;
            let hops = u.run.plan.hops@;
            &&& u.run.completed@ == hops.take(done)
            &&& step matches UpgradeStep::Migrate { working_database_id, hop } ==> done < hops.len()
                && hop == hops[done] && u.run.working_database_id == Some(working_database_id)
                && u.checkpoint_id is Some
            &&& step matches UpgradeStep::Snapshot { working_database_id, name } ==> done
                < hops.len() && name@ == "before "@ + hops[done].from@ + " → "@ + hops[done].to@
                && u.run.working_database_id == Some(working_database_id) && u.checkpoint_id is None
            &&& step matches UpgradeStep::Duplicate { into } ==> done == 0 && hops.len() > 0 && into
                == u.run.plan.into && u.run.working_database_id is None
            &&& step is Finished <==> u.run.failed is Some || u.run.completed@ == hops
        }),
{
    let done = u.run.completed@.len() as int;
    let hops = u.run.plan.hops@;
    if done == hops.len() {
        assert(hops.take(done) =~= hops);
    }
}

/// Where the step that is to be migrated begins: at the version of the database before the first
/// step, and behind it at the version that the last completed step reached.
pub proof fn law_a_hop_begins_where_the_last_ended(
    s: State,
    database_id: Id,
    target: Seq<char>,
    env: Environment,
    ready: Seq<Readiness>,
    u: Upgrade,
    step: UpgradeStep,
)
    requires
        planned(s, Ok(u.run.plan), database_id, target, env, ready),
        on_plan(u.run),
        step_is(u, step),
    ensures
        step matches UpgradeStep::Migrate { working_database_id, hop } ==> {
            let done = u.run.completed@;
            hop.from@ == (if done.len() == 0 {
                u.run.plan.from@
            } else {
                done.last().to@
            })
        },
{
    law_a_plan_leads_to_the_target(s, u.run.plan, database_id, target, env, ready);
    law_every_hop_is_run_in_turn(u, step);
    let n = u.run.completed@.len() as int;
    if n > 0 {
        assert(u.run.completed@.last() == u.run.plan.hops@[n - 1]);
    }
}

/// A step that was asked for and tried is completed where it succeeded, and nothing else is; the
/// next one needs a snapshot of its own. Where it failed it is the one that failed, with the
/// snapshot from before it, and the move is over.
pub proof fn law_what_was_asked_for_is_what_was_done(
    u: Upgrade,
    step: UpgradeStep,
    after: Upgrade,
    result: Result<(), CoreError>,
    next: UpgradeStep,
)
    requires
        on_plan(u.run),
        step_is(u, step),
        step is Migrate,
        is_tried(u, after, result),
        step_is(after, next),
    ensures
        after.run.plan == u.run.plan,
        result is Ok ==> after.run.completed@ == u.run.completed@.push(step->Migrate_hop)
            && after.run.failed is None && (next is Finished || next is Snapshot),
        result is Err ==> after.run.completed == u.run.completed && next is Finished && (
        after.run.failed matches Some(f) && f.hop == step->Migrate_hop && u.checkpoint_id == Some(
            f.checkpoint_id,
        )),
{
}

/// What comes of a step to a version, as an event.
pub open spec fn hop_event(working: Id, hop: Hop, failure: Option<String>) -> Event {
    match failure {
        None => Event::UpgradeHopFinished {
            working_database_id: working,
            from: hop.from,
            to: hop.to,
        },
        Some(message) => Event::UpgradeHopFailed {
            working_database_id: working,
            from: hop.from,
            to: hop.to,
            message,
        },
    }
}

impl Upgrade {
    /// A move that has not begun.
    pub fn new(plan: UpgradePlan) -> (r: Self)
        ensures
            r.run.plan == plan,
            r.run.working_database_id is None,
            r.run.completed@.len() == 0,
            r.run.failed is None,
            r.checkpoint_id is None,
            on_plan(r.run),
    {
        let run = UpgradeRun {
            plan,
            working_database_id: None,
            completed: Vec::new(),
            failed: None,
        };
        assert(run.completed@ =~= run.plan.hops@.take(0));
        Upgrade { run, checkpoint_id: None }
    }

    /// What to do next.
    pub fn next_step(&self) -> (r: UpgradeStep)
        ensures
            step_is(*self, r),
    {
        let done: usize = self.run.completed.len();
        if self.run.plan.hops.len() == 0 || self.run.failed.is_some() || done
            >= self.run.plan.hops.len() {
            return UpgradeStep::Finished;
        }
        let hop = &self.run.plan.hops[done];
        match self.run.working_database_id {
            None => UpgradeStep::Duplicate { into: self.run.plan.into.clone() },
            Some(working_database_id) => match self.checkpoint_id {
                None => {
                    let mut name = text::joined("before ", hop.from.as_str());
                    name.append(" → ");
                    name.append(hop.to.as_str());
                    UpgradeStep::Snapshot { working_database_id, name }
                },
                Some(_) => UpgradeStep::Migrate { working_database_id, hop: hop.clone() },
            },
        }
    }

    /// The copy was made: the move begins.
    pub fn on_duplicated(&mut self, core: &mut Core, working_database_id: Id, stamp: &Stamp) -> (r:
        Result<(), CoreError>)
        requires
            on_plan(old(self).run),
            !is_over(old(self).run),
            old(self).run.working_database_id is None,
        ensures
            match r {
                Ok(_) => {
                    let plan = old(self).run.plan;
                    &&& records::may_tell(old(core)@, *stamp)
                    &&& final(core)@ == records::told(
                        old(core)@,
                        *stamp,
                        None,
                        Event::UpgradeStarted {
                            database_id: plan.database_id,
                            working_database_id,
                            from: plan.from,
                            to: plan.to,
                            hops: plan.hops@.len() as u32,
                        },
                    )
                    &&& is_begun(*old(self), *final(self), working_database_id)
                },
                Err(e) => {
                    &&& !records::may_tell(old(core)@, *stamp)
                    &&& rows::is_taken_error(e, "events"@)
                    &&& final(core)@ == old(core)@
                    &&& *final(self) == *old(self)
                },
            },
            on_plan(final(self).run),
            records::sound(old(core)@) ==> records::sound(final(core)@),
    {
        if let Err(e) = core.can_record(stamp) {
            return Err(e);
        }
        let plan = &self.run.plan;
        let event = Event::UpgradeStarted {
            database_id: plan.database_id,
            working_database_id,
            from: plan.from.clone(),
            to: plan.to.clone(),
            hops: plan.hops.len() as u32,
        };
        core.record(stamp, None, event);
        self.run.working_database_id = Some(working_database_id);
        Ok(())
    }

    /// The snapshot from before the next step was taken.
    pub fn on_snapshot(&mut self, checkpoint_id: Id)
        ensures
            final(self).run == old(self).run,
            final(self).checkpoint_id == Some(checkpoint_id),
    {
        self.checkpoint_id = Some(checkpoint_id);
    }

    /// The step was tried: it succeeded, or it failed and the move is over.
    pub fn on_migrated(&mut self, core: &mut Core, result: Result<(), CoreError>, stamp: &Stamp) -> (r:
        Result<(), CoreError>)
        requires
            on_plan(old(self).run),
            !is_over(old(self).run),
            old(self).run.working_database_id is Some,
            old(self).checkpoint_id is Some,
        ensures
            ({
                let run = old(self).run;
                let hop = run.plan.hops@[run.completed@.len() as int];
                let working = run.working_database_id->0;
                match r {
                    Err(e) => {
                        &&& !records::may_tell(old(core)@, *stamp)
                        &&& rows::is_taken_error(e, "events"@)
                        &&& final(core)@ == old(core)@
                        &&& *final(self) == *old(self)
                    },
                    Ok(_) => {
                        &&& records::may_tell(old(core)@, *stamp)
                        &&& is_tried(*old(self), *final(self), result)
                        &&& final(core)@ == records::told(
                            old(core)@,
                            *stamp,
                            None,
                            hop_event(
                                working,
                                hop,
                                match result {
                                    Ok(_) => None,
                                    Err(_) => Some(final(self).run.failed->0.message),
                                },
                            ),
                        )
                    },
                }
            }),
            on_plan(final(self).run),
            records::sound(old(core)@) ==> records::sound(final(core)@),
    {
        if let Err(e) = core.can_record(stamp) {
            return Err(e);
        }
        let ghost before = self.run;
        let done: usize = self.run.completed.len();
        let hop = self.run.plan.hops[done].clone();
        let working_database_id = self.run.working_database_id.unwrap();
        let checkpoint_id = self.checkpoint_id.unwrap();
        match result {
            Ok(_) => {
                core.record(
                    stamp,
                    None,
                    Event::UpgradeHopFinished {
                        working_database_id,
                        from: hop.from.clone(),
                        to: hop.to.clone(),
                    },
                );
                self.run.completed.push(hop);
                self.checkpoint_id = None;
                assert(self.run.completed@ =~= before.plan.hops@.take(done + 1));
            },
            Err(why) => {
                let message = why.message();
                core.record(
                    stamp,
                    None,
                    Event::UpgradeHopFailed {
                        working_database_id,
                        from: hop.from.clone(),
                        to: hop.to.clone(),
                        message: message.clone(),
                    },
                );
                self.run.failed = Some(FailedHop { hop, message, checkpoint_id });
            },
        }
        Ok(())
    }

    /// Notes that the move is over with all its steps completed; a move without steps, or with
    /// one that failed, is not noted.
    pub fn on_finished(&self, core: &mut Core, took_ms: u64, stamp: &Stamp) -> (r: Result<
        (),
        CoreError,
    >)
        ensures
            ({
                let run = self.run;
                let complete = run.plan.hops@.len() > 0 && run.failed is None
                    && run.completed@.len() >= run.plan.hops@.len();
                match run.working_database_id {
                    Some(working_database_id) => if complete {
                        match r {
                            Ok(_) => {
                                &&& records::may_tell(old(core)@, *stamp)
                                &&& final(core)@ == records::told(
                                    old(core)@,
                                    *stamp,
                                    Some(took_ms),
                                    Event::UpgradeFinished {
                                        database_id: run.plan.database_id,
                                        working_database_id,
                                        to: run.plan.to,
                                    },
                                )
                            },
                            Err(e) => {
                                &&& !records::may_tell(old(core)@, *stamp)
                                &&& rows::is_taken_error(e, "events"@)
                                &&& final(core)@ == old(core)@
                            },
                        }
                    } else {
                        r is Ok && final(core)@ == old(core)@
                    },
                    None => r is Ok && final(core)@ == old(core)@,
                }
            }),
            records::sound(old(core)@) ==> records::sound(final(core)@),
    {
        let complete = self.run.plan.hops.len() > 0 && self.run.failed.is_none()
            && self.run.completed.len() >= self.run.plan.hops.len();
        if let Some(working_database_id) = self.run.working_database_id {
            if complete {
                if let Err(e) = core.can_record(stamp) {
                    return Err(e);
                }
                let event = Event::UpgradeFinished {
                    database_id: self.run.plan.database_id,
                    working_database_id,
                    to: self.run.plan.to.clone(),
                };
                core.record(stamp, Some(took_ms), event);
            }
        }
        Ok(())
    }
}

// --- one step -------------------------------------------------------------

/// What a step needs beside Odoo itself.
pub const OPENUPGRADELIB: &'static str =
    "openupgradelib @ git+https://github.com/OCA/openupgradelib.git@master";

/// What asks for the version that the base of a database has.
pub const BASE_VERSION_QUERY: &'static str =
    "SELECT latest_version FROM ir_module_module WHERE name = 'base'";

/// What there is to do for a step: once the role `odoo` is there and may use the copy, make the
/// folder, write the configuration, and run Odoo.
#[derive(Debug)]
pub struct HopRun {
    pub conn: PgConnInfo,
    pub run_dir: String,
    pub conf_path: String,
    pub conf: String,
    pub args: Vec<String>,
    pub env: Vec<(String, String)>,
}

/// The folder that a step runs in.
pub open spec fn hop_folder(data_dir: Seq<char>, working_id: Id, to: Seq<char>) -> Seq<char> {
    paths::under(
        paths::under(paths::under(data_dir, "upgrades"@), codec::uuid_text(working_id)),
        to,
    )
}

/// The folders of the sources that go along.
pub open spec fn carried_paths(carried: Seq<CarriedAddon>) -> Seq<Seq<char>> {
    carried.map_values(|c: CarriedAddon| c.path_or_url@)
}

/// The folders that modules are loaded from in a step: those of the new version, those of
/// OpenUpgrade, then those that go along.
pub open spec fn hop_addons(
    checkout_root: Seq<char>,
    openupgrade_root: Seq<char>,
    carried: Seq<CarriedAddon>,
) -> Seq<Seq<char>> {
    seq![
        paths::under(checkout_root, "addons"@),
        paths::under(paths::under(checkout_root, "odoo"@), "addons"@),
        openupgrade_root,
    ] + carried_paths(carried)
}

/// The arguments of a step.
pub open spec fn hop_args(checkout_root: Seq<char>, conf_path: Seq<char>, database: Seq<char>) -> Seq<
    Seq<char>,
> {
    seq![
        paths::under(checkout_root, "odoo-bin"@),
        "-c"@,
        conf_path,
        "-d"@,
        database,
        "--update"@,
        "all"@,
        "--load=base,web,openupgrade_framework"@,
        "--stop-after-init"@,
        "--no-http"@,
    ]
}

/// What a step is called in errors.
pub open spec fn hop_action(hop: Hop) -> Seq<char> {
    "migrate "@ + hop.from@ + " → "@ + hop.to@
}

impl Core {
    /// Plans a step of a move: `working` is the copy, `checkout_root` the checkout of the new
    /// version, `openupgrade_root` that of OpenUpgrade.
    pub fn plan_hop(
        &self,
        working: &Database,
        hop: &Hop,
        postgres_instance_id: Id,
        checkout_root: &str,
        openupgrade_root: &str,
        env: &Environment,
        around: &Surroundings,
    ) -> (r: Result<HopRun, CoreError>)
        ensures
            match env.data_dir {
                None => r matches Err(CoreError::NotConfigured(m)) && m@
                    == "no data folder is configured for this app"@,
                Some(data_dir) => match r {
                    Err(e) => servers::is_unreachable(self@, *around, postgres_instance_id, e),
                    Ok(run) => {
                        let instance = rows::row_of(self@.instances, postgres_instance_id);
                        let folder = hop_folder(data_dir@, working.id, hop.to@);
                        &&& servers::reachable(self@, *around, postgres_instance_id)
                        &&& servers::connects(self@, *around, postgres_instance_id, run.conn)
                        &&& run.run_dir@ == folder
                        &&& run.conf_path@ == paths::under(folder, "odoo.conf"@)
                        &&& run.conf@ == odoo_conf::conf_for(
                            hop_addons(
                                checkout_root@,
                                openupgrade_root@,
                                servers::carried(
                                    rows::listing(self@.sources, Some(working.server_id)),
                                ),
                            ),
                            paths::under(folder, "filestore"@),
                            instance.data_dir@,
                            instance.port,
                            "odoo"@,
                            0,
                        )
                        &&& text::views(run.args@) == hop_args(
                            checkout_root@,
                            run.conf_path@,
                            working.name@,
                        )
                        &&& run.env@.len() == 1
                        &&& run.env@[0].0@ == "OPENUPGRADE_TARGET_VERSION"@
                        &&& run.env@[0].1 == hop.to
                    },
                },
            },
    {
        let data_dir = match env.app_dir() {
            Ok(dir) => dir,
            Err(e) => {
                return Err(e);
            },
        };
        let conn = match self.pg_conn_info_for_running_instance(postgres_instance_id, around) {
            Ok(conn) => conn,
            Err(e) => {
                return Err(e);
            },
        };
        let upgrades = paths::join(data_dir.as_str(), "upgrades");
        let own = paths::join(upgrades.as_str(), codec::id_text(working.id).as_str());
        let run_dir = paths::join(own.as_str(), hop.to.as_str());
        let conf_path = paths::join(run_dir.as_str(), "odoo.conf");
        let carried = self.carried_addons_for(working.server_id);
        let mut addons: Vec<String> = Vec::new();
        addons.push(paths::join(checkout_root, "addons"));
        addons.push(paths::join(paths::join(checkout_root, "odoo").as_str(), "addons"));
        addons.push(openupgrade_root.to_owned());
        let ghost first = text::views(addons@);
        let mut i: usize = 0;
        assert(text::views(addons@) =~= first + carried_paths(carried@.take(0)));
        while i < carried.len()
            invariant
                i <= carried@.len(),
                text::views(addons@) == first + carried_paths(carried@.take(i as int)),
            decreases carried@.len() - i,
        {
            let ghost before = text::views(addons@);
            addons.push(carried[i].path_or_url.clone());
            assert(text::views(addons@) =~= before.push(carried@[i as int].path_or_url@));
            assert(text::views(addons@) =~= first + carried_paths(carried@.take(i + 1)));
            i = i + 1;
        }
        assert(carried@.take(i as int) =~= carried@);
        assert(text::views(addons@) =~= hop_addons(checkout_root@, openupgrade_root@, carried@));
        let conf = odoo_conf::render(
            &OdooConfParams {
                addons_path: addons,
                db_host: conn.host.clone(),
                db_port: conn.port,
                db_user: "odoo".to_owned(),
                http_port: 0,
                data_dir: paths::join(run_dir.as_str(), "filestore"),
            },
        );
        let mut args: Vec<String> = Vec::new();
        args.push(paths::join(checkout_root, "odoo-bin"));
        args.push("-c".to_owned());
        args.push(conf_path.clone());
        args.push("-d".to_owned());
        args.push(working.name.clone());
        args.push("--update".to_owned());
        args.push("all".to_owned());
        args.push("--load=base,web,openupgrade_framework".to_owned());
        args.push("--stop-after-init".to_owned());
        args.push("--no-http".to_owned());
        assert(text::views(args@) =~= hop_args(checkout_root@, conf_path@, working.name@));
        let mut vars: Vec<(String, String)> = Vec::new();
        vars.push(("OPENUPGRADE_TARGET_VERSION".to_owned(), hop.to.clone()));
        Ok(HopRun { conn, run_dir, conf_path, conf, args, env: vars })
    }
}

/// Whether the command of a step succeeded; if not, what it printed.
pub fn hop_outcome(working_name: &str, hop: &Hop, output: OneShotOutput) -> (r: Result<
    (),
    CoreError,
>)
    ensures
        match r {
            Ok(_) => output.success,
            Err(e) => !output.success && commands::is_failure(
                e,
                working_name@,
                hop_action(*hop),
                output,
            ),
        },
{
    let mut action = text::joined("migrate ", hop.from.as_str());
    action.append(" → ");
    action.append(hop.to.as_str());
    commands::command_outcome(working_name, action.as_str(), output)
}

/// Asks the copy for its version, as the user `odoo`.
pub fn base_version_query(conn: &PgConnInfo, working_name: &str) -> (r: PgCommand)
    ensures
        r.program@ == paths::under(conn.bin_dir@, "psql"@),
        text::views(r.args@) == seq![
            "-h"@,
            conn.host@,
            "-p"@,
            text::decimal_of(conn.port as nat),
            "-U"@,
            "odoo"@,
            working_name@,
            "-tAc"@,
            BASE_VERSION_QUERY@,
        ],
        r.label@ == "psql (query_scalar)"@,
{
    let odoo = conn.as_odoo();
    pg_admin::query_scalar(&odoo, working_name, BASE_VERSION_QUERY)
}

/// The version that was found; none counts as empty.
pub open spec fn found_version(installed: Option<Seq<char>>) -> Seq<char> {
    match installed {
        Some(v) => v,
        None => Seq::empty(),
    }
}

/// What is found where a hop should have led.
pub open spec fn is_checked(
    r: Result<(), CoreError>,
    hop: Hop,
    installed: Option<Seq<char>>,
) -> bool {
    let found = found_version(installed);
    match r {
        Ok(_) => hop.to@.is_prefix_of(found),
        Err(e) => {
            &&& !hop.to@.is_prefix_of(found)
            &&& e matches CoreError::NotConfigured(m)
            &&& m@ == "the migration to "@ + hop.to@
                + " reported success, but base is still at "@ + found
        },
    }
}

/// Whether a step that reported success led where it should: the base of the copy is of the new
/// version.
pub fn check_migrated(hop: &Hop, installed: Option<String>) -> (r: Result<(), CoreError>)
    ensures
        is_checked(r, *hop, text::opt_view(installed)),
{
    let found = match installed {
        Some(v) => v,
        None => {
            proof {
                reveal_strlit("");
                assert(""@ =~= Seq::<char>::empty());
            }
            "".to_owned()
        },
    };
    if text::starts_with(found.as_str(), hop.to.as_str()) {
        return Ok(());
    }
    let mut message = text::joined("the migration to ", hop.to.as_str());
    message.append(" reported success, but base is still at ");
    message.append(found.as_str());
    Err(CoreError::NotConfigured(message))
}

/// The dots of a version are left out, and nothing else is.
pub proof fn law_only_dots_are_left_out(s: Seq<char>)
    ensures
        without_dots(s) == s.filter(|c: char| c != '.'),
    decreases s.len(),
{
    reveal(Seq::filter);
    if s.len() > 0 {
        law_only_dots_are_left_out(s.drop_last());
    } else {
        assert(without_dots(s) =~= s.filter(|c: char| c != '.'));
    }
}

/// Copies for different versions of one database have different names, and each name begins with
/// the name of the database.
pub proof fn law_a_copy_is_named_after_its_database(
    database: Seq<char>,
    a: Seq<char>,
    b: Seq<char>,
)
    ensures
        database.is_prefix_of(copy_name(database, a)),
        copy_name(database, a) == copy_name(database, b) ==> a.filter(|c: char| c != '.')
            == b.filter(|c: char| c != '.'),
{
    law_only_dots_are_left_out(a);
    law_only_dots_are_left_out(b);
    let start = database + "_v"@;
    let first = copy_name(database, a);
    let second = copy_name(database, b);
    assert(first.subrange(0, database.len() as int) =~= database);
    if first == second {
        assert(first.skip(start.len() as int) =~= without_dots(a));
        assert(second.skip(start.len() as int) =~= without_dots(b));
    }
}

/// A hop runs with the modules of its own Odoo, with OpenUpgrade, and with all that is carried
/// along, in that order.
pub proof fn law_a_hop_carries_everything_along(
    checkout_root: Seq<char>,
    openupgrade_root: Seq<char>,
    carried: Seq<CarriedAddon>,
    i: int,
)
    ensures
        ({
            let all = hop_addons(checkout_root, openupgrade_root, carried);
            &&& all.len() == carried.len() + 3
            &&& all[0] == paths::under(checkout_root, "addons"@)
            &&& all[1] == paths::under(paths::under(checkout_root, "odoo"@), "addons"@)
            &&& all[2] == openupgrade_root
            &&& 0 <= i < carried.len() ==> all[i + 3] == carried[i].path_or_url@
        }),
{
}

/// A hop updates everything in its own database, with its own configuration, and ends by itself.
pub proof fn law_a_hop_updates_everything(
    checkout_root: Seq<char>,
    conf_path: Seq<char>,
    database: Seq<char>,
)
    ensures
        ({
            let args = hop_args(checkout_root, conf_path, database);
            &&& args[0] == paths::under(checkout_root, "odoo-bin"@)
            &&& exists|i: int|
                0 <= i < args.len() - 1 && #[trigger] args[i] == "-c"@ && args[i + 1] == conf_path
            &&& exists|i: int|
                0 <= i < args.len() - 1 && #[trigger] args[i] == "-d"@ && args[i + 1] == database
            &&& exists|i: int|
                0 <= i < args.len() - 1 && #[trigger] args[i] == "--update"@ && args[i + 1]
                    == "all"@
            &&& args.contains("--stop-after-init"@)
            &&& args.contains("--no-http"@)
            &&& args.contains("--load=base,web,openupgrade_framework"@)
        }),
{
    let args = hop_args(checkout_root, conf_path, database);
    assert(args[1] == "-c"@ && args[2] == conf_path);
    assert(args[3] == "-d"@ && args[4] == database);
    assert(args[5] == "--update"@ && args[6] == "all"@);
    assert(args[7] == "--load=base,web,openupgrade_framework"@);
    assert(args[8] == "--stop-after-init"@);
    assert(args[9] == "--no-http"@);
}

/// What comes of a hop is told of with its two versions: as finished where nothing failed, and
/// otherwise as failed, with what was said.
pub proof fn law_a_hop_is_told_of(working: Id, hop: Hop, message: String)
    ensures
        hop_event(working, hop, None) == (Event::UpgradeHopFinished {
            working_database_id: working,
            from: hop.from,
            to: hop.to,
        }),
        hop_event(working, hop, Some(message)) == (Event::UpgradeHopFailed {
            working_database_id: working,
            from: hop.from,
            to: hop.to,
            message,
        }),
{
}

/// The way of a database begins at the version of the server that it is on.
pub proof fn law_a_way_begins_at_the_own_version(
    s: State,
    database: Database,
    server: OdooServer,
    target: Seq<char>,
)
    requires
        rows::distinct(s.databases),
        rows::distinct(s.servers),
        s.databases.contains(database),
        s.servers.contains(server),
        database.server_id == server.id,
    ensures
        versions_ahead(s, database.id, target) == openupgrade::hops_between(
            server.odoo_version@,
            target,
        ),
{
    rows::law_a_record_is_found_by_its_identifier(s.databases, database, database.id);
    rows::law_a_record_is_found_by_its_identifier(s.servers, server, server.id);
}

/// A hop has led to its version where what is installed begins with it; nothing installed is no
/// version.
pub proof fn law_a_hop_is_checked_by_what_is_installed(
    r: Result<(), CoreError>,
    hop: Hop,
    rest: Seq<char>,
    installed: Option<Seq<char>>,
)
    requires
        is_checked(r, hop, installed),
    ensures
        installed == Some(hop.to@ + rest) ==> r is Ok,
        installed is None && hop.to@.len() > 0 ==> r is Err,
        installed matches Some(v) ==> (r is Ok <==> hop.to@.is_prefix_of(v)),
{
    let whole = hop.to@ + rest;
    assert(whole.subrange(0, hop.to@.len() as int) =~= hop.to@);
}

/// A checkpoint names the version that it was taken at and the one that comes next.
pub proof fn law_a_checkpoint_names_both_versions(hop: Hop)
    ensures
        text::has_part(checkpoint_name(hop), hop.from@),
        hop.to@.is_suffix_of(checkpoint_name(hop)),
{
    let whole = checkpoint_name(hop);
    let n = "before "@.len() as int;
    assert(whole.subrange(n, n + hop.from@.len()) =~= hop.from@);
    assert(whole.subrange(whole.len() - hop.to@.len(), whole.len() as int) =~= hop.to@);
}

} // verus!
