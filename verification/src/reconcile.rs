//! What the clusters really hold, held against what is known.

use crate::environment::Environment;
use crate::errors::CoreError;
use crate::model::{Database, Id, OdooServer, PostgresInstance, Snapshot};
use crate::odoo_runtime::CachedRuntime;
use crate::order;
use crate::records;
use crate::records::{Core, State};
use crate::rows;
use crate::rows::Row;
use crate::text;
use vstd::prelude::*;
use vstd::string::*;

verus! {

/// A database that a cluster holds.
#[derive(Debug)]
pub struct ClusterDatabase {
    pub instance_id: Id,
    pub name: String,
    pub size_bytes: u64,
}

impl Clone for ClusterDatabase {
    fn clone(&self) -> (r: Self)
        ensures
            r == *self,
    {
        ClusterDatabase {
            instance_id: self.instance_id,
            name: self.name.clone(),
            size_bytes: self.size_bytes,
        }
    }
}

/// What asks a cluster for its databases.
pub const CLUSTER_QUERY: &'static str =
    "SELECT datname, pg_database_size(datname) FROM pg_database WHERE NOT datistemplate AND datname <> 'postgres' ORDER BY datname";

/// The size that a column says; what is no number counts as zero.
pub open spec fn size_in(row: Seq<String>) -> u64 {
    if row.len() < 2 {
        0
    } else {
        match text::unsigned_of(row[1]@, u64::MAX as nat) {
            Some(n) => n as u64,
            None => 0,
        }
    }
}

/// The databases that the rows of an answer name.
pub open spec fn databases_in(instance_id: Id, answer: Seq<Vec<String>>) -> Seq<ClusterDatabase>
    decreases answer.len(),
{
    if answer.len() == 0 {
        Seq::empty()
    } else {
        let before = databases_in(instance_id, answer.drop_last());
        let row = answer.last()@;
        if row.len() == 0 {
            before
        } else {
            before.push(
                ClusterDatabase { instance_id, name: row[0], size_bytes: size_in(row) },
            )
        }
    }
}

/// The databases that the rows of an answer name.
pub fn list_cluster_databases(instance_id: Id, answer: &Vec<Vec<String>>) -> (r: Vec<
    ClusterDatabase,
>)
    ensures
        r@ == databases_in(instance_id, answer@),
{
    let mut out: Vec<ClusterDatabase> = Vec::new();
    let mut i: usize = 0;
    assert(answer@.take(0) =~= Seq::<Vec<String>>::empty());
    while i < answer.len()
        invariant
            i <= answer@.len(),
            out@ == databases_in(instance_id, answer@.take(i as int)),
        decreases answer@.len() - i,
    {
        proof {
            assert(answer@.take(i + 1).drop_last() =~= answer@.take(i as int));
            assert(answer@.take(i + 1).last() == answer@[i as int]);
        }
        let row = &answer[i];
        if row.len() > 0 {
            let mut size_bytes: u64 = 0;
            if row.len() > 1 {
                if let Some(n) = text::parse_unsigned(row[1].as_str(), u64::MAX) {
                    size_bytes = n;
                }
            }
            out.push(ClusterDatabase { instance_id, name: row[0].clone(), size_bytes });
        }
        i = i + 1;
    }
    assert(answer@.take(i as int) =~= answer@);
    out
}

/// What a cluster answered: its databases, or nothing where it could not be asked.
#[derive(Debug)]
pub struct ClusterAnswer {
    pub instance_id: Id,
    pub found: Option<Vec<ClusterDatabase>>,
}

/// What a cluster answered; one that gave no answer could not be asked.
pub open spec fn answered(answers: Seq<ClusterAnswer>, id: Id) -> Option<Seq<ClusterDatabase>>
    decreases answers.len(),
{
    if answers.len() == 0 {
        None
    } else if answers[0].instance_id == id {
        match answers[0].found {
            Some(found) => Some(found@),
            None => None,
        }
    } else {
        answered(answers.skip(1), id)
    }
}

fn answer_of(answers: &Vec<ClusterAnswer>, id: Id) -> (r: Option<&Vec<ClusterDatabase>>)
    ensures
        match r {
            Some(found) => answered(answers@, id) == Some(found@),
            None => answered(answers@, id) is None,
        },
{
    let mut i: usize = 0;
    assert(answers@.skip(0) =~= answers@);
    while i < answers.len()
        invariant
            i <= answers@.len(),
            answered(answers@, id) == answered(answers@.skip(i as int), id),
        decreases answers@.len() - i,
    {
        assert(answers@.skip(i as int)[0] == answers@[i as int]);
        if answers[i].instance_id == id {
            return match &answers[i].found {
                Some(found) => Some(found),
                None => None,
            };
        }
        assert(answers@.skip(i as int).skip(1) =~= answers@.skip(i + 1));
        i = i + 1;
    }
    None
}

// --- the report -----------------------------------------------------------

/// A database that is known and that its cluster does not hold.
#[derive(Debug)]
pub struct MissingDatabase {
    pub database_id: Id,
    pub name: String,
    pub server_id: Id,
    pub store: String,
}

/// What the clusters hold that is not known, what they do not hold that is, and which of them
/// could not be asked.
#[derive(Debug)]
pub struct Reconciliation {
    pub untracked: Vec<ClusterDatabase>,
    pub missing: Vec<MissingDatabase>,
    pub unchecked: Vec<String>,
}

/// A report.
#[verifier::ext_equal]
pub struct Report {
    pub untracked: Seq<ClusterDatabase>,
    pub missing: Seq<MissingDatabase>,
    pub unchecked: Seq<String>,
}

impl View for Reconciliation {
    type V = Report;

    open spec fn view(&self) -> Report {
        Report {
            untracked: self.untracked@,
            missing: self.missing@,
            unchecked: self.unchecked@,
        }
    }
}

/// Whether a database of the name was found.
pub open spec fn has_name(found: Seq<ClusterDatabase>, name: Seq<char>) -> bool {
    exists|i: int| 0 <= i < found.len() && (#[trigger] found[i]).name@ == name
}

/// Whether a server keeps its databases in the cluster.
pub open spec fn kept_in(servers: Seq<OdooServer>, server_id: Id, instance_id: Id) -> bool {
    exists|i: int|
        0 <= i < servers.len() && (#[trigger] servers[i]).id == server_id
            && servers[i].postgres_instance_id == instance_id
}

/// Whether a database of the name is known in the cluster.
pub open spec fn tracked_name(
    databases: Seq<Database>,
    servers: Seq<OdooServer>,
    instance_id: Id,
    name: Seq<char>,
) -> bool {
    exists|i: int|
        0 <= i < databases.len() && (#[trigger] databases[i]).name@ == name && kept_in(
            servers,
            databases[i].server_id,
            instance_id,
        )
}

/// Whether a snapshot is kept in a database of the name.
pub open spec fn holds_snapshot(snapshots: Seq<Snapshot>, name: Seq<char>) -> bool {
    exists|i: int|
        0 <= i < snapshots.len() && (#[trigger] snapshots[i]).snapshot_database_name@ == name
}

/// Whether a database of the name belongs to this application: it holds a snapshot, or is a
/// template.
pub open spec fn is_ours(snapshots: Seq<Snapshot>, name: Seq<char>) -> bool {
    holds_snapshot(snapshots, name) || "oo_template_"@.is_prefix_of(name)
}

/// The known databases that the cluster should hold and does not.
pub open spec fn missing_in(
    databases: Seq<Database>,
    servers: Seq<OdooServer>,
    instance: PostgresInstance,
    found: Seq<ClusterDatabase>,
) -> Seq<MissingDatabase>
    decreases databases.len(),
{
    if databases.len() == 0 {
        Seq::empty()
    } else {
        let before = missing_in(databases.drop_last(), servers, instance, found);
        let d = databases.last();
        if kept_in(servers, d.server_id, instance.id) && !has_name(found, d.name@) {
            before.push(
                MissingDatabase {
                    database_id: d.id,
                    name: d.name,
                    server_id: d.server_id,
                    store: instance.label,
                },
            )
        } else {
            before
        }
    }
}

/// The databases of a cluster that are not known and not this application's own.
pub open spec fn untracked_in(
    found: Seq<ClusterDatabase>,
    databases: Seq<Database>,
    servers: Seq<OdooServer>,
    snapshots: Seq<Snapshot>,
    instance_id: Id,
) -> Seq<ClusterDatabase>
    decreases found.len(),
{
    if found.len() == 0 {
        Seq::empty()
    } else {
        let before = untracked_in(
            found.drop_last(),
            databases,
            servers,
            snapshots,
            instance_id,
        );
        let d = found.last();
        if !tracked_name(databases, servers, instance_id, d.name@) && !is_ours(
            snapshots,
            d.name@,
        ) {
            before.push(d)
        } else {
            before
        }
    }
}

/// The report on clusters: one that could not be asked is listed as such, and nothing else is
/// said of it.
pub open spec fn report_on(
    instances: Seq<PostgresInstance>,
    s: State,
    answers: Seq<ClusterAnswer>,
) -> Report
    decreases instances.len(),
{
    if instances.len() == 0 {
        Report { untracked: Seq::empty(), missing: Seq::empty(), unchecked: Seq::empty() }
    } else {
        let before = report_on(instances.drop_last(), s, answers);
        let instance = instances.last();
        match answered(answers, instance.id) {
            None => Report { unchecked: before.unchecked.push(instance.label), ..before },
            Some(found) => Report {
                untracked: before.untracked + untracked_in(
                    found,
                    rows::listing(s.databases, None),
                    s.servers,
                    s.snapshots,
                    instance.id,
                ),
                missing: before.missing + missing_in(
                    rows::listing(s.databases, None),
                    s.servers,
                    instance,
                    found,
                ),
                ..before
            },
        }
    }
}

/// Of a cluster that could not be asked no database is reported missing: what is missing is
/// missing in the answer of a cluster.
pub proof fn law_an_unasked_store_misses_nothing(
    instances: Seq<PostgresInstance>,
    s: State,
    answers: Seq<ClusterAnswer>,
    k: int,
)
    requires
        0 <= k < report_on(instances, s, answers).missing.len(),
    ensures
        exists|i: int|
            {
                &&& 0 <= i < instances.len()
                &&& answered(answers, (#[trigger] instances[i]).id) matches Some(found)
                &&& !has_name(found, report_on(instances, s, answers).missing[k].name@)
                &&& kept_in(
                    s.servers,
                    report_on(instances, s, answers).missing[k].server_id,
                    instances[i].id,
                )
            },
    decreases instances.len(),
{
    if instances.len() > 0 {
        let rest = instances.drop_last();
        let before = report_on(rest, s, answers);
        let instance = instances.last();
        if k < before.missing.len() {
            law_an_unasked_store_misses_nothing(rest, s, answers, k);
            let i = choose|i: int|
                {
                    &&& 0 <= i < rest.len()
                    &&& answered(answers, (#[trigger] rest[i]).id) matches Some(found)
                    &&& !has_name(found, before.missing[k].name@)
                    &&& kept_in(s.servers, before.missing[k].server_id, rest[i].id)
                };
            assert(instances[i] == rest[i]);
        } else {
            let found = answered(answers, instance.id)->0;
            lemma_missing_in(
                rows::listing(s.databases, None),
                s.servers,
                instance,
                found,
                k - before.missing.len(),
            );
            assert(instances[instances.len() - 1] == instance);
        }
    }
}

proof fn lemma_missing_in(
    databases: Seq<Database>,
    servers: Seq<OdooServer>,
    instance: PostgresInstance,
    found: Seq<ClusterDatabase>,
    k: int,
)
    requires
        0 <= k < missing_in(databases, servers, instance, found).len(),
    ensures
        !has_name(found, missing_in(databases, servers, instance, found)[k].name@),
        kept_in(
            servers,
            missing_in(databases, servers, instance, found)[k].server_id,
            instance.id,
        ),
    decreases databases.len(),
{
    if databases.len() > 0 {
        let before = missing_in(databases.drop_last(), servers, instance, found);
        if k < before.len() {
            lemma_missing_in(databases.drop_last(), servers, instance, found, k);
        }
    }
}

/// A database that holds a snapshot, or is a template, is never reported as a stranger, and
/// neither is one that is known.
pub proof fn law_our_own_are_no_strangers(
    found: Seq<ClusterDatabase>,
    databases: Seq<Database>,
    servers: Seq<OdooServer>,
    snapshots: Seq<Snapshot>,
    instance_id: Id,
    k: int,
)
    requires
        0 <= k < untracked_in(found, databases, servers, snapshots, instance_id).len(),
    ensures
        ({
            let d = untracked_in(found, databases, servers, snapshots, instance_id)[k];
            &&& !is_ours(snapshots, d.name@)
            &&& !tracked_name(databases, servers, instance_id, d.name@)
            &&& found.contains(d)
        }),
    decreases found.len(),
{
    if found.len() > 0 {
        let rest = found.drop_last();
        let before = untracked_in(rest, databases, servers, snapshots, instance_id);
        if k < before.len() {
            law_our_own_are_no_strangers(rest, databases, servers, snapshots, instance_id, k);
            let i = choose|i: int| 0 <= i < rest.len() && rest[i] == before[k];
            assert(found[i] == before[k]);
        } else {
            assert(found[found.len() - 1] == found.last());
        }
    }
}

fn name_is_there(found: &Vec<ClusterDatabase>, name: &str) -> (r: bool)
    ensures
        r == has_name(found@, name@),
{
    let mut i: usize = 0;
    while i < found.len()
        invariant
            i <= found@.len(),
            forall|j: int| 0 <= j < i ==> (#[trigger] found@[j]).name@ != name@,
        decreases found@.len() - i,
    {
        if text::same_text(found[i].name.as_str(), name) {
            assert(found@[i as int].name@ == name@);
            return true;
        }
        i = i + 1;
    }
    false
}

fn keeps_in(servers: &Vec<OdooServer>, server_id: Id, instance_id: Id) -> (r: bool)
    ensures
        r == kept_in(servers@, server_id, instance_id),
{
    let mut i: usize = 0;
    while i < servers.len()
        invariant
            i <= servers@.len(),
            forall|j: int|
                0 <= j < i ==> !((#[trigger] servers@[j]).id == server_id
                    && servers@[j].postgres_instance_id == instance_id),
        decreases servers@.len() - i,
    {
        if servers[i].id == server_id && servers[i].postgres_instance_id == instance_id {
            assert(servers@[i as int].id == server_id);
            return true;
        }
        i = i + 1;
    }
    false
}

fn tracks_name(
    databases: &Vec<&Database>,
    servers: &Vec<OdooServer>,
    instance_id: Id,
    name: &str,
) -> (r: bool)
    ensures
        r == tracked_name(order::owned(databases@), servers@, instance_id, name@),
{
    let ghost all = order::owned(databases@);
    let mut i: usize = 0;
    while i < databases.len()
        invariant
            i <= databases@.len(),
            all == order::owned(databases@),
            forall|j: int|
                0 <= j < i ==> !((#[trigger] all[j]).name@ == name@ && kept_in(
                    servers@,
                    all[j].server_id,
                    instance_id,
                )),
        decreases databases@.len() - i,
    {
        let d = databases[i];
        if text::same_text(d.name.as_str(), name) && keeps_in(servers, d.server_id, instance_id) {
            assert(all[i as int].name@ == name@);
            return true;
        }
        i = i + 1;
    }
    false
}

fn is_our_own(snapshots: &Vec<Snapshot>, name: &str) -> (r: bool)
    ensures
        r == is_ours(snapshots@, name@),
{
    if text::starts_with(name, "oo_template_") {
        return true;
    }
    let mut i: usize = 0;
    while i < snapshots.len()
        invariant
            i <= snapshots@.len(),
            forall|j: int|
                0 <= j < i ==> (#[trigger] snapshots@[j]).snapshot_database_name@ != name@,
        decreases snapshots@.len() - i,
    {
        if text::same_text(snapshots[i].snapshot_database_name.as_str(), name) {
            assert(snapshots@[i as int].snapshot_database_name@ == name@);
            return true;
        }
        i = i + 1;
    }
    false
}

// --- sizes ----------------------------------------------------------------

/// The size that was found of a database of the name.
pub open spec fn size_of(found: Seq<ClusterDatabase>, name: Seq<char>) -> Option<u64>
    decreases found.len(),
{
    if found.len() == 0 {
        None
    } else if found[0].name@ == name {
        Some(found[0].size_bytes)
    } else {
        size_of(found.skip(1), name)
    }
}

/// The sizes of the databases of a cluster that were found.
pub open spec fn sizes_in(
    databases: Seq<Database>,
    servers: Seq<OdooServer>,
    instance_id: Id,
    found: Seq<ClusterDatabase>,
) -> Seq<(Id, u64)>
    decreases databases.len(),
{
    if databases.len() == 0 {
        Seq::empty()
    } else {
        let before = sizes_in(databases.drop_last(), servers, instance_id, found);
        let d = databases.last();
        match size_of(found, d.name@) {
            Some(size) => if kept_in(servers, d.server_id, instance_id) {
                before.push((d.id, size))
            } else {
                before
            },
            None => before,
        }
    }
}

/// The sizes of all databases that were found.
pub open spec fn sizes_found(
    instances: Seq<PostgresInstance>,
    s: State,
    answers: Seq<ClusterAnswer>,
) -> Seq<(Id, u64)>
    decreases instances.len(),
{
    if instances.len() == 0 {
        Seq::empty()
    } else {
        let before = sizes_found(instances.drop_last(), s, answers);
        match answered(answers, instances.last().id) {
            None => before,
            Some(found) => before + sizes_in(
                rows::listing(s.databases, None),
                s.servers,
                instances.last().id,
                found,
            ),
        }
    }
}

/// The databases once sizes are noted.
pub open spec fn sized(databases: Seq<Database>, sizes: Seq<(Id, u64)>) -> Seq<Database>
    decreases sizes.len(),
{
    if sizes.len() == 0 {
        databases
    } else {
        let before = sized(databases, sizes.drop_last());
        let (id, size_bytes) = sizes.last();
        if rows::taken(before, id) {
            before.update(
                rows::place_of(before, id) as int,
                Database { size_bytes, ..rows::row_of(before, id) },
            )
        } else {
            before
        }
    }
}

fn found_size(found: &Vec<ClusterDatabase>, name: &str) -> (r: Option<u64>)
    ensures
        r == size_of(found@, name@),
{
    let mut i: usize = 0;
    assert(found@.skip(0) =~= found@);
    while i < found.len()
        invariant
            i <= found@.len(),
            size_of(found@, name@) == size_of(found@.skip(i as int), name@),
        decreases found@.len() - i,
    {
        assert(found@.skip(i as int)[0] == found@[i as int]);
        if text::same_text(found[i].name.as_str(), name) {
            return Some(found[i].size_bytes);
        }
        assert(found@.skip(i as int).skip(1) =~= found@.skip(i + 1));
        i = i + 1;
    }
    None
}

// --- templates ------------------------------------------------------------

/// A database that new databases are copied from.
#[derive(Debug)]
pub struct CachedTemplate {
    pub key: String,
    pub database_name: String,
    pub instance_id: Id,
    pub size_bytes: u64,
}

/// A database that new databases are copied from.
pub struct Template {
    pub key: Seq<char>,
    pub database_name: Seq<char>,
    pub instance_id: Id,
    pub size_bytes: u64,
}

impl View for CachedTemplate {
    type V = Template;

    open spec fn view(&self) -> Template {
        Template {
            key: self.key@,
            database_name: self.database_name@,
            instance_id: self.instance_id,
            size_bytes: self.size_bytes,
        }
    }
}

/// Templates.
pub open spec fn templates(v: Seq<CachedTemplate>) -> Seq<Template> {
    v.map_values(|t: CachedTemplate| t@)
}

/// The templates among the databases of a cluster.
pub open spec fn templates_in(found: Seq<ClusterDatabase>, instance_id: Id) -> Seq<Template>
    decreases found.len(),
{
    if found.len() == 0 {
        Seq::empty()
    } else {
        let before = templates_in(found.drop_last(), instance_id);
        let d = found.last();
        match text::without_prefix(d.name@, "oo_template_"@) {
            Some(key) => before.push(
                Template {
                    key,
                    database_name: d.name@,
                    instance_id,
                    size_bytes: d.size_bytes,
                },
            ),
            None => before,
        }
    }
}

/// The templates of clusters.
pub open spec fn templates_of(instances: Seq<PostgresInstance>, answers: Seq<ClusterAnswer>) -> Seq<
    Template,
>
    decreases instances.len(),
{
    if instances.len() == 0 {
        Seq::empty()
    } else {
        let before = templates_of(instances.drop_last(), answers);
        match answered(answers, instances.last().id) {
            None => before,
            Some(found) => before + templates_in(found, instances.last().id),
        }
    }
}

/// Whatever is cleared with the templates has the name of a template: no database that somebody
/// made under another name is among them.
pub proof fn law_only_templates_are_cleared(
    instances: Seq<PostgresInstance>,
    answers: Seq<ClusterAnswer>,
    k: int,
)
    requires
        0 <= k < templates_of(instances, answers).len(),
    ensures
        templates_of(instances, answers)[k].database_name == "oo_template_"@ + templates_of(
            instances,
            answers,
        )[k].key,
    decreases instances.len(),
{
    if instances.len() > 0 {
        let before = templates_of(instances.drop_last(), answers);
        if k < before.len() {
            law_only_templates_are_cleared(instances.drop_last(), answers, k);
        } else {
            let found = answered(answers, instances.last().id)->0;
            lemma_templates_in(found, instances.last().id, k - before.len());
        }
    }
}

proof fn lemma_templates_in(found: Seq<ClusterDatabase>, instance_id: Id, k: int)
    requires
        0 <= k < templates_in(found, instance_id).len(),
    ensures
        templates_in(found, instance_id)[k].database_name == "oo_template_"@ + templates_in(
            found,
            instance_id,
        )[k].key,
    decreases found.len(),
{
    if found.len() > 0 {
        let before = templates_in(found.drop_last(), instance_id);
        if k < before.len() {
            lemma_templates_in(found.drop_last(), instance_id, k);
        } else {
            let name = found.last().name@;
            let key = text::without_prefix(name, "oo_template_"@)->0;
            assert("oo_template_"@ + key =~= name);
        }
    }
}

/// The bytes that were freed: the sizes of the templates that were dropped.
pub open spec fn freed(all: Seq<Template>, dropped: Seq<bool>) -> nat
    decreases all.len(),
{
    if all.len() == 0 {
        0
    } else {
        freed(all.drop_last(), dropped) + if dropped[all.len() - 1] {
            all.last().size_bytes as nat
        } else {
            0
        }
    }
}

/// The bytes that were freed: `dropped` says of each template whether it was dropped.
pub fn freed_bytes(all: &Vec<CachedTemplate>, dropped: &Vec<bool>) -> (r: u64)
    requires
        dropped@.len() == all@.len(),
        freed(templates(all@), dropped@) <= u64::MAX,
    ensures
        r == freed(templates(all@), dropped@),
{
    let ghost views = templates(all@);
    let mut sum: u64 = 0;
    let mut i: usize = 0;
    assert(views.take(0) =~= Seq::<Template>::empty());
    while i < all.len()
        invariant
            i <= all@.len() == dropped@.len(),
            views == templates(all@),
            freed(views, dropped@) <= u64::MAX,
            sum == freed(views.take(i as int), dropped@),
        decreases all@.len() - i,
    {
        proof {
            assert(views.take(i + 1).drop_last() =~= views.take(i as int));
            assert(views.take(i + 1).last() == all@[i as int]@);
            lemma_freed_grows(views, dropped@, i + 1);
        }
        if dropped[i] {
            sum = sum + all[i].size_bytes;
        }
        i = i + 1;
    }
    assert(views.take(i as int) =~= views);
    sum
}

proof fn lemma_freed_grows(all: Seq<Template>, dropped: Seq<bool>, k: int)
    requires
        0 <= k <= all.len(),
    ensures
        freed(all.take(k), dropped) <= freed(all, dropped),
    decreases all.len() - k,
{
    if k == all.len() {
        assert(all.take(k) =~= all);
    } else {
        assert(all.take(k + 1).drop_last() =~= all.take(k));
        lemma_freed_grows(all, dropped, k + 1);
    }
}

// --- space ----------------------------------------------------------------

/// What takes up space on the disk.
#[derive(Debug)]
pub struct DiskUsage {
    pub database_bytes: u64,
    pub snapshot_filestore_bytes: u64,
    pub backup_bytes: u64,
    pub module_bytes: u64,
    pub odoo_copy_bytes: u64,
    pub odoo_copies: Vec<CachedRuntime>,
}

/// The sum of numbers.
pub open spec fn sum_of(numbers: Seq<u64>) -> nat
    decreases numbers.len(),
{
    if numbers.len() == 0 {
        0
    } else {
        sum_of(numbers.drop_last()) + numbers.last() as nat
    }
}

/// The sum of numbers.
pub fn sum(numbers: &Vec<u64>) -> (r: u64)
    requires
        sum_of(numbers@) <= u64::MAX,
    ensures
        r == sum_of(numbers@),
{
    let mut out: u64 = 0;
    let mut i: usize = 0;
    assert(numbers@.take(0) =~= Seq::<u64>::empty());
    while i < numbers.len()
        invariant
            i <= numbers@.len(),
            sum_of(numbers@) <= u64::MAX,
            out == sum_of(numbers@.take(i as int)),
        decreases numbers@.len() - i,
    {
        proof {
            assert(numbers@.take(i + 1).drop_last() =~= numbers@.take(i as int));
            lemma_sum_grows(numbers@, i + 1);
        }
        out = out + numbers[i];
        i = i + 1;
    }
    assert(numbers@.take(i as int) =~= numbers@);
    out
}

proof fn lemma_sum_grows(numbers: Seq<u64>, k: int)
    requires
        0 <= k <= numbers.len(),
    ensures
        sum_of(numbers.take(k)) <= sum_of(numbers),
    decreases numbers.len() - k,
{
    if k == numbers.len() {
        assert(numbers.take(k) =~= numbers);
    } else {
        assert(numbers.take(k + 1).drop_last() =~= numbers.take(k));
        lemma_sum_grows(numbers, k + 1);
    }
}

/// The sizes of databases.
pub open spec fn database_sizes(databases: Seq<Database>) -> Seq<u64> {
    databases.map_values(|d: Database| d.size_bytes)
}

/// The sizes of copies of Odoo.
pub open spec fn copy_sizes(copies: Seq<CachedRuntime>) -> Seq<u64> {
    copies.map_values(|c: CachedRuntime| c.size_bytes)
}

/// The folders of snapshots that hold files.
pub open spec fn snapshot_folders_of(snapshots: Seq<Snapshot>) -> Seq<Seq<char>>
    decreases snapshots.len(),
{
    if snapshots.len() == 0 {
        Seq::empty()
    } else {
        let before = snapshot_folders_of(snapshots.drop_last());
        match snapshots.last().filestore_snapshot_path {
            Some(path) => before.push(path@),
            None => before,
        }
    }
}

impl Core {
    /// The folders of snapshots that hold files.
    pub fn snapshot_folders(&self) -> (r: Vec<String>)
        ensures
            text::views(r@) == snapshot_folders_of(rows::listing(self@.snapshots, None)),
    {
        let listed = self.list_snapshots(None);
        let ghost all = order::owned(listed@);
        let mut out: Vec<String> = Vec::new();
        let mut i: usize = 0;
        assert(all.take(0) =~= Seq::<Snapshot>::empty());
        assert(text::views(out@) =~= snapshot_folders_of(all.take(0)));
        while i < listed.len()
            invariant
                i <= listed@.len(),
                all == order::owned(listed@),
                text::views(out@) == snapshot_folders_of(all.take(i as int)),
            decreases listed@.len() - i,
        {
            let s = listed[i];
            let ghost before = text::views(out@);
            proof {
                assert(all.take(i + 1).drop_last() =~= all.take(i as int));
                assert(all.take(i + 1).last() == *s);
            }
            if let Some(path) = &s.filestore_snapshot_path {
                out.push(path.clone());
                assert(text::views(out@) =~= before.push(path@));
            }
            i = i + 1;
        }
        assert(all.take(i as int) =~= all);
        out
    }

    /// What takes up space: `snapshot_bytes` are the sizes of the folders of snapshots,
    /// `backup_bytes` and `module_bytes` those of the folders of backups and of modules.
    pub fn disk_usage(
        &self,
        env: &Environment,
        snapshot_bytes: &Vec<u64>,
        backup_bytes: u64,
        module_bytes: u64,
        copies: Vec<CachedRuntime>,
    ) -> (r: Result<DiskUsage, CoreError>)
        requires
            sum_of(database_sizes(self@.databases)) <= u64::MAX,
            sum_of(snapshot_bytes@) <= u64::MAX,
            sum_of(copy_sizes(copies@)) <= u64::MAX,
        ensures
            match r {
                Ok(usage) => {
                    &&& env.data_dir is Some
                    &&& usage.database_bytes == sum_of(database_sizes(self@.databases))
                    &&& usage.snapshot_filestore_bytes == sum_of(snapshot_bytes@)
                    &&& usage.backup_bytes == backup_bytes
                    &&& usage.module_bytes == module_bytes
                    &&& usage.odoo_copy_bytes == sum_of(copy_sizes(copies@))
                    &&& usage.odoo_copies == copies
                },
                Err(e) => env.data_dir is None && (e matches CoreError::NotConfigured(m) && m@
                    == "no data folder is configured for this app"@),
            },
    {
        if let Err(e) = env.app_dir() {
            return Err(e);
        }
        let mut sizes: Vec<u64> = Vec::new();
        let mut i: usize = 0;
        while i < self.databases.len()
            invariant
                i <= self.databases@.len(),
                sizes@.len() == i,
                forall|j: int|
                    0 <= j < i ==> #[trigger] sizes@[j] == self.databases@[j].size_bytes,
            decreases self.databases@.len() - i,
        {
            sizes.push(self.databases[i].size_bytes);
            i = i + 1;
        }
        assert(sizes@ =~= database_sizes(self@.databases));
        let mut copied: Vec<u64> = Vec::new();
        let mut k: usize = 0;
        while k < copies.len()
            invariant
                k <= copies@.len(),
                copied@.len() == k,
                forall|j: int| 0 <= j < k ==> #[trigger] copied@[j] == copies@[j].size_bytes,
            decreases copies@.len() - k,
        {
            copied.push(copies[k].size_bytes);
            k = k + 1;
        }
        assert(copied@ =~= copy_sizes(copies@));
        Ok(
            DiskUsage {
                database_bytes: sum(&sizes),
                snapshot_filestore_bytes: sum(snapshot_bytes),
                backup_bytes,
                module_bytes,
                odoo_copy_bytes: sum(&copied),
                odoo_copies: copies,
            },
        )
    }

    /// Holds what the clusters answered against what is known.
    pub fn reconcile_databases(&self, answers: &Vec<ClusterAnswer>) -> (r: Reconciliation)
        ensures
            r@ == report_on(rows::listing(self@.instances, None), self@, answers@),
    {
        let instances = self.list_postgres_instances();
        let listed = self.list_databases(None);
        let ghost all = order::owned(instances@);
        let ghost known = order::owned(listed@);
        let mut untracked: Vec<ClusterDatabase> = Vec::new();
        let mut missing: Vec<MissingDatabase> = Vec::new();
        let mut unchecked: Vec<String> = Vec::new();
        let mut i: usize = 0;
        assert(all.take(0) =~= Seq::<PostgresInstance>::empty());
        while i < instances.len()
            invariant
                i <= instances@.len(),
                all == order::owned(instances@),
                known == order::owned(listed@),
                known == rows::listing(self@.databases, None),
                untracked@ == report_on(all.take(i as int), self@, answers@).untracked,
                missing@ == report_on(all.take(i as int), self@, answers@).missing,
                unchecked@ == report_on(all.take(i as int), self@, answers@).unchecked,
            decreases instances@.len() - i,
        {
            let instance = instances[i];
            proof {
                assert(all.take(i + 1).drop_last() =~= all.take(i as int));
                assert(all.take(i + 1).last() == *instance);
            }
            match answer_of(answers, instance.id) {
                None => {
                    unchecked.push(instance.label.clone());
                },
                Some(found) => {
                    let ghost missing_before = missing@;
                    let ghost untracked_before = untracked@;
                    let mut k: usize = 0;
                    assert(known.take(0) =~= Seq::<Database>::empty());
                    assert(missing@ =~= missing_before + missing_in(
                        known.take(0),
                        self@.servers,
                        *instance,
                        found@,
                    ));
                    while k < listed.len()
                        invariant
                            k <= listed@.len(),
                            known == order::owned(listed@),
                            missing@ == missing_before + missing_in(
                                known.take(k as int),
                                self@.servers,
                                *instance,
                                found@,
                            ),
                        decreases listed@.len() - k,
                    {
                        let d = listed[k];
                        let ghost so_far = missing@;
                        proof {
                            assert(known.take(k + 1).drop_last() =~= known.take(k as int));
                            assert(known.take(k + 1).last() == *d);
                        }
                        if keeps_in(&self.servers, d.server_id, instance.id) && !name_is_there(
                            found,
                            d.name.as_str(),
                        ) {
                            let entry = MissingDatabase {
                                database_id: d.id,
                                name: d.name.clone(),
                                server_id: d.server_id,
                                store: instance.label.clone(),
                            };
                            missing.push(entry);
                        }
                        assert(missing@ =~= missing_before + missing_in(
                            known.take(k + 1),
                            self@.servers,
                            *instance,
                            found@,
                        ));
                        k = k + 1;
                    }
                    assert(known.take(k as int) =~= known);
                    let mut n: usize = 0;
                    assert(found@.take(0) =~= Seq::<ClusterDatabase>::empty());
                    assert(untracked@ =~= untracked_before + untracked_in(
                        found@.take(0),
                        known,
                        self@.servers,
                        self@.snapshots,
                        instance.id,
                    ));
                    while n < found.len()
                        invariant
                            n <= found@.len(),
                            known == order::owned(listed@),
                            untracked@ == untracked_before + untracked_in(
                                found@.take(n as int),
                                known,
                                self@.servers,
                                self@.snapshots,
                                instance.id,
                            ),
                        decreases found@.len() - n,
                    {
                        proof {
                            assert(found@.take(n + 1).drop_last() =~= found@.take(n as int));
                            assert(found@.take(n + 1).last() == found@[n as int]);
                        }
                        if !tracks_name(
                            &listed,
                            &self.servers,
                            instance.id,
                            found[n].name.as_str(),
                        ) && !is_our_own(&self.snapshots, found[n].name.as_str()) {
                            untracked.push(found[n].clone());
                        }
                        assert(untracked@ =~= untracked_before + untracked_in(
                            found@.take(n + 1),
                            known,
                            self@.servers,
                            self@.snapshots,
                            instance.id,
                        ));
                        n = n + 1;
                    }
                    assert(found@.take(n as int) =~= found@);
                },
            }
            i = i + 1;
        }
        assert(all.take(i as int) =~= all);
        Reconciliation { untracked, missing, unchecked }
    }

    /// Notes the sizes of the databases that the clusters hold; how many were noted.
    pub fn refresh_database_sizes(&mut self, answers: &Vec<ClusterAnswer>) -> (r: u32)
        ensures
            ({
                let sizes = sizes_found(
                    rows::listing(old(self)@.instances, None),
                    old(self)@,
                    answers@,
                );
                &&& final(self)@ == (State {
                    databases: sized(old(self)@.databases, sizes),
                    ..old(self)@
                })
                &&& r == sizes.len() as u32
            }),
            records::sound(old(self)@) ==> records::sound(final(self)@),
    {
        let ghost before = self@;
        let sizes = self.measured(answers);
        let mut i: usize = 0;
        assert(sizes@.take(0) =~= Seq::<(Id, u64)>::empty());
        while i < sizes.len()
            invariant
                i <= sizes@.len(),
                self@ == (State {
                    databases: sized(before.databases, sizes@.take(i as int)),
                    ..before
                }),
                records::sound(before) ==> records::sound(self@),
            decreases sizes@.len() - i,
        {
            proof {
                assert(sizes@.take(i + 1).drop_last() =~= sizes@.take(i as int));
                assert(sizes@.take(i + 1).last() == sizes@[i as int]);
            }
            let (id, size_bytes) = sizes[i];
            self.set_database_size(id, size_bytes);
            i = i + 1;
        }
        assert(sizes@.take(i as int) =~= sizes@);
        sizes.len() as u32
    }

    fn measured(&self, answers: &Vec<ClusterAnswer>) -> (r: Vec<(Id, u64)>)
        ensures
            r@ == sizes_found(rows::listing(self@.instances, None), self@, answers@),
    {
        let instances = self.list_postgres_instances();
        let listed = self.list_databases(None);
        let ghost all = order::owned(instances@);
        let ghost known = order::owned(listed@);
        let mut out: Vec<(Id, u64)> = Vec::new();
        let mut i: usize = 0;
        assert(all.take(0) =~= Seq::<PostgresInstance>::empty());
        while i < instances.len()
            invariant
                i <= instances@.len(),
                all == order::owned(instances@),
                known == order::owned(listed@),
                known == rows::listing(self@.databases, None),
                out@ == sizes_found(all.take(i as int), self@, answers@),
            decreases instances@.len() - i,
        {
            let instance = instances[i];
            proof {
                assert(all.take(i + 1).drop_last() =~= all.take(i as int));
                assert(all.take(i + 1).last() == *instance);
            }
            if let Some(found) = answer_of(answers, instance.id) {
                let ghost so_far = out@;
                let mut k: usize = 0;
                assert(known.take(0) =~= Seq::<Database>::empty());
                assert(out@ =~= so_far + sizes_in(
                    known.take(0),
                    self@.servers,
                    instance.id,
                    found@,
                ));
                while k < listed.len()
                    invariant
                        k <= listed@.len(),
                        known == order::owned(listed@),
                        out@ == so_far + sizes_in(
                            known.take(k as int),
                            self@.servers,
                            instance.id,
                            found@,
                        ),
                    decreases listed@.len() - k,
                {
                    let d = listed[k];
                    proof {
                        assert(known.take(k + 1).drop_last() =~= known.take(k as int));
                        assert(known.take(k + 1).last() == *d);
                    }
                    if keeps_in(&self.servers, d.server_id, instance.id) {
                        if let Some(size) = found_size(found, d.name.as_str()) {
                            out.push((d.id, size));
                        }
                    }
                    assert(out@ =~= so_far + sizes_in(
                        known.take(k + 1),
                        self@.servers,
                        instance.id,
                        found@,
                    ));
                    k = k + 1;
                }
                assert(known.take(k as int) =~= known);
            }
            i = i + 1;
        }
        assert(all.take(i as int) =~= all);
        out
    }

    /// The templates that the clusters hold.
    pub fn cached_templates(&self, answers: &Vec<ClusterAnswer>) -> (r: Vec<CachedTemplate>)
        ensures
            templates(r@) == templates_of(rows::listing(self@.instances, None), answers@),
    {
        let instances = self.list_postgres_instances();
        let ghost all = order::owned(instances@);
        let mut out: Vec<CachedTemplate> = Vec::new();
        let mut i: usize = 0;
        assert(all.take(0) =~= Seq::<PostgresInstance>::empty());
        assert(templates(out@) =~= templates_of(all.take(0), answers@));
        while i < instances.len()
            invariant
                i <= instances@.len(),
                all == order::owned(instances@),
                templates(out@) == templates_of(all.take(i as int), answers@),
            decreases instances@.len() - i,
        {
            let instance = instances[i];
            proof {
                assert(all.take(i + 1).drop_last() =~= all.take(i as int));
                assert(all.take(i + 1).last() == *instance);
            }
            if let Some(found) = answer_of(answers, instance.id) {
                let ghost so_far = templates(out@);
                let mut n: usize = 0;
                assert(found@.take(0) =~= Seq::<ClusterDatabase>::empty());
                assert(templates(out@) =~= so_far + templates_in(found@.take(0), instance.id));
                while n < found.len()
                    invariant
                        n <= found@.len(),
                        templates(out@) == so_far + templates_in(
                            found@.take(n as int),
                            instance.id,
                        ),
                    decreases found@.len() - n,
                {
                    let ghost before = templates(out@);
                    proof {
                        assert(found@.take(n + 1).drop_last() =~= found@.take(n as int));
                        assert(found@.take(n + 1).last() == found@[n as int]);
                    }
                    if let Some(key) = text::strip_prefix(found[n].name.as_str(), "oo_template_") {
                        let template = CachedTemplate {
                            key,
                            database_name: found[n].name.clone(),
                            instance_id: instance.id,
                            size_bytes: found[n].size_bytes,
                        };
                        let ghost shown = template@;
                        out.push(template);
                        assert(templates(out@) =~= before.push(shown));
                    }
                    assert(templates(out@) =~= so_far + templates_in(
                        found@.take(n + 1),
                        instance.id,
                    ));
                    n = n + 1;
                }
                assert(found@.take(n as int) =~= found@);
            }
            i = i + 1;
        }
        assert(all.take(i as int) =~= all);
        out
    }
}

// --- what the report says -------------------------------------------------

/// Whether the first answer of a cluster is these databases.
pub open spec fn is_answer(answers: Seq<ClusterAnswer>, id: Id, found: Seq<ClusterDatabase>) -> bool {
    exists|a: int|
        {
            &&& 0 <= a < answers.len()
            &&& (#[trigger] answers[a]).instance_id == id
            &&& forall|b: int| 0 <= b < a ==> (#[trigger] answers[b]).instance_id != id
            &&& answers[a].found matches Some(v) && v@ == found
        }
}

/// Whether the first answer of a cluster stands at a place.
spec fn answers_at(answers: Seq<ClusterAnswer>, id: Id, a: int) -> bool {
    &&& 0 <= a < answers.len()
    &&& answers[a].instance_id == id
    &&& forall|b: int| 0 <= b < a ==> (#[trigger] answers[b]).instance_id != id
}

proof fn lemma_answered_at(answers: Seq<ClusterAnswer>, id: Id, a: int)
    requires
        answers_at(answers, id, a),
    ensures
        match answers[a].found {
            Some(found) => answered(answers, id) == Some(found@),
            None => answered(answers, id) is None,
        },
    decreases a,
{
    if a > 0 {
        let rest = answers.skip(1);
        assert(answers[0].instance_id != id);
        assert(rest[a - 1] == answers[a]);
        assert forall|b: int| 0 <= b < a - 1 implies (#[trigger] rest[b]).instance_id != id by {
            assert(rest[b] == answers[b + 1]);
        }
        lemma_answered_at(rest, id, a - 1);
    }
}

proof fn lemma_first_answer(answers: Seq<ClusterAnswer>, id: Id) -> (a: int)
    requires
        answered(answers, id) is Some,
    ensures
        answers_at(answers, id, a),
    decreases answers.len(),
{
    if answers[0].instance_id == id {
        0
    } else {
        let rest = answers.skip(1);
        let a = lemma_first_answer(rest, id);
        assert(answers[a + 1] == rest[a]);
        assert forall|b: int| 0 <= b < a + 1 implies (#[trigger] answers[b]).instance_id != id by {
            if b > 0 {
                assert(rest[b - 1] == answers[b]);
            }
        }
        a + 1
    }
}

proof fn lemma_answered(answers: Seq<ClusterAnswer>, id: Id)
    ensures
        forall|found: Seq<ClusterDatabase>| #[trigger]
            is_answer(answers, id, found) ==> answered(answers, id) == Some(found),
        answered(answers, id) matches Some(found) ==> is_answer(answers, id, found),
{
    assert forall|found: Seq<ClusterDatabase>| #[trigger] is_answer(answers, id, found) implies answered(
        answers,
        id,
    ) == Some(found) by {
        let a = choose|a: int|
            {
                &&& 0 <= a < answers.len()
                &&& (#[trigger] answers[a]).instance_id == id
                &&& forall|b: int| 0 <= b < a ==> (#[trigger] answers[b]).instance_id != id
                &&& answers[a].found matches Some(v) && v@ == found
            };
        assert(answers_at(answers, id, a));
        lemma_answered_at(answers, id, a);
    }
    if answered(answers, id) is Some {
        let a = lemma_first_answer(answers, id);
        lemma_answered_at(answers, id, a);
        assert(answers[a].instance_id == id);
    }
}

/// What is said of a database that its cluster does not hold.
spec fn missing_entry(d: Database, instance: PostgresInstance) -> MissingDatabase {
    MissingDatabase {
        database_id: d.id,
        name: d.name,
        server_id: d.server_id,
        store: instance.label,
    }
}

spec fn is_missing_in(
    m: MissingDatabase,
    d: Database,
    databases: Seq<Database>,
    servers: Seq<OdooServer>,
    instance: PostgresInstance,
    found: Seq<ClusterDatabase>,
) -> bool {
    &&& databases.contains(d)
    &&& m == missing_entry(d, instance)
    &&& kept_in(servers, d.server_id, instance.id)
    &&& !has_name(found, d.name@)
}

proof fn lemma_missing_holds(
    databases: Seq<Database>,
    servers: Seq<OdooServer>,
    instance: PostgresInstance,
    found: Seq<ClusterDatabase>,
    m: MissingDatabase,
)
    ensures
        missing_in(databases, servers, instance, found).contains(m) <==> exists|d: Database|
            #[trigger] is_missing_in(m, d, databases, servers, instance, found),
    decreases databases.len(),
{
    let all = missing_in(databases, servers, instance, found);
    if databases.len() > 0 {
        let rest = databases.drop_last();
        let before = missing_in(rest, servers, instance, found);
        let last = databases.last();
        lemma_missing_holds(rest, servers, instance, found, m);
        assert(databases =~= rest.push(last));
        if all.contains(m) {
            let k = choose|k: int| 0 <= k < all.len() && all[k] == m;
            if k < before.len() {
                assert(before[k] == m);
                let d = choose|d: Database| #[trigger]
                    is_missing_in(m, d, rest, servers, instance, found);
                let i = choose|i: int| 0 <= i < rest.len() && rest[i] == d;
                assert(databases[i] == d);
                assert(is_missing_in(m, d, databases, servers, instance, found));
            } else {
                assert(databases[databases.len() - 1] == last);
                assert(is_missing_in(m, last, databases, servers, instance, found));
            }
        }
        if exists|d: Database| #[trigger]
            is_missing_in(m, d, databases, servers, instance, found) {
            let d = choose|d: Database| #[trigger]
                is_missing_in(m, d, databases, servers, instance, found);
            let i = choose|i: int| 0 <= i < databases.len() && databases[i] == d;
            if i < rest.len() {
                assert(rest[i] == d);
                assert(is_missing_in(m, d, rest, servers, instance, found));
                let k = choose|k: int| 0 <= k < before.len() && before[k] == m;
                assert(all[k] == m);
            } else {
                assert(all[all.len() - 1] == m);
            }
        }
    }
}

proof fn lemma_untracked_holds(
    found: Seq<ClusterDatabase>,
    databases: Seq<Database>,
    servers: Seq<OdooServer>,
    snapshots: Seq<Snapshot>,
    instance_id: Id,
    c: ClusterDatabase,
)
    ensures
        untracked_in(found, databases, servers, snapshots, instance_id).contains(c) <==> {
            &&& found.contains(c)
            &&& !tracked_name(databases, servers, instance_id, c.name@)
            &&& !is_ours(snapshots, c.name@)
        },
    decreases found.len(),
{
    let all = untracked_in(found, databases, servers, snapshots, instance_id);
    if found.len() > 0 {
        let rest = found.drop_last();
        let before = untracked_in(rest, databases, servers, snapshots, instance_id);
        let last = found.last();
        lemma_untracked_holds(rest, databases, servers, snapshots, instance_id, c);
        assert(found =~= rest.push(last));
        vstd::seq_lib::lemma_seq_contains_after_push(rest, last, c);
        vstd::seq_lib::lemma_seq_contains_after_push(before, last, c);
    }
}

proof fn lemma_report_holds(
    instances: Seq<PostgresInstance>,
    s: State,
    answers: Seq<ClusterAnswer>,
    m: MissingDatabase,
    c: ClusterDatabase,
    label: String,
)
    ensures
        report_on(instances, s, answers).missing.contains(m) <==> exists|i: int|
            {
                &&& 0 <= i < instances.len()
                &&& answered(answers, (#[trigger] instances[i]).id) matches Some(found)
                &&& missing_in(
                    rows::listing(s.databases, None),
                    s.servers,
                    instances[i],
                    found,
                ).contains(m)
            },
        report_on(instances, s, answers).untracked.contains(c) <==> exists|i: int|
            {
                &&& 0 <= i < instances.len()
                &&& answered(answers, (#[trigger] instances[i]).id) matches Some(found)
                &&& untracked_in(
                    found,
                    rows::listing(s.databases, None),
                    s.servers,
                    s.snapshots,
                    instances[i].id,
                ).contains(c)
            },
        report_on(instances, s, answers).unchecked.contains(label) <==> exists|i: int|
            {
                &&& 0 <= i < instances.len()
                &&& (#[trigger] instances[i]).label == label
                &&& answered(answers, instances[i].id) is None
            },
    decreases instances.len(),
{
    let all = report_on(instances, s, answers);
    if instances.len() > 0 {
        let rest = instances.drop_last();
        let before = report_on(rest, s, answers);
        let last = instances.last();
        let known = rows::listing(s.databases, None);
        lemma_report_holds(rest, s, answers, m, c, label);
        assert(instances =~= rest.push(last));
        assert forall|i: int| 0 <= i < rest.len() implies #[trigger] instances[i] == rest[i] by {}
        assert(instances[rest.len() as int] == last);
        match answered(answers, last.id) {
            None => {
                vstd::seq_lib::lemma_seq_contains_after_push(before.unchecked, last.label, label);
            },
            Some(found) => {
                let more = missing_in(known, s.servers, last, found);
                let strange = untracked_in(found, known, s.servers, s.snapshots, last.id);
                vstd::seq_lib::lemma_seq_concat_contains_all_elements(before.missing, more, m);
                vstd::seq_lib::lemma_seq_concat_contains_all_elements(
                    before.untracked,
                    strange,
                    c,
                );
            },
        }
        if report_on(rest, s, answers).missing.contains(m) {
            let i = choose|i: int|
                {
                    &&& 0 <= i < rest.len()
                    &&& answered(answers, (#[trigger] rest[i]).id) matches Some(found)
                    &&& missing_in(known, s.servers, rest[i], found).contains(m)
                };
            assert(instances[i] == rest[i]);
        }
        if report_on(rest, s, answers).untracked.contains(c) {
            let i = choose|i: int|
                {
                    &&& 0 <= i < rest.len()
                    &&& answered(answers, (#[trigger] rest[i]).id) matches Some(found)
                    &&& untracked_in(
                        found,
                        known,
                        s.servers,
                        s.snapshots,
                        rest[i].id,
                    ).contains(c)
                };
            assert(instances[i] == rest[i]);
        }
        if report_on(rest, s, answers).unchecked.contains(label) {
            let i = choose|i: int|
                {
                    &&& 0 <= i < rest.len()
                    &&& (#[trigger] rest[i]).label == label
                    &&& answered(answers, rest[i].id) is None
                };
            assert(instances[i] == rest[i]);
        }
        if exists|i: int|
            {
                &&& 0 <= i < instances.len()
                &&& answered(answers, (#[trigger] instances[i]).id) matches Some(found)
                &&& missing_in(known, s.servers, instances[i], found).contains(m)
            } {
            let i = choose|i: int|
                {
                    &&& 0 <= i < instances.len()
                    &&& answered(answers, (#[trigger] instances[i]).id) matches Some(found)
                    &&& missing_in(known, s.servers, instances[i], found).contains(m)
                };
            if i < rest.len() {
                assert(rest[i] == instances[i]);
                assert(before.missing.contains(m));
            }
        }
        if exists|i: int|
            {
                &&& 0 <= i < instances.len()
                &&& answered(answers, (#[trigger] instances[i]).id) matches Some(found)
                &&& untracked_in(
                    found,
                    known,
                    s.servers,
                    s.snapshots,
                    instances[i].id,
                ).contains(c)
            } {
            let i = choose|i: int|
                {
                    &&& 0 <= i < instances.len()
                    &&& answered(answers, (#[trigger] instances[i]).id) matches Some(found)
                    &&& untracked_in(
                        found,
                        known,
                        s.servers,
                        s.snapshots,
                        instances[i].id,
                    ).contains(c)
                };
            if i < rest.len() {
                assert(rest[i] == instances[i]);
                assert(before.untracked.contains(c));
            }
        }
        if exists|i: int|
            {
                &&& 0 <= i < instances.len()
                &&& (#[trigger] instances[i]).label == label
                &&& answered(answers, instances[i].id) is None
            } {
            let i = choose|i: int|
                {
                    &&& 0 <= i < instances.len()
                    &&& (#[trigger] instances[i]).label == label
                    &&& answered(answers, instances[i].id) is None
                };
            if i < rest.len() {
                assert(rest[i] == instances[i]);
                assert(before.unchecked.contains(label));
            }
        }
    }
}

/// Every known database that its cluster was asked for and did not name is reported missing, by
/// its identifier, with its name, its server and its cluster.
pub proof fn law_what_a_store_lacks_is_missing(
    r: Reconciliation,
    s: State,
    answers: Seq<ClusterAnswer>,
    d: Database,
    server: OdooServer,
    instance: PostgresInstance,
    found: Seq<ClusterDatabase>,
)
    requires
        r@ == report_on(rows::listing(s.instances, None), s, answers),
        s.databases.contains(d),
        s.servers.contains(server),
        s.instances.contains(instance),
        d.server_id == server.id,
        server.postgres_instance_id == instance.id,
        is_answer(answers, instance.id, found),
        forall|k: int| 0 <= k < found.len() ==> (#[trigger] found[k]).name@ != d.name@,
    ensures
        exists|k: int|
            {
                &&& 0 <= k < r.missing@.len()
                &&& (#[trigger] r.missing@[k]).database_id == d.id
                &&& r.missing@[k].name == d.name
                &&& r.missing@[k].server_id == d.server_id
                &&& r.missing@[k].store == instance.label
            },
{
    let instances = rows::listing(s.instances, None);
    let known = rows::listing(s.databases, None);
    let m = missing_entry(d, instance);
    rows::law_a_listing_is_ordered(s.instances);
    rows::law_a_listing_is_ordered(s.databases);
    lemma_answered(answers, instance.id);
    lemma_missing_holds(known, s.servers, instance, found, m);
    let k = choose|k: int| 0 <= k < s.servers.len() && s.servers[k] == server;
    assert(s.servers[k].id == d.server_id);
    assert(known.contains(d));
    assert(is_missing_in(m, d, known, s.servers, instance, found));
    assert(instances.contains(instance));
    let i = choose|i: int| 0 <= i < instances.len() && instances[i] == instance;
    assert(answered(answers, instances[i].id) == Some(found));
    lemma_report_holds(instances, s, answers, m, arbitrary(), arbitrary());
    let p = choose|p: int| 0 <= p < r.missing@.len() && r.missing@[p] == m;
    assert(r.missing@[p].database_id == d.id);
}

/// What is reported missing is a known database that a cluster, which was asked and holds the
/// databases of its server, did not name.
pub proof fn law_what_is_missing_is_not_there(
    r: Reconciliation,
    s: State,
    answers: Seq<ClusterAnswer>,
    k: int,
)
    requires
        r@ == report_on(rows::listing(s.instances, None), s, answers),
        0 <= k < r.missing@.len(),
    ensures
        exists|d: Database, server: OdooServer, instance: PostgresInstance, found: Seq<
            ClusterDatabase,
        >|
            {
                &&& s.databases.contains(d)
                &&& s.servers.contains(server)
                &&& s.instances.contains(instance)
                &&& #[trigger] is_answer(answers, instance.id, found)
                &&& d.id == r.missing@[k].database_id
                &&& d.name == r.missing@[k].name
                &&& d.server_id == server.id
                &&& server.postgres_instance_id == instance.id
                &&& instance.label == r.missing@[k].store
                &&& forall|j: int|
                    0 <= j < found.len() ==> (#[trigger] found[j]).name@ != d.name@
                &&& #[trigger] is_at(s, d, server)
            },
{
    let instances = rows::listing(s.instances, None);
    let known = rows::listing(s.databases, None);
    let m = r.missing@[k];
    rows::law_a_listing_is_ordered(s.instances);
    rows::law_a_listing_is_ordered(s.databases);
    lemma_report_holds(instances, s, answers, m, arbitrary(), arbitrary());
    assert(r.missing@.contains(m));
    let i = choose|i: int|
        {
            &&& 0 <= i < instances.len()
            &&& answered(answers, (#[trigger] instances[i]).id) matches Some(found)
            &&& missing_in(known, s.servers, instances[i], found).contains(m)
        };
    let instance = instances[i];
    let found = answered(answers, instance.id)->0;
    lemma_answered(answers, instance.id);
    lemma_missing_holds(known, s.servers, instance, found, m);
    let d = choose|d: Database| #[trigger]
        is_missing_in(m, d, known, s.servers, instance, found);
    let j = choose|j: int|
        0 <= j < s.servers.len() && (#[trigger] s.servers[j]).id == d.server_id
            && s.servers[j].postgres_instance_id == instance.id;
    let server = s.servers[j];
    assert(instances.contains(instance));
    assert(s.instances.contains(instance));
    assert(is_answer(answers, instance.id, found));
    assert(is_at(s, d, server));
}

/// Whether a database is on a server.
pub open spec fn is_at(s: State, d: Database, server: OdooServer) -> bool {
    s.databases.contains(d) && s.servers.contains(server) && d.server_id == server.id
}

/// A database that a cluster named is reported as a stranger exactly where no known database of
/// that cluster has its name, no snapshot is kept in it and it is no template.
pub proof fn law_a_stranger_is_what_nobody_knows(
    r: Reconciliation,
    s: State,
    answers: Seq<ClusterAnswer>,
    c: ClusterDatabase,
)
    requires
        r@ == report_on(rows::listing(s.instances, None), s, answers),
    ensures
        r.untracked@.contains(c) <==> exists|instance: PostgresInstance, found: Seq<
            ClusterDatabase,
        >|
            {
                &&& s.instances.contains(instance)
                &&& #[trigger] is_answer(answers, instance.id, found)
                &&& found.contains(c)
                &&& forall|d: Database, server: OdooServer|
                    d.name@ == c.name@ && server.postgres_instance_id == instance.id
                        ==> !#[trigger] is_at(s, d, server)
                &&& forall|i: int|
                    0 <= i < s.snapshots.len() ==> (
                    #[trigger] s.snapshots[i]).snapshot_database_name@ != c.name@
                &&& !"oo_template_"@.is_prefix_of(c.name@)
            },
{
    let instances = rows::listing(s.instances, None);
    let known = rows::listing(s.databases, None);
    rows::law_a_listing_is_ordered(s.instances);
    rows::law_a_listing_is_ordered(s.databases);
    lemma_report_holds(instances, s, answers, arbitrary(), c, arbitrary());
    if r.untracked@.contains(c) {
        let i = choose|i: int|
            {
                &&& 0 <= i < instances.len()
                &&& answered(answers, (#[trigger] instances[i]).id) matches Some(found)
                &&& untracked_in(
                    found,
                    known,
                    s.servers,
                    s.snapshots,
                    instances[i].id,
                ).contains(c)
            };
        let instance = instances[i];
        let found = answered(answers, instance.id)->0;
        lemma_answered(answers, instance.id);
        lemma_untracked_holds(found, known, s.servers, s.snapshots, instance.id, c);
        assert forall|d: Database, server: OdooServer|
            d.name@ == c.name@ && server.postgres_instance_id == instance.id implies !#[trigger]
            is_at(s, d, server) by {
            if is_at(s, d, server) {
                assert(known.contains(d));
                let a = choose|a: int| 0 <= a < known.len() && known[a] == d;
                let b = choose|b: int| 0 <= b < s.servers.len() && s.servers[b] == server;
                assert(s.servers[b].id == known[a].server_id);
                assert(kept_in(s.servers, known[a].server_id, instance.id));
            }
        }
        assert forall|j: int| 0 <= j < s.snapshots.len() implies (
        #[trigger] s.snapshots[j]).snapshot_database_name@ != c.name@ by {
            if s.snapshots[j].snapshot_database_name@ == c.name@ {
                assert(holds_snapshot(s.snapshots, c.name@));
            }
        }
        assert(instances.contains(instance));
        assert(is_answer(answers, instance.id, found));
    }
    if exists|instance: PostgresInstance, found: Seq<ClusterDatabase>|
        {
            &&& s.instances.contains(instance)
            &&& #[trigger] is_answer(answers, instance.id, found)
            &&& found.contains(c)
            &&& forall|d: Database, server: OdooServer|
                d.name@ == c.name@ && server.postgres_instance_id == instance.id ==> !#[trigger]
                is_at(s, d, server)
            &&& forall|i: int|
                0 <= i < s.snapshots.len() ==> (
                #[trigger] s.snapshots[i]).snapshot_database_name@ != c.name@
            &&& !"oo_template_"@.is_prefix_of(c.name@)
        } {
        let (instance, found) = choose|instance: PostgresInstance, found: Seq<ClusterDatabase>|
            {
                &&& s.instances.contains(instance)
                &&& #[trigger] is_answer(answers, instance.id, found)
                &&& found.contains(c)
                &&& forall|d: Database, server: OdooServer|
                    d.name@ == c.name@ && server.postgres_instance_id == instance.id
                        ==> !#[trigger] is_at(s, d, server)
                &&& forall|i: int|
                    0 <= i < s.snapshots.len() ==> (
                    #[trigger] s.snapshots[i]).snapshot_database_name@ != c.name@
                &&& !"oo_template_"@.is_prefix_of(c.name@)
            };
        lemma_answered(answers, instance.id);
        lemma_untracked_holds(found, known, s.servers, s.snapshots, instance.id, c);
        if tracked_name(known, s.servers, instance.id, c.name@) {
            let a = choose|a: int|
                0 <= a < known.len() && (#[trigger] known[a]).name@ == c.name@ && kept_in(
                    s.servers,
                    known[a].server_id,
                    instance.id,
                );
            let b = choose|b: int|
                0 <= b < s.servers.len() && (#[trigger] s.servers[b]).id == known[a].server_id
                    && s.servers[b].postgres_instance_id == instance.id;
            assert(known.contains(known[a]));
            assert(is_at(s, known[a], s.servers[b]));
        }
        assert(instances.contains(instance));
        let i = choose|i: int| 0 <= i < instances.len() && instances[i] == instance;
        assert(answered(answers, instances[i].id) == Some(found));
    }
}

/// A cluster is listed as one that could not be asked exactly where its first answer holds no
/// databases, or there is no answer of it.
pub proof fn law_who_did_not_answer_is_unchecked(
    r: Reconciliation,
    s: State,
    answers: Seq<ClusterAnswer>,
    label: String,
)
    requires
        r@ == report_on(rows::listing(s.instances, None), s, answers),
    ensures
        r.unchecked@.contains(label) <==> exists|i: int|
            {
                &&& 0 <= i < s.instances.len()
                &&& (#[trigger] s.instances[i]).label == label
                &&& forall|found: Seq<ClusterDatabase>| !#[trigger]
                    is_answer(answers, s.instances[i].id, found)
            },
{
    let instances = rows::listing(s.instances, None);
    rows::law_a_listing_is_ordered(s.instances);
    lemma_report_holds(instances, s, answers, arbitrary(), arbitrary(), label);
    if r.unchecked@.contains(label) {
        let i = choose|i: int|
            {
                &&& 0 <= i < instances.len()
                &&& (#[trigger] instances[i]).label == label
                &&& answered(answers, instances[i].id) is None
            };
        lemma_answered(answers, instances[i].id);
        assert(instances.contains(instances[i]));
        let k = choose|k: int| 0 <= k < s.instances.len() && s.instances[k] == instances[i];
        assert(s.instances[k].label == label);
    }
    if exists|i: int|
        {
            &&& 0 <= i < s.instances.len()
            &&& (#[trigger] s.instances[i]).label == label
            &&& forall|found: Seq<ClusterDatabase>| !#[trigger]
                is_answer(answers, s.instances[i].id, found)
        } {
        let k = choose|i: int|
            {
                &&& 0 <= i < s.instances.len()
                &&& (#[trigger] s.instances[i]).label == label
                &&& forall|found: Seq<ClusterDatabase>| !#[trigger]
                    is_answer(answers, s.instances[i].id, found)
            };
        lemma_answered(answers, s.instances[k].id);
        if let Some(found) = answered(answers, s.instances[k].id) {
            assert(is_answer(answers, s.instances[k].id, found));
        }
        assert(s.instances.contains(s.instances[k]));
        assert(instances.contains(s.instances[k]));
        let i = choose|i: int| 0 <= i < instances.len() && instances[i] == s.instances[k];
        assert(instances[i].label == label);
    }
}

/// The sum of two lists put together is the sum of both sums, that of one number the number.
pub proof fn law_sums_add_up(a: Seq<u64>, b: Seq<u64>, n: u64)
    ensures
        sum_of(a + b) == sum_of(a) + sum_of(b),
        sum_of(seq![n]) == n,
    decreases b.len(),
{
    assert(seq![n].drop_last() =~= Seq::<u64>::empty());
    if b.len() == 0 {
        assert(a + b =~= a);
    } else {
        law_sums_add_up(a, b.drop_last(), n);
        assert((a + b).drop_last() =~= a + b.drop_last());
    }
    assert(sum_of(Seq::<u64>::empty()) == 0);
}

/// Every row of the answer is a database of that cluster, in the order of the answer; a size that
/// is no number counts as zero.
pub proof fn law_every_row_is_a_database(instance_id: Id, answer: Seq<Vec<String>>)
    ensures
        databases_in(instance_id, answer) == answer.filter(|row: Vec<String>| row@.len() > 0).map_values(
            |row: Vec<String>|
                ClusterDatabase {
                    instance_id,
                    name: row@[0],
                    size_bytes: if row@.len() > 1 && text::unsigned_of(
                        row@[1]@,
                        u64::MAX as nat,
                    ) is Some {
                        text::unsigned_of(row@[1]@, u64::MAX as nat)->0 as u64
                    } else {
                        0
                    },
                },
        ),
    decreases answer.len(),
{
    let pick = |row: Vec<String>| row@.len() > 0;
    let turn = |row: Vec<String>|
        ClusterDatabase {
            instance_id,
            name: row@[0],
            size_bytes: if row@.len() > 1 && text::unsigned_of(row@[1]@, u64::MAX as nat) is Some {
                text::unsigned_of(row@[1]@, u64::MAX as nat)->0 as u64
            } else {
                0
            },
        };
    order::lemma_picked(answer, pick, turn);
    if answer.len() > 0 {
        law_every_row_is_a_database(instance_id, answer.drop_last());
    }
}

/// The folders of the snapshots are those of all the snapshots that took files along.
pub proof fn law_every_snapshot_folder_counts(snapshots: Seq<Snapshot>)
    ensures
        snapshot_folders_of(snapshots) == snapshots.filter(
            |s: Snapshot| s.filestore_snapshot_path is Some,
        ).map_values(|s: Snapshot| s.filestore_snapshot_path->0@),
    decreases snapshots.len(),
{
    let pick = |s: Snapshot| s.filestore_snapshot_path is Some;
    let turn = |s: Snapshot| s.filestore_snapshot_path->0@;
    order::lemma_picked(snapshots, pick, turn);
    if snapshots.len() > 0 {
        law_every_snapshot_folder_counts(snapshots.drop_last());
    }
}

/// What is freed is the sum of the sizes of the templates that were dropped.
pub proof fn law_freed_is_what_was_dropped(
    all: Seq<Template>,
    dropped: Seq<bool>,
    last: Template,
)
    requires
        dropped.len() == all.len(),
    ensures
        freed(Seq::empty(), Seq::empty()) == 0,
        freed(all.push(last), dropped.push(true)) == freed(all, dropped) + last.size_bytes,
        freed(all.push(last), dropped.push(false)) == freed(all, dropped),
{
    assert(all.push(last).drop_last() =~= all);
    lemma_freed_looks_no_further(all, dropped, dropped.push(true));
    lemma_freed_looks_no_further(all, dropped, dropped.push(false));
}

proof fn lemma_freed_looks_no_further(all: Seq<Template>, a: Seq<bool>, b: Seq<bool>)
    requires
        a.len() >= all.len(),
        b.len() >= all.len(),
        forall|i: int| 0 <= i < all.len() ==> #[trigger] a[i] == b[i],
    ensures
        freed(all, a) == freed(all, b),
    decreases all.len(),
{
    if all.len() > 0 {
        lemma_freed_looks_no_further(all.drop_last(), a, b);
        assert(a[all.len() - 1] == b[all.len() - 1]);
    }
}

proof fn lemma_templates_held(found: Seq<ClusterDatabase>, instance_id: Id, t: Template)
    ensures
        templates_in(found, instance_id).contains(t) <==> exists|i: int|
            {
                &&& 0 <= i < found.len()
                &&& (#[trigger] found[i]).name@ == t.database_name
                &&& found[i].size_bytes == t.size_bytes
                &&& t.instance_id == instance_id
                &&& t.database_name == "oo_template_"@ + t.key
            },
    decreases found.len(),
{
    if found.len() > 0 {
        let rest = found.drop_last();
        let d = found.last();
        lemma_templates_held(rest, instance_id, t);
        let before = templates_in(rest, instance_id);
        text::law_what_is_taken_off_can_be_put_back(d.name@, "oo_template_"@);
        text::law_what_is_taken_off_can_be_put_back(t.key, "oo_template_"@);
        if let Some(key) = text::without_prefix(d.name@, "oo_template_"@) {
            vstd::seq_lib::lemma_seq_contains_after_push(
                before,
                Template {
                    key,
                    database_name: d.name@,
                    instance_id,
                    size_bytes: d.size_bytes,
                },
                t,
            );
        }
        assert(found[found.len() - 1] == d);
        if before.contains(t) {
            let i = choose|i: int|
                {
                    &&& 0 <= i < rest.len()
                    &&& (#[trigger] rest[i]).name@ == t.database_name
                    &&& rest[i].size_bytes == t.size_bytes
                };
            assert(found[i] == rest[i]);
        }
        if exists|i: int|
            {
                &&& 0 <= i < found.len()
                &&& (#[trigger] found[i]).name@ == t.database_name
                &&& found[i].size_bytes == t.size_bytes
                &&& t.instance_id == instance_id
                &&& t.database_name == "oo_template_"@ + t.key
            } {
            let i = choose|i: int|
                {
                    &&& 0 <= i < found.len()
                    &&& (#[trigger] found[i]).name@ == t.database_name
                    &&& found[i].size_bytes == t.size_bytes
                };
            if i < rest.len() {
                assert(rest[i] == found[i]);
            }
        }
    }
}

proof fn lemma_templates_of(
    instances: Seq<PostgresInstance>,
    answers: Seq<ClusterAnswer>,
    t: Template,
)
    ensures
        templates_of(instances, answers).contains(t) <==> exists|k: int|
            {
                &&& 0 <= k < instances.len()
                &&& answered(answers, (#[trigger] instances[k]).id) is Some
                &&& templates_in(answered(answers, instances[k].id)->0, instances[k].id).contains(t)
            },
    decreases instances.len(),
{
    if instances.len() > 0 {
        let rest = instances.drop_last();
        lemma_templates_of(rest, answers, t);
        let before = templates_of(rest, answers);
        if let Some(found) = answered(answers, instances.last().id) {
            vstd::seq_lib::lemma_seq_concat_contains_all_elements(
                before,
                templates_in(found, instances.last().id),
                t,
            );
        }
        assert(instances[instances.len() - 1] == instances.last());
        if before.contains(t) {
            let k = choose|k: int|
                {
                    &&& 0 <= k < rest.len()
                    &&& answered(answers, (#[trigger] rest[k]).id) is Some
                    &&& templates_in(answered(answers, rest[k].id)->0, rest[k].id).contains(t)
                };
            assert(instances[k] == rest[k]);
        }
        if exists|k: int|
            {
                &&& 0 <= k < instances.len()
                &&& answered(answers, (#[trigger] instances[k]).id) is Some
                &&& templates_in(answered(answers, instances[k].id)->0, instances[k].id).contains(t)
            } {
            let k = choose|k: int|
                {
                    &&& 0 <= k < instances.len()
                    &&& answered(answers, (#[trigger] instances[k]).id) is Some
                    &&& templates_in(
                        answered(answers, instances[k].id)->0,
                        instances[k].id,
                    ).contains(t)
                };
            if k < rest.len() {
                assert(rest[k] == instances[k]);
            }
        }
    }
}

/// Every template that a cluster answered with is listed, with its key, its size and its cluster,
/// and nothing else is.
pub proof fn law_every_template_is_listed(
    r: Seq<CachedTemplate>,
    s: State,
    answers: Seq<ClusterAnswer>,
    instance: PostgresInstance,
    found: Seq<ClusterDatabase>,
    j: int,
    key: Seq<char>,
    k: int,
)
    requires
        templates(r) == templates_of(rows::listing(s.instances, None), answers),
    ensures
        s.instances.contains(instance) && is_answer(answers, instance.id, found) && 0 <= j
            < found.len() && found[j].name@ == "oo_template_"@ + key ==> exists|n: int|
            {
                &&& 0 <= n < r.len()
                &&& (#[trigger] r[n]).key@ == key
                &&& r[n].database_name@ == found[j].name@
                &&& r[n].instance_id == instance.id
                &&& r[n].size_bytes == found[j].size_bytes
            },
        0 <= k < r.len() ==> exists|from: PostgresInstance, there: Seq<ClusterDatabase>, n: int|
            {
                &&& s.instances.contains(from)
                &&& #[trigger] is_answer(answers, from.id, there)
                &&& 0 <= n < there.len()
                &&& (#[trigger] there[n]).name@ == r[k].database_name@
                &&& there[n].size_bytes == r[k].size_bytes
                &&& from.id == r[k].instance_id
                &&& r[k].database_name@ == "oo_template_"@ + r[k].key@
            },
{
    let instances = rows::listing(s.instances, None);
    let all = templates(r);
    if s.instances.contains(instance) && is_answer(answers, instance.id, found) && 0 <= j
        < found.len() && found[j].name@ == "oo_template_"@ + key {
        let t = Template {
            key,
            database_name: found[j].name@,
            instance_id: instance.id,
            size_bytes: found[j].size_bytes,
        };
        rows::law_a_listing_is_complete(s.instances, 0, instance);
        lemma_answered(answers, instance.id);
        lemma_templates_held(found, instance.id, t);
        assert(found[j].name@ == t.database_name);
        lemma_templates_of(instances, answers, t);
        let p = choose|p: int| 0 <= p < instances.len() && instances[p] == instance;
        assert(answered(answers, instances[p].id) == Some(found));
        assert(all.contains(t));
        let n = choose|n: int| 0 <= n < all.len() && all[n] == t;
        assert(all[n] == r[n]@);
        assert(r[n].key@ == key);
    }
    if 0 <= k < r.len() {
        let t = all[k];
        assert(t == r[k]@);
        assert(all.contains(t));
        lemma_templates_of(instances, answers, t);
        let p = choose|p: int|
            {
                &&& 0 <= p < instances.len()
                &&& answered(answers, (#[trigger] instances[p]).id) is Some
                &&& templates_in(answered(answers, instances[p].id)->0, instances[p].id).contains(t)
            };
        let from = instances[p];
        let there = answered(answers, from.id)->0;
        lemma_answered(answers, from.id);
        lemma_templates_held(there, from.id, t);
        let n = choose|n: int|
            {
                &&& 0 <= n < there.len()
                &&& (#[trigger] there[n]).name@ == t.database_name
                &&& there[n].size_bytes == t.size_bytes
            };
        assert(instances.contains(from));
        rows::law_a_listing_is_complete(s.instances, 0, from);
        assert(is_answer(answers, from.id, there));
        assert(there[n].name@ == r[k].database_name@);
    }
}

// --- what sizes are set ---------------------------------------------------
spec fn last_size(sizes: Seq<(Id, u64)>, id: Id) -> Option<u64>
    decreases sizes.len(),
{
    if sizes.len() == 0 {
        None
    } else if sizes.last().0 == id {
        Some(sizes.last().1)
    } else {
        last_size(sizes.drop_last(), id)
    }
}

proof fn lemma_sized(databases: Seq<Database>, sizes: Seq<(Id, u64)>, i: int)
    requires
        rows::distinct(databases),
        0 <= i < databases.len(),
    ensures
        sized(databases, sizes).len() == databases.len(),
        rows::distinct(sized(databases, sizes)),
        forall|k: int|
            0 <= k < databases.len() ==> (#[trigger] sized(databases, sizes)[k]).id
                == databases[k].id,
        sized(databases, sizes)[i] == (Database {
            size_bytes: match last_size(sizes, databases[i].id) {
                Some(size) => size,
                None => databases[i].size_bytes,
            },
            ..databases[i]
        }),
    decreases sizes.len(),
{
    if sizes.len() > 0 {
        lemma_sized(databases, sizes.drop_last(), i);
        let before = sized(databases, sizes.drop_last());
        let after = sized(databases, sizes);
        let (id, size_bytes) = sizes.last();
        if rows::taken(before, id) {
            rows::lemma_place_of(before, id);
            let p = rows::place_of(before, id) as int;
            assert(before[p].id == id);
            if p < i {
                assert(before[p].row_id() != before[i].row_id());
            } else if i < p {
                assert(before[i].row_id() != before[p].row_id());
            }
            assert forall|a: int, b: int| 0 <= a < b < after.len() implies (
            #[trigger] after[a]).row_id() != (#[trigger] after[b]).row_id() by {
                assert(before[a].row_id() != before[b].row_id());
            }
        } else {
            assert(before[i].row_id() != id);
        }
    }
}

proof fn lemma_last_size(sizes: Seq<(Id, u64)>, id: Id)
    ensures
        match last_size(sizes, id) {
            Some(size) => sizes.contains((id, size)),
            None => forall|size: u64| !#[trigger] sizes.contains((id, size)),
        },
    decreases sizes.len(),
{
    if sizes.len() > 0 {
        let rest = sizes.drop_last();
        lemma_last_size(rest, id);
        assert(sizes =~= rest.push(sizes.last()));
        match last_size(sizes, id) {
            Some(size) => {
                vstd::seq_lib::lemma_seq_contains_after_push(rest, sizes.last(), (id, size));
            },
            None => {
                assert forall|size: u64| !#[trigger] sizes.contains((id, size)) by {
                    vstd::seq_lib::lemma_seq_contains_after_push(rest, sizes.last(), (id, size));
                    assert(!rest.contains((id, size)));
                }
            },
        }
    }
}

proof fn lemma_size_of(found: Seq<ClusterDatabase>, name: Seq<char>, k: int)
    ensures
        0 <= k < found.len() && found[k].name@ == name && (forall|i: int|
            0 <= i < k ==> (#[trigger] found[i]).name@ != name) ==> size_of(found, name) == Some(
            found[k].size_bytes,
        ),
        (forall|i: int| 0 <= i < found.len() ==> (#[trigger] found[i]).name@ != name) ==> size_of(
            found,
            name,
        ) is None,
    decreases found.len(),
{
    if found.len() > 0 {
        let rest = found.skip(1);
        lemma_size_of(rest, name, k - 1);
        assert(forall|i: int| 0 <= i < rest.len() ==> rest[i] == found[i + 1]);
    }
}

spec fn is_size_in(
    databases: Seq<Database>,
    servers: Seq<OdooServer>,
    instance_id: Id,
    found: Seq<ClusterDatabase>,
    entry: (Id, u64),
) -> bool {
    exists|k: int|
        {
            &&& 0 <= k < databases.len()
            &&& (#[trigger] databases[k]).id == entry.0
            &&& size_of(found, databases[k].name@) == Some(entry.1)
            &&& kept_in(servers, databases[k].server_id, instance_id)
        }
}

proof fn lemma_sizes_in(
    databases: Seq<Database>,
    servers: Seq<OdooServer>,
    instance_id: Id,
    found: Seq<ClusterDatabase>,
    entry: (Id, u64),
)
    ensures
        sizes_in(databases, servers, instance_id, found).contains(entry) <==> is_size_in(
            databases,
            servers,
            instance_id,
            found,
            entry,
        ),
    decreases databases.len(),
{
    if databases.len() > 0 {
        let rest = databases.drop_last();
        let d = databases.last();
        lemma_sizes_in(rest, servers, instance_id, found, entry);
        let before = sizes_in(rest, servers, instance_id, found);
        if let Some(size) = size_of(found, d.name@) {
            vstd::seq_lib::lemma_seq_contains_after_push(before, (d.id, size), entry);
        }
        assert(databases[databases.len() - 1] == d);
        if is_size_in(rest, servers, instance_id, found, entry) {
            let k = choose|k: int|
                {
                    &&& 0 <= k < rest.len()
                    &&& (#[trigger] rest[k]).id == entry.0
                    &&& size_of(found, rest[k].name@) == Some(entry.1)
                    &&& kept_in(servers, rest[k].server_id, instance_id)
                };
            assert(databases[k] == rest[k]);
        }
        if is_size_in(databases, servers, instance_id, found, entry) {
            let k = choose|k: int|
                {
                    &&& 0 <= k < databases.len()
                    &&& (#[trigger] databases[k]).id == entry.0
                    &&& size_of(found, databases[k].name@) == Some(entry.1)
                    &&& kept_in(servers, databases[k].server_id, instance_id)
                };
            if k < rest.len() {
                assert(rest[k] == databases[k]);
            }
        }
    }
}

spec fn is_size_found(
    instances: Seq<PostgresInstance>,
    s: State,
    answers: Seq<ClusterAnswer>,
    entry: (Id, u64),
) -> bool {
    exists|k: int|
        {
            &&& 0 <= k < instances.len()
            &&& answered(answers, (#[trigger] instances[k]).id) is Some
            &&& is_size_in(
                rows::listing(s.databases, None),
                s.servers,
                instances[k].id,
                answered(answers, instances[k].id)->0,
                entry,
            )
        }
}

proof fn lemma_sizes_found(
    instances: Seq<PostgresInstance>,
    s: State,
    answers: Seq<ClusterAnswer>,
    entry: (Id, u64),
)
    ensures
        sizes_found(instances, s, answers).contains(entry) <==> is_size_found(
            instances,
            s,
            answers,
            entry,
        ),
    decreases instances.len(),
{
    if instances.len() > 0 {
        let rest = instances.drop_last();
        let last = instances.last();
        lemma_sizes_found(rest, s, answers, entry);
        let databases = rows::listing(s.databases, None);
        if let Some(found) = answered(answers, last.id) {
            lemma_sizes_in(databases, s.servers, last.id, found, entry);
            vstd::seq_lib::lemma_seq_concat_contains_all_elements(
                sizes_found(rest, s, answers),
                sizes_in(databases, s.servers, last.id, found),
                entry,
            );
        }
        assert(instances[instances.len() - 1] == last);
        assert(forall|k: int| 0 <= k < rest.len() ==> rest[k] == instances[k]);
        if is_size_found(rest, s, answers, entry) {
            let k = choose|k: int|
                {
                    &&& 0 <= k < rest.len()
                    &&& answered(answers, (#[trigger] rest[k]).id) is Some
                    &&& is_size_in(
                        databases,
                        s.servers,
                        rest[k].id,
                        answered(answers, rest[k].id)->0,
                        entry,
                    )
                };
            assert(instances[k] == rest[k]);
        }
        if is_size_found(instances, s, answers, entry) {
            let k = choose|k: int|
                {
                    &&& 0 <= k < instances.len()
                    &&& answered(answers, (#[trigger] instances[k]).id) is Some
                    &&& is_size_in(
                        databases,
                        s.servers,
                        instances[k].id,
                        answered(answers, instances[k].id)->0,
                        entry,
                    )
                };
            if k < rest.len() {
                assert(rest[k] == instances[k]);
            }
        }
    }
}

/// A database gets the size that its own cluster answered with; one whose cluster did not answer,
/// or did not name it, keeps the size that it had. Nothing else of it changes.
pub proof fn law_a_database_gets_its_measured_size(
    s: State,
    answers: Seq<ClusterAnswer>,
    i: int,
    server: OdooServer,
    found: Seq<ClusterDatabase>,
    j: int,
)
    requires
        rows::distinct(s.databases),
        rows::distinct(s.servers),
        0 <= i < s.databases.len(),
        s.servers.contains(server),
        server.id == s.databases[i].server_id,
        exists|k: int|
            0 <= k < s.instances.len() && (#[trigger] s.instances[k]).id
                == server.postgres_instance_id,
    ensures
        ({
            let after = sized(
                s.databases,
                sizes_found(rows::listing(s.instances, None), s, answers),
            );
            let d = s.databases[i];
            let there = is_answer(answers, server.postgres_instance_id, found);
            &&& after.len() == s.databases.len()
            &&& after[i] == (Database { size_bytes: after[i].size_bytes, ..d })
            &&& there && 0 <= j < found.len() && found[j].name@ == d.name@ && (forall|n: int|
                0 <= n < j ==> (#[trigger] found[n]).name@ != d.name@) ==> after[i].size_bytes
                == found[j].size_bytes
            &&& there && (forall|n: int|
                0 <= n < found.len() ==> (#[trigger] found[n]).name@ != d.name@) ==> after[i] == d
            &&& (forall|f: Seq<ClusterDatabase>| !#[trigger]
                is_answer(answers, server.postgres_instance_id, f)) ==> after[i] == d
        }),
{
    let instances = rows::listing(s.instances, None);
    let databases = rows::listing(s.databases, None);
    let sizes = sizes_found(instances, s, answers);
    let d = s.databases[i];
    let home = server.postgres_instance_id;
    lemma_sized(s.databases, sizes, i);
    lemma_last_size(sizes, d.id);
    lemma_answered(answers, home);
    lemma_size_of(found, d.name@, j);
    let q = choose|q: int| 0 <= q < s.instances.len() && (#[trigger] s.instances[q]).id == home;
    let instance = s.instances[q];
    assert(s.instances.contains(instance));
    rows::law_a_listing_is_complete(s.instances, 0, instance);
    let p = choose|p: int| 0 <= p < instances.len() && instances[p] == instance;
    assert(s.databases.contains(d));
    rows::law_a_listing_is_complete(s.databases, 0, d);
    let at = choose|at: int| 0 <= at < databases.len() && databases[at] == d;
    let w = choose|w: int| 0 <= w < s.servers.len() && s.servers[w] == server;
    assert(kept_in(s.servers, d.server_id, home)) by {
        assert(s.servers[w].id == d.server_id);
    }
    assert forall|size: u64| #[trigger] sizes.contains((d.id, size)) implies answered(answers, home)
        is Some && size_of(answered(answers, home)->0, d.name@) == Some(size) by {
        let entry = (d.id, size);
        lemma_sizes_found(instances, s, answers, entry);
        let k = choose|k: int|
            {
                &&& 0 <= k < instances.len()
                &&& answered(answers, (#[trigger] instances[k]).id) is Some
                &&& is_size_in(
                    databases,
                    s.servers,
                    instances[k].id,
                    answered(answers, instances[k].id)->0,
                    entry,
                )
            };
        let there = answered(answers, instances[k].id)->0;
        let b = choose|b: int|
            {
                &&& 0 <= b < databases.len()
                &&& (#[trigger] databases[b]).id == entry.0
                &&& size_of(there, databases[b].name@) == Some(entry.1)
                &&& kept_in(s.servers, databases[b].server_id, instances[k].id)
            };
        assert(databases.contains(databases[b]));
        rows::law_a_listing_is_complete(s.databases, 0, databases[b]);
        rows::law_a_record_is_found_by_its_identifier(s.databases, databases[b], d.id);
        rows::law_a_record_is_found_by_its_identifier(s.databases, d, d.id);
        assert(databases[b] == d);
        let v = choose|v: int|
            0 <= v < s.servers.len() && (#[trigger] s.servers[v]).id == d.server_id
                && s.servers[v].postgres_instance_id == instances[k].id;
        assert(s.servers.contains(s.servers[v]));
        rows::law_a_record_is_found_by_its_identifier(s.servers, s.servers[v], d.server_id);
        rows::law_a_record_is_found_by_its_identifier(s.servers, server, d.server_id);
        assert(s.servers[v] == server);
    }
    if let Some(there) = answered(answers, home) {
        if let Some(size) = size_of(there, d.name@) {
            let entry = (d.id, size);
            lemma_sizes_found(instances, s, answers, entry);
            assert(databases[at].id == entry.0);
            assert(is_size_in(databases, s.servers, home, there, entry));
            assert(answered(answers, instances[p].id) is Some);
            assert(sizes.contains(entry));
        }
    }
}

/// What a cluster lacks, what nobody knows, what is measured and which templates it holds is told
/// of in the order of the lists, each once.
pub proof fn law_a_report_keeps_the_order_of_the_lists(
    databases: Seq<Database>,
    servers: Seq<OdooServer>,
    snapshots: Seq<Snapshot>,
    instance: PostgresInstance,
    found: Seq<ClusterDatabase>,
)
    ensures
        missing_in(databases, servers, instance, found) == databases.filter(
            |d: Database| kept_in(servers, d.server_id, instance.id) && !has_name(found, d.name@),
        ).map_values(
            |d: Database|
                MissingDatabase {
                    database_id: d.id,
                    name: d.name,
                    server_id: d.server_id,
                    store: instance.label,
                },
        ),
        untracked_in(found, databases, servers, snapshots, instance.id) == found.filter(
            |d: ClusterDatabase|
                !tracked_name(databases, servers, instance.id, d.name@) && !is_ours(
                    snapshots,
                    d.name@,
                ),
        ),
        sizes_in(databases, servers, instance.id, found) == databases.filter(
            |d: Database|
                kept_in(servers, d.server_id, instance.id) && size_of(found, d.name@) is Some,
        ).map_values(|d: Database| (d.id, size_of(found, d.name@)->0)),
        templates_in(found, instance.id) == found.filter(
            |d: ClusterDatabase| "oo_template_"@.is_prefix_of(d.name@),
        ).map_values(
            |d: ClusterDatabase|
                Template {
                    key: d.name@.skip("oo_template_"@.len() as int),
                    database_name: d.name@,
                    instance_id: instance.id,
                    size_bytes: d.size_bytes,
                },
        ),
{
    lemma_missing_in_order(databases, servers, instance, found);
    lemma_untracked_in_order(found, databases, servers, snapshots, instance.id);
    lemma_sizes_in_order(databases, servers, instance.id, found);
    lemma_templates_in_order(found, instance.id);
}

proof fn lemma_missing_in_order(
    databases: Seq<Database>,
    servers: Seq<OdooServer>,
    instance: PostgresInstance,
    found: Seq<ClusterDatabase>,
)
    ensures
        missing_in(databases, servers, instance, found) == databases.filter(
            |d: Database| kept_in(servers, d.server_id, instance.id) && !has_name(found, d.name@),
        ).map_values(
            |d: Database|
                MissingDatabase {
                    database_id: d.id,
                    name: d.name,
                    server_id: d.server_id,
                    store: instance.label,
                },
        ),
    decreases databases.len(),
{
    let pick = |d: Database|
        kept_in(servers, d.server_id, instance.id) && !has_name(found, d.name@);
    let turn = |d: Database|
        MissingDatabase {
            database_id: d.id,
            name: d.name,
            server_id: d.server_id,
            store: instance.label,
        };
    order::lemma_picked(databases, pick, turn);
    if databases.len() > 0 {
        lemma_missing_in_order(databases.drop_last(), servers, instance, found);
    }
}

proof fn lemma_untracked_in_order(
    found: Seq<ClusterDatabase>,
    databases: Seq<Database>,
    servers: Seq<OdooServer>,
    snapshots: Seq<Snapshot>,
    instance_id: Id,
)
    ensures
        untracked_in(found, databases, servers, snapshots, instance_id) == found.filter(
            |d: ClusterDatabase|
                !tracked_name(databases, servers, instance_id, d.name@) && !is_ours(
                    snapshots,
                    d.name@,
                ),
        ),
    decreases found.len(),
{
    reveal(Seq::filter);
    if found.len() > 0 {
        lemma_untracked_in_order(found.drop_last(), databases, servers, snapshots, instance_id);
    } else {
        assert(found.filter(
            |d: ClusterDatabase|
                !tracked_name(databases, servers, instance_id, d.name@) && !is_ours(
                    snapshots,
                    d.name@,
                ),
        ) =~= Seq::<ClusterDatabase>::empty());
    }
}

proof fn lemma_sizes_in_order(
    databases: Seq<Database>,
    servers: Seq<OdooServer>,
    instance_id: Id,
    found: Seq<ClusterDatabase>,
)
    ensures
        sizes_in(databases, servers, instance_id, found) == databases.filter(
            |d: Database|
                kept_in(servers, d.server_id, instance_id) && size_of(found, d.name@) is Some,
        ).map_values(|d: Database| (d.id, size_of(found, d.name@)->0)),
    decreases databases.len(),
{
    let pick = |d: Database|
        kept_in(servers, d.server_id, instance_id) && size_of(found, d.name@) is Some;
    let turn = |d: Database| (d.id, size_of(found, d.name@)->0);
    order::lemma_picked(databases, pick, turn);
    if databases.len() > 0 {
        lemma_sizes_in_order(databases.drop_last(), servers, instance_id, found);
    }
}

proof fn lemma_templates_in_order(found: Seq<ClusterDatabase>, instance_id: Id)
    ensures
        templates_in(found, instance_id) == found.filter(
            |d: ClusterDatabase| "oo_template_"@.is_prefix_of(d.name@),
        ).map_values(
            |d: ClusterDatabase|
                Template {
                    key: d.name@.skip("oo_template_"@.len() as int),
                    database_name: d.name@,
                    instance_id,
                    size_bytes: d.size_bytes,
                },
        ),
    decreases found.len(),
{
    let pick = |d: ClusterDatabase| "oo_template_"@.is_prefix_of(d.name@);
    let turn = |d: ClusterDatabase|
        Template {
            key: d.name@.skip("oo_template_"@.len() as int),
            database_name: d.name@,
            instance_id,
            size_bytes: d.size_bytes,
        };
    order::lemma_picked(found, pick, turn);
    if found.len() > 0 {
        lemma_templates_in_order(found.drop_last(), instance_id);
    }
}

/// Clusters are reported on one behind the other, in their order.
pub proof fn law_clusters_are_reported_on_in_their_order(
    first: PostgresInstance,
    rest: Seq<PostgresInstance>,
    s: State,
    answers: Seq<ClusterAnswer>,
)
    ensures
        ({
            let all = report_on(seq![first] + rest, s, answers);
            let one = report_on(seq![first], s, answers);
            let others = report_on(rest, s, answers);
            &&& all.missing == one.missing + others.missing
            &&& all.untracked == one.untracked + others.untracked
            &&& all.unchecked == one.unchecked + others.unchecked
            &&& answered(answers, first.id) is None ==> one.missing.len() == 0
                && one.untracked.len() == 0 && one.unchecked == seq![first.label]
            &&& answered(answers, first.id) is Some ==> one.unchecked.len() == 0
            &&& sizes_found(seq![first] + rest, s, answers) == sizes_found(
                seq![first],
                s,
                answers,
            ) + sizes_found(rest, s, answers)
            &&& templates_of(seq![first] + rest, answers) == templates_of(seq![first], answers)
                + templates_of(rest, answers)
        }),
    decreases rest.len(),
{
    let all = seq![first] + rest;
    let none = Seq::<PostgresInstance>::empty();
    assert(seq![first].drop_last() =~= none);
    assert(seq![first].last() == first);
    let one = report_on(seq![first], s, answers);
    let nothing = report_on(none, s, answers);
    assert(nothing.unchecked.len() == 0 && nothing.missing.len() == 0 && nothing.untracked.len()
        == 0);
    assert(sizes_found(none, s, answers).len() == 0);
    assert(templates_of(none, answers).len() == 0);
    assert(one.unchecked =~= if answered(answers, first.id) is None {
        seq![first.label]
    } else {
        seq![]
    });
    if rest.len() > 0 {
        law_clusters_are_reported_on_in_their_order(first, rest.drop_last(), s, answers);
        assert(all.drop_last() =~= seq![first] + rest.drop_last());
        assert(all.last() == rest.last());
    } else {
        assert(rest =~= none);
        assert(all =~= seq![first]);
    }
    let whole = report_on(all, s, answers);
    let others = report_on(rest, s, answers);
    assert(whole.missing =~= one.missing + others.missing);
    assert(whole.untracked =~= one.untracked + others.untracked);
    assert(whole.unchecked =~= one.unchecked + others.unchecked);
    assert(sizes_found(all, s, answers) =~= sizes_found(seq![first], s, answers) + sizes_found(
        rest,
        s,
        answers,
    ));
    assert(templates_of(all, answers) =~= templates_of(seq![first], answers) + templates_of(
        rest,
        answers,
    ));
}

} // verus!
