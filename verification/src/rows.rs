//! Tables of records: each record has an identifier, a place in the order of its table, and
//! perhaps a record of another table that it belongs to.

use crate::errors::CoreError;
use crate::events::EventEnvelope;
use crate::model::{AddonsSource, Database, Id, OdooServer, PostgresInstance, Project, Snapshot};
use crate::order;
use crate::text;
use vstd::prelude::*;
use vstd::string::*;

verus! {

/// A record of a table.
pub trait Row: Sized {
    /// The identifier of the record.
    spec fn row_id(self) -> Id;

    /// What the table is ordered by.
    spec fn row_key(self) -> int;

    /// What the record belongs to.
    spec fn row_parent(self) -> Option<Id>;

    /// The identifier of the record.
    fn id(&self) -> (r: Id)
        ensures
            r == self.row_id(),
    ;

    /// What the table is ordered by.
    fn key(&self) -> (r: i128)
        ensures
            r == self.row_key(),
    ;

    /// What the record belongs to.
    fn parent(&self) -> (r: Option<Id>)
        ensures
            r == self.row_parent(),
    ;
}

impl Row for Project {
    open spec fn row_id(self) -> Id {
        self.id
    }

    open spec fn row_key(self) -> int {
        self.created_at as int
    }

    open spec fn row_parent(self) -> Option<Id> {
        None
    }

    fn id(&self) -> (r: Id) {
        self.id
    }

    fn key(&self) -> (r: i128) {
        self.created_at
    }

    fn parent(&self) -> (r: Option<Id>) {
        None
    }
}

impl Row for OdooServer {
    open spec fn row_id(self) -> Id {
        self.id
    }

    open spec fn row_key(self) -> int {
        self.created_at as int
    }

    open spec fn row_parent(self) -> Option<Id> {
        self.project_id
    }

    fn id(&self) -> (r: Id) {
        self.id
    }

    fn key(&self) -> (r: i128) {
        self.created_at
    }

    fn parent(&self) -> (r: Option<Id>) {
        self.project_id
    }
}

impl Row for AddonsSource {
    open spec fn row_id(self) -> Id {
        self.id
    }

    open spec fn row_key(self) -> int {
        self.rank as int
    }

    open spec fn row_parent(self) -> Option<Id> {
        Some(self.server_id)
    }

    fn id(&self) -> (r: Id) {
        self.id
    }

    fn key(&self) -> (r: i128) {
        self.rank as i128
    }

    fn parent(&self) -> (r: Option<Id>) {
        Some(self.server_id)
    }
}

impl Row for Database {
    open spec fn row_id(self) -> Id {
        self.id
    }

    open spec fn row_key(self) -> int {
        self.created_at as int
    }

    open spec fn row_parent(self) -> Option<Id> {
        Some(self.server_id)
    }

    fn id(&self) -> (r: Id) {
        self.id
    }

    fn key(&self) -> (r: i128) {
        self.created_at
    }

    fn parent(&self) -> (r: Option<Id>) {
        Some(self.server_id)
    }
}

impl Row for PostgresInstance {
    open spec fn row_id(self) -> Id {
        self.id
    }

    open spec fn row_key(self) -> int {
        self.created_at as int
    }

    open spec fn row_parent(self) -> Option<Id> {
        None
    }

    fn id(&self) -> (r: Id) {
        self.id
    }

    fn key(&self) -> (r: i128) {
        self.created_at
    }

    fn parent(&self) -> (r: Option<Id>) {
        None
    }
}

impl Row for Snapshot {
    open spec fn row_id(self) -> Id {
        self.id
    }

    open spec fn row_key(self) -> int {
        self.created_at as int
    }

    open spec fn row_parent(self) -> Option<Id> {
        Some(self.database_id)
    }

    fn id(&self) -> (r: Id) {
        self.id
    }

    fn key(&self) -> (r: i128) {
        self.created_at
    }

    fn parent(&self) -> (r: Option<Id>) {
        Some(self.database_id)
    }
}

impl Row for EventEnvelope {
    open spec fn row_id(self) -> Id {
        self.id
    }

    open spec fn row_key(self) -> int {
        self.occurred_at as int
    }

    open spec fn row_parent(self) -> Option<Id> {
        None
    }

    fn id(&self) -> (r: Id) {
        self.id
    }

    fn key(&self) -> (r: i128) {
        self.occurred_at
    }

    fn parent(&self) -> (r: Option<Id>) {
        None
    }
}

// --- finding --------------------------------------------------------------

/// Whether a record has the identifier.
pub open spec fn taken<T: Row>(rows: Seq<T>, id: Id) -> bool {
    exists|i: int| 0 <= i < rows.len() && (#[trigger] rows[i]).row_id() == id
}

/// Where the first record with the identifier is.
pub open spec fn place_of<T: Row>(rows: Seq<T>, id: Id) -> nat
    decreases rows.len(),
{
    if rows.len() == 0 {
        0
    } else if taken(rows.drop_last(), id) {
        place_of(rows.drop_last(), id)
    } else {
        (rows.len() - 1) as nat
    }
}

/// The record with the identifier.
pub open spec fn row_of<T: Row>(rows: Seq<T>, id: Id) -> T {
    rows[place_of(rows, id) as int]
}

/// Whether no two records have the same identifier.
pub open spec fn distinct<T: Row>(rows: Seq<T>) -> bool {
    forall|i: int, j: int|
        0 <= i < j < rows.len() ==> (#[trigger] rows[i]).row_id() != (#[trigger] rows[j]).row_id()
}

/// The place of a taken identifier holds it, and no place before does.
pub proof fn lemma_place_of<T: Row>(rows: Seq<T>, id: Id)
    requires
        taken(rows, id),
    ensures
        0 <= place_of(rows, id) < rows.len(),
        row_of(rows, id).row_id() == id,
        forall|i: int| 0 <= i < place_of(rows, id) ==> (#[trigger] rows[i]).row_id() != id,
    decreases rows.len(),
{
    let rest = rows.drop_last();
    if taken(rest, id) {
        lemma_place_of(rest, id);
        assert forall|i: int| 0 <= i < place_of(rows, id) implies (#[trigger] rows[i]).row_id()
            != id by {
            assert(rest[i] == rows[i]);
        }
        assert(rest[place_of(rest, id) as int] == rows[place_of(rest, id) as int]);
    } else {
        let k = choose|i: int| 0 <= i < rows.len() && (#[trigger] rows[i]).row_id() == id;
        if k < rest.len() {
            assert(rest[k] == rows[k]);
        }
        assert forall|i: int| 0 <= i < rest.len() implies (#[trigger] rows[i]).row_id() != id by {
            assert(rest[i] == rows[i]);
        }
    }
}

/// A place that holds the identifier, where no place before does, is its place.
pub proof fn lemma_place_is<T: Row>(rows: Seq<T>, id: Id, k: int)
    requires
        0 <= k < rows.len(),
        rows[k].row_id() == id,
        forall|i: int| 0 <= i < k ==> (#[trigger] rows[i]).row_id() != id,
    ensures
        taken(rows, id),
        place_of(rows, id) == k,
{
    assert(taken(rows, id));
    lemma_place_of(rows, id);
    if place_of(rows, id) < k {
        assert(rows[place_of(rows, id) as int].row_id() != id);
    }
    if k < place_of(rows, id) {
        assert(rows[k].row_id() != id);
    }
}

/// Where the first record with the identifier is, if there is one.
pub fn find<T: Row>(rows: &Vec<T>, id: Id) -> (r: Option<usize>)
    ensures
        match r {
            Some(k) => taken(rows@, id) && k < rows@.len() && k == place_of(rows@, id),
            None => !taken(rows@, id),
        },
{
    let mut i: usize = 0;
    while i < rows.len()
        invariant
            i <= rows@.len(),
            forall|j: int| 0 <= j < i ==> (#[trigger] rows@[j]).row_id() != id,
        decreases rows@.len() - i,
    {
        if rows[i].id() == id {
            proof {
                lemma_place_is(rows@, id, i as int);
            }
            return Some(i);
        }
        i = i + 1;
    }
    None
}

/// Adds a record to its table, unless its identifier is taken.
pub fn insert<T: Row>(rows: &mut Vec<T>, row: T, table: &str) -> (r: Result<(), CoreError>)
    ensures
        match r {
            Ok(_) => !taken(old(rows)@, row.row_id()) && final(rows)@ == old(rows)@.push(row),
            Err(e) => {
                &&& taken(old(rows)@, row.row_id())
                &&& final(rows)@ == old(rows)@
                &&& is_taken_error(e, table@)
            },
        },
{
    let id = row.id();
    if find(rows, id).is_some() {
        let mut message = text::joined("UNIQUE constraint failed: ", table);
        message.append(".id");
        return Err(CoreError::Sqlite(message));
    }
    rows.push(row);
    Ok(())
}

/// Whether an error says that an identifier is taken in the table.
pub open spec fn is_taken_error(e: CoreError, table: Seq<char>) -> bool {
    e matches CoreError::Sqlite(m) && m@ == "UNIQUE constraint failed: "@ + table + ".id"@
}

/// A table stays without doubles when a record with a free identifier comes.
pub proof fn lemma_push_distinct<T: Row>(rows: Seq<T>, row: T)
    requires
        distinct(rows),
        !taken(rows, row.row_id()),
    ensures
        distinct(rows.push(row)),
{
    let out = rows.push(row);
    assert forall|i: int, j: int| 0 <= i < j < out.len() implies (#[trigger] out[i]).row_id() != (
    #[trigger] out[j]).row_id() by {
        assert(out[i] == rows[i]);
        if j < rows.len() {
            assert(out[j] == rows[j]);
        }
    }
}

/// A new record takes its identifier and leaves the others as they were.
pub proof fn lemma_push_taken<T: Row>(rows: Seq<T>, row: T, id: Id)
    ensures
        taken(rows.push(row), id) == (taken(rows, id) || row.row_id() == id),
{
    let out = rows.push(row);
    if taken(rows, id) {
        let k = choose|i: int| 0 <= i < rows.len() && (#[trigger] rows[i]).row_id() == id;
        assert(out[k] == rows[k]);
    }
    if row.row_id() == id {
        assert(out[rows.len() as int] == row);
    }
    if taken(out, id) {
        let k = choose|i: int| 0 <= i < out.len() && (#[trigger] out[i]).row_id() == id;
        if k < rows.len() {
            assert(rows[k] == out[k]);
        }
    }
}

/// A record that is replaced by one with the same identifier leaves the taken identifiers, and
/// that there are no doubles, as they were.
pub proof fn lemma_update_keeps<T: Row>(rows: Seq<T>, k: int, row: T, id: Id)
    requires
        0 <= k < rows.len(),
        row.row_id() == rows[k].row_id(),
    ensures
        taken(rows.update(k, row), id) == taken(rows, id),
        distinct(rows) ==> distinct(rows.update(k, row)),
{
    let out = rows.update(k, row);
    if taken(rows, id) {
        let i = choose|i: int| 0 <= i < rows.len() && (#[trigger] rows[i]).row_id() == id;
        assert(out[i].row_id() == id);
    }
    if taken(out, id) {
        let i = choose|i: int| 0 <= i < out.len() && (#[trigger] out[i]).row_id() == id;
        assert(rows[i].row_id() == id);
    }
}

/// A table without doubles loses the identifier with its record, and no other.
pub proof fn lemma_remove<T: Row>(rows: Seq<T>, k: int, id: Id)
    requires
        0 <= k < rows.len(),
        distinct(rows),
    ensures
        distinct(rows.remove(k)),
        taken(rows.remove(k), id) == (taken(rows, id) && rows[k].row_id() != id),
{
    let out = rows.remove(k);
    assert forall|i: int, j: int| 0 <= i < j < out.len() implies (#[trigger] out[i]).row_id() != (
    #[trigger] out[j]).row_id() by {
        assert(out[i] == rows[if i < k { i } else { i + 1 }]);
        assert(out[j] == rows[if j < k { j } else { j + 1 }]);
    }
    if taken(out, id) {
        let i = choose|i: int| 0 <= i < out.len() && (#[trigger] out[i]).row_id() == id;
        let p = if i < k { i } else { i + 1 };
        assert(rows[p].row_id() == id);
        if rows[k].row_id() == id {
            if p < k {
                assert(rows[p].row_id() != rows[k].row_id());
            } else {
                assert(rows[k].row_id() != rows[p].row_id());
            }
        }
    }
    if taken(rows, id) && rows[k].row_id() != id {
        let i = choose|i: int| 0 <= i < rows.len() && (#[trigger] rows[i]).row_id() == id;
        assert(out[if i < k { i } else { i - 1 }].row_id() == id);
    }
}

/// Whether records can be added: their identifiers are free and differ.
pub open spec fn addable<T: Row>(rows: Seq<T>, more: Seq<T>) -> bool {
    &&& distinct(more)
    &&& forall|i: int| 0 <= i < more.len() ==> !taken(rows, (#[trigger] more[i]).row_id())
}

/// How many records can be added one after another, until one comes whose identifier is taken.
pub open spec fn fitting<T: Row>(rows: Seq<T>, more: Seq<T>) -> nat
    decreases more.len(),
{
    if more.len() == 0 {
        0
    } else {
        let before = fitting(rows, more.drop_last());
        if before < more.len() - 1 || taken(rows + more.drop_last(), more.last().row_id()) {
            before
        } else {
            more.len()
        }
    }
}

/// Whether all records can be added one after another.
pub open spec fn all_fit<T: Row>(rows: Seq<T>, more: Seq<T>) -> bool {
    fitting(rows, more) == more.len()
}

/// The table with the records added one after another, until one comes whose identifier is taken.
pub open spec fn with_fitting<T: Row>(rows: Seq<T>, more: Seq<T>) -> Seq<T> {
    rows + more.take(fitting(rows, more) as int)
}

/// The records that fit can be added.
pub proof fn lemma_fitting<T: Row>(rows: Seq<T>, more: Seq<T>)
    ensures
        fitting(rows, more) <= more.len(),
        addable(rows, more.take(fitting(rows, more) as int)),
    decreases more.len(),
{
    if more.len() > 0 {
        let rest = more.drop_last();
        let n = fitting(rows, rest);
        lemma_fitting(rows, rest);
        assert(more.take(n as int) =~= rest.take(n as int));
        if fitting(rows, more) == more.len() {
            assert(rest.take(n as int) =~= rest);
            assert(more.take(more.len() as int) =~= more);
            let last = more.last().row_id();
            assert forall|i: int, j: int| 0 <= i < j < more.len() implies (
            #[trigger] more[i]).row_id() != (#[trigger] more[j]).row_id() by {
                assert(more[i] == rest[i]);
                if j < rest.len() {
                    assert(more[j] == rest[j]);
                } else if more[i].row_id() == last {
                    assert((rows + rest)[rows.len() + i] == more[i]);
                    assert(taken(rows + rest, last));
                }
            }
            assert forall|i: int| 0 <= i < more.len() implies !taken(
                rows,
                (#[trigger] more[i]).row_id(),
            ) by {
                if i < rest.len() {
                    assert(more[i] == rest[i]);
                } else if taken(rows, last) {
                    let k = choose|k: int| 0 <= k < rows.len() && (#[trigger] rows[k]).row_id() == last;
                    assert((rows + rest)[k] == rows[k]);
                    assert(taken(rows + rest, last));
                }
            }
        }
    }
}

/// Where a record does not fit, none behind it does.
proof fn lemma_fitting_ends<T: Row>(rows: Seq<T>, more: Seq<T>, k: int)
    requires
        0 <= k <= more.len(),
        fitting(rows, more.take(k)) < k,
    ensures
        fitting(rows, more) == fitting(rows, more.take(k)),
    decreases more.len() - k,
{
    if k == more.len() {
        assert(more.take(k) =~= more);
    } else {
        assert(more.take(k + 1).drop_last() =~= more.take(k));
        lemma_fitting_ends(rows, more, k + 1);
    }
}

/// Adds records to their table one after another, until one comes whose identifier is taken.
pub fn insert_all<T: Row>(rows: &mut Vec<T>, more: Vec<T>, table: &str) -> (r: Result<
    (),
    CoreError,
>)
    ensures
        final(rows)@ == with_fitting(old(rows)@, more@),
        match r {
            Ok(_) => all_fit(old(rows)@, more@),
            Err(e) => !all_fit(old(rows)@, more@) && is_taken_error(e, table@),
        },
{
    let ghost start = rows@;
    let ghost all = more@;
    let mut rest = more;
    let count: usize = rest.len();
    let mut i: usize = 0;
    assert(all.skip(0) =~= all);
    assert(start + all.take(0) =~= start);
    while i < count
        invariant
            i <= count == all.len(),
            start == old(rows)@,
            all == more@,
            rest@ == all.skip(i as int),
            rows@ == start + all.take(i as int),
            fitting(start, all.take(i as int)) == i,
        decreases count - i,
    {
        let row = rest.remove(0);
        assert(rest@ =~= all.skip(i + 1));
        assert(all.take(i + 1).drop_last() =~= all.take(i as int));
        assert(all.take(i + 1).last() == row);
        if let Err(e) = insert(rows, row, table) {
            proof {
                lemma_fitting_ends(start, all, i + 1);
            }
            return Err(e);
        }
        assert(rows@ =~= start + all.take(i + 1));
        i = i + 1;
    }
    assert(all.take(i as int) =~= all);
    Ok(())
}

/// A table stays without doubles when records come that can be added, and no identifier is freed.
pub proof fn lemma_added<T: Row>(rows: Seq<T>, more: Seq<T>)
    requires
        addable(rows, more),
    ensures
        distinct(rows) ==> distinct(rows + more),
        forall|id: Id| taken(rows, id) ==> #[trigger] taken(rows + more, id),
        forall|i: int| 0 <= i < more.len() ==> taken(rows + more, (#[trigger] more[i]).row_id()),
{
    let out = rows + more;
    assert forall|id: Id| taken(rows, id) implies #[trigger] taken(out, id) by {
        let k = choose|i: int| 0 <= i < rows.len() && (#[trigger] rows[i]).row_id() == id;
        assert(out[k] == rows[k]);
    }
    assert forall|i: int| 0 <= i < more.len() implies taken(out, (#[trigger] more[i]).row_id()) by {
        assert(out[rows.len() + i] == more[i]);
    }
    if distinct(rows) {
        assert forall|i: int, j: int| 0 <= i < j < out.len() implies (#[trigger] out[i]).row_id()
            != (#[trigger] out[j]).row_id() by {
            if j < rows.len() {
                assert(out[i] == rows[i] && out[j] == rows[j]);
            } else if i < rows.len() {
                assert(out[i] == rows[i] && out[j] == more[j - rows.len()]);
                assert(!taken(rows, more[j - rows.len()].row_id()));
            } else {
                assert(out[i] == more[i - rows.len()] && out[j] == more[j - rows.len()]);
            }
        }
    }
}

// --- listing --------------------------------------------------------------

/// The records that belong to the given one; without one, all.
pub open spec fn belonging<T: Row>(rows: Seq<T>, parent: Option<Id>) -> Seq<T> {
    match parent {
        Some(id) => rows.filter(|t: T| t.row_parent() == Some(id)),
        None => rows,
    }
}

/// What records are ordered by.
pub open spec fn keys_of<T: Row>(rows: Seq<T>) -> Seq<int> {
    rows.map_values(|t: T| t.row_key())
}

/// Records in the order of their table; equal ones in the order in which they came.
pub open spec fn in_order<T: Row>(rows: Seq<T>) -> Seq<T> {
    order::at_places(rows, order::order_of(keys_of(rows)))
}

/// The records that belong to the given one, or all, in the order of their table.
pub open spec fn listing<T: Row>(rows: Seq<T>, parent: Option<Id>) -> Seq<T> {
    in_order(belonging(rows, parent))
}

/// A record is listed where it belongs.
pub proof fn lemma_is_listed<T: Row>(rows: Seq<T>, parent: Id, t: T)
    requires
        rows.contains(t),
        t.row_parent() == Some(parent),
    ensures
        listing(rows, Some(parent)).contains(t),
{
    let member = |t: T| t.row_parent() == Some(parent);
    let i = choose|i: int| 0 <= i < rows.len() && rows[i] == t;
    rows.lemma_filter_contains(member, i);
    law_a_listing_is_ordered(belonging(rows, Some(parent)));
}

/// What is listed is there.
pub proof fn lemma_listed_is_there<T: Row>(rows: Seq<T>, parent: Id, t: T)
    requires
        listing(rows, Some(parent)).contains(t),
    ensures
        rows.contains(t),
        t.row_parent() == Some(parent),
{
    let member = |t: T| t.row_parent() == Some(parent);
    law_a_listing_is_ordered(belonging(rows, Some(parent)));
    lemma_filtered_is_there(rows, member, t);
}

pub proof fn lemma_filtered_is_there<T>(rows: Seq<T>, member: spec_fn(T) -> bool, t: T)
    requires
        rows.filter(member).contains(t),
    ensures
        rows.contains(t),
        member(t),
    decreases rows.len(),
{
    reveal(Seq::filter);
    if rows.len() > 0 {
        let rest = rows.drop_last();
        let kept = rest.filter(member);
        let out = rows.filter(member);
        let i = choose|i: int| 0 <= i < out.len() && out[i] == t;
        if i < kept.len() {
            assert(kept[i] == t);
            lemma_filtered_is_there(rest, member, t);
            let k = choose|k: int| 0 <= k < rest.len() && rest[k] == t;
            assert(rows[k] == t);
        } else {
            assert(rows[rows.len() - 1] == t);
        }
    }
}

/// In a listing nothing is lost or added, and keys never fall.
pub proof fn law_a_listing_is_ordered<T: Row>(rows: Seq<T>)
    ensures
        in_order(rows).len() == rows.len(),
        forall|i: int, j: int|
            0 <= i < j < rows.len() ==> (#[trigger] in_order(rows)[i]).row_key() <= (
            #[trigger] in_order(rows)[j]).row_key(),
        forall|t: T| rows.contains(t) <==> #[trigger] in_order(rows).contains(t),
{
    let keys = keys_of(rows);
    let places = order::order_of(keys);
    order::lemma_order_of(keys);
    let out = in_order(rows);
    assert forall|i: int, j: int| 0 <= i < j < rows.len() implies (#[trigger] out[i]).row_key() <= (
    #[trigger] out[j]).row_key() by {
        assert(order::precedes(keys, places[i], places[j]));
    }
    assert forall|t: T| rows.contains(t) <==> #[trigger] out.contains(t) by {
        if rows.contains(t) {
            let p = choose|p: int| 0 <= p < rows.len() && rows[p] == t;
            assert(places.contains(p));
            let i = choose|i: int| 0 <= i < places.len() && places[i] == p;
            assert(out[i] == t);
        }
        if out.contains(t) {
            let i = choose|i: int| 0 <= i < out.len() && out[i] == t;
            assert(rows[places[i]] == t);
        }
    }
}

fn belonging_to<'a, T: Row>(rows: &'a Vec<T>, parent: Option<Id>) -> (r: Vec<&'a T>)
    ensures
        order::owned(r@) == belonging(rows@, parent),
{
    let mut out: Vec<&'a T> = Vec::new();
    let mut i: usize = 0;
    let ghost all = rows@;
    proof {
        reveal(Seq::filter);
    }
    assert(order::owned(out@) =~= belonging(all.take(0), parent));
    while i < rows.len()
        invariant
            i <= rows@.len(),
            all == rows@,
            order::owned(out@) == belonging(all.take(i as int), parent),
        decreases rows@.len() - i,
    {
        let keep = match parent {
            Some(id) => match rows[i].parent() {
                Some(p) => p == id,
                None => false,
            },
            None => true,
        };
        let ghost before = order::owned(out@);
        proof {
            reveal(Seq::filter);
            assert(all.take(i + 1).drop_last() =~= all.take(i as int));
            assert(all.take(i + 1).last() == rows@[i as int]);
            assert(all.take(i + 1) =~= all.take(i as int).push(rows@[i as int]));
        }
        if keep {
            out.push(&rows[i]);
            assert(order::owned(out@) =~= before.push(rows@[i as int]));
        }
        i = i + 1;
    }
    assert(all.take(i as int) =~= all);
    out
}

/// The records in the order of their table.
pub fn ordered<'a, T: Row>(rows: &Vec<&'a T>) -> (r: Vec<&'a T>)
    ensures
        order::owned(r@) == in_order(order::owned(rows@)),
{
    let mut keys: Vec<i128> = Vec::new();
    let mut i: usize = 0;
    let ghost all = order::owned(rows@);
    while i < rows.len()
        invariant
            i <= rows@.len(),
            all == order::owned(rows@),
            keys@.len() == i,
            forall|j: int| 0 <= j < i ==> (#[trigger] keys@[j]) == all[j].row_key(),
        decreases rows@.len() - i,
    {
        keys.push(rows[i].key());
        i = i + 1;
    }
    assert(order::ints(keys@) =~= keys_of(all));
    let places = order::order_by(&keys);
    let mut out: Vec<&'a T> = Vec::new();
    let mut n: usize = 0;
    while n < places.len()
        invariant
            n <= places@.len(),
            places@.len() == rows@.len(),
            forall|j: int| 0 <= j < places@.len() ==> (#[trigger] places@[j]) < rows@.len(),
            out@.len() == n,
            forall|j: int| 0 <= j < n ==> (#[trigger] out@[j]) == rows@[places@[j] as int],
        decreases places@.len() - n,
    {
        out.push(rows[places[n]]);
        n = n + 1;
    }
    assert(order::owned(out@) =~= in_order(all)) by {
        assert forall|j: int| 0 <= j < out@.len() implies order::owned(out@)[j] == in_order(all)[j]
            by {
            assert(out@[j] == rows@[places@[j] as int]);
            assert(order::places(places@)[j] == places@[j]);
        }
    }
    out
}

/// The records that belong to the given one, or all, in the order of their table.
pub fn list<'a, T: Row>(rows: &'a Vec<T>, parent: Option<Id>) -> (r: Vec<&'a T>)
    ensures
        order::owned(r@) == listing(rows@, parent),
{
    let chosen = belonging_to(rows, parent);
    ordered(&chosen)
}

/// A table holds a record under an identifier exactly where some record has it, and the record
/// found is one that has it.
pub proof fn law_a_record_is_found_by_its_identifier<T: Row>(rows: Seq<T>, t: T, id: Id)
    ensures
        rows.contains(t) ==> taken(rows, t.row_id()),
        taken(rows, id) ==> rows.contains(row_of(rows, id)) && row_of(rows, id).row_id() == id,
        distinct(rows) && rows.contains(t) ==> row_of(rows, t.row_id()) == t,
{
    if rows.contains(t) {
        let i = choose|i: int| 0 <= i < rows.len() && rows[i] == t;
        assert(rows[i].row_id() == t.row_id());
        lemma_place_of(rows, t.row_id());
        let k = place_of(rows, t.row_id()) as int;
        if distinct(rows) {
            if k < i {
                assert(rows[k].row_id() != rows[i].row_id());
            } else if i < k {
                assert(rows[i].row_id() != rows[k].row_id());
            }
        }
    }
    if taken(rows, id) {
        lemma_place_of(rows, id);
    }
}

/// Of the records of a table are listed all, or all that belong to one record, each as often as
/// it is there.
pub proof fn law_a_listing_is_complete<T: Row>(rows: Seq<T>, parent: Id, t: T)
    ensures
        listing(rows, None).contains(t) <==> rows.contains(t),
        listing(rows, Some(parent)).contains(t) <==> rows.contains(t) && t.row_parent() == Some(
            parent,
        ),
        listing(rows, None).len() == rows.len(),
{
    law_a_listing_is_ordered(rows);
    assert(in_order(rows).contains(t) <==> rows.contains(t));
    if rows.contains(t) && t.row_parent() == Some(parent) {
        lemma_is_listed(rows, parent, t);
    }
    if listing(rows, Some(parent)).contains(t) {
        lemma_listed_is_there(rows, parent, t);
    }
}

/// Servers are listed by project, oldest first.
pub proof fn law_servers_are_listed_by_project(
    rows: Seq<OdooServer>,
    project: Id,
    server: OdooServer,
    i: int,
    j: int,
)
    ensures
        listing(rows, Some(project)).contains(server) <==> rows.contains(server)
            && server.project_id == Some(project),
        0 <= i < j < listing(rows, Some(project)).len() ==> listing(rows, Some(project))[i].created_at
            <= listing(rows, Some(project))[j].created_at,
        0 <= i < j < listing(rows, None).len() ==> listing(rows, None)[i].created_at <= listing(
            rows,
            None,
        )[j].created_at,
{
    law_a_listing_is_complete(rows, project, server);
    law_a_listing_is_ordered(rows);
    law_a_listing_is_ordered(belonging(rows, Some(project)));
    if 0 <= i < j < listing(rows, Some(project)).len() {
        assert(listing(rows, Some(project))[i].row_key() <= listing(
            rows,
            Some(project),
        )[j].row_key());
    }
    if 0 <= i < j < listing(rows, None).len() {
        assert(in_order(rows)[i].row_key() <= in_order(rows)[j].row_key());
    }
}

/// The sources of a server are listed by rank, the lowest first.
pub proof fn law_sources_are_listed_by_rank(
    rows: Seq<AddonsSource>,
    server: Id,
    source: AddonsSource,
    i: int,
    j: int,
)
    ensures
        listing(rows, Some(server)).contains(source) <==> rows.contains(source) && source.server_id
            == server,
        0 <= i < j < listing(rows, Some(server)).len() ==> listing(rows, Some(server))[i].rank
            <= listing(rows, Some(server))[j].rank,
{
    law_a_listing_is_complete(rows, server, source);
    law_a_listing_is_ordered(belonging(rows, Some(server)));
    if 0 <= i < j < listing(rows, Some(server)).len() {
        assert(listing(rows, Some(server))[i].row_key() <= listing(
            rows,
            Some(server),
        )[j].row_key());
    }
}

/// Databases are listed by server, oldest first.
pub proof fn law_databases_are_listed_by_server(
    rows: Seq<Database>,
    server: Id,
    database: Database,
    i: int,
    j: int,
)
    ensures
        listing(rows, Some(server)).contains(database) <==> rows.contains(database)
            && database.server_id == server,
        0 <= i < j < listing(rows, Some(server)).len() ==> listing(rows, Some(server))[i].created_at
            <= listing(rows, Some(server))[j].created_at,
        0 <= i < j < listing(rows, None).len() ==> listing(rows, None)[i].created_at <= listing(
            rows,
            None,
        )[j].created_at,
{
    law_a_listing_is_complete(rows, server, database);
    law_a_listing_is_ordered(rows);
    law_a_listing_is_ordered(belonging(rows, Some(server)));
    if 0 <= i < j < listing(rows, Some(server)).len() {
        assert(listing(rows, Some(server))[i].row_key() <= listing(
            rows,
            Some(server),
        )[j].row_key());
    }
    if 0 <= i < j < listing(rows, None).len() {
        assert(in_order(rows)[i].row_key() <= in_order(rows)[j].row_key());
    }
}

/// Snapshots are listed by the database that they were taken of, oldest first.
pub proof fn law_snapshots_are_listed_by_database(
    rows: Seq<Snapshot>,
    database: Id,
    snapshot: Snapshot,
    i: int,
    j: int,
)
    ensures
        listing(rows, Some(database)).contains(snapshot) <==> rows.contains(snapshot)
            && snapshot.database_id == database,
        0 <= i < j < listing(rows, Some(database)).len() ==> listing(
            rows,
            Some(database),
        )[i].created_at <= listing(rows, Some(database))[j].created_at,
{
    law_a_listing_is_complete(rows, database, snapshot);
    law_a_listing_is_ordered(belonging(rows, Some(database)));
    if 0 <= i < j < listing(rows, Some(database)).len() {
        assert(listing(rows, Some(database))[i].row_key() <= listing(
            rows,
            Some(database),
        )[j].row_key());
    }
}

/// Projects and clusters are listed oldest first.
pub proof fn law_projects_and_clusters_are_listed_oldest_first(
    projects: Seq<Project>,
    instances: Seq<PostgresInstance>,
    i: int,
    j: int,
)
    ensures
        listing(projects, None).len() == projects.len(),
        listing(instances, None).len() == instances.len(),
        0 <= i < j < projects.len() ==> listing(projects, None)[i].created_at <= listing(
            projects,
            None,
        )[j].created_at,
        0 <= i < j < instances.len() ==> listing(instances, None)[i].created_at <= listing(
            instances,
            None,
        )[j].created_at,
{
    law_a_listing_is_ordered(projects);
    law_a_listing_is_ordered(instances);
    if 0 <= i < j < projects.len() {
        assert(in_order(projects)[i].row_key() <= in_order(projects)[j].row_key());
    }
    if 0 <= i < j < instances.len() {
        assert(in_order(instances)[i].row_key() <= in_order(instances)[j].row_key());
    }
}

/// Of records added together, those before the first whose identifier is in use are added, in
/// their order, and that one and all behind it are not.
pub proof fn law_records_are_added_up_to_the_first_in_use<T: Row>(rows: Seq<T>, more: Seq<T>, k: int)
    requires
        0 <= k <= more.len(),
        distinct(more.take(k)),
        forall|i: int| 0 <= i < k ==> !taken(rows, (#[trigger] more[i]).row_id()),
        k < more.len() ==> taken(rows, more[k].row_id()) || taken(more.take(k), more[k].row_id()),
    ensures
        with_fitting(rows, more) == rows + more.take(k),
        all_fit(rows, more) <==> k == more.len(),
{
    lemma_fits_up_to(rows, more, k);
}

proof fn lemma_fits_up_to<T: Row>(rows: Seq<T>, more: Seq<T>, k: int)
    requires
        0 <= k <= more.len(),
        distinct(more.take(k)),
        forall|i: int| 0 <= i < k ==> !taken(rows, (#[trigger] more[i]).row_id()),
        k < more.len() ==> taken(rows, more[k].row_id()) || taken(more.take(k), more[k].row_id()),
    ensures
        fitting(rows, more) == k,
    decreases more.len(),
{
    if more.len() > 0 {
        let rest = more.drop_last();
        if k < more.len() {
            assert(rest.take(k) =~= more.take(k));
            if k < rest.len() {
                assert(rest[k] == more[k]);
                lemma_fits_up_to(rows, rest, k);
            } else {
                assert(rest.take(k) =~= rest);
                lemma_fits_up_to(rows, rest, k);
                let id = more.last().row_id();
                assert(more.last() == more[k]);
                if taken(rows, id) {
                    let i = choose|i: int| 0 <= i < rows.len() && (#[trigger] rows[i]).row_id() == id;
                    assert((rows + rest)[i].row_id() == id);
                } else {
                    let i = choose|i: int| 0 <= i < rest.len() && (#[trigger] rest[i]).row_id() == id;
                    assert((rows + rest)[rows.len() + i].row_id() == id);
                }
            }
        } else {
            assert(more.take(k) =~= more);
            assert forall|i: int, j: int| 0 <= i < j < rest.len() implies (
            #[trigger] rest[i]).row_id() != (#[trigger] rest[j]).row_id() by {
                assert(more.take(k)[i].row_id() != more.take(k)[j].row_id());
            }
            assert(rest.take(k - 1) =~= rest);
            assert forall|i: int| 0 <= i < k - 1 implies !taken(rows, (#[trigger] rest[i]).row_id()) by {
                assert(rest[i] == more[i]);
            }
            lemma_fits_up_to(rows, rest, k - 1);
            let id = more.last().row_id();
            assert(more[k - 1] == more.last());
            if taken(rows + rest, id) {
                let i = choose|i: int|
                    0 <= i < (rows + rest).len() && (#[trigger] (rows + rest)[i]).row_id() == id;
                if i < rows.len() {
                    assert(rows[i].row_id() == id);
                } else {
                    assert(more.take(k)[i - rows.len()].row_id() != more.take(k)[k - 1].row_id());
                }
            }
        }
    }
}

} // verus!
