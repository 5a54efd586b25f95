//! Putting things in order by a number: equal ones keep the order that they had.

use vstd::prelude::*;

verus! {

/// Where the last of the keys belongs among the places of the others, behind all that are not
/// greater.
pub open spec fn slot(keys: Seq<int>, done: Seq<int>, key: int) -> nat
    decreases done.len(),
{
    if done.len() == 0 {
        0
    } else if keys[done.last()] <= key {
        done.len()
    } else {
        slot(keys, done.drop_last(), key)
    }
}

/// The places of the keys in ascending order of the keys; equal keys keep their order.
pub open spec fn order_of(keys: Seq<int>) -> Seq<int>
    decreases keys.len(),
{
    if keys.len() == 0 {
        Seq::empty()
    } else {
        let done = order_of(keys.drop_last());
        done.insert(slot(keys, done, keys.last()) as int, keys.len() - 1)
    }
}

/// Whether one place comes before another: by its key, and among equals by itself.
pub open spec fn precedes(keys: Seq<int>, a: int, b: int) -> bool {
    keys[a] < keys[b] || (keys[a] == keys[b] && a < b)
}

proof fn lemma_slot(keys: Seq<int>, done: Seq<int>, key: int)
    requires
        forall|i: int, j: int|
            0 <= i < j < done.len() ==> keys[#[trigger] done[i]] <= keys[#[trigger] done[j]],
    ensures
        slot(keys, done, key) <= done.len(),
        forall|i: int|
            0 <= i < slot(keys, done, key) ==> keys[#[trigger] done[i]] <= key,
        forall|i: int|
            slot(keys, done, key) <= i < done.len() ==> keys[#[trigger] done[i]] > key,
    decreases done.len(),
{
    if done.len() > 0 {
        if keys[done.last()] <= key {
            assert forall|i: int| 0 <= i < done.len() implies keys[#[trigger] done[i]] <= key by {
                if i < done.len() - 1 {
                    assert(keys[done[i]] <= keys[done[done.len() - 1]]);
                }
            }
        } else {
            let rest = done.drop_last();
            assert forall|i: int, j: int| 0 <= i < j < rest.len() implies keys[#[trigger] rest[i]]
                <= keys[#[trigger] rest[j]] by {
                assert(rest[i] == done[i] && rest[j] == done[j]);
            }
            lemma_slot(keys, rest, key);
            let k = slot(keys, rest, key);
            assert forall|i: int| 0 <= i < k implies keys[#[trigger] done[i]] <= key by {
                assert(rest[i] == done[i]);
            }
            assert forall|i: int| k <= i < done.len() implies keys[#[trigger] done[i]] > key by {
                if i < rest.len() {
                    assert(rest[i] == done[i]);
                }
            }
        }
    }
}

/// The order holds every place once, and each place precedes the next ones.
pub proof fn lemma_order_of(keys: Seq<int>)
    ensures
        order_of(keys).len() == keys.len(),
        forall|i: int| 0 <= i < keys.len() ==> 0 <= #[trigger] order_of(keys)[i] < keys.len(),
        forall|i: int, j: int|
            0 <= i < j < keys.len() ==> precedes(
                keys,
                #[trigger] order_of(keys)[i],
                #[trigger] order_of(keys)[j],
            ),
        forall|p: int| 0 <= p < keys.len() ==> #[trigger] order_of(keys).contains(p),
    decreases keys.len(),
{
    if keys.len() > 0 {
        let rest = keys.drop_last();
        let done = order_of(rest);
        let last = keys.len() - 1;
        lemma_order_of(rest);
        assert forall|i: int, j: int| 0 <= i < j < done.len() implies keys[#[trigger] done[i]]
            <= keys[#[trigger] done[j]] by {
            assert(precedes(rest, done[i], done[j]));
        }
        lemma_slot(keys, done, keys.last());
        let k = slot(keys, done, keys.last()) as int;
        let out = done.insert(k, last);
        assert(order_of(keys) == out);
        assert forall|i: int, j: int| 0 <= i < j < keys.len() implies precedes(
            keys,
            #[trigger] out[i],
            #[trigger] out[j],
        ) by {
            let a = if i < k { i } else { i - 1 };
            let b = if j < k { j } else { j - 1 };
            if i == k {
                assert(out[j] == done[b]);
            } else if j == k {
                assert(out[i] == done[a]);
            } else {
                assert(out[i] == done[a] && out[j] == done[b]);
                assert(precedes(rest, done[a], done[b]));
            }
        }
        assert forall|p: int| 0 <= p < keys.len() implies #[trigger] out.contains(p) by {
            if p == last {
                assert(out[k] == last);
            } else {
                assert(done.contains(p));
                let i = choose|i: int| 0 <= i < done.len() && done[i] == p;
                assert(out[if i < k { i } else { i + 1 }] == p);
            }
        }
    }
}

/// The numbers as they are counted with.
pub open spec fn ints(keys: Seq<i128>) -> Seq<int> {
    keys.map_values(|k: i128| k as int)
}

/// The places as they are counted with.
pub open spec fn places(order: Seq<usize>) -> Seq<int> {
    order.map_values(|p: usize| p as int)
}

proof fn lemma_slot_is(keys: Seq<int>, done: Seq<int>, key: int, k: int)
    requires
        0 <= k <= done.len(),
        k == 0 || keys[done[k - 1]] <= key,
        forall|i: int| k <= i < done.len() ==> keys[#[trigger] done[i]] > key,
    ensures
        slot(keys, done, key) == k,
    decreases done.len(),
{
    if done.len() > 0 && k < done.len() {
        let rest = done.drop_last();
        assert(keys[done[done.len() - 1]] > key);
        assert forall|i: int| k <= i < rest.len() implies keys[#[trigger] rest[i]] > key by {
            assert(rest[i] == done[i]);
        }
        lemma_slot_is(keys, rest, key, k);
    }
}

/// The places of the keys in ascending order of the keys; equal keys keep their order.
pub fn order_by(keys: &Vec<i128>) -> (r: Vec<usize>)
    ensures
        places(r@) == order_of(ints(keys@)),
        r@.len() == keys@.len(),
        forall|i: int| 0 <= i < r@.len() ==> (#[trigger] r@[i]) < keys@.len(),
{
    let mut out: Vec<usize> = Vec::new();
    let mut n: usize = 0;
    let ghost all = ints(keys@);
    assert(places(out@) =~= order_of(all.take(0)));
    while n < keys.len()
        invariant
            n <= keys@.len(),
            all == ints(keys@),
            out@.len() == n,
            places(out@) == order_of(all.take(n as int)),
            forall|i: int| 0 <= i < out@.len() ==> (#[trigger] out@[i]) < n,
        decreases keys@.len() - n,
    {
        let key = keys[n];
        let mut k: usize = n;
        let ghost upto = all.take(n + 1);
        let ghost done = places(out@);
        while k > 0 && keys[out[k - 1]] > key
            invariant
                k <= n < keys@.len(),
                all == ints(keys@),
                key == keys@[n as int],
                upto == all.take(n + 1),
                out@.len() == n,
                done == places(out@),
                forall|i: int| 0 <= i < out@.len() ==> (#[trigger] out@[i]) < n,
                forall|i: int| k <= i < done.len() ==> upto[#[trigger] done[i]] > key,
            decreases k,
        {
            k = k - 1;
            assert forall|i: int| k <= i < done.len() implies upto[#[trigger] done[i]] > key by {
                assert(done[i] == out@[i]);
            }
        }
        proof {
            if k > 0 {
                assert(done[k - 1] == out@[k - 1]);
            }
            lemma_slot_is(upto, done, key as int, k as int);
            assert(upto.drop_last() =~= all.take(n as int));
            assert(upto.last() == key);
        }
        let ghost before = out@;
        out.insert(k, n);
        assert(places(out@) =~= done.insert(k as int, n as int));
        assert(order_of(upto) == done.insert(k as int, n as int));
        assert forall|i: int| 0 <= i < out@.len() implies (#[trigger] out@[i]) < n + 1 by {
            if i < k {
                assert(out@[i] == before[i]);
            } else if i > k {
                assert(out@[i] == before[i - 1]);
            }
        }
        n = n + 1;
    }
    assert(all.take(n as int) =~= all);
    out
}

/// The things at the given places.
pub open spec fn at_places<T>(all: Seq<T>, order: Seq<int>) -> Seq<T> {
    order.map_values(|p: int| all[p])
}

/// Things without the borrow.
pub open spec fn owned<T>(borrowed: Seq<&T>) -> Seq<T> {
    borrowed.map_values(|t: &T| *t)
}

/// What is picked out of a sequence and turned into something else, one element at a time.
pub proof fn lemma_picked<A, B>(all: Seq<A>, pick: spec_fn(A) -> bool, turn: spec_fn(A) -> B)
    ensures
        all.len() == 0 ==> all.filter(pick).map_values(turn) == Seq::<B>::empty(),
        all.len() > 0 ==> all.filter(pick).map_values(turn) == if pick(all.last()) {
            all.drop_last().filter(pick).map_values(turn).push(turn(all.last()))
        } else {
            all.drop_last().filter(pick).map_values(turn)
        },
{
    reveal(Seq::filter);
    if all.len() > 0 {
        let rest = all.drop_last().filter(pick);
        if pick(all.last()) {
            assert(rest.push(all.last()).map_values(turn) =~= rest.map_values(turn).push(
                turn(all.last()),
            ));
        }
    } else {
        assert(all.filter(pick).map_values(turn) =~= Seq::<B>::empty());
    }
}

/// Putting things in order by a number loses nothing and doubles nothing: a smaller number comes
/// first, and of two equal ones the one that came first stays first.
pub proof fn law_ordering_is_stable<T>(all: Seq<T>, keys: Seq<int>, i: int, j: int)
    requires
        all.len() == keys.len(),
        0 <= i < j < all.len(),
    ensures
        at_places(all, order_of(keys)).len() == all.len(),
        exists|p: int, q: int|
            {
                &&& 0 <= p < all.len()
                &&& 0 <= q < all.len()
                &&& p != q
                &&& #[trigger] all[p] == at_places(all, order_of(keys))[i]
                &&& #[trigger] all[q] == at_places(all, order_of(keys))[j]
                &&& keys[p] < keys[q] || keys[p] == keys[q] && p < q
            },
{
    lemma_order_of(keys);
    let places = order_of(keys);
    assert(precedes(keys, places[i], places[j]));
    assert(all[places[i]] == at_places(all, places)[i]);
    assert(all[places[j]] == at_places(all, places)[j]);
}

} // verus!
