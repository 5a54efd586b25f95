//! In which order to install things that depend on each other.
//!
//! Things are numbered `0..n`. A thing is ready once everything it depends on has been taken; the
//! things that are ready wait in a queue, and those that become ready together are queued in
//! ascending order.

use vstd::prelude::*;
use vstd::set_lib::*;

verus! {

/// `g(i, j)`: thing `i` depends on thing `j`.
pub type Depends = spec_fn(int, int) -> bool;

/// Everything that `i` depends on is in `done`.
pub open spec fn settled(g: Depends, n: nat, i: int, done: Seq<int>) -> bool {
    forall|j: int| 0 <= j < n && #[trigger] g(i, j) ==> done.contains(j)
}

/// Of the things below `k`, those that depend on nothing, in ascending order.
pub open spec fn roots(g: Depends, n: nat, k: nat) -> Seq<int>
    decreases k,
{
    if k == 0 {
        Seq::empty()
    } else {
        let before = roots(g, n, (k - 1) as nat);
        if settled(g, n, k - 1, Seq::empty()) {
            before.push(k - 1)
        } else {
            before
        }
    }
}

/// Of the things below `k`, those that depend on `last` and on nothing that is not `done`, in
/// ascending order.
pub open spec fn released(g: Depends, n: nat, last: int, done: Seq<int>, k: nat) -> Seq<int>
    decreases k,
{
    if k == 0 {
        Seq::empty()
    } else {
        let before = released(g, n, last, done, (k - 1) as nat);
        if g(k - 1, last) && settled(g, n, k - 1, done) {
            before.push(k - 1)
        } else {
            before
        }
    }
}

/// What is taken, in order, from a queue: at most `steps` more things.
pub open spec fn taken(g: Depends, n: nat, queue: Seq<int>, done: Seq<int>, steps: nat) -> Seq<int>
    decreases steps,
{
    if queue.len() == 0 || steps == 0 {
        done
    } else {
        let now = done.push(queue[0]);
        taken(g, n, queue.drop_first() + released(g, n, queue[0], now, n), now, (steps - 1) as nat)
    }
}

/// The install order of `n` things: those that are part of a circle, or wait for one, are not in
/// it.
pub open spec fn order_of(g: Depends, n: nat) -> Seq<int> {
    taken(g, n, roots(g, n, n), Seq::empty(), n)
}

// --- what holds of the queue at every step --------------------------------

/// All in `0..n`.
pub open spec fn in_range(s: Seq<int>, n: nat) -> bool {
    forall|i: int| 0 <= i < s.len() ==> 0 <= #[trigger] s[i] < n
}

/// Every thing stands behind all that it depends on.
pub open spec fn in_order(g: Depends, n: nat, done: Seq<int>) -> bool {
    forall|p: int|
        0 <= p < done.len() ==> settled(g, n, #[trigger] done[p], done.take(p))
}

/// What is taken is in order; what is queued is ready; what is ready is queued or taken; nothing
/// is there twice.
pub open spec fn sound(g: Depends, n: nat, queue: Seq<int>, done: Seq<int>) -> bool {
    &&& in_range(queue, n)
    &&& in_range(done, n)
    &&& (done + queue).no_duplicates()
    &&& in_order(g, n, done)
    &&& forall|q: int| 0 <= q < queue.len() ==> settled(g, n, #[trigger] queue[q], done)
    &&& forall|i: int|
        0 <= i < n && #[trigger] settled(g, n, i, done) ==> queue.contains(i) || done.contains(i)
}

/// What `roots` holds: exactly the things below `k` that depend on nothing, ascending.
proof fn lemma_roots(g: Depends, n: nat, k: nat)
    requires
        k <= n,
    ensures
        forall|q: int|
            0 <= q < roots(g, n, k).len() ==> 0 <= #[trigger] roots(g, n, k)[q] < k && settled(
                g,
                n,
                roots(g, n, k)[q],
                Seq::empty(),
            ),
        forall|p: int, q: int|
            0 <= p < q < roots(g, n, k).len() ==> #[trigger] roots(g, n, k)[p]
                < #[trigger] roots(g, n, k)[q],
        forall|i: int|
            0 <= i < k && #[trigger] settled(g, n, i, Seq::empty()) ==> roots(g, n, k).contains(i),
    decreases k,
{
    if k > 0 {
        let before = roots(g, n, (k - 1) as nat);
        lemma_roots(g, n, (k - 1) as nat);
        assert forall|i: int|
            0 <= i < k && #[trigger] settled(g, n, i, Seq::empty()) implies roots(
            g,
            n,
            k,
        ).contains(i) by {
            if i < k - 1 {
                let q = choose|q: int| 0 <= q < before.len() && before[q] == i;
                assert(roots(g, n, k)[q] == i);
            } else {
                assert(roots(g, n, k)[before.len() as int] == i);
            }
        }
    }
}

/// What `released` holds: exactly the things below `k` that depend on `last` and are settled,
/// ascending.
proof fn lemma_released(g: Depends, n: nat, last: int, done: Seq<int>, k: nat)
    requires
        k <= n,
    ensures
        forall|q: int|
            0 <= q < released(g, n, last, done, k).len() ==> {
                &&& 0 <= #[trigger] released(g, n, last, done, k)[q] < k
                &&& g(released(g, n, last, done, k)[q], last)
                &&& settled(g, n, released(g, n, last, done, k)[q], done)
            },
        forall|p: int, q: int|
            0 <= p < q < released(g, n, last, done, k).len() ==> #[trigger] released(
                g,
                n,
                last,
                done,
                k,
            )[p] < #[trigger] released(g, n, last, done, k)[q],
        forall|i: int|
            0 <= i < k && #[trigger] g(i, last) && settled(g, n, i, done) ==> released(
                g,
                n,
                last,
                done,
                k,
            ).contains(i),
    decreases k,
{
    if k > 0 {
        let before = released(g, n, last, done, (k - 1) as nat);
        lemma_released(g, n, last, done, (k - 1) as nat);
        assert forall|i: int|
            0 <= i < k && #[trigger] g(i, last) && settled(g, n, i, done) implies released(
            g,
            n,
            last,
            done,
            k,
        ).contains(i) by {
            if i < k - 1 {
                let q = choose|q: int| 0 <= q < before.len() && before[q] == i;
                assert(released(g, n, last, done, k)[q] == i);
            } else {
                assert(released(g, n, last, done, k)[before.len() as int] == i);
            }
        }
    }
}

/// The queue starts sound.
proof fn lemma_start_is_sound(g: Depends, n: nat)
    ensures
        sound(g, n, roots(g, n, n), Seq::empty()),
{
    lemma_roots(g, n, n);
    let queue = roots(g, n, n);
    assert(Seq::<int>::empty() + queue =~= queue);
    assert(queue.no_duplicates());
}

/// Taking the first thing of the queue keeps it sound.
proof fn lemma_step_is_sound(g: Depends, n: nat, queue: Seq<int>, done: Seq<int>)
    requires
        sound(g, n, queue, done),
        queue.len() > 0,
    ensures
        sound(
            g,
            n,
            queue.drop_first() + released(g, n, queue[0], done.push(queue[0]), n),
            done.push(queue[0]),
        ),
{
    let first = queue[0];
    let now = done.push(first);
    let fresh = released(g, n, first, now, n);
    let next = queue.drop_first() + fresh;
    lemma_released(g, n, first, now, n);
    assert((done + queue)[done.len() as int] == first);
    assert(!done.contains(first)) by {
        if done.contains(first) {
            let p = choose|p: int| 0 <= p < done.len() && done[p] == first;
            assert((done + queue)[p] == first);
        }
    }
    assert forall|x: int| done.contains(x) implies #[trigger] now.contains(x) by {
        let p = choose|p: int| 0 <= p < done.len() && done[p] == x;
        assert(now[p] == x);
    }
    assert(now.contains(first)) by {
        assert(now[done.len() as int] == first);
    }
    // Nothing that is released was taken or queued before.
    assert forall|q: int| 0 <= q < fresh.len() implies !(done + queue).contains(
        #[trigger] fresh[q],
    ) by {
        let x = fresh[q];
        if (done + queue).contains(x) {
            let p = choose|p: int| 0 <= p < (done + queue).len() && (done + queue)[p] == x;
            if p < done.len() {
                assert(done[p] == x);
                assert(settled(g, n, done[p], done.take(p)));
                assert(done.take(p).contains(first));
                let r = choose|r: int| 0 <= r < p && done.take(p)[r] == first;
                assert(done[r] == first);
            } else {
                assert(queue[p - done.len()] == x);
                assert(settled(g, n, x, done));
            }
        }
    }
    let all = now + next;
    assert(in_range(now, n));
    assert(in_range(next, n)) by {
        assert forall|i: int| 0 <= i < next.len() implies 0 <= #[trigger] next[i] < n by {
            if i < queue.len() - 1 {
                assert(next[i] == queue[i + 1]);
            } else {
                assert(next[i] == fresh[i - (queue.len() - 1)]);
            }
        }
    }
    assert(all.no_duplicates()) by {
        let old_len = (done + queue).len();
        assert(all =~= (done + queue) + fresh);
        assert forall|i: int, j: int|
            0 <= i < all.len() && 0 <= j < all.len() && i != j implies all[i] != all[j] by {
            let a = if i < j {
                i
            } else {
                j
            };
            let b = if i < j {
                j
            } else {
                i
            };
            if b < old_len {
                assert((done + queue)[a] != (done + queue)[b]);
            } else if a < old_len {
                assert((done + queue).contains((done + queue)[a]));
                assert(fresh[b - old_len] == all[b]);
            } else {
                assert(fresh[a - old_len] < fresh[b - old_len]);
            }
        }
    }
    assert(in_order(g, n, now)) by {
        assert forall|p: int| 0 <= p < now.len() implies settled(
            g,
            n,
            #[trigger] now[p],
            now.take(p),
        ) by {
            if p < done.len() {
                assert(now.take(p) =~= done.take(p));
                assert(now[p] == done[p]);
            } else {
                assert(now.take(p) =~= done);
                assert(settled(g, n, queue[0], done));
            }
        }
    }
    assert forall|q: int| 0 <= q < next.len() implies settled(g, n, #[trigger] next[q], now) by {
        if q < queue.len() - 1 {
            assert(next[q] == queue[q + 1]);
            assert(settled(g, n, queue[q + 1], done));
        } else {
            assert(next[q] == fresh[q - (queue.len() - 1)]);
        }
    }
    assert forall|i: int| 0 <= i < n && #[trigger] settled(g, n, i, now) implies next.contains(i)
        || now.contains(i) by {
        if g(i, first) {
            assert(fresh.contains(i));
            let q = choose|q: int| 0 <= q < fresh.len() && fresh[q] == i;
            assert(next[queue.len() - 1 + q] == i);
        } else {
            assert(settled(g, n, i, done)) by {
                assert forall|j: int| 0 <= j < n && #[trigger] g(i, j) implies done.contains(j) by {
                    assert(now.contains(j));
                    let p = choose|p: int| 0 <= p < now.len() && now[p] == j;
                    if p < done.len() {
                        assert(done[p] == j);
                    }
                }
            }
            if queue.contains(i) {
                let q = choose|q: int| 0 <= q < queue.len() && queue[q] == i;
                if q == 0 {
                    assert(now.contains(i));
                } else {
                    assert(next[q - 1] == i);
                }
            } else {
                assert(now.contains(i));
            }
        }
    }
}

/// Different things below `n` are at most `n`.
pub proof fn lemma_distinct_is_short(s: Seq<int>, n: nat)
    requires
        in_range(s, n),
        s.no_duplicates(),
    ensures
        s.len() <= n,
{
    s.unique_seq_to_set();
    lemma_int_range(0, n as int);
    assert forall|x: int| s.to_set().contains(x) implies set_int_range(0, n as int).contains(x) by {
        let p = choose|p: int| 0 <= p < s.len() && s[p] == x;
        assert(0 <= s[p] < n);
    }
    lemma_len_subset(s.to_set(), set_int_range(0, n as int));
}

/// Where the queue is sound and enough steps are left, what comes out is sound with nothing left
/// in the queue.
proof fn lemma_taken_is_sound(g: Depends, n: nat, queue: Seq<int>, done: Seq<int>, steps: nat)
    requires
        sound(g, n, queue, done),
        steps + done.len() == n,
    ensures
        sound(g, n, Seq::empty(), taken(g, n, queue, done, steps)),
    decreases steps,
{
    lemma_both_in_range(queue, done, n);
    lemma_distinct_is_short(done + queue, n);
    if queue.len() == 0 {
        assert(queue =~= Seq::<int>::empty());
    } else {
        lemma_step_is_sound(g, n, queue, done);
        let now = done.push(queue[0]);
        lemma_taken_is_sound(
            g,
            n,
            queue.drop_first() + released(g, n, queue[0], now, n),
            now,
            (steps - 1) as nat,
        );
    }
}

proof fn lemma_both_in_range(queue: Seq<int>, done: Seq<int>, n: nat)
    requires
        in_range(queue, n),
        in_range(done, n),
    ensures
        in_range(done + queue, n),
{
    assert forall|i: int| 0 <= i < (done + queue).len() implies 0 <= #[trigger] (done + queue)[i]
        < n by {
        if i < done.len() {
            assert((done + queue)[i] == done[i]);
        } else {
            assert((done + queue)[i] == queue[i - done.len()]);
        }
    }
}

// --- laws -----------------------------------------------------------------

/// The install order holds nothing twice and nothing foreign, and every thing in it stands behind
/// everything it depends on.
pub proof fn law_dependencies_come_first(g: Depends, n: nat)
    ensures
        in_range(order_of(g, n), n),
        order_of(g, n).no_duplicates(),
        in_order(g, n, order_of(g, n)),
{
    lemma_start_is_sound(g, n);
    lemma_taken_is_sound(g, n, roots(g, n, n), Seq::empty(), n);
    assert(order_of(g, n) + Seq::<int>::empty() =~= order_of(g, n));
}

/// What is left out of the install order really is stuck: each such thing depends on another
/// that is left out.
pub proof fn law_left_out_is_stuck(g: Depends, n: nat, i: int)
    requires
        0 <= i < n,
        !order_of(g, n).contains(i),
    ensures
        exists|j: int| 0 <= j < n && #[trigger] g(i, j) && !order_of(g, n).contains(j),
{
    lemma_start_is_sound(g, n);
    lemma_taken_is_sound(g, n, roots(g, n, n), Seq::empty(), n);
    assert(!settled(g, n, i, order_of(g, n)));
}

/// Where the dependencies have no circle (each thing has a height above everything it depends
/// on), everything is in the install order.
pub proof fn law_no_circle_no_leftover(g: Depends, n: nat, height: spec_fn(int) -> nat, i: int)
    requires
        forall|a: int, b: int|
            0 <= a < n && 0 <= b < n && #[trigger] g(a, b) ==> height(b) < height(a),
        0 <= i < n,
    ensures
        order_of(g, n).contains(i),
    decreases height(i),
{
    if !order_of(g, n).contains(i) {
        law_left_out_is_stuck(g, n, i);
        let j = choose|j: int| 0 <= j < n && #[trigger] g(i, j) && !order_of(g, n).contains(j);
        law_no_circle_no_leftover(g, n, height, j);
    }
}

/// Everything is in the install order exactly when it is as long as there are things.
pub proof fn law_complete_when_full(g: Depends, n: nat)
    ensures
        order_of(g, n).len() <= n,
        order_of(g, n).len() == n <==> (forall|i: int|
            0 <= i < n ==> #[trigger] order_of(g, n).contains(i)),
{
    let order = order_of(g, n);
    law_dependencies_come_first(g, n);
    lemma_distinct_is_short(order, n);
    order.unique_seq_to_set();
    lemma_int_range(0, n as int);
    let all = set_int_range(0, n as int);
    assert forall|x: int| order.to_set().contains(x) implies all.contains(x) by {
        let p = choose|p: int| 0 <= p < order.len() && order[p] == x;
        assert(0 <= order[p] < n);
    }
    if order.len() == n {
        lemma_subset_equality(order.to_set(), all);
        assert forall|i: int| 0 <= i < n implies #[trigger] order.contains(i) by {
            assert(all.contains(i));
            assert(order.to_set().contains(i));
        }
    }
    if forall|i: int| 0 <= i < n ==> #[trigger] order.contains(i) {
        assert forall|x: int| all.contains(x) implies order.to_set().contains(x) by {
            assert(order.contains(x));
        }
        assert(order.to_set() =~= all);
    }
}

// --- the order ------------------------------------------------------------

/// The dependencies that a table of links states: `links[i]` holds what `i` depends on.
pub open spec fn linked(links: Seq<Vec<usize>>) -> Depends {
    |i: int, j: int| 0 <= i < links.len() && links[i]@.contains(j as usize) && 0 <= j <= usize::MAX
}

/// The numbers as mathematical integers.
pub open spec fn numbers(v: Seq<usize>) -> Seq<int> {
    v.map_values(|x: usize| x as int)
}

/// Whether `v` holds `x`.
pub fn holds(v: &Vec<usize>, x: usize) -> (r: bool)
    ensures
        r == v@.contains(x),
{
    let mut i: usize = 0;
    while i < v.len()
        invariant
            i <= v@.len(),
            forall|j: int| 0 <= j < i ==> v@[j] != x,
        decreases v@.len() - i,
    {
        if v[i] == x {
            return true;
        }
        i = i + 1;
    }
    false
}

/// Whether everything that `i` depends on is marked.
fn is_settled(links: &Vec<Vec<usize>>, i: usize, marked: &Vec<bool>, Ghost(done): Ghost<
    Seq<int>,
>) -> (r: bool)
    requires
        i < links@.len(),
        marked@.len() == links@.len(),
        forall|j: int| 0 <= j < links@[i as int]@.len() ==> #[trigger] links@[i as int]@[j]
            < links@.len(),
        forall|j: int| 0 <= j < marked@.len() ==> #[trigger] marked@[j] == done.contains(j),
    ensures
        r == settled(linked(links@), links@.len(), i as int, done),
{
    let ghost g = linked(links@);
    let mut k: usize = 0;
    while k < links[i].len()
        invariant
            i < links@.len(),
            k <= links@[i as int]@.len(),
            marked@.len() == links@.len(),
            g == linked(links@),
            forall|j: int| 0 <= j < links@[i as int]@.len() ==> #[trigger] links@[i as int]@[j]
                < links@.len(),
            forall|j: int| 0 <= j < marked@.len() ==> #[trigger] marked@[j] == done.contains(j),
            forall|m: int| 0 <= m < k ==> done.contains(#[trigger] links@[i as int]@[m] as int),
        decreases links@[i as int]@.len() - k,
    {
        let d = links[i][k];
        if !marked[d] {
            assert(g(i as int, d as int));
            return false;
        }
        k = k + 1;
    }
    assert forall|j: int| 0 <= j < links@.len() && #[trigger] g(i as int, j) implies done.contains(
        j,
    ) by {
        let m = choose|m: int|
            0 <= m < links@[i as int]@.len() && links@[i as int]@[m] == j as usize;
        assert(done.contains(links@[i as int]@[m] as int));
    }
    true
}

/// The install order of things that depend on each other as `links` says.
pub fn order_links(links: &Vec<Vec<usize>>) -> (r: Vec<usize>)
    requires
        forall|i: int, j: int|
            0 <= i < links@.len() && 0 <= j < links@[i]@.len() ==> #[trigger] links@[i]@[j]
                < links@.len(),
    ensures
        numbers(r@) == order_of(linked(links@), links@.len()),
{
    let n: usize = links.len();
    let ghost g = linked(links@);
    let mut marked: Vec<bool> = Vec::new();
    let mut queue: Vec<usize> = Vec::new();
    let mut i: usize = 0;
    while i < n
        invariant
            i <= n == links@.len(),
            marked@.len() == i,
            forall|j: int| 0 <= j < i ==> !#[trigger] marked@[j],
        decreases n - i,
    {
        marked.push(false);
        i = i + 1;
    }
    i = 0;
    assert(numbers(queue@) =~= Seq::<int>::empty());
    while i < n
        invariant
            i <= n == links@.len(),
            g == linked(links@),
            marked@.len() == n,
            forall|j: int| 0 <= j < n ==> !#[trigger] marked@[j],
            forall|a: int, b: int|
                0 <= a < links@.len() && 0 <= b < links@[a]@.len() ==> #[trigger] links@[a]@[b]
                    < links@.len(),
            numbers(queue@) == roots(g, n as nat, i as nat),
        decreases n - i,
    {
        let ghost before = numbers(queue@);
        if is_settled(links, i, &marked, Ghost(Seq::empty())) {
            queue.push(i);
            assert(numbers(queue@) =~= before.push(i as int));
        }
        i = i + 1;
    }
    let mut done: Vec<usize> = Vec::new();
    assert(numbers(done@) =~= Seq::<int>::empty());
    proof {
        lemma_start_is_sound(g, n as nat);
    }
    let mut steps: usize = n;
    while queue.len() > 0 && steps > 0
        invariant
            n == links@.len(),
            g == linked(links@),
            marked@.len() == n,
            steps + done@.len() == n,
            forall|j: int| 0 <= j < n ==> #[trigger] marked@[j] == numbers(done@).contains(j),
            forall|a: int, b: int|
                0 <= a < links@.len() && 0 <= b < links@[a]@.len() ==> #[trigger] links@[a]@[b]
                    < links@.len(),
            sound(g, n as nat, numbers(queue@), numbers(done@)),
            order_of(g, n as nat) == taken(
                g,
                n as nat,
                numbers(queue@),
                numbers(done@),
                steps as nat,
            ),
        decreases steps,
    {
        let ghost queued = numbers(queue@);
        let ghost before = numbers(done@);
        let first = queue.remove(0);
        assert(first as int == queued[0]);
        assert(numbers(queue@) =~= queued.drop_first());
        assert(0 <= queued[0] < n);
        done.push(first);
        let ghost now = numbers(done@);
        assert(now =~= before.push(first as int));
        marked.set(first, true);
        proof {
            assert forall|j: int| 0 <= j < n implies #[trigger] marked@[j] == now.contains(j) by {
                if j == first {
                    assert(now[before.len() as int] == j);
                } else if before.contains(j) {
                    let p = choose|p: int| 0 <= p < before.len() && before[p] == j;
                    assert(now[p] == j);
                } else if now.contains(j) {
                    let p = choose|p: int| 0 <= p < now.len() && now[p] == j;
                    assert(before[p] == j);
                }
            }
        }
        let ghost waiting = numbers(queue@);
        let mut k: usize = 0;
        while k < n
            invariant
                k <= n == links@.len(),
                g == linked(links@),
                first < n,
                marked@.len() == n,
                forall|j: int| 0 <= j < n ==> #[trigger] marked@[j] == now.contains(j),
                forall|a: int, b: int|
                    0 <= a < links@.len() && 0 <= b < links@[a]@.len() ==> #[trigger] links@[a]@[b]
                        < links@.len(),
                numbers(queue@) == waiting + released(g, n as nat, first as int, now, k as nat),
            decreases n - k,
        {
            let ghost here = numbers(queue@);
            if holds(&links[k], first) && is_settled(links, k, &marked, Ghost(now)) {
                queue.push(k);
                proof {
                    assert(g(k as int, first as int));
                    assert(numbers(queue@) =~= here.push(k as int));
                    assert(numbers(queue@) =~= waiting + released(
                        g,
                        n as nat,
                        first as int,
                        now,
                        (k + 1) as nat,
                    ));
                }
            } else {
                assert(!g(k as int, first as int) || !settled(g, n as nat, k as int, now));
            }
            k = k + 1;
        }
        proof {
            lemma_step_is_sound(g, n as nat, queued, before);
        }
        steps = steps - 1;
    }
    proof {
        if steps == 0 {
            lemma_both_in_range(numbers(queue@), numbers(done@), n as nat);
            lemma_distinct_is_short(numbers(done@) + numbers(queue@), n as nat);
        }
    }
    done
}

/// Of modules that become free at the same time the one with the lower number comes first: those
/// that depend on nothing at the start, and those that the last one frees.
pub proof fn law_ties_go_by_number(g: Depends, n: nat, last: int, done: Seq<int>, k: nat)
    ensures
        roots(g, n, k) == Seq::new(k, |i: int| i).filter(
            |i: int| settled(g, n, i, Seq::empty()),
        ),
        released(g, n, last, done, k) == Seq::new(k, |i: int| i).filter(
            |i: int| g(i, last) && settled(g, n, i, done),
        ),
    decreases k,
{
    reveal(Seq::filter);
    let all = Seq::new(k, |i: int| i);
    if k > 0 {
        law_ties_go_by_number(g, n, last, done, (k - 1) as nat);
        assert(all.drop_last() =~= Seq::new((k - 1) as nat, |i: int| i));
        assert(all.last() == k - 1);
    } else {
        assert(roots(g, n, k) =~= all.filter(|i: int| settled(g, n, i, Seq::empty())));
        assert(released(g, n, last, done, k) =~= all.filter(
            |i: int| g(i, last) && settled(g, n, i, done),
        ));
    }
}

/// What depends on nothing comes first, in the order of the numbers.
pub proof fn law_what_depends_on_nothing_comes_first(g: Depends, n: nat)
    ensures
        roots(g, n, n).is_prefix_of(order_of(g, n)),
{
    let first = roots(g, n, n);
    lemma_roots_fit(g, n, n);
    let none = Seq::<int>::empty();
    lemma_queue_prefix(g, n, first, none, none, n);
    assert(none + first =~= first);
    assert(first + none =~= first);
}

proof fn lemma_roots_fit(g: Depends, n: nat, k: nat)
    ensures
        roots(g, n, k).len() <= k,
    decreases k,
{
    if k > 0 {
        lemma_roots_fit(g, n, (k - 1) as nat);
    }
}

/// What stands at the head of the queue is taken before what stands behind it.
proof fn lemma_queue_prefix(
    g: Depends,
    n: nat,
    head: Seq<int>,
    behind: Seq<int>,
    done: Seq<int>,
    steps: nat,
)
    requires
        head.len() <= steps,
    ensures
        (done + head).is_prefix_of(taken(g, n, head + behind, done, steps)),
    decreases steps,
{
    let queue = head + behind;
    if head.len() == 0 {
        lemma_done_stays(g, n, queue, done, steps);
        assert(done + head =~= done);
    } else {
        let now = done.push(queue[0]);
        let more = released(g, n, queue[0], now, n);
        lemma_queue_prefix(g, n, head.drop_first(), behind + more, now, (steps - 1) as nat);
        assert(queue.drop_first() + more =~= head.drop_first() + (behind + more));
        assert(now + head.drop_first() =~= done + head);
    }
}

proof fn lemma_done_stays(g: Depends, n: nat, queue: Seq<int>, done: Seq<int>, steps: nat)
    ensures
        done.is_prefix_of(taken(g, n, queue, done, steps)),
    decreases steps,
{
    if queue.len() > 0 && steps > 0 {
        let now = done.push(queue[0]);
        let all = taken(g, n, queue, done, steps);
        lemma_done_stays(
            g,
            n,
            queue.drop_first() + released(g, n, queue[0], now, n),
            now,
            (steps - 1) as nat,
        );
        assert(all.subrange(0, now.len() as int) == now);
        assert(all.subrange(0, done.len() as int) =~= now.subrange(0, done.len() as int));
        assert(now.subrange(0, done.len() as int) =~= done);
    } else {
        assert(done.subrange(0, done.len() as int) =~= done);
    }
}

} // verus!
