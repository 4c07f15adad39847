//! What holds of the simulated time: one worker needs the sum of all
//! durations, and so its time grows with every duration.

use super::clock::{
    due, earliest, elapsed, first_min, is_first_min, later, least, lemma_earliest, lemma_first_min, lemma_least,
    lemma_step_assigns, lemma_step_decreases, lemma_step_idles, lemma_step_valid, max_of, measure, run,
    running, start, step, valid, Clock,
};
use super::graph::Task;
use super::laws::lemma_prefix_is_ordered;
use super::order::{is_canonical, is_least, ready, unblocked};
use vstd::prelude::*;

verus! {

/// The sum of the durations of the tasks of `order`.
pub open spec fn total(order: Seq<char>, dur: Map<char, nat>) -> nat
    decreases order.len(),
{
    if order.len() == 0 {
        0
    } else {
        total(order.drop_last(), dur) + dur[order.last()]
    }
}

/// The state of the simulation after `k` steps of a pool of one worker.
pub open spec fn after(g: Map<char, Task>, dur: Map<char, nat>, k: nat) -> Clock
    decreases k,
{
    if k == 0 {
        start(1)
    } else {
        step(g, dur, after(g, dur, (k - 1) as nat))
    }
}

/// One task more adds its duration to the sum.
pub proof fn lemma_total_take(order: Seq<char>, dur: Map<char, nat>, k: int)
    requires
        0 <= k < order.len(),
    ensures
        total(order.take(k + 1), dur) == total(order.take(k), dur) + dur[order[k]],
{
    assert(order.take(k + 1).drop_last() =~= order.take(k));
}

/// With one worker, the `k`-th step gives the `k`-th task of the canonical
/// order to the worker, at the time at which the tasks before it are done.
pub proof fn lemma_one_worker_steps(g: Map<char, Task>, dur: Map<char, nat>, order: Seq<char>, k: nat)
    requires
        g.dom().finite(),
        is_canonical(g, order),
        1 <= k <= order.len(),
    ensures
        ({
            let s = after(g, dur, k);
            &&& valid(g, s)
            &&& s.now == total(order.take(k - 1), dur)
            &&& s.workers =~= seq![total(order.take(k as int), dur)]
            &&& s.taken == order.take(k as int).to_set()
            &&& s.done == order.take(k - 1).to_set()
            &&& s.finish.contains_key(order[k - 1])
            &&& s.finish[order[k - 1]] == total(order.take(k as int), dur)
            &&& run(g, dur, start(1)) == run(g, dur, s)
        }),
    decreases k,
{
    lemma_prefix_is_ordered(g, order);
    let c = order[k - 1];
    let before = order.take(k - 1);
    assert(order.take(k as int) =~= before.push(c));
    assert(is_least(ready(g, before.to_set(), before.to_set()), c));
    lemma_total_take(order, dur, k - 1);
    assert(order.take(k as int).to_set() =~= before.to_set().insert(c));
    if k == 1 {
        let s = start(1);
        assert(before =~= Seq::empty());
        assert(before.to_set() =~= Set::empty());
        assert(valid(g, s));
        assert(is_first_min(s.workers, 0));
        assert(due(s.taken, s.done, s.finish, later(s.workers[0], s.now)) =~= Set::empty());
        lemma_step_assigns(g, dur, s, 0, Set::empty(), c);
        assert(ready(g, s.taken, s.done).contains(c));
        assert(running(g, s));
        lemma_step_valid(g, dur, s);
    } else {
        lemma_one_worker_steps(g, dur, order, (k - 1) as nat);
        let s = after(g, dur, (k - 1) as nat);
        let b = order[k - 2];
        let earlier = order.take(k - 2);
        assert(before =~= earlier.push(b));
        assert(before.to_set() =~= earlier.to_set().insert(b));
        lemma_total_take(order, dur, k - 2);
        let t = later(s.workers[0], s.now);
        assert(t == total(before, dur));
        assert(!earlier.to_set().contains(b)) by {
            if earlier.contains(b) {
                let j = choose|j: int| 0 <= j < earlier.len() && earlier[j] == b;
                assert(order[j] == b);
            }
        }
        assert(due(s.taken, s.done, s.finish, t) =~= set![b]);
        assert(is_first_min(s.workers, 0));
        lemma_step_assigns(g, dur, s, 0, before.to_set(), c);
        assert(s.taken.contains(b) && !s.done.contains(b));
        assert(running(g, s));
        lemma_step_valid(g, dur, s);
    }
}

/// A pool of one worker works the tasks off one after the other: the time it
/// needs is the sum of the durations of all tasks of the canonical order.
pub proof fn lemma_one_worker_serializes(g: Map<char, Task>, dur: Map<char, nat>, order: Seq<char>)
    requires
        g.dom().finite(),
        is_canonical(g, order),
    ensures
        elapsed(g, 1, dur) == total(order, dur),
{
    let n = order.len();
    if n == 0 {
        let s = start(1);
        assert(order.to_set() =~= Set::empty());
        assert(valid(g, s));
        assert(!running(g, s));
        assert(s.workers.drop_last() =~= Seq::empty());
        assert(max_of(s.workers.drop_last()) == 0);
        assert(s.workers.last() == 0);
        assert(run(g, dur, s) == s);
    } else {
        lemma_prefix_is_ordered(g, order);
        lemma_one_worker_steps(g, dur, order, n);
        let s = after(g, dur, n);
        let b = order[n - 1];
        let earlier = order.take(n - 1);
        assert(order.take(n as int) =~= order);
        assert(order =~= earlier.push(b));
        assert(order.to_set() =~= earlier.to_set().insert(b));
        lemma_total_take(order, dur, n - 1);
        let t = later(s.workers[0], s.now);
        assert(t == total(order, dur));
        assert(!earlier.to_set().contains(b)) by {
            if earlier.contains(b) {
                let j = choose|j: int| 0 <= j < earlier.len() && earlier[j] == b;
                assert(order[j] == b);
            }
        }
        assert(due(s.taken, s.done, s.finish, t) =~= set![b]);
        assert(is_first_min(s.workers, 0));
        lemma_step_idles(g, dur, s, 0, order.to_set());
        let s2 = step(g, dur, s);
        assert(s.taken.contains(b) && !s.done.contains(b));
        assert(running(g, s));
        lemma_step_valid(g, dur, s);
        assert(!running(g, s2));
        assert(run(g, dur, s2) == s2);
        assert(s2.workers.drop_last() =~= Seq::empty());
        assert(max_of(s2.workers.drop_last()) == 0);
    }
}

/// The sum grows with every duration.
pub proof fn lemma_total_grows(order: Seq<char>, low: Map<char, nat>, high: Map<char, nat>)
    requires
        forall|i: int| 0 <= i < order.len() ==> low[#[trigger] order[i]] <= high[order[i]],
    ensures
        total(order, low) <= total(order, high),
    decreases order.len(),
{
    if order.len() > 0 {
        let rest = order.drop_last();
        assert forall|i: int| 0 <= i < rest.len() implies low[#[trigger] rest[i]] <= high[rest[i]] by {
            assert(rest[i] == order[i]);
        }
        lemma_total_grows(rest, low, high);
        assert(order.last() == order[order.len() - 1]);
    }
}

/// With one worker the time does not fall when durations rise.
pub proof fn lemma_one_worker_time_grows_with_cost(
    g: Map<char, Task>,
    low: Map<char, nat>,
    high: Map<char, nat>,
    order: Seq<char>,
)
    requires
        g.dom().finite(),
        is_canonical(g, order),
        forall|c: char| g.dom().contains(c) ==> low[c] <= high[c],
    ensures
        elapsed(g, 1, low) <= elapsed(g, 1, high),
{
    lemma_prefix_is_ordered(g, order);
    lemma_one_worker_serializes(g, low, order);
    lemma_one_worker_serializes(g, high, order);
    assert forall|i: int| 0 <= i < order.len() implies low[#[trigger] order[i]] <= high[order[i]] by {
        assert(order.contains(order[i]));
    }
    lemma_total_grows(order, low, high);
}

/// The sum of the durations of the tasks of `order` that are not in `taken`.
pub open spec fn total_left(order: Seq<char>, taken: Set<char>, dur: Map<char, nat>) -> nat
    decreases order.len(),
{
    if order.len() == 0 {
        0
    } else {
        total_left(order.drop_last(), taken, dur) + if taken.contains(order.last()) {
            0nat
        } else {
            dur[order.last()]
        }
    }
}

/// With no task taken, all durations are left.
pub proof fn lemma_total_left_all(order: Seq<char>, dur: Map<char, nat>)
    ensures
        total_left(order, Set::empty(), dur) == total(order, dur),
    decreases order.len(),
{
    if order.len() > 0 {
        lemma_total_left_all(order.drop_last(), dur);
    }
}

/// Taking a task that `order` holds once takes its duration from the sum
/// that is left; taking one that `order` does not hold changes nothing.
pub proof fn lemma_total_left_insert(order: Seq<char>, taken: Set<char>, dur: Map<char, nat>, c: char)
    requires
        order.no_duplicates(),
        !taken.contains(c),
    ensures
        total_left(order, taken, dur) == total_left(order, taken.insert(c), dur) + if order.contains(c) {
            dur[c]
        } else {
            0nat
        },
    decreases order.len(),
{
    if order.len() > 0 {
        let rest = order.drop_last();
        let last = order.last();
        assert(order =~= rest.push(last));
        crate::seqs::lemma_push_contains(rest, last);
        assert(!rest.contains(last)) by {
            if rest.contains(last) {
                let j = choose|j: int| 0 <= j < rest.len() && rest[j] == last;
                assert(order[j] == order[order.len() - 1]);
            }
        }
        lemma_total_left_insert(rest, taken, dur, c);
    }
}

/// The largest of times that are all at most `limit` is at most `limit`.
pub proof fn lemma_max_of_within(ws: Seq<nat>, limit: nat)
    requires
        forall|i: int| 0 <= i < ws.len() ==> ws[i] <= limit,
    ensures
        max_of(ws) <= limit,
    decreases ws.len(),
{
    if ws.len() > 0 {
        let rest = ws.drop_last();
        assert forall|i: int| 0 <= i < rest.len() implies rest[i] <= limit by {
            assert(rest[i] == ws[i]);
        }
        lemma_max_of_within(rest, limit);
        assert(ws.last() == ws[ws.len() - 1]);
    }
}

/// From a state in which no time is after `limit`, the pool is done by
/// `limit` and the durations of the tasks not yet taken.
pub proof fn lemma_run_is_bounded(
    g: Map<char, Task>,
    dur: Map<char, nat>,
    order: Seq<char>,
    s: Clock,
    limit: nat,
)
    requires
        is_canonical(g, order),
        valid(g, s),
        s.taken.subset_of(order.to_set()),
        s.now <= limit,
        forall|i: int| 0 <= i < s.workers.len() ==> s.workers[i] <= limit,
        forall|c: char| s.taken.contains(c) ==> s.finish[c] <= limit,
    ensures
        max_of(run(g, dur, s).workers) <= limit + total_left(order, s.taken, dur),
    decreases measure(g, s),
{
    if !running(g, s) {
        lemma_max_of_within(s.workers, limit);
    } else {
        lemma_prefix_is_ordered(g, order);
        lemma_step_valid(g, dur, s);
        lemma_step_decreases(g, dur, s);
        lemma_first_min(s.workers);
        let s2 = step(g, dur, s);
        let w = first_min(s.workers);
        let t = later(s.workers[w], s.now);
        let done = s.done.union(due(s.taken, s.done, s.finish, t));
        let r = ready(g, s.taken, done);
        assert(r.subset_of(g.dom()));
        vstd::set_lib::lemma_set_subset_finite(g.dom(), r);
        vstd::set_lib::lemma_set_subset_finite(g.dom(), s.taken);
        if exists|c: char| r.contains(c) {
            lemma_least(r);
            let c = least(r);
            // a task that is ready when tasks of the order are done is a
            // task of the order
            assert(order.to_set().contains(c)) by {
                if !order.to_set().contains(c) {
                    assert(unblocked(g, done, c));
                    assert forall|i: int| 0 <= i < g[c].deps.len() implies order.to_set().contains(
                        #[trigger] g[c].deps[i],
                    ) by {
                        assert(done.contains(g[c].deps[i]));
                        assert(s.taken.contains(g[c].deps[i]));
                    }
                    assert(ready(g, order.to_set(), order.to_set()).contains(c));
                }
            }
            lemma_total_left_insert(order, s.taken, dur, c);
            let limit2 = limit + dur[c];
            assert forall|i: int| 0 <= i < s2.workers.len() implies s2.workers[i] <= limit2 by {
                if i != w {
                    assert(s2.workers[i] == s.workers[i]);
                }
            }
            lemma_run_is_bounded(g, dur, order, s2, limit2);
        } else if exists|c: char| s.taken.contains(c) && !done.contains(c) {
            lemma_earliest(s.taken, done, s.finish);
            let e = earliest(s.taken, done, s.finish);
            let c = choose|c: char| s.taken.contains(c) && !done.contains(c) && #[trigger] s.finish[c] == e;
            assert(s.finish[c] <= limit);
            lemma_run_is_bounded(g, dur, order, s2, limit);
        } else {
            lemma_run_is_bounded(g, dur, order, s2, limit);
        }
    }
}

/// A pool of any size is done no later than one worker alone.
pub proof fn lemma_pool_not_slower_than_one_worker(
    g: Map<char, Task>,
    dur: Map<char, nat>,
    order: Seq<char>,
    n: nat,
)
    requires
        g.dom().finite(),
        is_canonical(g, order),
        n >= 1,
    ensures
        elapsed(g, n, dur) <= elapsed(g, 1, dur),
{
    lemma_one_worker_serializes(g, dur, order);
    lemma_total_left_all(order, dur);
    lemma_run_is_bounded(g, dur, order, start(n), 0);
}

} // verus!
