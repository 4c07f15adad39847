//! The critical path of a graph: the longest chain of tasks that wait for
//! each other, by the sum of their durations.  No pool is done before it,
//! and a pool with a worker for every task is done exactly then.  Nor is a
//! pool done before each worker has done its share of all the work.

use super::clock::{
    due, earliest, elapsed, first_min, later, least, lemma_earliest, lemma_first_min, lemma_least,
    lemma_step_decreases, lemma_step_valid, max_of, measure, run, running, start, step, valid, Clock,
};
use super::graph::{consistent, Task};
use super::laws::{lemma_prefix_is_ordered, lemma_stalled_has_cycle, lemma_topological_implies_acyclic};
use super::order::{acyclic, follows, is_canonical, is_topological_order, ready, unblocked};
use super::timing_laws::{
    lemma_max_of_within, lemma_pool_not_slower_than_one_worker, lemma_total_left_all, lemma_total_left_insert,
    total, total_left,
};
use vstd::prelude::*;

verus! {

/// The latest of the times that `ends` gives for the tasks `deps`; 0 if
/// there is none.
pub open spec fn latest(ends: Map<char, nat>, deps: Seq<char>) -> nat
    decreases deps.len(),
{
    if deps.len() == 0 {
        0
    } else if ends[deps.last()] >= latest(ends, deps.drop_last()) {
        ends[deps.last()]
    } else {
        latest(ends, deps.drop_last())
    }
}

/// For each task of `order` the earliest time at which it can end: its
/// duration after the latest such time of the tasks it waits for.  `order`
/// holds each task after the tasks it waits for.
pub open spec fn path_ends(g: Map<char, Task>, dur: Map<char, nat>, order: Seq<char>) -> Map<char, nat>
    decreases order.len(),
{
    if order.len() == 0 {
        Map::empty()
    } else {
        let before = path_ends(g, dur, order.drop_last());
        let c = order.last();
        before.insert(c, latest(before, g[c].deps) + dur[c])
    }
}

/// The length of the critical path: the latest of the earliest ends.
pub open spec fn critical_path(g: Map<char, Task>, dur: Map<char, nat>, order: Seq<char>) -> nat {
    latest(path_ends(g, dur, order), order)
}

/// The latest time is not before any of the times, and is one of them.
pub proof fn lemma_latest(ends: Map<char, nat>, deps: Seq<char>)
    ensures
        forall|i: int| 0 <= i < deps.len() ==> ends[#[trigger] deps[i]] <= latest(ends, deps),
        deps.len() > 0 ==> exists|i: int| 0 <= i < deps.len() && ends[#[trigger] deps[i]] == latest(ends, deps),
        deps.len() == 0 ==> latest(ends, deps) == 0,
    decreases deps.len(),
{
    if deps.len() > 0 {
        let rest = deps.drop_last();
        lemma_latest(ends, rest);
        assert forall|i: int| 0 <= i < deps.len() implies ends[#[trigger] deps[i]] <= latest(ends, deps) by {
            if i < rest.len() {
                assert(rest[i] == deps[i]);
            }
        }
        if ends[deps.last()] >= latest(ends, rest) {
            assert(deps[deps.len() - 1] == deps.last());
        } else {
            let i = choose|i: int| 0 <= i < rest.len() && ends[#[trigger] rest[i]] == latest(ends, rest);
            assert(deps[i] == rest[i]);
        }
    }
}

/// Where two tables agree on the tasks, they agree on the latest time.
pub proof fn lemma_latest_same(one: Map<char, nat>, two: Map<char, nat>, deps: Seq<char>)
    requires
        forall|i: int| 0 <= i < deps.len() ==> one[#[trigger] deps[i]] == two[deps[i]],
    ensures
        latest(one, deps) == latest(two, deps),
    decreases deps.len(),
{
    if deps.len() > 0 {
        let rest = deps.drop_last();
        assert forall|i: int| 0 <= i < rest.len() implies one[#[trigger] rest[i]] == two[rest[i]] by {
            assert(rest[i] == deps[i]);
        }
        lemma_latest_same(one, two, rest);
        assert(deps[deps.len() - 1] == deps.last());
    }
}

/// Where no time of one table is after the time of the other, neither is
/// the latest.
pub proof fn lemma_latest_grows(low: Map<char, nat>, high: Map<char, nat>, deps: Seq<char>)
    requires
        forall|i: int| 0 <= i < deps.len() ==> low[#[trigger] deps[i]] <= high[deps[i]],
    ensures
        latest(low, deps) <= latest(high, deps),
    decreases deps.len(),
{
    if deps.len() > 0 {
        let rest = deps.drop_last();
        assert forall|i: int| 0 <= i < rest.len() implies low[#[trigger] rest[i]] <= high[rest[i]] by {
            assert(rest[i] == deps[i]);
        }
        lemma_latest_grows(low, high, rest);
        assert(deps[deps.len() - 1] == deps.last());
    }
}

/// A start of an order that holds each task after the tasks it waits for
/// does so too.
pub proof fn lemma_follows_drop_last(g: Map<char, Task>, order: Seq<char>)
    requires
        follows(g, order),
        order.len() > 0,
    ensures
        follows(g, order.drop_last()),
{
    let rest = order.drop_last();
    assert forall|i: int, at: int| 0 <= i < rest.len() && 0 <= at < g[rest[i]].deps.len() implies rest.take(
        i,
    ).contains(#[trigger] g[rest[i]].deps[at]) by {
        assert(rest[i] == order[i]);
        assert(rest.take(i) =~= order.take(i));
    }
}

/// The table of earliest ends holds the tasks of the order, and for each
/// its duration after the latest end of the tasks it waits for.
pub proof fn lemma_path_ends(g: Map<char, Task>, dur: Map<char, nat>, order: Seq<char>)
    requires
        follows(g, order),
    ensures
        forall|c: char| #[trigger] path_ends(g, dur, order).contains_key(c) <==> order.contains(c),
        forall|i: int|
            0 <= i < order.len() ==> path_ends(g, dur, order)[#[trigger] order[i]] == latest(
                path_ends(g, dur, order),
                g[order[i]].deps,
            ) + dur[order[i]],
    decreases order.len(),
{
    if order.len() > 0 {
        let rest = order.drop_last();
        let last = order.last();
        let before = path_ends(g, dur, rest);
        let ends = path_ends(g, dur, order);
        lemma_follows_drop_last(g, order);
        lemma_path_ends(g, dur, rest);
        assert(order =~= rest.push(last));
        crate::seqs::lemma_push_contains(rest, last);
        assert(!rest.contains(last)) by {
            if rest.contains(last) {
                let j = choose|j: int| 0 <= j < rest.len() && rest[j] == last;
                assert(order[j] == order[order.len() - 1]);
            }
        }
        assert forall|i: int| 0 <= i < order.len() implies ends[#[trigger] order[i]] == latest(
            ends,
            g[order[i]].deps,
        ) + dur[order[i]] by {
            let c = order[i];
            let deps = g[c].deps;
            // the tasks that `c` waits for stand before it, so none is the last
            assert forall|at: int| 0 <= at < deps.len() implies before[#[trigger] deps[at]] == ends[deps[at]] by {
                assert(order.take(i).contains(deps[at]));
                let j = choose|j: int| 0 <= j < order.take(i).len() && order.take(i)[j] == deps[at];
                assert(order[j] == deps[at]);
                assert(rest[j] == deps[at]);
            }
            lemma_latest_same(before, ends, deps);
            if i < rest.len() {
                assert(rest[i] == c);
                assert(rest.contains(c));
            }
        }
    }
}

/// The earliest ends do not fall when durations rise, and neither does the
/// critical path.
pub proof fn lemma_path_ends_grow(
    g: Map<char, Task>,
    low: Map<char, nat>,
    high: Map<char, nat>,
    order: Seq<char>,
)
    requires
        follows(g, order),
        forall|i: int| 0 <= i < order.len() ==> low[#[trigger] order[i]] <= high[order[i]],
    ensures
        forall|i: int|
            0 <= i < order.len() ==> path_ends(g, low, order)[#[trigger] order[i]] <= path_ends(
                g,
                high,
                order,
            )[order[i]],
        critical_path(g, low, order) <= critical_path(g, high, order),
    decreases order.len(),
{
    if order.len() > 0 {
        let rest = order.drop_last();
        let last = order.last();
        lemma_follows_drop_last(g, order);
        assert forall|i: int| 0 <= i < rest.len() implies low[#[trigger] rest[i]] <= high[rest[i]] by {
            assert(rest[i] == order[i]);
        }
        lemma_path_ends_grow(g, low, high, rest);
        let b_low = path_ends(g, low, rest);
        let b_high = path_ends(g, high, rest);
        let deps = g[last].deps;
        assert(order[order.len() - 1] == last);
        assert forall|at: int| 0 <= at < deps.len() implies b_low[#[trigger] deps[at]] <= b_high[deps[at]] by {
            assert(order.take(order.len() - 1).contains(deps[at]));
            assert(order.take(order.len() - 1) =~= rest);
            let j = choose|j: int| 0 <= j < rest.len() && rest[j] == deps[at];
            assert(b_low[rest[j]] <= b_high[rest[j]]);
        }
        lemma_latest_grows(b_low, b_high, deps);
        assert forall|i: int| 0 <= i < order.len() implies path_ends(g, low, order)[#[trigger] order[i]]
            <= path_ends(g, high, order)[order[i]] by {
            if i < rest.len() {
                assert(rest[i] == order[i]);
                assert(b_low[rest[i]] <= b_high[rest[i]]);
            }
        }
    }
    lemma_latest_grows(path_ends(g, low, order), path_ends(g, high, order), order);
}

/// The canonical order holds each task after the tasks it waits for.
pub proof fn lemma_canonical_follows(g: Map<char, Task>, order: Seq<char>)
    requires
        is_canonical(g, order),
    ensures
        follows(g, order),
{
    lemma_prefix_is_ordered(g, order);
    assert forall|i: int, at: int| 0 <= i < order.len() && 0 <= at < g[order[i]].deps.len() implies order.take(
        i,
    ).contains(#[trigger] g[order[i]].deps[at]) by {
        let before = order.take(i).to_set();
        assert(ready(g, before, before).contains(order[i]));
        assert(before.contains(g[order[i]].deps[at]));
    }
}

/// The largest of the times is not before any of them.
pub proof fn lemma_max_of_reaches(ws: Seq<nat>, i: int)
    requires
        0 <= i < ws.len(),
    ensures
        ws[i] <= max_of(ws),
    decreases ws.len(),
{
    if i < ws.len() - 1 {
        assert(ws.drop_last()[i] == ws[i]);
        lemma_max_of_reaches(ws.drop_last(), i);
    } else {
        assert(ws.last() == ws[i]);
    }
}

/// The run ends in a state of the simulation without work left.
pub proof fn lemma_run_ends(g: Map<char, Task>, dur: Map<char, nat>, s: Clock)
    requires
        valid(g, s),
    ensures
        valid(g, run(g, dur, s)),
        !running(g, run(g, dur, s)),
    decreases measure(g, s),
{
    if running(g, s) {
        lemma_step_valid(g, dur, s);
        lemma_step_decreases(g, dur, s);
        lemma_run_ends(g, dur, step(g, dur, s));
    }
}

/// Where a graph without a circle has no work left, every task was taken.
pub proof fn lemma_all_taken(g: Map<char, Task>, s: Clock)
    requires
        consistent(g),
        acyclic(g),
        valid(g, s),
        !running(g, s),
    ensures
        s.taken == g.dom(),
        s.done == g.dom(),
{
    assert(s.taken =~= s.done);
    if s.taken != g.dom() {
        assert forall|c: char| !ready(g, s.taken, s.taken).contains(c) by {
            assert(!ready(g, s.taken, s.done).contains(c));
        }
        lemma_stalled_has_cycle(g, s.taken);
    }
}

/// No task has ended before its earliest end, no finished task ends after
/// the present time, and for each task taken a worker is busy until its end
/// at least.
pub open spec fn not_early(s: Clock, ends: Map<char, nat>) -> bool {
    &&& forall|c: char| s.taken.contains(c) ==> #[trigger] s.finish[c] >= ends[c]
    &&& forall|c: char| s.done.contains(c) ==> #[trigger] s.finish[c] <= s.now
    &&& forall|c: char| #[trigger]
        s.taken.contains(c) ==> exists|i: int| 0 <= i < s.workers.len() && #[trigger] s.workers[i] >= s.finish[c]
}

/// A step keeps that no task has ended early.
pub proof fn lemma_step_not_early(g: Map<char, Task>, dur: Map<char, nat>, order: Seq<char>, s: Clock)
    requires
        valid(g, s),
        follows(g, order),
        forall|c: char| order.contains(c) <==> g.dom().contains(c),
        not_early(s, path_ends(g, dur, order)),
    ensures
        not_early(step(g, dur, s), path_ends(g, dur, order)),
{
    let ends = path_ends(g, dur, order);
    lemma_first_min(s.workers);
    let s2 = step(g, dur, s);
    let w = first_min(s.workers);
    let t = later(s.workers[w], s.now);
    let done = s.done.union(due(s.taken, s.done, s.finish, t));
    let r = ready(g, s.taken, done);
    assert(r.subset_of(g.dom()));
    vstd::set_lib::lemma_set_subset_finite(g.dom(), r);
    vstd::set_lib::lemma_set_subset_finite(g.dom(), s.taken);
    assert forall|c: char| done.contains(c) implies #[trigger] s.finish[c] <= t by {
        if s.done.contains(c) {
            assert(s.finish[c] <= s.now);
        }
    }
    if exists|c: char| r.contains(c) {
        lemma_least(r);
        let c = least(r);
        let end = t + dur[c];
        assert(unblocked(g, done, c));
        // the task starts when all tasks that it waits for have ended
        lemma_path_ends(g, dur, order);
        assert(order.contains(c));
        let k = choose|k: int| 0 <= k < order.len() && order[k] == c;
        assert(ends[order[k]] == latest(ends, g[c].deps) + dur[c]);
        lemma_latest(ends, g[c].deps);
        if g[c].deps.len() > 0 {
            let i = choose|i: int|
                0 <= i < g[c].deps.len() && ends[#[trigger] g[c].deps[i]] == latest(ends, g[c].deps);
            let d = g[c].deps[i];
            assert(done.contains(d));
            assert(s.taken.contains(d));
            assert(s.finish[d] >= ends[d]);
            assert(s.finish[d] <= t);
        }
        assert(end >= ends[c]);
        assert forall|x: char| s2.taken.contains(x) implies #[trigger] s2.finish[x] >= ends[x] by {
            if x != c {
                assert(s.taken.contains(x));
                assert(s.finish[x] >= ends[x]);
            }
        }
        assert forall|x: char| s2.done.contains(x) implies #[trigger] s2.finish[x] <= s2.now by {
            assert(done.contains(x));
            assert(s.taken.contains(x));
            assert(s.finish[x] <= t);
        }
        assert forall|x: char| #[trigger] s2.taken.contains(x) implies exists|i: int|
            0 <= i < s2.workers.len() && #[trigger] s2.workers[i] >= s2.finish[x] by {
            if x == c {
                assert(s2.workers[w] >= s2.finish[x]);
            } else {
                assert(s.taken.contains(x));
                let i = choose|i: int| 0 <= i < s.workers.len() && #[trigger] s.workers[i] >= s.finish[x];
                if i == w {
                    assert(s2.workers[w] >= s2.finish[x]);
                } else {
                    assert(s2.workers[i] == s.workers[i]);
                    assert(s2.workers[i] >= s2.finish[x]);
                }
            }
        }
    } else if exists|c: char| s.taken.contains(c) && !done.contains(c) {
        lemma_earliest(s.taken, done, s.finish);
        let e = earliest(s.taken, done, s.finish);
        assert forall|x: char| s2.done.contains(x) implies #[trigger] s2.finish[x] <= s2.now by {
            assert(done.contains(x));
            assert(s.finish[x] <= t);
            // what is still in work ends after `t`
            let c = choose|c: char| s.taken.contains(c) && !done.contains(c) && #[trigger] s.finish[c] == e;
            assert(!due(s.taken, s.done, s.finish, t).contains(c));
        }
        assert forall|x: char| #[trigger] s2.taken.contains(x) implies exists|i: int|
            0 <= i < s2.workers.len() && #[trigger] s2.workers[i] >= s2.finish[x] by {
            assert(s.taken.contains(x));
        }
    } else {
        assert forall|x: char| s2.done.contains(x) implies #[trigger] s2.finish[x] <= s2.now by {
            assert(done.contains(x));
            assert(s.finish[x] <= t);
        }
        assert forall|x: char| #[trigger] s2.taken.contains(x) implies exists|i: int|
            0 <= i < s2.workers.len() && #[trigger] s2.workers[i] >= s2.finish[x] by {
            assert(s.taken.contains(x));
        }
    }
}

/// No run lets a task end early.
pub proof fn lemma_run_not_early(g: Map<char, Task>, dur: Map<char, nat>, order: Seq<char>, s: Clock)
    requires
        valid(g, s),
        follows(g, order),
        forall|c: char| order.contains(c) <==> g.dom().contains(c),
        not_early(s, path_ends(g, dur, order)),
    ensures
        not_early(run(g, dur, s), path_ends(g, dur, order)),
    decreases measure(g, s),
{
    if running(g, s) {
        lemma_step_valid(g, dur, s);
        lemma_step_decreases(g, dur, s);
        lemma_step_not_early(g, dur, order, s);
        lemma_run_not_early(g, dur, order, step(g, dur, s));
    }
}

/// What the laws of the critical path ask of a graph and its canonical
/// order: the graph has no dangling constraint, and the order holds every
/// task, which it does exactly when no tasks wait for each other in a
/// circle.
pub open spec fn is_schedule(g: Map<char, Task>, order: Seq<char>) -> bool {
    &&& consistent(g)
    &&& is_canonical(g, order)
    &&& order.len() == g.dom().len()
}

/// The canonical order that holds every task is a topological order, and
/// the graph has no circle.
pub proof fn lemma_schedule(g: Map<char, Task>, order: Seq<char>)
    requires
        is_schedule(g, order),
    ensures
        follows(g, order),
        acyclic(g),
        is_topological_order(g, order),
        forall|c: char| order.contains(c) <==> g.dom().contains(c),
{
    lemma_prefix_is_ordered(g, order);
    lemma_canonical_follows(g, order);
    order.unique_seq_to_set();
    assert(order.to_set().subset_of(g.dom()));
    vstd::set_lib::lemma_subset_equality(order.to_set(), g.dom());
    assert forall|c: char| order.contains(c) <==> g.dom().contains(c) by {
        assert(order.to_set().contains(c) <==> order.contains(c));
    }
    super::laws::lemma_complete_is_topological(g, order);
    lemma_topological_implies_acyclic(g, order);
}

/// No pool is done before the critical path is: every chain of tasks that
/// wait for each other takes the sum of its durations at least.
pub proof fn lemma_pool_needs_the_critical_path(
    g: Map<char, Task>,
    dur: Map<char, nat>,
    order: Seq<char>,
    n: nat,
)
    requires
        is_schedule(g, order),
        n >= 1,
    ensures
        critical_path(g, dur, order) <= elapsed(g, n, dur),
{
    lemma_schedule(g, order);
    let ends = path_ends(g, dur, order);
    let s0 = start(n);
    lemma_run_not_early(g, dur, order, s0);
    lemma_run_ends(g, dur, s0);
    let last = run(g, dur, s0);
    lemma_all_taken(g, last);
    lemma_latest(ends, order);
    if order.len() > 0 {
        let i = choose|i: int| 0 <= i < order.len() && ends[#[trigger] order[i]] == latest(ends, order);
        let c = order[i];
        assert(order.contains(c));
        assert(last.taken.contains(c));
        let j = choose|j: int| 0 <= j < last.workers.len() && #[trigger] last.workers[j] >= last.finish[c];
        lemma_max_of_reaches(last.workers, j);
        assert(last.finish[c] >= ends[c]);
    }
}

/// Every task that the tasks in `taken` no longer keep from starting by
/// the time `now` can start at `now` and not before: the latest end of the
/// tasks it waits for is `now`.
pub open spec fn starts_now(g: Map<char, Task>, s: Clock, ends: Map<char, nat>, c: char) -> bool {
    (forall|i: int|
        0 <= i < g[c].deps.len() ==> s.taken.contains(#[trigger] g[c].deps[i]) && s.finish[g[c].deps[i]]
            <= s.now) ==> latest(ends, g[c].deps) == s.now
}

/// What holds of a pool with a worker for every task: each task has ended
/// at its earliest end, the tasks in work end at the present time or
/// later, a task that can start has not waited, and the workers beyond the
/// number of tasks taken are unused.
pub open spec fn on_time(g: Map<char, Task>, s: Clock, ends: Map<char, nat>) -> bool {
    &&& s.workers.len() >= g.dom().len()
    &&& forall|c: char| s.taken.contains(c) ==> #[trigger] s.finish[c] == ends[c]
    &&& forall|c: char| s.done.contains(c) ==> #[trigger] s.finish[c] <= s.now
    &&& forall|c: char| s.taken.contains(c) && !s.done.contains(c) ==> #[trigger] s.finish[c] >= s.now
    &&& forall|c: char| g.dom().contains(c) && !s.taken.contains(c) ==> #[trigger] starts_now(g, s, ends, c)
    &&& forall|i: int| s.taken.len() <= i < s.workers.len() ==> #[trigger] s.workers[i] == 0
    &&& forall|i: int|
        0 <= i < s.workers.len() ==> #[trigger] s.workers[i] == 0 || exists|c: char|
            s.taken.contains(c) && s.workers[i] == #[trigger] s.finish[c]
    &&& forall|c: char| #[trigger]
        s.taken.contains(c) ==> exists|i: int| 0 <= i < s.workers.len() && #[trigger] s.workers[i] >= s.finish[c]
}

/// The step that gives a task to a worker keeps the pool on time.
proof fn lemma_assign_on_time(g: Map<char, Task>, dur: Map<char, nat>, order: Seq<char>, s: Clock)
    requires
        valid(g, s),
        follows(g, order),
        forall|c: char| order.contains(c) <==> g.dom().contains(c),
        on_time(g, s, path_ends(g, dur, order)),
        exists|c: char|
            ready(
                g,
                s.taken,
                s.done.union(
                    due(s.taken, s.done, s.finish, later(s.workers[first_min(s.workers)], s.now)),
                ),
            ).contains(c),
    ensures
        on_time(g, step(g, dur, s), path_ends(g, dur, order)),
{
    let ends = path_ends(g, dur, order);
    lemma_first_min(s.workers);
    let s2 = step(g, dur, s);
    let w = first_min(s.workers);
    let t = later(s.workers[w], s.now);
    let done = s.done.union(due(s.taken, s.done, s.finish, t));
    let r = ready(g, s.taken, done);
    assert(r.subset_of(g.dom()));
    vstd::set_lib::lemma_set_subset_finite(g.dom(), r);
    vstd::set_lib::lemma_set_subset_finite(g.dom(), s.taken);
    lemma_least(r);
    let c = least(r);
    let end = t + dur[c];
    assert(unblocked(g, done, c));
    assert(g.dom().contains(c) && !s.taken.contains(c));

    // a worker is unused, so the first free worker is free at once
    let used = s.taken.len() as int;
    assert(used < s.workers.len()) by {
        s.taken.lemma_subset_not_in_lt(g.dom(), c);
    }
    assert(s.workers[used] == 0);
    assert(s.workers[w] == 0);
    assert(w <= used) by {
        if w > used {
            assert(s.workers[w] < s.workers[used]);
        }
    }
    assert(t == s.now);
    assert(s2.taken.len() == used + 1);

    // the task has not waited
    assert forall|x: char| done.contains(x) implies s.taken.contains(x) && #[trigger] s.finish[x] <= s.now by {
        if s.done.contains(x) {
            assert(s.finish[x] <= s.now);
        }
    }
    assert(starts_now(g, s, ends, c));
    assert(latest(ends, g[c].deps) == s.now) by {
        assert forall|i: int| 0 <= i < g[c].deps.len() implies s.taken.contains(#[trigger] g[c].deps[i])
            && s.finish[g[c].deps[i]] <= s.now by {
            assert(done.contains(g[c].deps[i]));
        }
    }
    lemma_path_ends(g, dur, order);
    assert(order.contains(c));
    let k = choose|k: int| 0 <= k < order.len() && order[k] == c;
    assert(ends[order[k]] == latest(ends, g[c].deps) + dur[c]);
    assert(end == ends[c]);

    assert forall|x: char| s2.taken.contains(x) implies #[trigger] s2.finish[x] == ends[x] by {
        if x != c {
            assert(s.taken.contains(x));
            assert(s.finish[x] == ends[x]);
        }
    }
    assert forall|x: char| s2.done.contains(x) implies #[trigger] s2.finish[x] <= s2.now by {
        assert(done.contains(x));
        assert(s.finish[x] <= s.now);
    }
    assert forall|x: char| s2.taken.contains(x) && !s2.done.contains(x) implies #[trigger] s2.finish[x]
        >= s2.now by {
        if x != c {
            assert(s.taken.contains(x));
            assert(!s.done.contains(x));
            assert(s.finish[x] >= s.now);
        }
    }
    assert forall|x: char| g.dom().contains(x) && !s2.taken.contains(x) implies #[trigger] starts_now(
        g,
        s2,
        ends,
        x,
    ) by {
        let deps = g[x].deps;
        if forall|i: int|
            0 <= i < deps.len() ==> s2.taken.contains(#[trigger] deps[i]) && s2.finish[deps[i]] <= s2.now {
            assert(starts_now(g, s, ends, x));
            if deps.contains(c) {
                let at = choose|at: int| 0 <= at < deps.len() && deps[at] == c;
                assert(s2.finish[deps[at]] <= s2.now);
                assert(ends[c] == s.now);
                lemma_latest(ends, deps);
                assert(ends[deps[at]] <= latest(ends, deps));
                if deps.len() > 0 {
                    let i = choose|i: int|
                        0 <= i < deps.len() && ends[#[trigger] deps[i]] == latest(ends, deps);
                    assert(s2.taken.contains(deps[i]) && s2.finish[deps[i]] <= s2.now);
                    assert(s2.finish[deps[i]] == ends[deps[i]]);
                }
            } else {
                assert forall|i: int| 0 <= i < deps.len() implies s.taken.contains(#[trigger] deps[i])
                    && s.finish[deps[i]] <= s.now by {
                    assert(s2.taken.contains(deps[i]) && s2.finish[deps[i]] <= s2.now);
                    assert(deps.contains(deps[i]));
                }
            }
        }
    }
    assert forall|i: int| s2.taken.len() <= i < s2.workers.len() implies #[trigger] s2.workers[i] == 0 by {
        assert(s2.workers[i] == s.workers[i]);
    }
    assert forall|i: int| 0 <= i < s2.workers.len() implies #[trigger] s2.workers[i] == 0 || exists|x: char|
        s2.taken.contains(x) && s2.workers[i] == #[trigger] s2.finish[x] by {
        if i == w {
            assert(s2.taken.contains(c) && s2.workers[i] == s2.finish[c]);
        } else {
            assert(s2.workers[i] == s.workers[i]);
            if s.workers[i] != 0 {
                let x = choose|x: char| s.taken.contains(x) && s.workers[i] == #[trigger] s.finish[x];
                assert(s2.taken.contains(x) && s2.workers[i] == s2.finish[x]);
            }
        }
    }
    assert forall|x: char| #[trigger] s2.taken.contains(x) implies exists|i: int|
        0 <= i < s2.workers.len() && #[trigger] s2.workers[i] >= s2.finish[x] by {
        if x == c {
            assert(s2.workers[w] >= s2.finish[x]);
        } else {
            assert(s.taken.contains(x));
            let i = choose|i: int| 0 <= i < s.workers.len() && #[trigger] s.workers[i] >= s.finish[x];
            if i == w {
                assert(s2.workers[w] >= s2.finish[x]);
            } else {
                assert(s2.workers[i] == s.workers[i]);
                assert(s2.workers[i] >= s2.finish[x]);
            }
        }
    }
}

/// The step that finds no task ready keeps the pool on time.
proof fn lemma_wait_on_time(g: Map<char, Task>, dur: Map<char, nat>, order: Seq<char>, s: Clock)
    requires
        valid(g, s),
        consistent(g),
        on_time(g, s, path_ends(g, dur, order)),
        forall|c: char|
            !ready(
                g,
                s.taken,
                s.done.union(
                    due(s.taken, s.done, s.finish, later(s.workers[first_min(s.workers)], s.now)),
                ),
            ).contains(c),
    ensures
        on_time(g, step(g, dur, s), path_ends(g, dur, order)),
{
    let ends = path_ends(g, dur, order);
    lemma_first_min(s.workers);
    let s2 = step(g, dur, s);
    let w = first_min(s.workers);
    let t = later(s.workers[w], s.now);
    let done = s.done.union(due(s.taken, s.done, s.finish, t));
    let r = ready(g, s.taken, done);
    vstd::set_lib::lemma_set_subset_finite(g.dom(), s.taken);
    assert(s2.taken == s.taken && s2.finish == s.finish && s2.workers == s.workers && s2.done == done);
    assert forall|x: char| done.contains(x) implies s.taken.contains(x) && #[trigger] s.finish[x] <= t by {
        if s.done.contains(x) {
            assert(s.finish[x] <= s.now);
        }
    }
    if exists|c: char| s.taken.contains(c) && !done.contains(c) {
        lemma_earliest(s.taken, done, s.finish);
        let e = earliest(s.taken, done, s.finish);
        let first = choose|c: char| s.taken.contains(c) && !done.contains(c) && #[trigger] s.finish[c] == e;
        assert(!due(s.taken, s.done, s.finish, t).contains(first));
        assert(e > t);
        assert(s2.now == e);
        assert forall|x: char| g.dom().contains(x) && !s2.taken.contains(x) implies #[trigger] starts_now(
            g,
            s2,
            ends,
            x,
        ) by {
            let deps = g[x].deps;
            if forall|i: int|
                0 <= i < deps.len() ==> s2.taken.contains(#[trigger] deps[i]) && s2.finish[deps[i]] <= s2.now {
                // the task is not ready, so a task that it waits for is in work
                assert(!r.contains(x));
                assert(!unblocked(g, done, x));
                let i = choose|i: int| 0 <= i < deps.len() && !done.contains(#[trigger] deps[i]);
                let d = deps[i];
                assert(s.taken.contains(d) && s.finish[d] <= e);
                assert(e <= s.finish[d]);
                assert(ends[d] == e);
                lemma_latest(ends, deps);
                assert(ends[deps[i]] <= latest(ends, deps));
                let j = choose|j: int| 0 <= j < deps.len() && ends[#[trigger] deps[j]] == latest(ends, deps);
                assert(s2.taken.contains(deps[j]) && s2.finish[deps[j]] <= s2.now);
                assert(s.finish[deps[j]] == ends[deps[j]]);
            }
        }
        assert forall|x: char| s2.taken.contains(x) && !s2.done.contains(x) implies #[trigger] s2.finish[x]
            >= s2.now by {
            assert(e <= s.finish[x]);
        }
    } else {
        assert(s2.now == t);
        assert forall|x: char| g.dom().contains(x) && !s2.taken.contains(x) implies #[trigger] starts_now(
            g,
            s2,
            ends,
            x,
        ) by {
            let deps = g[x].deps;
            if forall|i: int|
                0 <= i < deps.len() ==> s2.taken.contains(#[trigger] deps[i]) && s2.finish[deps[i]] <= s2.now {
                assert(!r.contains(x));
                assert(!unblocked(g, done, x));
                let i = choose|i: int| 0 <= i < deps.len() && !done.contains(#[trigger] deps[i]);
                assert(s.taken.contains(deps[i]));
            }
        }
    }
}

/// Every step keeps a pool with a worker for every task on time.
pub proof fn lemma_run_on_time(g: Map<char, Task>, dur: Map<char, nat>, order: Seq<char>, s: Clock)
    requires
        valid(g, s),
        consistent(g),
        follows(g, order),
        forall|c: char| order.contains(c) <==> g.dom().contains(c),
        on_time(g, s, path_ends(g, dur, order)),
    ensures
        on_time(g, run(g, dur, s), path_ends(g, dur, order)),
    decreases measure(g, s),
{
    if running(g, s) {
        lemma_step_valid(g, dur, s);
        lemma_step_decreases(g, dur, s);
        if exists|c: char|
            ready(
                g,
                s.taken,
                s.done.union(
                    due(s.taken, s.done, s.finish, later(s.workers[first_min(s.workers)], s.now)),
                ),
            ).contains(c) {
            lemma_assign_on_time(g, dur, order, s);
        } else {
            lemma_wait_on_time(g, dur, order, s);
        }
        lemma_run_on_time(g, dur, order, step(g, dur, s));
    }
}

/// A pool with a worker for every task is done exactly when the critical
/// path is: no task waits for a worker.
pub proof fn lemma_large_pool_needs_the_critical_path(
    g: Map<char, Task>,
    dur: Map<char, nat>,
    order: Seq<char>,
    n: nat,
)
    requires
        is_schedule(g, order),
        n >= 1,
        n >= g.dom().len(),
    ensures
        elapsed(g, n, dur) == critical_path(g, dur, order),
{
    lemma_schedule(g, order);
    lemma_pool_needs_the_critical_path(g, dur, order, n);
    let ends = path_ends(g, dur, order);
    let s0 = start(n);
    assert(on_time(g, s0, ends)) by {
        assert forall|c: char| g.dom().contains(c) && !s0.taken.contains(c) implies #[trigger] starts_now(
            g,
            s0,
            ends,
            c,
        ) by {
            if g[c].deps.len() > 0 {
                assert(!s0.taken.contains(g[c].deps[0]));
            } else {
                lemma_latest(ends, g[c].deps);
            }
        }
    }
    lemma_run_on_time(g, dur, order, s0);
    lemma_run_ends(g, dur, s0);
    let last = run(g, dur, s0);
    lemma_all_taken(g, last);
    lemma_latest(ends, order);
    assert forall|i: int| 0 <= i < last.workers.len() implies last.workers[i] <= critical_path(
        g,
        dur,
        order,
    ) by {
        if last.workers[i] != 0 {
            let c = choose|c: char| last.taken.contains(c) && last.workers[i] == #[trigger] last.finish[c];
            assert(order.contains(c));
            let k = choose|k: int| 0 <= k < order.len() && order[k] == c;
            assert(ends[order[k]] <= latest(ends, order));
        }
    }
    lemma_max_of_within(last.workers, critical_path(g, dur, order));
}

/// With a worker for every task the time does not fall when durations
/// rise.
pub proof fn lemma_large_pool_time_grows_with_cost(
    g: Map<char, Task>,
    low: Map<char, nat>,
    high: Map<char, nat>,
    order: Seq<char>,
    n: nat,
)
    requires
        is_schedule(g, order),
        n >= 1,
        n >= g.dom().len(),
        forall|c: char| g.dom().contains(c) ==> low[c] <= high[c],
    ensures
        elapsed(g, n, low) <= elapsed(g, n, high),
{
    lemma_schedule(g, order);
    lemma_large_pool_needs_the_critical_path(g, low, order, n);
    lemma_large_pool_needs_the_critical_path(g, high, order, n);
    assert forall|i: int| 0 <= i < order.len() implies low[#[trigger] order[i]] <= high[order[i]] by {
        assert(order.contains(order[i]));
    }
    lemma_path_ends_grow(g, low, high, order);
}

/// A pool with a worker for every task is not slower than any pool.
pub proof fn lemma_large_pool_is_fastest(
    g: Map<char, Task>,
    dur: Map<char, nat>,
    order: Seq<char>,
    few: nat,
    many: nat,
)
    requires
        is_schedule(g, order),
        few >= 1,
        many >= 1,
        many >= g.dom().len(),
    ensures
        elapsed(g, many, dur) <= elapsed(g, few, dur),
{
    lemma_large_pool_needs_the_critical_path(g, dur, order, many);
    lemma_pool_needs_the_critical_path(g, dur, order, few);
}

/// More workers do not make the pool slower where the smaller pool is one
/// worker or the larger pool has a worker for every task.
pub proof fn lemma_time_falls_with_workers(
    g: Map<char, Task>,
    dur: Map<char, nat>,
    order: Seq<char>,
    few: nat,
    many: nat,
)
    requires
        is_schedule(g, order),
        1 <= few <= many,
        few == 1 || many >= g.dom().len(),
    ensures
        elapsed(g, many, dur) <= elapsed(g, few, dur),
{
    if few == 1 {
        lemma_pool_not_slower_than_one_worker(g, dur, order, many);
    } else {
        lemma_large_pool_is_fastest(g, dur, order, few, many);
    }
}

/// A cost that is nowhere lower does not make the pool faster where the
/// pool is one worker or has a worker for every task.
pub proof fn lemma_time_grows_with_cost(
    g: Map<char, Task>,
    low: Map<char, nat>,
    high: Map<char, nat>,
    order: Seq<char>,
    n: nat,
)
    requires
        is_schedule(g, order),
        n == 1 || (n >= 1 && n >= g.dom().len()),
        forall|c: char| g.dom().contains(c) ==> low[c] <= high[c],
    ensures
        elapsed(g, n, low) <= elapsed(g, n, high),
{
    if n == 1 {
        super::timing_laws::lemma_one_worker_time_grows_with_cost(g, low, high, order);
    } else {
        lemma_large_pool_time_grows_with_cost(g, low, high, order, n);
    }
}

/// The sum of the times `ws`.
pub open spec fn sum_of(ws: Seq<nat>) -> nat
    decreases ws.len(),
{
    if ws.len() == 0 {
        0
    } else {
        sum_of(ws.drop_last()) + ws.last()
    }
}

/// What one changed time changes in the sum.
pub proof fn lemma_sum_of_update(ws: Seq<nat>, i: int, v: nat)
    requires
        0 <= i < ws.len(),
    ensures
        sum_of(ws.update(i, v)) + ws[i] == sum_of(ws) + v,
    decreases ws.len(),
{
    let rest = ws.drop_last();
    if i < ws.len() - 1 {
        lemma_sum_of_update(rest, i, v);
        assert(ws.update(i, v).drop_last() =~= rest.update(i, v));
        assert(ws.update(i, v).last() == ws.last());
        assert(rest[i] == ws[i]);
    } else {
        assert(ws.update(i, v).drop_last() =~= rest);
        assert(ws.update(i, v).last() == v);
        assert(ws.last() == ws[i]);
    }
}

/// The sum of the times is at most the largest of them for each.
pub proof fn lemma_sum_of_bound(ws: Seq<nat>)
    ensures
        sum_of(ws) <= ws.len() * max_of(ws),
    decreases ws.len(),
{
    if ws.len() > 0 {
        let rest = ws.drop_last();
        lemma_sum_of_bound(rest);
        let m = max_of(ws);
        assert(max_of(rest) <= m && ws.last() <= m);
        assert(rest.len() * max_of(rest) <= rest.len() * m) by (nonlinear_arith)
            requires
                max_of(rest) <= m,
        ;
        assert(rest.len() * m + m == ws.len() * m) by (nonlinear_arith)
            requires
                rest.len() + 1 == ws.len(),
        ;
    } else {
        assert(ws.len() * max_of(ws) == 0) by (nonlinear_arith)
            requires
                ws.len() == 0,
        ;
    }
}

/// Nothing is left of the work when every task is taken.
pub proof fn lemma_total_left_none(order: Seq<char>, taken: Set<char>, dur: Map<char, nat>)
    requires
        forall|i: int| 0 <= i < order.len() ==> taken.contains(#[trigger] order[i]),
    ensures
        total_left(order, taken, dur) == 0,
    decreases order.len(),
{
    if order.len() > 0 {
        let rest = order.drop_last();
        assert forall|i: int| 0 <= i < rest.len() implies taken.contains(#[trigger] rest[i]) by {
            assert(rest[i] == order[i]);
        }
        lemma_total_left_none(rest, taken, dur);
        assert(order[order.len() - 1] == order.last());
    }
}

/// The workers are busy for as long as the tasks take that were given to
/// them: the work that is left and the times of the workers make up for all
/// the work.
pub proof fn lemma_run_does_the_work(g: Map<char, Task>, dur: Map<char, nat>, order: Seq<char>, s: Clock)
    requires
        is_canonical(g, order),
        valid(g, s),
        total(order, dur) <= total_left(order, s.taken, dur) + sum_of(s.workers),
    ensures
        total(order, dur) <= total_left(order, run(g, dur, s).taken, dur) + sum_of(run(g, dur, s).workers),
    decreases measure(g, s),
{
    if running(g, s) {
        lemma_prefix_is_ordered(g, order);
        lemma_step_valid(g, dur, s);
        lemma_step_decreases(g, dur, s);
        lemma_first_min(s.workers);
        let s2 = step(g, dur, s);
        let w = first_min(s.workers);
        let t = later(s.workers[w], s.now);
        let done = s.done.union(due(s.taken, s.done, s.finish, t));
        let r = ready(g, s.taken, done);
        assert(r.subset_of(g.dom()));
        vstd::set_lib::lemma_set_subset_finite(g.dom(), r);
        if exists|c: char| r.contains(c) {
            lemma_least(r);
            let c = least(r);
            lemma_total_left_insert(order, s.taken, dur, c);
            lemma_sum_of_update(s.workers, w, t + dur[c]);
        }
        lemma_run_does_the_work(g, dur, order, s2);
    }
}

/// No pool is done before each worker has done its share: the time of the
/// pool for each of its workers is the sum of all durations at least.
pub proof fn lemma_pool_needs_its_share(g: Map<char, Task>, dur: Map<char, nat>, order: Seq<char>, n: nat)
    requires
        is_schedule(g, order),
        n >= 1,
    ensures
        total(order, dur) <= n * elapsed(g, n, dur),
{
    lemma_schedule(g, order);
    let s0 = start(n);
    lemma_total_left_all(order, dur);
    lemma_run_does_the_work(g, dur, order, s0);
    lemma_run_ends(g, dur, s0);
    let last = run(g, dur, s0);
    lemma_all_taken(g, last);
    assert forall|i: int| 0 <= i < order.len() implies last.taken.contains(#[trigger] order[i]) by {
        assert(order.contains(order[i]));
    }
    lemma_total_left_none(order, last.taken, dur);
    lemma_sum_of_bound(last.workers);
    lemma_workers_stay(g, dur, s0);
}

/// The pool keeps its workers.
pub proof fn lemma_workers_stay(g: Map<char, Task>, dur: Map<char, nat>, s: Clock)
    requires
        valid(g, s),
    ensures
        run(g, dur, s).workers.len() == s.workers.len(),
    decreases measure(g, s),
{
    if running(g, s) {
        lemma_step_valid(g, dur, s);
        lemma_step_decreases(g, dur, s);
        lemma_first_min(s.workers);
        lemma_workers_stay(g, dur, step(g, dur, s));
    }
}

} // verus!
