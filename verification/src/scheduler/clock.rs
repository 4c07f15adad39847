//! The simulation of a pool of workers as the contracts see it: the state of
//! the simulated clock, one step of it, and the run to its end.

use super::graph::Task;
use super::order::{is_least, ready};
use vstd::prelude::*;

verus! {

/// The state of the simulation.
pub struct Clock {
    /// The simulated time.
    pub now: nat,
    /// For each worker the time at which it is free again.
    pub workers: Seq<nat>,
    /// The tasks given to a worker so far.
    pub taken: Set<char>,
    /// The tasks whose end has been released to the walker.
    pub done: Set<char>,
    /// For each task given to a worker the time at which it ends.
    pub finish: Map<char, nat>,
}

/// The state before the first step: time 0, `n` free workers, no task taken.
pub open spec fn start(n: nat) -> Clock {
    Clock {
        now: 0,
        workers: Seq::new(n, |i: int| 0nat),
        taken: Set::empty(),
        done: Set::empty(),
        finish: Map::empty(),
    }
}

/// A state of a simulation on `g`: there is a worker, only tasks of `g` are
/// taken, and only taken tasks are done.
pub open spec fn valid(g: Map<char, Task>, s: Clock) -> bool {
    &&& g.dom().finite()
    &&& s.workers.len() > 0
    &&& s.done.subset_of(s.taken)
    &&& s.taken.subset_of(g.dom())
    &&& s.taken.subset_of(s.finish.dom())
}

/// `i` is the first place of `ws` that holds its smallest time.
pub open spec fn is_first_min(ws: Seq<nat>, i: int) -> bool {
    &&& 0 <= i < ws.len()
    &&& forall|j: int| 0 <= j < ws.len() ==> ws[i] <= ws[j]
    &&& forall|j: int| 0 <= j < i ==> ws[i] < ws[j]
}

/// The worker that is free first; of several, the first in the pool.
pub open spec fn first_min(ws: Seq<nat>) -> int {
    choose|i: int| is_first_min(ws, i)
}

/// The later of two times.
pub open spec fn later(a: nat, b: nat) -> nat {
    if a > b {
        a
    } else {
        b
    }
}

/// The largest of the times `ws`, 0 if there is none.
pub open spec fn max_of(ws: Seq<nat>) -> nat
    decreases ws.len(),
{
    if ws.len() == 0 {
        0
    } else if ws.last() >= max_of(ws.drop_last()) {
        ws.last()
    } else {
        max_of(ws.drop_last())
    }
}

/// The member of `s` with the smallest code point.
pub open spec fn least(s: Set<char>) -> char {
    choose|m: char| is_least(s, m)
}

/// The tasks in work, that is taken and not done, that end at or before `t`.
pub open spec fn due(taken: Set<char>, done: Set<char>, finish: Map<char, nat>, t: nat) -> Set<char> {
    Set::new(|c: char| taken.contains(c) && !done.contains(c) && finish[c] <= t)
}

/// `t` is the earliest end among the tasks in work.
pub open spec fn is_earliest(taken: Set<char>, done: Set<char>, finish: Map<char, nat>, t: nat) -> bool {
    &&& exists|c: char| taken.contains(c) && !done.contains(c) && #[trigger] finish[c] == t
    &&& forall|c: char| taken.contains(c) && !done.contains(c) ==> t <= #[trigger] finish[c]
}

/// The earliest end among the tasks in work.
pub open spec fn earliest(taken: Set<char>, done: Set<char>, finish: Map<char, nat>) -> nat {
    choose|t: nat| is_earliest(taken, done, finish, t)
}

/// One turn of the simulation.  The clock goes on to the time at which the
/// next worker is free, if that is later.  Every task in work that has ended
/// by then is released.  If a task is ready then, the one with the smallest
/// name is given to that worker, which is busy for `dur` of the task.  If
/// none is ready, the clock goes on to the earliest end of a task in work.
pub open spec fn step(g: Map<char, Task>, dur: Map<char, nat>, s: Clock) -> Clock {
    let w = first_min(s.workers);
    let t = later(s.workers[w], s.now);
    let done = s.done.union(due(s.taken, s.done, s.finish, t));
    let r = ready(g, s.taken, done);
    if exists|c: char| r.contains(c) {
        let c = least(r);
        let end = t + dur[c];
        Clock {
            now: t,
            workers: s.workers.update(w, end),
            taken: s.taken.insert(c),
            done,
            finish: s.finish.insert(c, end),
        }
    } else if exists|c: char| s.taken.contains(c) && !done.contains(c) {
        Clock { now: earliest(s.taken, done, s.finish), done, ..s }
    } else {
        Clock { now: t, done, ..s }
    }
}

/// There is work left: a task is ready, or a task is in work.
pub open spec fn running(g: Map<char, Task>, s: Clock) -> bool {
    ||| exists|c: char| ready(g, s.taken, s.done).contains(c)
    ||| exists|c: char| s.taken.contains(c) && !s.done.contains(c)
}

/// What bounds the turns that are left: two for each task not taken, two
/// for each task not done, and one if no task in work has ended yet.
pub open spec fn measure(g: Map<char, Task>, s: Clock) -> nat {
    2 * g.dom().difference(s.taken).len() + 2 * g.dom().difference(s.done).len() + if exists|c: char|
        due(s.taken, s.done, s.finish, s.now).contains(c) {
        0nat
    } else {
        1nat
    }
}

/// Some member of a finite set that is not empty has the smallest value.
pub proof fn lemma_some_is_smallest(s: Set<char>, f: spec_fn(char) -> int)
    requires
        s.finite(),
        s.len() > 0,
    ensures
        exists|m: char| s.contains(m) && forall|c: char| s.contains(c) ==> f(m) <= #[trigger] f(c),
    decreases s.len(),
{
    let x = s.choose();
    let rest = s.remove(x);
    if rest.len() == 0 {
        assert forall|c: char| s.contains(c) implies f(x) <= #[trigger] f(c) by {
            if c != x {
                assert(rest.contains(c));
            }
        }
    } else {
        lemma_some_is_smallest(rest, f);
        let m = choose|m: char| rest.contains(m) && forall|c: char| rest.contains(c) ==> f(m) <= #[trigger] f(c);
        let best = if f(x) <= f(m) { x } else { m };
        assert forall|c: char| s.contains(c) implies f(best) <= #[trigger] f(c) by {
            if c != x {
                assert(rest.contains(c));
            }
        }
    }
}

/// A finite set of characters that is not empty has a least member, and
/// only one.
pub proof fn lemma_least(s: Set<char>)
    requires
        s.finite(),
        exists|c: char| s.contains(c),
    ensures
        is_least(s, least(s)),
        forall|m: char| is_least(s, m) ==> m == least(s),
{
    let f = |c: char| c as int;
    let c0 = choose|c: char| s.contains(c);
    assert(s.len() > 0) by {
        if s.len() == 0 {
            assert(s =~= Set::empty());
        }
    }
    lemma_some_is_smallest(s, f);
    let m = choose|m: char| s.contains(m) && forall|c: char| s.contains(c) ==> f(m) <= #[trigger] f(c);
    assert(is_least(s, m)) by {
        assert forall|c: char| s.contains(c) implies m as int <= c as int by {
            assert(f(m) <= f(c));
        }
    }
    assert forall|a: char| is_least(s, a) implies a == least(s) by {
        let b = least(s);
        assert(a as int <= b as int && b as int <= a as int);
    }
}

/// The least member of a set is the member that no other is below.
pub proof fn lemma_least_is(s: Set<char>, m: char)
    requires
        is_least(s, m),
    ensures
        least(s) == m,
{
    let b = least(s);
    assert(m as int <= b as int && b as int <= m as int);
}

/// The first smallest place is the place that is first and smallest.
pub proof fn lemma_first_min_is(ws: Seq<nat>, i: int)
    requires
        is_first_min(ws, i),
    ensures
        first_min(ws) == i,
{
    let j = first_min(ws);
    assert(is_first_min(ws, j));
    if j < i {
        assert(ws[i] < ws[j]);
    }
    if i < j {
        assert(ws[j] < ws[i]);
    }
}

/// Every pool with a worker has a first smallest place.
pub proof fn lemma_first_min(ws: Seq<nat>)
    requires
        ws.len() > 0,
    ensures
        is_first_min(ws, first_min(ws)),
    decreases ws.len(),
{
    if ws.len() == 1 {
        assert(is_first_min(ws, 0));
    } else {
        let rest = ws.drop_last();
        lemma_first_min(rest);
        let m = first_min(rest);
        let last = ws.len() - 1;
        if ws[last] < rest[m] {
            assert(is_first_min(ws, last)) by {
                assert forall|j: int| 0 <= j < ws.len() implies ws[last] <= ws[j] by {
                    if j < last {
                        assert(rest[j] == ws[j]);
                    }
                }
                assert forall|j: int| 0 <= j < last implies ws[last] < ws[j] by {
                    assert(rest[j] == ws[j]);
                }
            }
        } else {
            assert(is_first_min(ws, m)) by {
                assert forall|j: int| 0 <= j < ws.len() implies ws[m] <= ws[j] by {
                    if j < last {
                        assert(rest[j] == ws[j]);
                    }
                }
                assert forall|j: int| 0 <= j < m implies ws[m] < ws[j] by {
                    assert(rest[j] == ws[j]);
                }
            }
        }
    }
}

/// The earliest end is the end that a task in work has and none is before.
pub proof fn lemma_earliest_is(taken: Set<char>, done: Set<char>, finish: Map<char, nat>, t: nat)
    requires
        is_earliest(taken, done, finish, t),
    ensures
        earliest(taken, done, finish) == t,
{
    let e = earliest(taken, done, finish);
    assert(is_earliest(taken, done, finish, e));
    let c = choose|c: char| taken.contains(c) && !done.contains(c) && #[trigger] finish[c] == t;
    let d = choose|d: char| taken.contains(d) && !done.contains(d) && #[trigger] finish[d] == e;
    assert(e <= finish[c]);
    assert(t <= finish[d]);
}

/// Where a task is in work, there is an earliest end.
pub proof fn lemma_earliest(taken: Set<char>, done: Set<char>, finish: Map<char, nat>)
    requires
        taken.finite(),
        exists|c: char| taken.contains(c) && !done.contains(c),
    ensures
        is_earliest(taken, done, finish, earliest(taken, done, finish)),
{
    let left = taken.difference(done);
    let c0 = choose|c: char| taken.contains(c) && !done.contains(c);
    assert(left.contains(c0));
    assert(left.len() > 0) by {
        if left.len() == 0 {
            assert(left =~= Set::empty());
        }
    }
    let f = |c: char| finish[c] as int;
    lemma_some_is_smallest(left, f);
    let m = choose|m: char| left.contains(m) && forall|c: char| left.contains(c) ==> f(m) <= #[trigger] f(c);
    assert(is_earliest(taken, done, finish, finish[m])) by {
        assert forall|c: char| taken.contains(c) && !done.contains(c) implies finish[m]
            <= #[trigger] finish[c] by {
            assert(left.contains(c));
            assert(f(m) <= f(c));
        }
    }
}

/// A step leads from a state of the simulation to a state of the
/// simulation.
pub proof fn lemma_step_valid(g: Map<char, Task>, dur: Map<char, nat>, s: Clock)
    requires
        valid(g, s),
    ensures
        valid(g, step(g, dur, s)),
{
    lemma_first_min(s.workers);
    let w = first_min(s.workers);
    let t = later(s.workers[w], s.now);
    let done = s.done.union(due(s.taken, s.done, s.finish, t));
    let r = ready(g, s.taken, done);
    assert(r.subset_of(g.dom()));
    vstd::set_lib::lemma_set_subset_finite(g.dom(), r);
    if exists|c: char| r.contains(c) {
        lemma_least(r);
    }
}

/// Every step of a simulation with work left brings the end nearer.
pub proof fn lemma_step_decreases(g: Map<char, Task>, dur: Map<char, nat>, s: Clock)
    requires
        valid(g, s),
        running(g, s),
    ensures
        measure(g, step(g, dur, s)) < measure(g, s),
{
    lemma_first_min(s.workers);
    let s2 = step(g, dur, s);
    let w = first_min(s.workers);
    let t = later(s.workers[w], s.now);
    let released = due(s.taken, s.done, s.finish, t);
    let done = s.done.union(released);
    let r = ready(g, s.taken, done);
    let dom = g.dom();
    assert(r.subset_of(dom));
    vstd::set_lib::lemma_set_subset_finite(dom, r);
    vstd::set_lib::lemma_set_subset_finite(dom, s.taken);

    // the tasks not done: no more than before, and fewer if one was released
    assert(dom.difference(done).subset_of(dom.difference(s.done)));
    vstd::set_lib::lemma_len_subset(dom.difference(done), dom.difference(s.done));
    if exists|c: char| released.contains(c) {
        let c = choose|c: char| released.contains(c);
        dom.difference(done).lemma_subset_not_in_lt(dom.difference(s.done), c);
    } else {
        // nothing has ended by `t`, so nothing had ended by `s.now`
        assert forall|c: char| !due(s.taken, s.done, s.finish, s.now).contains(c) by {
            if due(s.taken, s.done, s.finish, s.now).contains(c) {
                assert(released.contains(c));
            }
        }
    }

    if exists|c: char| r.contains(c) {
        lemma_least(r);
        let c = least(r);
        assert(s2.taken == s.taken.insert(c));
        assert(dom.difference(s2.taken) =~= dom.difference(s.taken).remove(c));
        assert(dom.difference(s.taken).contains(c));
    } else if exists|c: char| s.taken.contains(c) && !done.contains(c) {
        lemma_earliest(s.taken, done, s.finish);
        let e = earliest(s.taken, done, s.finish);
        let c = choose|c: char| s.taken.contains(c) && !done.contains(c) && #[trigger] s.finish[c] == e;
        assert(s2.now == e);
        assert(due(s2.taken, s2.done, s2.finish, s2.now).contains(c));
    } else {
        if exists|c: char| s.taken.contains(c) && !s.done.contains(c) {
            let c = choose|c: char| s.taken.contains(c) && !s.done.contains(c);
            assert(done.contains(c));
            assert(released.contains(c));
        } else {
            let c = choose|c: char| ready(g, s.taken, s.done).contains(c);
            assert(r.contains(c));
        }
    }
}

/// The step that gives the task `c` to the worker `w`.
pub proof fn lemma_step_assigns(
    g: Map<char, Task>,
    dur: Map<char, nat>,
    s: Clock,
    w: int,
    done: Set<char>,
    c: char,
)
    requires
        is_first_min(s.workers, w),
        done =~= s.done.union(due(s.taken, s.done, s.finish, later(s.workers[w], s.now))),
        is_least(ready(g, s.taken, done), c),
    ensures
        step(g, dur, s) == (Clock {
            now: later(s.workers[w], s.now),
            workers: s.workers.update(w, later(s.workers[w], s.now) + dur[c]),
            taken: s.taken.insert(c),
            done,
            finish: s.finish.insert(c, later(s.workers[w], s.now) + dur[c]),
        }),
{
    lemma_first_min_is(s.workers, w);
    lemma_least_is(ready(g, s.taken, done), c);
}

/// The step that finds no task ready and goes on to the earliest end `e` of
/// a task in work.
pub proof fn lemma_step_waits(
    g: Map<char, Task>,
    dur: Map<char, nat>,
    s: Clock,
    w: int,
    done: Set<char>,
    e: nat,
)
    requires
        is_first_min(s.workers, w),
        done =~= s.done.union(due(s.taken, s.done, s.finish, later(s.workers[w], s.now))),
        forall|c: char| !ready(g, s.taken, done).contains(c),
        is_earliest(s.taken, done, s.finish, e),
    ensures
        step(g, dur, s) == (Clock { now: e, done, ..s }),
{
    lemma_first_min_is(s.workers, w);
    lemma_earliest_is(s.taken, done, s.finish, e);
    let c = choose|c: char| s.taken.contains(c) && !done.contains(c) && #[trigger] s.finish[c] == e;
    assert(s.taken.contains(c) && !done.contains(c));
}

/// The step that finds no task ready and none in work.
pub proof fn lemma_step_idles(g: Map<char, Task>, dur: Map<char, nat>, s: Clock, w: int, done: Set<char>)
    requires
        is_first_min(s.workers, w),
        done =~= s.done.union(due(s.taken, s.done, s.finish, later(s.workers[w], s.now))),
        forall|c: char| !ready(g, s.taken, done).contains(c),
        forall|c: char| s.taken.contains(c) ==> done.contains(c),
    ensures
        step(g, dur, s) == (Clock { now: later(s.workers[w], s.now), done, ..s }),
{
    lemma_first_min_is(s.workers, w);
}

/// The simulation from `s` to its end: steps as long as work is left.
pub open spec fn run(g: Map<char, Task>, dur: Map<char, nat>, s: Clock) -> Clock
    decreases measure(g, s),
    when valid(g, s)
    via run_ends
{
    if running(g, s) {
        run(g, dur, step(g, dur, s))
    } else {
        s
    }
}

#[via_fn]
proof fn run_ends(g: Map<char, Task>, dur: Map<char, nat>, s: Clock) {
    if running(g, s) {
        lemma_step_decreases(g, dur, s);
    }
}

/// The time at which the last of `n` workers is done when the pool works off
/// `g` and the task `c` keeps a worker busy for `dur[c]`.
pub open spec fn elapsed(g: Map<char, Task>, n: nat, dur: Map<char, nat>) -> nat {
    max_of(run(g, dur, start(n)).workers)
}

} // verus!
