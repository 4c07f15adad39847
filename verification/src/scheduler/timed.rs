//! Timed mode: a pool of workers works off the graph in simulated time.

use super::clock::{
    due, elapsed, is_earliest, later, lemma_step_assigns, lemma_step_decreases, lemma_step_idles,
    lemma_step_valid, lemma_step_waits, measure, run, running, start, step, valid, Clock,
};
use super::codepoint::lemma_code_names_one;
use super::error::SchedulerError;
use super::graph::Graph;
use super::laws::{lemma_follows_is_topological, lemma_stalled_has_cycle, lemma_topological_implies_acyclic};
use super::order::{acyclic, ready};
use super::sequential::lemma_graph_size;
use super::walker::GraphWalker;
use super::workers::WorkersPool;
use crate::seqs::{lemma_push_contains, lemma_remove_contains};
use vstd::prelude::*;

verus! {

broadcast use {vstd::std_specs::hash::group_hash_axioms, lemma_code_names_one};

/// A task in work and the time at which it ends.
#[derive(Clone, Copy, Debug, PartialEq, Eq)]
pub struct ProcessingEnd {
    pub node: char,
    pub finished_on: u64,
}

/// The tasks of the entries of `queue`, in its order.
pub open spec fn nodes(queue: Seq<ProcessingEnd>) -> Seq<char> {
    Seq::new(queue.len(), |i: int| queue[i].node)
}

/// `queue` holds each task in work once, with the time at which it ends.
pub open spec fn serving(
    queue: Seq<ProcessingEnd>,
    taken: Set<char>,
    done: Set<char>,
    finish: Map<char, nat>,
) -> bool {
    &&& nodes(queue).no_duplicates()
    &&& forall|c: char| nodes(queue).contains(c) <==> taken.contains(c) && !done.contains(c)
    &&& forall|i: int| 0 <= i < queue.len() ==> (#[trigger] queue[i]).finished_on == finish[queue[i].node]
}

/// The place of the entry of `queue` that ends first; of several, the first.
pub fn earliest_end(queue: &Vec<ProcessingEnd>) -> (at: usize)
    requires
        queue@.len() > 0,
    ensures
        at < queue@.len(),
        forall|j: int| 0 <= j < queue@.len() ==> queue@[at as int].finished_on <= queue@[j].finished_on,
{
    let mut best: usize = 0;
    for i in 1..queue.len()
        invariant
            0 <= best < i,
            forall|j: int| 0 <= j < i ==> queue@[best as int].finished_on <= queue@[j].finished_on,
    {
        if queue[i].finished_on < queue[best].finished_on {
            best = i;
        }
    }
    best
}

/// Releases every task in work that has ended by `now`, earliest end first:
/// the walker finishes each, which makes the tasks ready that waited for it
/// alone.
fn release_finished<'a>(
    walker: &mut GraphWalker<'a>,
    processing_nodes: &mut Vec<ProcessingEnd>,
    now: u64,
    Ghost(finish): Ghost<Map<char, nat>>,
)
    requires
        old(walker).wf(),
        serving(old(processing_nodes)@, old(walker).taken@, old(walker).done@, finish),
    ensures
        final(walker).wf(),
        final(walker).graph == old(walker).graph,
        final(walker).taken@ == old(walker).taken@,
        final(walker).done@ == old(walker).done@.union(
            due(old(walker).taken@, old(walker).done@, finish, now as nat),
        ),
        serving(final(processing_nodes)@, final(walker).taken@, final(walker).done@, finish),
{
    let ghost taken = walker.taken@;
    let ghost done0 = walker.done@;
    let ghost released = due(taken, done0, finish, now as nat);
    loop
        invariant
            walker.wf(),
            walker.graph == old(walker).graph,
            walker.taken@ == taken,
            taken == old(walker).taken@,
            done0 == old(walker).done@,
            released == due(taken, done0, finish, now as nat),
            serving(processing_nodes@, taken, walker.done@, finish),
            done0.subset_of(walker.done@),
            walker.done@.subset_of(done0.union(released)),
        ensures
            forall|c: char| taken.contains(c) && !walker.done@.contains(c) ==> finish[c] > now,
        decreases processing_nodes@.len(),
    {
        if processing_nodes.len() == 0 {
            proof {
                assert forall|c: char| taken.contains(c) && !walker.done@.contains(c) implies finish[c]
                    > now by {
                    assert(nodes(processing_nodes@).contains(c));
                }
            }
            break ;
        }
        let at = earliest_end(processing_nodes);
        if processing_nodes[at].finished_on <= now {
            let ghost before = processing_nodes@;
            let p = processing_nodes.remove(at);
            proof {
                assert(nodes(before)[at as int] == p.node);
                assert(nodes(before).contains(p.node));
                lemma_remove_contains(nodes(before), at as int);
                assert(nodes(processing_nodes@) =~= nodes(before).remove(at as int));
                assert(released.contains(p.node));
            }
            walker.add_next_nodes(p.node);
        } else {
            proof {
                assert forall|c: char| taken.contains(c) && !walker.done@.contains(c) implies finish[c]
                    > now by {
                    assert(nodes(processing_nodes@).contains(c));
                    let j = choose|j: int|
                        0 <= j < nodes(processing_nodes@).len() && nodes(processing_nodes@)[j] == c;
                    assert(processing_nodes@[j].node == c);
                }
            }
            break ;
        }
    }
    assert(walker.done@ =~= done0.union(released));
}

/// The state of the simulation that the variables of `part2` stand for.
pub open spec fn clock_of(
    now: u64,
    workers: Seq<nat>,
    taken: Set<char>,
    done: Set<char>,
    finish: Map<char, nat>,
) -> Clock {
    Clock { now: now as nat, workers, taken, done, finish }
}

/// No time of `s` is after `limit`.
pub open spec fn within(s: Clock, limit: nat) -> bool {
    &&& s.now <= limit
    &&& forall|i: int| 0 <= i < s.workers.len() ==> #[trigger] s.workers[i] <= limit
    &&& forall|c: char| s.taken.contains(c) ==> #[trigger] s.finish[c] <= limit
}

/// `d` says of every task of `table` what `table` says.
pub open spec fn extends(d: Map<char, nat>, table: Map<char, nat>) -> bool {
    forall|c: char| #[trigger] table.contains_key(c) ==> d.contains_key(c) && d[c] == table[c]
}

/// What says all that `t2` says, says all that `t1` says, if `t2` does.
pub proof fn lemma_extends_twice(d: Map<char, nat>, t2: Map<char, nat>, t1: Map<char, nat>)
    requires
        extends(d, t2),
        extends(t2, t1),
    ensures
        extends(d, t1),
{
    assert forall|c: char| #[trigger] t1.contains_key(c) implies d.contains_key(c) && d[c] == t1[c] by {
        assert(t2.contains_key(c));
    }
}

/// For how long each task keeps a worker busy: its cost and the overhead.
pub open spec fn durations(costs: Map<char, u32>, overhead: u32) -> Map<char, nat> {
    Map::new(|c: char| costs.contains_key(c), |c: char| (costs[c] + overhead) as nat)
}

/// `costs` holds for each of `tasks` a cost that `cost` can return for it.
pub open spec fn priced<F: Fn(char) -> u32>(cost: F, tasks: Set<char>, costs: Map<char, u32>) -> bool {
    &&& costs.dom() == tasks
    &&& forall|c: char| tasks.contains(c) ==> call_ensures(cost, (c,), #[trigger] costs[c])
}

/// The time that a pool of `nb_workers` workers needs for the graph, where
/// the task `c` keeps a worker busy for `cost(c) + overhead`.  The pool must
/// have a worker, and where tasks wait for each other in a circle the
/// simulation is reported as stalled.
pub fn part2<F: Fn(char) -> u32>(graph: &Graph, nb_workers: u32, cost: F, overhead: u32) -> (r: Result<
    u64,
    SchedulerError,
>)
    requires
        graph.wf(),
        forall|c: char| graph@.dom().contains(c) ==> call_requires(cost, (c,)),
    ensures
        nb_workers == 0 ==> r == Err::<u64, SchedulerError>(SchedulerError::NoWorkers),
        nb_workers > 0 && !acyclic(graph@) ==> r == Err::<u64, SchedulerError>(SchedulerError::Stalled),
        nb_workers > 0 && acyclic(graph@) ==> exists|costs: Map<char, u32>|
            priced(cost, graph@.dom(), costs) && r is Ok && r->Ok_0 == elapsed(
                graph@,
                nb_workers as nat,
                durations(costs, overhead),
            ),
{
    if nb_workers == 0 {
        return Err(SchedulerError::NoWorkers);
    }
    let mut workers = WorkersPool::new(nb_workers);
    let mut processing_nodes: Vec<ProcessingEnd> = Vec::new();
    let mut walker = GraphWalker::new(graph);
    let mut current_time: u64 = 0;
    let mut started: usize = 0;
    let total = graph.map.len();
    let ghost g = graph@;
    let ghost n = nb_workers as nat;
    let ghost mut finish: Map<char, nat> = Map::empty();
    let ghost mut costs: Map<char, u32> = Map::empty();
    proof {
        lemma_graph_size(graph);
        super::codepoint::lemma_char_set_bound(g.dom());
        assert(clock_of(current_time, workers@, walker.taken@, walker.done@, finish) == start(n));
        assert(nodes(processing_nodes@) =~= Seq::empty());
    }

    while walker.queue.len() > 0 || processing_nodes.len() > 0
        invariant
            nb_workers > 0,
            n == nb_workers,
            graph.wf(),
            g == graph@,
            forall|c: char| g.dom().contains(c) ==> call_requires(cost, (c,)),
            total == g.dom().len(),
            total <= 0x110000,
            walker.wf(),
            walker.graph == graph,
            workers.workers@.len() == nb_workers,
            serving(processing_nodes@, walker.taken@, walker.done@, finish),
            valid(g, clock_of(current_time, workers@, walker.taken@, walker.done@, finish)),
            started == walker.taken@.len(),
            within(
                clock_of(current_time, workers@, walker.taken@, walker.done@, finish),
                (started * 0x2_0000_0000) as nat,
            ),
            priced(cost, walker.taken@, costs),
            forall|d: Map<char, nat>| #[trigger]
                extends(d, durations(costs, overhead)) ==> run(g, d, start(n)) == run(
                    g,
                    d,
                    clock_of(current_time, workers@, walker.taken@, walker.done@, finish),
                ),
        decreases measure(g, clock_of(current_time, workers@, walker.taken@, walker.done@, finish)),
    {
        let ghost s = clock_of(current_time, workers@, walker.taken@, walker.done@, finish);
        let ghost table = durations(costs, overhead);
        proof {
            if walker.queue.len() > 0 {
                assert(walker.queue@.contains(walker.queue@[0]));
                assert(ready(g, s.taken, s.done).contains(walker.queue@[0]));
            } else {
                let c = processing_nodes@[0].node;
                assert(nodes(processing_nodes@)[0] == c);
                assert(nodes(processing_nodes@).contains(c));
                assert(s.taken.contains(c) && !s.done.contains(c));
            }
            assert(running(g, s));
            vstd::set_lib::lemma_set_subset_finite(g.dom(), s.taken);
        }

        // advance in time to the next available worker
        let worker = workers.get_next_available_worker();
        let ghost w = super::clock::first_min(s.workers);
        if worker.available_at > current_time {
            current_time = worker.available_at;
        }
        let ghost t = later(s.workers[w], s.now);
        assert(current_time == t);
        assert(t <= started * 0x2_0000_0000) by {
            assert(s.workers[w] <= started * 0x2_0000_0000);
        }

        // release the tasks that have ended by then
        release_finished(&mut walker, &mut processing_nodes, current_time, Ghost(finish));
        let ghost done = walker.done@;

        // give the smallest ready task to the worker
        match walker.take_next() {
            Some(node) => {
                proof {
                    assert(ready(g, s.taken, done).contains(node));
                    vstd::set_lib::lemma_len_subset(s.taken.insert(node), g.dom());
                }
                let price = cost(node);
                let finished_on = current_time + price as u64 + overhead as u64;
                worker.available_at = finished_on;
                let ghost before = processing_nodes@;
                let ghost finish0 = finish;
                processing_nodes.push(ProcessingEnd { node, finished_on });
                started += 1;
                proof {
                    finish = finish.insert(node, finished_on as nat);
                    costs = costs.insert(node, price);
                    let table2 = durations(costs, overhead);
                    assert(!nodes(before).contains(node));
                    assert forall|i: int| 0 <= i < processing_nodes@.len() implies (
                    #[trigger] processing_nodes@[i]).finished_on == finish[processing_nodes@[i].node] by {
                        if i < before.len() {
                            assert(processing_nodes@[i] == before[i]);
                            assert(nodes(before)[i] == before[i].node);
                            assert(nodes(before).contains(before[i].node));
                        }
                    }
                    assert(extends(table2, table)) by {
                        assert forall|c: char| #[trigger] table.contains_key(c) implies table2.contains_key(c)
                            && table2[c] == table[c] by {
                            assert(s.taken.contains(c));
                        }
                    }
                    let s2 = clock_of(current_time, workers@, walker.taken@, walker.done@, finish);
                    assert(workers@ =~= s.workers.update(w, finished_on as nat));
                    lemma_step_assigns(g, table2, s, w, done, node);
                    assert(step(g, table2, s) == s2);
                    lemma_step_valid(g, table2, s);
                    lemma_step_decreases(g, table2, s);
                    lemma_push_contains(nodes(before), node);
                    assert(nodes(processing_nodes@) =~= nodes(before).push(node));
                    vstd::set_lib::lemma_len_subset(s2.taken, g.dom());
                    assert forall|d: Map<char, nat>| #[trigger] extends(d, table2) implies run(g, d, start(n))
                        == run(g, d, s2) by {
                        lemma_extends_twice(d, table2, table);
                        lemma_step_assigns(g, d, s, w, done, node);
                        assert(table2.contains_key(node));
                        assert(d[node] == table2[node]);
                    }
                }
            },
            None => {
                // no task is ready: advance to the next end of a task in work
                if processing_nodes.len() > 0 {
                    let at = earliest_end(&processing_nodes);
                    current_time = processing_nodes[at].finished_on;
                    proof {
                        let s2 = clock_of(current_time, workers@, walker.taken@, walker.done@, finish);
                        let e = current_time as nat;
                        assert(workers@ =~= s.workers);
                        assert(is_earliest(s.taken, done, finish, e)) by {
                            let c = processing_nodes@[at as int].node;
                            assert(nodes(processing_nodes@)[at as int] == c);
                            assert(nodes(processing_nodes@).contains(c));
                            assert(finish[c] == e);
                            assert forall|c2: char| s.taken.contains(c2) && !done.contains(c2) implies e
                                <= #[trigger] finish[c2] by {
                                assert(nodes(processing_nodes@).contains(c2));
                                let j = choose|j: int|
                                    0 <= j < nodes(processing_nodes@).len() && nodes(processing_nodes@)[j]
                                        == c2;
                                assert(processing_nodes@[j].node == c2);
                            }
                        }
                        lemma_step_waits(g, table, s, w, done, e);
                        assert(step(g, table, s) == s2);
                        lemma_step_valid(g, table, s);
                        lemma_step_decreases(g, table, s);
                        assert forall|d: Map<char, nat>| #[trigger] extends(d, table) implies run(
                            g,
                            d,
                            start(n),
                        ) == run(g, d, s2) by {
                            lemma_step_waits(g, d, s, w, done, e);
                        }
                    }
                } else {
                    proof {
                        let s2 = clock_of(current_time, workers@, walker.taken@, walker.done@, finish);
                        assert(workers@ =~= s.workers);
                        assert forall|c: char| s.taken.contains(c) implies done.contains(c) by {
                            if !done.contains(c) {
                                assert(nodes(processing_nodes@).contains(c));
                            }
                        }
                        lemma_step_idles(g, table, s, w, done);
                        assert(step(g, table, s) == s2);
                        lemma_step_valid(g, table, s);
                        lemma_step_decreases(g, table, s);
                        assert forall|d: Map<char, nat>| #[trigger] extends(d, table) implies run(
                            g,
                            d,
                            start(n),
                        ) == run(g, d, s2) by {
                            lemma_step_idles(g, d, s, w, done);
                        }
                    }
                }
            },
        }
    }

    let ghost last = clock_of(current_time, workers@, walker.taken@, walker.done@, finish);
    let ghost table = durations(costs, overhead);
    proof {
        assert forall|c: char| !ready(g, last.taken, last.done).contains(c) by {
            if ready(g, last.taken, last.done).contains(c) {
                assert(walker.queue@.contains(c));
            }
        }
        assert forall|c: char| last.taken.contains(c) implies last.done.contains(c) by {
            if !last.done.contains(c) {
                assert(nodes(processing_nodes@).contains(c));
            }
        }
        assert(last.taken =~= last.done);
        assert(!running(g, last));
        assert(extends(table, table));
        assert(run(g, table, last) == last);
        vstd::set_lib::lemma_set_subset_finite(g.dom(), last.taken);
    }
    // the final time is when the last worker is done
    if started == total {
        proof {
            vstd::set_lib::lemma_subset_equality(last.taken, g.dom());
            lemma_follows_is_topological(g, walker.finished@);
            lemma_topological_implies_acyclic(g, walker.finished@);
            assert(priced(cost, g.dom(), costs));
        }
        Ok(workers.get_final_time())
    } else {
        proof {
            lemma_stalled_has_cycle(g, last.done);
        }
        Err(SchedulerError::Stalled)
    }
}

} // verus!
