//! The walker over a graph: it hands out the ready tasks, smallest name
//! first, and releases the tasks that wait for a finished one.

use super::codepoint::{code, lemma_code_names_one};
use super::graph::{consistent, Graph, Task};
use super::laws::lemma_follows_push;
use super::order::{
    follows, is_least, lemma_occurrences_take, lemma_unresolved_insert, lemma_unresolved_zero, ready, unblocked,
    unresolved,
};
use crate::seqs::{lemma_push_contains, lemma_remove_contains, occurrences};
use std::collections::HashMap;
use vstd::prelude::*;
use vstd::std_specs::iter::IteratorSpec;

verus! {

broadcast use {vstd::std_specs::hash::group_hash_axioms, lemma_code_names_one};

/// Takes the smallest character out of `queue`, if it holds any.
pub fn pop_smallest(queue: &mut Vec<char>) -> (r: Option<char>)
    ensures
        match r {
            None => old(queue)@.len() == 0 && final(queue)@ == old(queue)@,
            Some(c) => exists|at: int|
                0 <= at < old(queue)@.len() && old(queue)@[at] == c && final(queue)@ == old(queue)@.remove(at),
        },
        forall|i: int| 0 <= i < old(queue)@.len() ==> r.unwrap() as int <= old(queue)@[i] as int,
{
    if queue.len() == 0 {
        return None;
    }
    let mut best: usize = 0;
    for i in 1..queue.len()
        invariant
            0 <= best < queue.len(),
            *queue == *old(queue),
            forall|j: int| 0 <= j < i ==> queue@[best as int] as int <= queue@[j] as int,
    {
        if queue[i] < queue[best] {
            best = i;
        }
    }
    Some(queue.remove(best))
}

/// What holds of a walk between two operations: `queue` holds each ready
/// task once, a task that was handed out waits for nothing, and `counts`
/// tells of each blocked task how many of its constraints are unresolved.
pub open spec fn walk_inv(
    g: Map<char, Task>,
    taken: Set<char>,
    done: Set<char>,
    queue: Seq<char>,
    counts: Map<u32, usize>,
) -> bool {
    &&& done.subset_of(taken)
    &&& taken.subset_of(g.dom())
    &&& queue.no_duplicates()
    &&& forall|c: char| queue.contains(c) <==> ready(g, taken, done).contains(c)
    &&& forall|c: char| taken.contains(c) ==> unblocked(g, done, c)
    &&& forall|c: char|
        g.dom().contains(c) && !unblocked(g, done, c) ==> counts.contains_key(code(c)) && counts[code(c)]
            == unresolved(g[c].deps, done)
}

/// `k` is the code point of a task of `g` that waits for some task: the
/// table of counts holds these keys and no others.
pub open spec fn is_counted(g: Map<char, Task>, k: u32) -> bool {
    exists|c: char| code(c) == k && g.dom().contains(c) && g[c].deps.len() > 0
}

/// `k` is the code point of one of the tasks `next`.
pub open spec fn is_code_of(next: Seq<char>, k: u32) -> bool {
    exists|i: int| 0 <= i < next.len() && code(#[trigger] next[i]) == k
}

/// What holds while the task `u` is being finished, when the first `i` of
/// the tasks that wait for it have been told.
pub open spec fn release_inv(
    g: Map<char, Task>,
    taken: Set<char>,
    done: Set<char>,
    u: char,
    queue: Seq<char>,
    counts: Map<u32, usize>,
    i: int,
) -> bool {
    let told = g[u].next.take(i);
    &&& done.subset_of(taken)
    &&& taken.subset_of(g.dom())
    &&& taken.contains(u)
    &&& !done.contains(u)
    &&& 0 <= i <= g[u].next.len()
    &&& queue.no_duplicates()
    &&& forall|c: char| taken.contains(c) ==> unresolved(g[c].deps, done) == 0
    &&& forall|c: char|
        queue.contains(c) <==> g.dom().contains(c) && !taken.contains(c) && unresolved(g[c].deps, done)
            == occurrences(told, c)
    &&& forall|c: char|
        g.dom().contains(c) && unresolved(g[c].deps, done) > occurrences(told, c) ==> counts.contains_key(
            code(c),
        ) && counts[code(c)] == unresolved(g[c].deps, done) - occurrences(told, c)
}

/// A task is unblocked exactly when none of its constraints is unresolved.
pub proof fn lemma_unblocked_is_resolved(g: Map<char, Task>, done: Set<char>)
    ensures
        forall|c: char| g.dom().contains(c) ==> (unblocked(g, done, c) <==> unresolved(g[c].deps, done) == 0),
{
    assert forall|c: char| g.dom().contains(c) implies (unblocked(g, done, c) <==> unresolved(g[c].deps, done)
        == 0) by {
        lemma_unresolved_zero(g[c].deps, done);
    }
}

/// Finishing a task starts from the walk's own invariant.
pub proof fn lemma_release_start(
    g: Map<char, Task>,
    taken: Set<char>,
    done: Set<char>,
    u: char,
    queue: Seq<char>,
    counts: Map<u32, usize>,
)
    requires
        walk_inv(g, taken, done, queue, counts),
        taken.contains(u),
        !done.contains(u),
    ensures
        release_inv(g, taken, done, u, queue, counts, 0),
{
    lemma_unblocked_is_resolved(g, done);
    assert(g[u].next.take(0) =~= Seq::empty());
    assert forall|c: char|
        queue.contains(c) <==> g.dom().contains(c) && !taken.contains(c) && unresolved(g[c].deps, done)
            == occurrences(g[u].next.take(0), c) by {
        assert(queue.contains(c) <==> ready(g, taken, done).contains(c));
    }
}

/// Telling one more waiting task keeps the invariant: the task becomes ready
/// if this was its last unresolved constraint, and else has one less.
pub proof fn lemma_release_step(
    g: Map<char, Task>,
    taken: Set<char>,
    done: Set<char>,
    u: char,
    queue: Seq<char>,
    counts: Map<u32, usize>,
    i: int,
)
    requires
        consistent(g),
        release_inv(g, taken, done, u, queue, counts, i),
        i < g[u].next.len(),
    ensures
        ({
            let c = g[u].next[i];
            &&& counts.contains_key(code(c))
            &&& counts[code(c)] >= 1
            &&& counts[code(c)] == 1 ==> release_inv(g, taken, done, u, queue.push(c), counts, i + 1)
            &&& counts[code(c)] > 1 ==> release_inv(
                g,
                taken,
                done,
                u,
                queue,
                counts.insert(code(c), (counts[code(c)] - 1) as usize),
                i + 1,
            )
        }),
{
    let next = g[u].next;
    let c = next[i];
    let told = next.take(i);
    let told2 = next.take(i + 1);
    assert(g.dom().contains(c));
    assert forall|d: char| #[trigger]
        occurrences(told2, d) == occurrences(told, d) + if c == d { 1nat } else { 0nat } by {
        lemma_occurrences_take(next, i, d);
    }
    lemma_occurrences_take(next, i, c);
    lemma_unresolved_insert(g[c].deps, done, u);
    assert(occurrences(next, c) == occurrences(g[c].deps, u));
    assert(unresolved(g[c].deps, done) > occurrences(told, c));
    let v = counts[code(c)];
    assert(!queue.contains(c));
    assert(!taken.contains(c));
    if v == 1 {
        lemma_push_contains(queue, c);
        let q2 = queue.push(c);
        assert forall|d: char|
            q2.contains(d) <==> g.dom().contains(d) && !taken.contains(d) && unresolved(g[d].deps, done)
                == occurrences(told2, d) by {
            assert(q2.contains(d) <==> queue.contains(d) || d == c);
        }
        assert forall|d: char|
            g.dom().contains(d) && unresolved(g[d].deps, done) > occurrences(
                told2,
                d,
            ) implies counts.contains_key(code(d)) && counts[code(d)] == unresolved(g[d].deps, done)
            - occurrences(told2, d) by {
            assert(d != c);
        }
    } else {
        let counts2 = counts.insert(code(c), (v - 1) as usize);
        assert forall|d: char|
            g.dom().contains(d) && unresolved(g[d].deps, done) > occurrences(
                told2,
                d,
            ) implies counts2.contains_key(code(d)) && counts2[code(d)] == unresolved(g[d].deps, done)
            - occurrences(told2, d) by {
            if d != c {
                assert(code(d) != code(c));
            }
        }
    }
}

/// When every waiting task has been told, the task is finished and the
/// walk's own invariant holds again.
pub proof fn lemma_release_end(
    g: Map<char, Task>,
    taken: Set<char>,
    done: Set<char>,
    u: char,
    queue: Seq<char>,
    counts: Map<u32, usize>,
)
    requires
        consistent(g),
        release_inv(g, taken, done, u, queue, counts, g[u].next.len() as int),
    ensures
        walk_inv(g, taken, done.insert(u), queue, counts),
{
    let next = g[u].next;
    let done2 = done.insert(u);
    assert(next.take(next.len() as int) =~= next);
    lemma_unblocked_is_resolved(g, done2);
    assert forall|c: char| g.dom().contains(c) implies unresolved(g[c].deps, done2) == unresolved(
        g[c].deps,
        done,
    ) - occurrences(next, c) by {
        lemma_unresolved_insert(g[c].deps, done, u);
        assert(occurrences(next, c) == occurrences(g[c].deps, u));
    }
    assert forall|c: char| queue.contains(c) <==> ready(g, taken, done2).contains(c) by {
        if g.dom().contains(c) {
            assert(unblocked(g, done2, c) <==> unresolved(g[c].deps, done2) == 0);
        }
    }
    assert forall|c: char| taken.contains(c) implies unblocked(g, done2, c) by {
        assert(unresolved(g[c].deps, done) == 0);
    }
}

/// With nothing done, every constraint is unresolved.
pub proof fn lemma_unresolved_none(deps: Seq<char>)
    ensures
        unresolved(deps, Set::empty()) == deps.len(),
    decreases deps.len(),
{
    if deps.len() > 0 {
        lemma_unresolved_none(deps.drop_last());
    }
}

/// The walk over a graph: which tasks are ready, which were handed out, and
/// which are finished.
pub struct GraphWalker<'a> {
    pub graph: &'a Graph,
    /// For each task that still waits: for how many of its constraints.
    pub dep_map: HashMap<u32, usize>,
    /// The ready tasks.
    pub queue: Vec<char>,
    /// The tasks handed out so far.
    pub taken: Ghost<Set<char>>,
    /// The tasks finished so far.
    pub done: Ghost<Set<char>>,
    /// The tasks finished so far, in the order in which they were finished.
    pub finished: Ghost<Seq<char>>,
}

impl<'a> GraphWalker<'a> {
    pub open spec fn wf(&self) -> bool {
        &&& self.graph.wf()
        &&& walk_inv(self.graph@, self.taken@, self.done@, self.queue@, self.dep_map@)
        &&& follows(self.graph@, self.finished@)
        &&& forall|c: char| self.finished@.contains(c) <==> self.done@.contains(c)
        &&& forall|k: u32| #[trigger] self.dep_map@.contains_key(k) <==> is_counted(self.graph@, k)
    }

    /// The tasks that are ready and not handed out.
    pub open spec fn ready(&self) -> Set<char> {
        ready(self.graph@, self.taken@, self.done@)
    }

    /// Starts a walk over `graph`: the tasks that wait for nothing are
    /// ready, every other task waits for each of its constraints.
    pub fn new(graph: &'a Graph) -> (walker: Self)
        requires
            graph.wf(),
        ensures
            walker.wf(),
            walker.graph == graph,
            walker.taken@ == Set::<char>::empty(),
            walker.done@ == Set::<char>::empty(),
            walker.finished@ == Seq::<char>::empty(),
            walker.queue@.no_duplicates(),
            forall|c: char|
                walker.queue@.contains(c) <==> graph@.dom().contains(c) && graph@[c].deps.len() == 0,
            forall|k: u32| #[trigger] walker.dep_map@.contains_key(k) <==> is_counted(graph@, k),
            forall|c: char|
                graph@.dom().contains(c) && graph@[c].deps.len() > 0 ==> walker.dep_map@.contains_key(code(c))
                    && #[trigger] walker.dep_map@[code(c)] == graph@[c].deps.len(),
    {
        let mut dep_map: HashMap<u32, usize> = HashMap::new();
        let mut queue: Vec<char> = Vec::new();
        let ghost g = graph@;
        let ghost seen: Map<char, int> = Map::empty();

        for entry in it: graph.map.iter()
            invariant
                graph.wf(),
                g == graph@,
                it.seq() == vstd::std_specs::hash::spec_hash_map_iter(&graph.map).remaining(),
                it.seq().no_duplicates(),
                forall|c: char| #[trigger]
                    seen.contains_key(c) ==> 0 <= seen[c] < it.index() && it.seq()[seen[c]].1.name == c
                        && g.dom().contains(c),
                forall|j: int| 0 <= j < it.index() ==> seen.contains_key((#[trigger] it.seq()[j]).1.name),
                queue@.no_duplicates(),
                forall|c: char| queue@.contains(c) <==> seen.contains_key(c) && g[c].deps.len() == 0,
                forall|c: char|
                    seen.contains_key(c) && g[c].deps.len() > 0 ==> dep_map@.contains_key(code(c))
                        && dep_map@[code(c)] == g[c].deps.len(),
                forall|k: u32| #[trigger] dep_map@.contains_key(k) ==> is_counted(g, k),
        {
            let node = entry.1;
            proof {
                let n = it.index();
                assert(it.seq()[n] == entry);
                assert(graph.map@.contains_key(*entry.0) && graph.map@[*entry.0] == *entry.1);
                assert(code(node.name) == *entry.0);
                assert(g.dom().contains(node.name) && g[node.name] == node@);
                if seen.contains_key(node.name) {
                    let j = seen[node.name];
                    let other = it.seq()[j];
                    assert(graph.map@.contains_key(*other.0) && graph.map@[*other.0] == *other.1);
                    assert(code(other.1.name) == *other.0);
                    assert(other == it.seq()[n]);
                }
                lemma_push_contains(queue@, node.name);
                seen = seen.insert(node.name, n);
            }
            if node.dep_nodes.len() == 0 {
                // a source: it can start at once
                queue.push(node.name);
            } else {
                assert(is_counted(g, code(node.name)));
                dep_map.insert(node.name as u32, node.dep_nodes.len());
            }
        }

        let ghost nothing = Set::<char>::empty();
        let walker = GraphWalker {
            graph,
            dep_map,
            queue,
            taken: Ghost(nothing),
            done: Ghost(nothing),
            finished: Ghost(Seq::empty()),
        };
        proof {
            let all = vstd::std_specs::hash::spec_hash_map_iter(&graph.map).remaining();
            assert forall|c: char| g.dom().contains(c) implies seen.contains_key(c) by {
                let k = code(c);
                assert(all.contains((&k, &graph.map@[k])));
                let j = choose|j: int| 0 <= j < all.len() && all[j] == (&k, &graph.map@[k]);
                assert(all[j].1.name == c);
            }
            lemma_unblocked_is_resolved(g, nothing);
            assert forall|c: char| g.dom().contains(c) implies unresolved(g[c].deps, nothing)
                == g[c].deps.len() by {
                lemma_unresolved_none(g[c].deps);
            }
            assert forall|k: u32| is_counted(g, k) implies #[trigger] walker.dep_map@.contains_key(k) by {
                let c = choose|c: char| code(c) == k && g.dom().contains(c) && g[c].deps.len() > 0;
                assert(seen.contains_key(c));
            }
            assert forall|c: char| walker.queue@.contains(c) <==> ready(g, nothing, nothing).contains(c) by {
                if g.dom().contains(c) {
                    assert(seen.contains_key(c));
                    assert(unblocked(g, nothing, c) <==> unresolved(g[c].deps, nothing) == 0);
                } else {
                    assert(!seen.contains_key(c));
                }
            }
        }
        walker
    }

    /// Finishes the task `name`, which was handed out before: every
    /// constraint that waited for it is resolved, and each task whose last
    /// constraint this was becomes ready.
    pub fn add_next_nodes(&mut self, name: char)
        requires
            old(self).wf(),
            old(self).taken@.contains(name),
            !old(self).done@.contains(name),
        ensures
            final(self).wf(),
            final(self).graph == old(self).graph,
            final(self).taken@ == old(self).taken@,
            final(self).done@ == old(self).done@.insert(name),
            final(self).finished@ == old(self).finished@.push(name),
            final(self).dep_map@.dom() == old(self).dep_map@.dom(),
            forall|k: u32|
                #![trigger final(self).dep_map@[k]]
                old(self).dep_map@.contains_key(k) && !is_code_of(old(self).graph@[name].next, k) ==> final(self).dep_map@[k]
                    == old(self).dep_map@[k],
    {
        let graph = self.graph;
        let ghost g = graph@;
        let ghost done = self.done@;
        let ghost taken = self.taken@;
        let node = graph.map.get(&(name as u32)).unwrap();
        assert(g[name].next == node.next_nodes@);
        proof {
            lemma_release_start(g, taken, done, name, self.queue@, self.dep_map@);
        }

        for i in 0..node.next_nodes.len()
            invariant
                graph.wf(),
                g == graph@,
                self.graph == graph,
                self.done@ == done,
                self.taken@ == taken,
                self.finished@ == old(self).finished@,
                g[name].next == node.next_nodes@,
                release_inv(g, taken, done, name, self.queue@, self.dep_map@, i as int),
                self.dep_map@.dom() =~= old(self).dep_map@.dom(),
                forall|k: u32|
                    old(self).dep_map@.contains_key(k) && !is_code_of(g[name].next.take(i as int), k)
                        ==> #[trigger] self.dep_map@[k] == old(self).dep_map@[k],
        {
            let c = node.next_nodes[i];
            proof {
                lemma_release_step(g, taken, done, name, self.queue@, self.dep_map@, i as int);
                assert forall|k: u32| !is_code_of(g[name].next.take(i + 1), k) implies !is_code_of(
                    g[name].next.take(i as int),
                    k,
                ) && k != code(c) by {
                    if k == code(c) {
                        assert(g[name].next.take(i + 1)[i as int] == c);
                    }
                    if is_code_of(g[name].next.take(i as int), k) {
                        let j = choose|j: int|
                            0 <= j < g[name].next.take(i as int).len() && code(
                                #[trigger] g[name].next.take(i as int)[j],
                            ) == k;
                        assert(g[name].next.take(i + 1)[j] == g[name].next.take(i as int)[j]);
                    }
                }
            }
            let nb_deps = *self.dep_map.get(&(c as u32)).unwrap();
            if nb_deps == 1 {
                self.queue.push(c);
            } else {
                self.dep_map.insert(c as u32, nb_deps - 1);
            }
        }

        proof {
            assert(g[name].next.take(g[name].next.len() as int) =~= g[name].next);
            lemma_release_end(g, taken, done, name, self.queue@, self.dep_map@);
            assert(unblocked(g, done, name));
            lemma_follows_push(g, self.finished@, name);
            lemma_push_contains(self.finished@, name);
            self.done@ = done.insert(name);
            self.finished@ = self.finished@.push(name);
        }
    }

    /// Hands out the ready task with the smallest name, if any task is ready.
    /// The task is not finished by this: its successors stay blocked.
    pub fn take_next(&mut self) -> (r: Option<char>)
        requires
            old(self).wf(),
        ensures
            final(self).wf(),
            final(self).graph == old(self).graph,
            final(self).done@ == old(self).done@,
            final(self).finished@ == old(self).finished@,
            final(self).dep_map@ == old(self).dep_map@,
            match r {
                Some(c) => is_least(old(self).ready(), c) && final(self).taken@ == old(self).taken@.insert(c),
                None => old(self).ready() =~= Set::empty() && final(self).taken@ == old(self).taken@,
            },
    {
        let ghost before = self.queue@;
        let r = pop_smallest(&mut self.queue);
        match r {
            Some(c) => {
                proof {
                    let at = choose|at: int|
                        0 <= at < before.len() && before[at] == c && self.queue@ == before.remove(at);
                    assert(before.contains(c));
                    assert forall|d: char| old(self).ready().contains(d) implies c as int <= d as int by {
                        assert(before.contains(d));
                    }
                    lemma_remove_contains(before, at);
                    self.taken@ = self.taken@.insert(c);
                    lemma_take_keeps_walk(self.graph@, old(self).taken@, self.done@, before, self.dep_map@, at);
                }
            },
            None => {
                assert forall|d: char| !old(self).ready().contains(d) by {
                    if old(self).ready().contains(d) {
                        assert(before.contains(d));
                    }
                }
            },
        }
        r
    }
}

/// Handing out a ready task keeps the walk's invariant.
pub proof fn lemma_take_keeps_walk(
    g: Map<char, Task>,
    taken: Set<char>,
    done: Set<char>,
    queue: Seq<char>,
    counts: Map<u32, usize>,
    at: int,
)
    requires
        walk_inv(g, taken, done, queue, counts),
        0 <= at < queue.len(),
    ensures
        walk_inv(g, taken.insert(queue[at]), done, queue.remove(at), counts),
{
    let c = queue[at];
    let q2 = queue.remove(at);
    let taken2 = taken.insert(c);
    lemma_remove_contains(queue, at);
    assert(queue.contains(c));
    assert(ready(g, taken, done).contains(c));
    assert forall|d: char| q2.contains(d) <==> ready(g, taken2, done).contains(d) by {
        assert(queue.contains(d) <==> ready(g, taken, done).contains(d));
    }
}

} // verus!
