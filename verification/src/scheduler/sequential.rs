//! Sequential mode: one worker and no clock.

use super::codepoint::{code, lemma_code_names_one};
use super::error::SchedulerError;
use super::graph::Graph;
use super::laws::{
    lemma_complete_is_topological, lemma_prefix_is_ordered, lemma_sequential_is_topological,
    lemma_stalled_has_cycle, lemma_topological_implies_acyclic,
};
use super::order::{acyclic, is_canonical, is_canonical_prefix, is_least, is_topological_order, ready};
use super::walker::GraphWalker;
use crate::seqs::lemma_push_contains;
use vstd::prelude::*;

verus! {

broadcast use {vstd::std_specs::hash::group_hash_axioms, lemma_code_names_one};

/// A graph has as many tasks as its map has entries.
pub proof fn lemma_graph_size(graph: &Graph)
    requires
        graph.wf(),
    ensures
        graph@.dom().len() == graph.map@.dom().len(),
{
    let keys = graph.map@.dom();
    let name = |k: u32| k as char;
    assert forall|a: u32, b: u32| keys.contains(a) && keys.contains(b) && #[trigger] name(a) == #[trigger] name(
        b,
    ) implies a == b by {
        assert(code(graph.map@[a].name) == a);
        assert(code(graph.map@[b].name) == b);
    }
    assert(keys.map(name) =~= graph@.dom()) by {
        assert forall|c: char| keys.map(name).contains(c) <==> graph@.dom().contains(c) by {
            if graph@.dom().contains(c) {
                assert(keys.contains(code(c)) && name(code(c)) == c);
            }
            if keys.map(name).contains(c) {
                let k = choose|k: u32| keys.contains(k) && name(k) == c;
                assert(code(graph.map@[k].name) == k);
            }
        }
    }
    vstd::set_lib::lemma_map_size(keys, graph@.dom(), name);
}

/// The order in which one worker works off the graph when it always takes
/// the ready task with the smallest name: the canonical order.  Where tasks
/// wait for each other in a circle no order holds them all, and the walk is
/// reported as stalled.
pub fn part1(graph: &Graph) -> (r: Result<String, SchedulerError>)
    requires
        graph.wf(),
    ensures
        r is Ok <==> acyclic(graph@),
        r matches Ok(order) ==> is_canonical(graph@, order@) && is_topological_order(graph@, order@),
        r matches Err(e) ==> e == SchedulerError::Stalled,
{
    let (order, complete) = walk_order(graph);
    if complete {
        proof {
            lemma_sequential_is_topological(graph@, order@);
        }
        Ok(order)
    } else {
        Err(SchedulerError::Stalled)
    }
}

/// The canonical order of the graph as far as it goes, and whether it holds
/// every task.  One worker takes the ready task with the smallest name,
/// finishes it, and goes on until no task is ready.  Where tasks wait for
/// each other in a circle the order ends before them: it holds the tasks
/// that can be reached, and the walk has stalled.
pub fn walk_order(graph: &Graph) -> (r: (String, bool))
    requires
        graph.wf(),
    ensures
        is_canonical(graph@, r.0@),
        r.1 <==> acyclic(graph@),
        r.1 <==> r.0@.len() == graph@.dom().len(),
        r.1 <==> r.0@.to_set() == graph@.dom(),
{
    let mut res = String::new();
    let mut count: usize = 0;
    let mut walker = GraphWalker::new(graph);
    let total = graph.map.len();
    let ghost g = graph@;
    proof {
        lemma_graph_size(graph);
        assert(res@.to_set() =~= Set::empty());
    }

    loop
        invariant_except_break
            walker.taken@ == res@.to_set(),
        invariant
            graph.wf(),
            g == graph@,
            walker.wf(),
            walker.graph == graph,
            walker.done@ == res@.to_set(),
            count == res@.len(),
            is_canonical_prefix(g, res@),
            g.dom().len() == total,
        ensures
            is_canonical(g, res@),
        decreases g.dom().len() - res@.len(),
    {
        proof {
            lemma_prefix_is_ordered(g, res@);
            res@.unique_seq_to_set();
            vstd::set_lib::lemma_len_subset(res@.to_set(), g.dom());
        }
        let ghost before = res@;
        match walker.take_next() {
            Some(c) => {
                res.push(c);
                proof {
                    lemma_push_contains(before, c);
                    assert(res@.to_set() =~= before.to_set().insert(c));
                    assert forall|k: int| 0 <= k < res@.len() implies is_least(
                        ready(g, res@.take(k).to_set(), res@.take(k).to_set()),
                        #[trigger] res@[k],
                    ) by {
                        if k < before.len() {
                            assert(res@.take(k) =~= before.take(k));
                            assert(res@[k] == before[k]);
                        } else {
                            assert(res@.take(k) =~= before);
                        }
                    }
                    lemma_prefix_is_ordered(g, res@);
                    res@.unique_seq_to_set();
                    vstd::set_lib::lemma_len_subset(res@.to_set(), g.dom());
                }
                count += 1;
                walker.add_next_nodes(c);
            },
            None => {
                break ;
            },
        }
    }

    proof {
        lemma_prefix_is_ordered(g, res@);
        res@.unique_seq_to_set();
        assert(res@.to_set().subset_of(g.dom()));
    }
    let complete = count == total;
    proof {
        if complete {
            vstd::set_lib::lemma_subset_equality(res@.to_set(), g.dom());
            lemma_complete_is_topological(g, res@);
            lemma_topological_implies_acyclic(g, res@);
        } else {
            lemma_stalled_has_cycle(g, res@.to_set());
        }
    }
    (res, complete)
}

} // verus!
