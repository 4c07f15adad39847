//! The dependency graph: tasks named by one character, each with the tasks
//! that wait for it and the tasks it waits for.

use super::codepoint::{code, lemma_code_names_one};
use crate::scan::{char_of, parse_char, scan, scanned, ParseError};
use crate::seqs::occurrences;
use std::collections::HashMap;
use vstd::prelude::*;

verus! {

broadcast use {vstd::std_specs::hash::group_hash_axioms, lemma_code_names_one};

/// One ordering constraint: `dep` must be finished before `step` can begin.
#[derive(Clone, Copy, Debug, PartialEq, Eq)]
pub struct Dep {
    pub step: char,
    pub dep: char,
}

/// The constraint that the fields of a scanned line hold: the task waited
/// for first, then the task that waits.
pub open spec fn dep_of_fields(fields: Seq<Seq<char>>) -> Result<Dep, ParseError> {
    if fields.len() < 1 || char_of(fields[0]) is None {
        Err(ParseError { field: 0 })
    } else if fields.len() < 2 || char_of(fields[1]) is None {
        Err(ParseError { field: 1 })
    } else {
        Ok(Dep { step: char_of(fields[1])->0, dep: char_of(fields[0])->0 })
    }
}

impl Dep {
    /// The constraint that scanned fields hold.
    pub fn from_fields(fields: &Vec<String>) -> (r: Result<Dep, ParseError>)
        ensures
            r == dep_of_fields(Seq::new(fields@.len(), |i: int| fields@[i]@)),
    {
        if fields.len() < 1 {
            return Err(ParseError { field: 0 });
        }
        let dep = match parse_char(fields[0].as_str()) {
            Some(c) => c,
            None => {
                return Err(ParseError { field: 0 });
            },
        };
        if fields.len() < 2 {
            return Err(ParseError { field: 1 });
        }
        match parse_char(fields[1].as_str()) {
            Some(step) => Ok(Dep { step, dep }),
            None => Err(ParseError { field: 1 }),
        }
    }

    /// Reads a line of the form
    /// `Step C must be finished before step A can begin.`
    pub fn from_str(s: &str) -> (r: Result<Dep, ParseError>)
        ensures
            r == dep_of_fields(scanned(s@, "Step {} must be finished before step {} can begin."@)),
    {
        let fields = scan(s, "Step {} must be finished before step {} can begin.");
        assert(Seq::new(fields@.len(), |i: int| fields@[i]@) =~= scanned(
            s@,
            "Step {} must be finished before step {} can begin."@,
        ));
        Dep::from_fields(&fields)
    }
}

/// A task as the contracts see it.
pub struct Task {
    /// The tasks that wait for this one, one entry per constraint, in the
    /// order of the constraints.
    pub next: Seq<char>,
    /// The tasks this one waits for, one entry per constraint, in the order
    /// of the constraints.
    pub deps: Seq<char>,
}

/// A task of the graph.
#[derive(Debug)]
pub struct Node {
    pub name: char,
    pub next_nodes: Vec<char>,
    pub dep_nodes: Vec<char>,
}

impl View for Node {
    type V = Task;

    open spec fn view(&self) -> Task {
        Task { next: self.next_nodes@, deps: self.dep_nodes@ }
    }
}

impl Node {
    /// What the task costs by its name alone: 1 for `A`, 2 for `B`, and so
    /// on through the code points.
    pub fn processing_cost(&self) -> (cost: u32)
        requires
            self.name >= 'A',
        ensures
            cost == code(self.name) - code('A') + 1,
    {
        (self.name as u32) - ('A' as u32) + 1
    }
}

/// The tasks that wait for `name` under the constraints `deps`.
pub open spec fn successors(deps: Seq<Dep>, name: char) -> Seq<char>
    decreases deps.len(),
{
    if deps.len() == 0 {
        Seq::empty()
    } else if deps.last().dep == name {
        successors(deps.drop_last(), name).push(deps.last().step)
    } else {
        successors(deps.drop_last(), name)
    }
}

/// The tasks that `name` waits for under the constraints `deps`.
pub open spec fn predecessors(deps: Seq<Dep>, name: char) -> Seq<char>
    decreases deps.len(),
{
    if deps.len() == 0 {
        Seq::empty()
    } else if deps.last().step == name {
        predecessors(deps.drop_last(), name).push(deps.last().dep)
    } else {
        predecessors(deps.drop_last(), name)
    }
}

/// The tasks that the constraints `deps` name, on either side.
pub open spec fn tasks_of(deps: Seq<Dep>) -> Set<char> {
    Set::new(
        |c: char|
            exists|i: int| 0 <= i < deps.len() && (#[trigger] deps[i].dep == c || deps[i].step == c),
    )
}

/// The graph that the constraints `deps` describe.
pub open spec fn graph_of(deps: Seq<Dep>) -> Map<char, Task> {
    Map::new(
        |c: char| tasks_of(deps).contains(c),
        |c: char| Task { next: successors(deps, c), deps: predecessors(deps, c) },
    )
}

/// A graph without dangling constraints: every task that is named as waiting
/// or waited for is a task of the graph, and `v` waits for `u` as often as
/// `u` is waited for by `v`.
pub open spec fn consistent(g: Map<char, Task>) -> bool {
    &&& g.dom().finite()
    &&& forall|u: char, i: int|
        g.dom().contains(u) && 0 <= i < g[u].next.len() ==> g.dom().contains(#[trigger] g[u].next[i])
    &&& forall|v: char, i: int|
        g.dom().contains(v) && 0 <= i < g[v].deps.len() ==> g.dom().contains(#[trigger] g[v].deps[i])
    &&& forall|u: char, v: char|
        g.dom().contains(u) && g.dom().contains(v) ==> #[trigger] occurrences(g[u].next, v)
            == occurrences(g[v].deps, u)
}

pub struct Graph {
    pub map: HashMap<u32, Node>,
}

impl View for Graph {
    type V = Map<char, Task>;

    open spec fn view(&self) -> Map<char, Task> {
        Map::new(
            |c: char| self.map@.contains_key(code(c)),
            |c: char| self.map@[code(c)]@,
        )
    }
}

impl Graph {
    /// Every node is stored under the code point of its own name.
    pub open spec fn keyed(&self) -> bool {
        forall|k: u32| #[trigger] self.map@.contains_key(k) ==> code(self.map@[k].name) == k
    }

    pub open spec fn wf(&self) -> bool {
        &&& self.keyed()
        &&& consistent(self@)
    }

    /// The node called `name`, added without constraints if the graph does not
    /// hold it yet.
    pub fn get_or_add_node(&mut self, name: char) -> (node: &mut Node)
        ensures
            old(self).map@.contains_key(code(name)) ==> *node == old(self).map@[code(name)],
            !old(self).map@.contains_key(code(name)) ==> node.name == name && node@ == (Task {
                next: Seq::empty(),
                deps: Seq::empty(),
            }),
            final(self).map@ == old(self).map@.insert(code(name), *final(node)),
    {
        self.map.entry(name as u32).or_insert(
            Node { name, next_nodes: Vec::new(), dep_nodes: Vec::new() },
        )
    }

    /// Builds the graph of the constraints `deps`: both sides of every
    /// constraint become tasks, and each task lists its constraints in the
    /// order in which `deps` gives them.
    pub fn new(deps: &Vec<Dep>) -> (graph: Graph)
        ensures
            graph.wf(),
            graph@ == graph_of(deps@),
    {
        let mut graph = Graph { map: HashMap::new() };

        for i in 0..deps.len()
            invariant
                graph.keyed(),
                graph@ =~~= graph_of(deps@.take(i as int)),
        {
            let dep = deps[i];
            proof {
                lemma_graph_of_push(deps@.take(i as int), dep);
                lemma_neighbours_are_tasks(deps@.take(i as int), dep.dep);
                lemma_neighbours_are_tasks(deps@.take(i as int), dep.step);
                assert(deps@.take(i as int).push(dep) =~= deps@.take(i + 1));
            }
            let ghost before = deps@.take(i as int);
            let ghost g0 = graph@;
            let ghost m0 = graph.map@;
            let node = graph.get_or_add_node(dep.dep);
            let ghost n0 = *node;
            assert(n0@.next == successors(before, dep.dep) && n0@.deps == predecessors(before, dep.dep)) by {
                if m0.contains_key(code(dep.dep)) {
                    assert(g0.dom().contains(dep.dep));
                    assert(g0[dep.dep] == n0@);
                } else {
                    assert(!g0.dom().contains(dep.dep));
                    assert(successors(before, dep.dep) =~= Seq::empty());
                    assert(predecessors(before, dep.dep) =~= Seq::empty());
                }
            }
            node.next_nodes.push(dep.step);
            let ghost n1 = *node;
            let ghost g1 = graph@;
            let ghost m1 = graph.map@;
            assert(m1 == m0.insert(code(dep.dep), n1));
            assert(forall|c: char| g1.dom().contains(c) <==> m1.contains_key(code(c)));
            assert(forall|c: char| g0.dom().contains(c) <==> m0.contains_key(code(c)));
            assert(g1.dom() =~= g0.dom().insert(dep.dep));
            assert(g1[dep.dep] == n1@);
            assert(g1[dep.dep].next =~= successors(before, dep.dep).push(dep.step));
            assert(g1[dep.dep].deps =~= predecessors(before, dep.dep));
            assert(forall|c: char| c != dep.dep && g0.dom().contains(c) ==> g1[c] == g0[c]);

            let node = graph.get_or_add_node(dep.step);
            let ghost n1b = *node;
            assert(n1b@.next == successors(before.push(dep), dep.step) && n1b@.deps == predecessors(
                before,
                dep.step,
            )) by {
                if m1.contains_key(code(dep.step)) {
                    assert(g1.dom().contains(dep.step));
                    assert(g1[dep.step] == n1b@);
                    if dep.step != dep.dep {
                        assert(g0.dom().contains(dep.step));
                    }
                } else {
                    assert(!g0.dom().contains(dep.step));
                    assert(successors(before, dep.step) =~= Seq::empty());
                    assert(predecessors(before, dep.step) =~= Seq::empty());
                }
            }
            node.dep_nodes.push(dep.dep);
            let ghost n2 = *node;
            let ghost g2 = graph@;
            assert(graph.map@ == m1.insert(code(dep.step), n2));
            assert(g2.dom() =~= g1.dom().insert(dep.step));
            assert(g2[dep.step] == n2@);
            assert(g2[dep.step].deps =~= predecessors(before, dep.step).push(dep.dep));
            assert(g2[dep.step].next =~= successors(before.push(dep), dep.step));
            assert(forall|c: char| c != dep.step && g1.dom().contains(c) ==> g2[c] == g1[c]);
            assert(graph.keyed());
        }
        proof {
            assert(deps@.take(deps.len() as int) =~= deps@);
            lemma_graph_of_consistent(deps@);
        }
        graph
    }
}

/// What one more constraint changes in the graph.
pub proof fn lemma_graph_of_push(deps: Seq<Dep>, d: Dep)
    ensures
        tasks_of(deps.push(d)) =~= tasks_of(deps).insert(d.dep).insert(d.step),
        forall|c: char| #[trigger]
            successors(deps.push(d), c) == if d.dep == c {
                successors(deps, c).push(d.step)
            } else {
                successors(deps, c)
            },
        forall|c: char| #[trigger]
            predecessors(deps.push(d), c) == if d.step == c {
                predecessors(deps, c).push(d.dep)
            } else {
                predecessors(deps, c)
            },
{
    let more = deps.push(d);
    assert(more.drop_last() =~= deps);
    assert(more.last() == d);
    assert forall|c: char| tasks_of(more).contains(c) implies tasks_of(deps).insert(d.dep).insert(
        d.step,
    ).contains(c) by {
        let i = choose|i: int| 0 <= i < more.len() && (#[trigger] more[i].dep == c || more[i].step == c);
        if i < deps.len() {
            assert(deps[i] == more[i]);
        }
    }
    assert forall|c: char| tasks_of(deps).insert(d.dep).insert(d.step).contains(
        c,
    ) implies tasks_of(more).contains(c) by {
        if tasks_of(deps).contains(c) {
            let i = choose|i: int| 0 <= i < deps.len() && (#[trigger] deps[i].dep == c || deps[i].step == c);
            assert(more[i] == deps[i]);
        } else {
            assert(more[deps.len() as int] == d);
        }
    }
}

/// Every task named by `successors` or `predecessors` is a task of the
/// constraints.
pub proof fn lemma_neighbours_are_tasks(deps: Seq<Dep>, c: char)
    ensures
        forall|i: int| 0 <= i < successors(deps, c).len() ==> tasks_of(deps).contains(#[trigger] successors(deps, c)[i]),
        forall|i: int| 0 <= i < predecessors(deps, c).len() ==> tasks_of(deps).contains(#[trigger] predecessors(deps, c)[i]),
        successors(deps, c).len() > 0 || predecessors(deps, c).len() > 0 ==> tasks_of(deps).contains(c),
    decreases deps.len(),
{
    if deps.len() > 0 {
        let rest = deps.drop_last();
        let d = deps.last();
        lemma_neighbours_are_tasks(rest, c);
        assert(rest.push(d) =~= deps);
        lemma_graph_of_push(rest, d);
    }
}

/// `v` waits for `u` exactly as often as `u` is waited for by `v`.
pub proof fn lemma_constraints_match(deps: Seq<Dep>, u: char, v: char)
    ensures
        occurrences(successors(deps, u), v) == occurrences(predecessors(deps, v), u),
    decreases deps.len(),
{
    if deps.len() > 0 {
        let rest = deps.drop_last();
        let d = deps.last();
        lemma_constraints_match(rest, u, v);
        if d.dep == u {
            assert(successors(rest, u).push(d.step).drop_last() =~= successors(rest, u));
        }
        if d.step == v {
            assert(predecessors(rest, v).push(d.dep).drop_last() =~= predecessors(rest, v));
        }
    }
}

/// The graph of any constraints is consistent.
pub proof fn lemma_graph_of_consistent(deps: Seq<Dep>)
    ensures
        consistent(graph_of(deps)),
{
    let g = graph_of(deps);
    lemma_tasks_of_finite(deps);
    assert(g.dom() =~= tasks_of(deps));
    assert forall|u: char, i: int| g.dom().contains(u) && 0 <= i < g[u].next.len() implies g.dom().contains(
        #[trigger] g[u].next[i],
    ) by {
        lemma_neighbours_are_tasks(deps, u);
    }
    assert forall|v: char, i: int| g.dom().contains(v) && 0 <= i < g[v].deps.len() implies g.dom().contains(
        #[trigger] g[v].deps[i],
    ) by {
        lemma_neighbours_are_tasks(deps, v);
    }
    assert forall|u: char, v: char| g.dom().contains(u) && g.dom().contains(v) implies #[trigger] occurrences(
        g[u].next,
        v,
    ) == occurrences(g[v].deps, u) by {
        lemma_constraints_match(deps, u, v);
    }
}

/// Finitely many constraints name finitely many tasks.
pub proof fn lemma_tasks_of_finite(deps: Seq<Dep>)
    ensures
        tasks_of(deps).finite(),
    decreases deps.len(),
{
    if deps.len() == 0 {
        assert(tasks_of(deps) =~= Set::empty());
    } else {
        lemma_tasks_of_finite(deps.drop_last());
        lemma_graph_of_push(deps.drop_last(), deps.last());
        assert(deps.drop_last().push(deps.last()) =~= deps);
    }
}

} // verus!
