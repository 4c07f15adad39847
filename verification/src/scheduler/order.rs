//! What it means for a task to be ready, and for a sequence of tasks to be an
//! order in which the graph can be worked off.

use super::graph::Task;
use crate::seqs::occurrences;
use vstd::prelude::*;

verus! {

/// `v` is a task of `g` and every task it waits for is in `done`.
pub open spec fn unblocked(g: Map<char, Task>, done: Set<char>, v: char) -> bool {
    &&& g.dom().contains(v)
    &&& forall|i: int| 0 <= i < g[v].deps.len() ==> done.contains(#[trigger] g[v].deps[i])
}

/// The tasks that can start: unblocked by `done`, and not in `taken`.
pub open spec fn ready(g: Map<char, Task>, taken: Set<char>, done: Set<char>) -> Set<char> {
    Set::new(|v: char| unblocked(g, done, v) && !taken.contains(v))
}

/// `m` is the member of `s` with the smallest code point.
pub open spec fn is_least(s: Set<char>, m: char) -> bool {
    &&& s.contains(m)
    &&& forall|c: char| s.contains(c) ==> m as int <= c as int
}

/// `v` is a task of `g` that waits for `u`.
pub open spec fn waits_for(g: Map<char, Task>, v: char, u: char) -> bool {
    g.dom().contains(v) && g[v].deps.contains(u)
}

/// `order` is the start of the canonical order: each of its tasks is the
/// smallest among those that are ready once the tasks before it are done.
pub open spec fn is_canonical_prefix(g: Map<char, Task>, order: Seq<char>) -> bool {
    forall|k: int|
        0 <= k < order.len() ==> is_least(
            ready(g, order.take(k).to_set(), order.take(k).to_set()),
            #[trigger] order[k],
        )
}

/// `order` is the canonical order of `g`: it takes the smallest ready task at
/// every step and goes on until no task is ready.
pub open spec fn is_canonical(g: Map<char, Task>, order: Seq<char>) -> bool {
    &&& is_canonical_prefix(g, order)
    &&& forall|c: char| !ready(g, order.to_set(), order.to_set()).contains(c)
}

/// `order` holds every task of `g` once, and no task stands before, or at
/// the place of, a task that it waits for.
pub open spec fn is_topological_order(g: Map<char, Task>, order: Seq<char>) -> bool {
    &&& order.no_duplicates()
    &&& forall|c: char| order.contains(c) <==> g.dom().contains(c)
    &&& forall|i: int, j: int| 0 <= i <= j < order.len() ==> !waits_for(g, order[i], order[j])
}

/// `order` holds no task twice, and each of its tasks after all the tasks
/// that it waits for.
pub open spec fn follows(g: Map<char, Task>, order: Seq<char>) -> bool {
    &&& order.no_duplicates()
    &&& forall|i: int, at: int|
        0 <= i < order.len() && 0 <= at < g[order[i]].deps.len() ==> order.take(i).contains(
            #[trigger] g[order[i]].deps[at],
        )
}

/// Each task of `w` waits for the one after it, and the last for the first.
pub open spec fn is_cycle(g: Map<char, Task>, w: Seq<char>) -> bool {
    &&& w.len() >= 1
    &&& forall|i: int| 0 <= i < w.len() - 1 ==> waits_for(g, #[trigger] w[i], w[i + 1])
    &&& waits_for(g, w.last(), w[0])
}

/// No tasks of `g` wait for each other in a circle.
pub open spec fn acyclic(g: Map<char, Task>) -> bool {
    forall|w: Seq<char>| !is_cycle(g, w)
}

/// `a` comes before `b` in the dictionary, or is `b`: `a` is a prefix of
/// `b`, or has the smaller character at the first place where they differ.
pub open spec fn lex_le(a: Seq<char>, b: Seq<char>) -> bool {
    exists|k: int|
        0 <= k <= a.len() && k <= b.len() && #[trigger] a.take(k) =~= b.take(k) && (k == a.len() || (k
            < b.len() && (a[k] as int) < (b[k] as int)))
}

/// How many entries of `deps` are not in `done`.
pub open spec fn unresolved(deps: Seq<char>, done: Set<char>) -> nat
    decreases deps.len(),
{
    if deps.len() == 0 {
        0
    } else {
        unresolved(deps.drop_last(), done) + if done.contains(deps.last()) { 0nat } else { 1nat }
    }
}

/// Nothing is unresolved exactly when every entry is in `done`.
pub proof fn lemma_unresolved_zero(deps: Seq<char>, done: Set<char>)
    ensures
        unresolved(deps, done) == 0 <==> forall|i: int| 0 <= i < deps.len() ==> done.contains(#[trigger] deps[i]),
    decreases deps.len(),
{
    if deps.len() > 0 {
        let rest = deps.drop_last();
        lemma_unresolved_zero(rest, done);
        if unresolved(deps, done) == 0 {
            assert forall|i: int| 0 <= i < deps.len() implies done.contains(#[trigger] deps[i]) by {
                if i < rest.len() {
                    assert(rest[i] == deps[i]);
                }
            }
        } else if unresolved(rest, done) != 0 {
            let i = choose|i: int| 0 <= i < rest.len() && !done.contains(#[trigger] rest[i]);
            assert(deps[i] == rest[i]);
        }
    }
}

/// Finishing `u` resolves as many entries as `u` occurs in `deps`.
pub proof fn lemma_unresolved_insert(deps: Seq<char>, done: Set<char>, u: char)
    requires
        !done.contains(u),
    ensures
        unresolved(deps, done) == unresolved(deps, done.insert(u)) + occurrences(deps, u),
    decreases deps.len(),
{
    if deps.len() > 0 {
        lemma_unresolved_insert(deps.drop_last(), done, u);
    }
}

/// A prefix holds no more occurrences than the whole.
pub proof fn lemma_occurrences_take(s: Seq<char>, i: int, c: char)
    requires
        0 <= i <= s.len(),
    ensures
        occurrences(s.take(i), c) <= occurrences(s, c),
        i < s.len() ==> occurrences(s.take(i + 1), c) == occurrences(s.take(i), c) + if s[i] == c {
            1nat
        } else {
            0nat
        },
        i < s.len() ==> occurrences(s.take(i + 1), c) <= occurrences(s, c),
    decreases s.len() - i,
{
    if i == s.len() {
        assert(s.take(i) =~= s);
    } else {
        assert(s.take(i + 1).drop_last() =~= s.take(i));
        lemma_occurrences_take(s, i + 1, c);
    }
}

} // verus!
