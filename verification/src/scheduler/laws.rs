//! What holds of the canonical order: it is a topological order of every
//! graph without a cycle, the smallest of them in the dictionary, and the
//! only canonical one; and a graph with a cycle has none.

use super::graph::{consistent, graph_of, Dep, Graph, Task};
use super::order::{
    acyclic, follows, is_canonical, is_canonical_prefix, is_cycle, is_least, is_topological_order, lex_le,
    ready, unblocked, waits_for,
};
use vstd::prelude::*;

verus! {

/// Building a graph is idempotent: two graphs built from the same
/// constraints have the same tasks, and each task has the same successors
/// and the same predecessors in both, in the same order.
pub proof fn lemma_construction_is_idempotent(one: &Graph, two: &Graph, deps: Seq<Dep>)
    requires
        one@ == graph_of(deps),
        two@ == graph_of(deps),
    ensures
        one@ == two@,
        forall|c: char| one@.dom().contains(c) <==> two@.dom().contains(c),
        forall|c: char|
            one@.dom().contains(c) ==> one@[c].next == two@[c].next && one@[c].deps == two@[c].deps,
{
}

/// A start of the canonical order holds tasks of the graph only, none of
/// them twice, and none before or at the place of a task that it waits for.
pub proof fn lemma_prefix_is_ordered(g: Map<char, Task>, order: Seq<char>)
    requires
        is_canonical_prefix(g, order),
    ensures
        order.no_duplicates(),
        forall|c: char| order.contains(c) ==> g.dom().contains(c),
        forall|i: int, j: int| 0 <= i <= j < order.len() ==> !waits_for(g, order[i], order[j]),
{
    assert forall|i: int, j: int| 0 <= i < j < order.len() implies order[i] != order[j] by {
        let before = order.take(j).to_set();
        assert(ready(g, before, before).contains(order[j]));
        assert(order.take(j)[i] == order[i]);
        assert(order.take(j).contains(order[i]));
    }
    assert forall|c: char| order.contains(c) implies g.dom().contains(c) by {
        let k = choose|k: int| 0 <= k < order.len() && order[k] == c;
        let before = order.take(k).to_set();
        assert(ready(g, before, before).contains(order[k]));
    }
    assert forall|i: int, j: int| 0 <= i <= j < order.len() implies !waits_for(g, order[i], order[j]) by {
        if waits_for(g, order[i], order[j]) {
            let before = order.take(i).to_set();
            assert(ready(g, before, before).contains(order[i]));
            let at = choose|at: int| 0 <= at < g[order[i]].deps.len() && g[order[i]].deps[at] == order[j];
            assert(before.contains(g[order[i]].deps[at]));
            assert(order.take(i).contains(order[j]));
            let k = choose|k: int| 0 <= k < order.take(i).len() && order.take(i)[k] == order[j];
            assert(order[k] == order[j]);
        }
    }
}

/// A sequence that holds every task once, each after the tasks it waits
/// for, is a topological order.
pub proof fn lemma_follows_is_topological(g: Map<char, Task>, order: Seq<char>)
    requires
        follows(g, order),
        forall|c: char| order.contains(c) <==> g.dom().contains(c),
    ensures
        is_topological_order(g, order),
{
    assert forall|i: int, j: int| 0 <= i <= j < order.len() implies !waits_for(g, order[i], order[j]) by {
        if waits_for(g, order[i], order[j]) {
            let at = choose|at: int| 0 <= at < g[order[i]].deps.len() && g[order[i]].deps[at] == order[j];
            assert(order.take(i).contains(g[order[i]].deps[at]));
            let k = choose|k: int| 0 <= k < order.take(i).len() && order.take(i)[k] == order[j];
            assert(order[k] == order[j]);
        }
    }
}

/// One more task, all of whose prerequisites stand in `order`, can follow.
pub proof fn lemma_follows_push(g: Map<char, Task>, order: Seq<char>, c: char)
    requires
        follows(g, order),
        !order.contains(c),
        forall|at: int| 0 <= at < g[c].deps.len() ==> order.contains(#[trigger] g[c].deps[at]),
    ensures
        follows(g, order.push(c)),
{
    let more = order.push(c);
    crate::seqs::lemma_push_contains(order, c);
    assert forall|i: int, at: int| 0 <= i < more.len() && 0 <= at < g[more[i]].deps.len() implies more.take(
        i,
    ).contains(#[trigger] g[more[i]].deps[at]) by {
        if i < order.len() {
            assert(more[i] == order[i]);
            assert(more.take(i) =~= order.take(i));
        } else {
            assert(more.take(i) =~= order);
        }
    }
}

/// The canonical order holds a task exactly when it holds every task that
/// the task waits for: it ends before the tasks that wait for each other in
/// a circle, and before the tasks that wait for those.
pub proof fn lemma_order_holds_what_can_start(g: Map<char, Task>, order: Seq<char>)
    requires
        is_canonical(g, order),
    ensures
        forall|c: char|
            g.dom().contains(c) ==> (order.contains(c) <==> forall|i: int|
                0 <= i < g[c].deps.len() ==> order.contains(#[trigger] g[c].deps[i])),
{
    lemma_prefix_is_ordered(g, order);
    assert forall|c: char| g.dom().contains(c) implies (order.contains(c) <==> forall|i: int|
        0 <= i < g[c].deps.len() ==> order.contains(#[trigger] g[c].deps[i])) by {
        if order.contains(c) {
            let k = choose|k: int| 0 <= k < order.len() && order[k] == c;
            let before = order.take(k).to_set();
            assert(ready(g, before, before).contains(order[k]));
            assert forall|i: int| 0 <= i < g[c].deps.len() implies order.contains(#[trigger] g[c].deps[i]) by {
                assert(before.contains(g[c].deps[i]));
                assert(order.take(k).contains(g[c].deps[i]));
                let j = choose|j: int| 0 <= j < order.take(k).len() && order.take(k)[j] == g[c].deps[i];
                assert(order[j] == g[c].deps[i]);
            }
        } else if forall|i: int| 0 <= i < g[c].deps.len() ==> order.contains(#[trigger] g[c].deps[i]) {
            assert(unblocked(g, order.to_set(), c));
            assert(ready(g, order.to_set(), order.to_set()).contains(c));
        }
    }
}

/// The task that keeps `v` from starting when the tasks of `s` are done: one
/// that `v` waits for and that is not in `s`.
pub open spec fn blocker(g: Map<char, Task>, s: Set<char>, v: char) -> char {
    let i = choose|i: int| 0 <= i < g[v].deps.len() && !s.contains(#[trigger] g[v].deps[i]);
    g[v].deps[i]
}

/// From `v`, `n` steps from a task to the task that keeps it from starting.
pub open spec fn chase(g: Map<char, Task>, s: Set<char>, v: char, n: nat) -> Seq<char>
    decreases n,
{
    if n == 0 {
        seq![v]
    } else {
        let w = chase(g, s, v, (n - 1) as nat);
        w.push(blocker(g, s, w.last()))
    }
}

/// Where no task outside `s` is ready, such a chase never leaves the tasks
/// outside `s`, and each of its tasks waits for the next.
pub proof fn lemma_chase(g: Map<char, Task>, s: Set<char>, v: char, n: nat)
    requires
        consistent(g),
        forall|c: char| !ready(g, s, s).contains(c),
        g.dom().contains(v),
        !s.contains(v),
    ensures
        chase(g, s, v, n).len() == n + 1,
        forall|i: int|
            0 <= i <= n ==> g.dom().contains(#[trigger] chase(g, s, v, n)[i]) && !s.contains(
                chase(g, s, v, n)[i],
            ),
        forall|i: int| 0 <= i < n ==> waits_for(g, #[trigger] chase(g, s, v, n)[i], chase(g, s, v, n)[i + 1]),
    decreases n,
{
    if n > 0 {
        let w = chase(g, s, v, (n - 1) as nat);
        lemma_chase(g, s, v, (n - 1) as nat);
        let last = w.last();
        assert(last == w[n - 1]);
        assert(!ready(g, s, s).contains(last));
        assert(!unblocked(g, s, last));
        let b = blocker(g, s, last);
        let i = choose|i: int| 0 <= i < g[last].deps.len() && !s.contains(#[trigger] g[last].deps[i]);
        assert(b == g[last].deps[i]);
        assert(g.dom().contains(b));
        let w2 = w.push(b);
        assert(w2 == chase(g, s, v, n));
        assert forall|i: int| 0 <= i < n implies waits_for(g, #[trigger] w2[i], w2[i + 1]) by {
            if i < n - 1 {
                assert(w2[i] == w[i] && w2[i + 1] == w[i + 1]);
            } else {
                assert(w2[i] == last && w2[i + 1] == b);
            }
        }
        assert forall|i: int| 0 <= i <= n implies g.dom().contains(#[trigger] w2[i]) && !s.contains(w2[i]) by {
            if i < n {
                assert(w2[i] == w[i]);
            }
        }
    }
}

/// Where some task is left and none is ready, tasks wait for each other in
/// a circle.
pub proof fn lemma_stalled_has_cycle(g: Map<char, Task>, s: Set<char>)
    requires
        consistent(g),
        s.subset_of(g.dom()),
        s != g.dom(),
        forall|c: char| !ready(g, s, s).contains(c),
    ensures
        !acyclic(g),
{
    let left = g.dom().difference(s);
    assert(left.finite());
    if forall|c: char| !left.contains(c) {
        assert forall|c: char| g.dom().contains(c) implies s.contains(c) by {
            assert(!left.contains(c));
        }
        assert(s =~= g.dom());
    }
    let v = choose|c: char| left.contains(c);
    let n = left.len();
    let w = chase(g, s, v, n);
    lemma_chase(g, s, v, n);
    if w.no_duplicates() {
        w.unique_seq_to_set();
        assert forall|c: char| w.to_set().contains(c) implies left.contains(c) by {
            let i = choose|i: int| 0 <= i < w.len() && w[i] == c;
            assert(g.dom().contains(w[i]) && !s.contains(w[i]));
        }
        vstd::set_lib::lemma_len_subset(w.to_set(), left);
        assert(false);
    }
    let (i, j) = choose|i: int, j: int| 0 <= i < w.len() && 0 <= j < w.len() && i != j && w[i] == w[j];
    let (lo, hi) = if i < j { (i, j) } else { (j, i) };
    let round = w.subrange(lo, hi);
    assert forall|k: int| 0 <= k < round.len() - 1 implies waits_for(g, #[trigger] round[k], round[k + 1]) by {
        assert(round[k] == w[lo + k] && round[k + 1] == w[lo + k + 1]);
    }
    assert(round.last() == w[hi - 1]);
    assert(round[0] == w[lo]);
    assert(waits_for(g, w[hi - 1], w[hi]));
    assert(is_cycle(g, round));
}

/// Along a circle the places in a topological order can only go down.
proof fn lemma_chain_descends(g: Map<char, Task>, t: Seq<char>, w: Seq<char>, k: int)
    requires
        is_topological_order(g, t),
        is_cycle(g, w),
        0 <= k < w.len(),
    ensures
        t.contains(w[k]),
        t.contains(w[0]),
        t.index_of(w[k]) + k <= t.index_of(w[0]),
    decreases k,
{
    assert(g.dom().contains(w[0])) by {
        if w.len() == 1 {
            assert(w.last() == w[0]);
        }
    }
    assert(g.dom().contains(w[k])) by {
        if k == w.len() - 1 {
            assert(w.last() == w[k]);
        }
    }
    assert(t.contains(w[0]) && t.contains(w[k]));
    if k > 0 {
        lemma_chain_descends(g, t, w, k - 1);
        let i = t.index_of(w[k - 1]);
        let j = t.index_of(w[k]);
        assert(waits_for(g, w[k - 1], w[k]));
        assert(t[i] == w[k - 1] && t[j] == w[k]);
    }
}

/// A graph that has a topological order has no circle.
pub proof fn lemma_topological_implies_acyclic(g: Map<char, Task>, t: Seq<char>)
    requires
        is_topological_order(g, t),
    ensures
        acyclic(g),
{
    assert forall|w: Seq<char>| !is_cycle(g, w) by {
        if is_cycle(g, w) {
            let last = w.len() - 1;
            lemma_chain_descends(g, t, w, last);
            let i = t.index_of(w[last]);
            let j = t.index_of(w[0]);
            assert(t[i] == w[last] && t[j] == w[0]);
            assert(waits_for(g, w[last], w[0]));
        }
    }
}

/// A canonical order that holds every task is a topological order.
pub proof fn lemma_complete_is_topological(g: Map<char, Task>, order: Seq<char>)
    requires
        is_canonical(g, order),
        order.to_set() == g.dom(),
    ensures
        is_topological_order(g, order),
{
    lemma_prefix_is_ordered(g, order);
    assert forall|c: char| order.contains(c) <==> g.dom().contains(c) by {
        assert(order.to_set().contains(c) <==> order.contains(c));
    }
}

/// The canonical order of a graph without a circle visits every task once,
/// and each task after all the tasks that it waits for.
pub proof fn lemma_sequential_is_topological(g: Map<char, Task>, order: Seq<char>)
    requires
        consistent(g),
        acyclic(g),
        is_canonical(g, order),
    ensures
        is_topological_order(g, order),
{
    lemma_prefix_is_ordered(g, order);
    let s = order.to_set();
    assert(s.subset_of(g.dom()));
    if s != g.dom() {
        lemma_stalled_has_cycle(g, s);
    }
    lemma_complete_is_topological(g, order);
}

/// In a graph with a circle the canonical order leaves tasks out: the walk
/// ends with unfinished tasks and none ready.
pub proof fn lemma_cycle_stalls(g: Map<char, Task>, order: Seq<char>)
    requires
        consistent(g),
        !acyclic(g),
        is_canonical(g, order),
    ensures
        order.len() < g.dom().len(),
        order.to_set() != g.dom(),
{
    lemma_prefix_is_ordered(g, order);
    let s = order.to_set();
    assert(s.subset_of(g.dom()));
    order.unique_seq_to_set();
    vstd::set_lib::lemma_len_subset(s, g.dom());
    if s == g.dom() {
        lemma_complete_is_topological(g, order);
        lemma_topological_implies_acyclic(g, order);
    }
    if order.len() == g.dom().len() {
        vstd::set_lib::lemma_subset_equality(s, g.dom());
    }
}

/// Where the canonical order and a topological order agree on the first `k`
/// tasks, the canonical order is not behind in the dictionary.
proof fn lemma_smallest_from(g: Map<char, Task>, order: Seq<char>, t: Seq<char>, k: int)
    requires
        consistent(g),
        is_canonical(g, order),
        is_topological_order(g, t),
        order.len() == t.len(),
        0 <= k <= order.len(),
        order.take(k) =~= t.take(k),
    ensures
        lex_le(order, t),
    decreases order.len() - k,
{
    if k == order.len() {
        assert(order.take(k) =~= t.take(k));
    } else {
        let before = order.take(k).to_set();
        assert(is_least(ready(g, before, before), order[k]));
        assert(ready(g, before, before).contains(t[k])) by {
            assert(t.contains(t[k]));
            assert(!before.contains(t[k])) by {
                if t.take(k).contains(t[k]) {
                    let i = choose|i: int| 0 <= i < t.take(k).len() && t.take(k)[i] == t[k];
                    assert(t[i] == t[k]);
                }
            }
            assert forall|at: int| 0 <= at < g[t[k]].deps.len() implies before.contains(
                #[trigger] g[t[k]].deps[at],
            ) by {
                let d = g[t[k]].deps[at];
                assert(waits_for(g, t[k], d));
                assert(g.dom().contains(d));
                assert(t.contains(d));
                let j = choose|j: int| 0 <= j < t.len() && t[j] == d;
                assert(j < k);
                assert(t.take(k)[j] == d);
            }
        }
        if order[k] == t[k] {
            assert(order.take(k + 1) =~= order.take(k).push(order[k]));
            assert(t.take(k + 1) =~= t.take(k).push(t[k]));
            lemma_smallest_from(g, order, t, k + 1);
        } else {
            assert(order.take(k) =~= t.take(k));
        }
    }
}

/// Among all topological orders of a graph the canonical order is the
/// smallest in the dictionary.
pub proof fn lemma_sequential_is_smallest(g: Map<char, Task>, order: Seq<char>, t: Seq<char>)
    requires
        consistent(g),
        is_canonical(g, order),
        is_topological_order(g, t),
    ensures
        lex_le(order, t),
{
    lemma_topological_implies_acyclic(g, t);
    lemma_sequential_is_topological(g, order);
    order.unique_seq_to_set();
    t.unique_seq_to_set();
    assert(order.to_set() =~= t.to_set());
    assert(order.take(0) =~= t.take(0));
    lemma_smallest_from(g, order, t, 0);
}

/// Two starts of the canonical order agree as far as both go.
pub proof fn lemma_prefixes_agree(g: Map<char, Task>, a: Seq<char>, b: Seq<char>, k: int)
    requires
        is_canonical_prefix(g, a),
        is_canonical_prefix(g, b),
        0 <= k <= a.len(),
        k <= b.len(),
    ensures
        a.take(k) =~= b.take(k),
    decreases k,
{
    if k > 0 {
        lemma_prefixes_agree(g, a, b, k - 1);
        let before = a.take(k - 1).to_set();
        assert(b.take(k - 1).to_set() == before);
        assert(is_least(ready(g, before, before), a[k - 1]));
        assert(is_least(ready(g, before, before), b[k - 1]));
        assert(a[k - 1] as int == b[k - 1] as int);
        assert(a.take(k) =~= a.take(k - 1).push(a[k - 1]));
        assert(b.take(k) =~= b.take(k - 1).push(b[k - 1]));
    }
}

/// A graph has one canonical order only: building it twice gives the same
/// sequence.
pub proof fn lemma_canonical_is_unique(g: Map<char, Task>, a: Seq<char>, b: Seq<char>)
    requires
        is_canonical(g, a),
        is_canonical(g, b),
    ensures
        a == b,
{
    let k = if a.len() <= b.len() { a.len() as int } else { b.len() as int };
    lemma_prefixes_agree(g, a, b, k);
    if a.len() < b.len() {
        assert(a.take(k) =~= a);
        let before = b.take(k).to_set();
        assert(ready(g, before, before).contains(b[k]));
        assert(false);
    }
    if b.len() < a.len() {
        assert(b.take(k) =~= b);
        let before = a.take(k).to_set();
        assert(ready(g, before, before).contains(a[k]));
        assert(false);
    }
    assert(a.take(k) =~= a);
    assert(b.take(k) =~= b);
}

} // verus!
