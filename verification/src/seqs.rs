//! Facts about sequences that hold each element once.

use vstd::prelude::*;

verus! {

/// How often `c` occurs in `s`.
pub open spec fn occurrences<A>(s: Seq<A>, c: A) -> nat
    decreases s.len(),
{
    if s.len() == 0 {
        0
    } else {
        occurrences(s.drop_last(), c) + if s.last() == c { 1nat } else { 0nat }
    }
}

/// What occurs in a sequence stands at some place of it.
pub proof fn lemma_occurs_somewhere<A>(s: Seq<A>, c: A)
    requires
        occurrences(s, c) > 0,
    ensures
        s.contains(c),
    decreases s.len(),
{
    if s.last() == c {
        assert(s[s.len() - 1] == c);
    } else {
        lemma_occurs_somewhere(s.drop_last(), c);
        let j = choose|j: int| 0 <= j < s.drop_last().len() && s.drop_last()[j] == c;
        assert(s[j] == c);
    }
}

/// What a sequence holds after one more element.
pub proof fn lemma_push_contains<A>(s: Seq<A>, x: A)
    ensures
        forall|d: A| s.push(x).contains(d) <==> s.contains(d) || d == x,
        s.no_duplicates() && !s.contains(x) ==> s.push(x).no_duplicates(),
{
    let t = s.push(x);
    assert forall|d: A| t.contains(d) <==> s.contains(d) || d == x by {
        if s.contains(d) {
            let j = choose|j: int| 0 <= j < s.len() && s[j] == d;
            assert(t[j] == d);
        }
        if d == x {
            assert(t[s.len() as int] == x);
        }
        if t.contains(d) {
            let j = choose|j: int| 0 <= j < t.len() && t[j] == d;
            if j < s.len() {
                assert(s[j] == d);
            }
        }
    }
    if s.no_duplicates() && !s.contains(x) {
        assert forall|i: int, j: int| 0 <= i < t.len() && 0 <= j < t.len() && i != j implies t[i] != t[j] by {
            if i < s.len() {
                assert(s[i] == t[i]);
            }
            if j < s.len() {
                assert(s[j] == t[j]);
            }
        }
    }
}

/// What a sequence without duplicates holds after one element left.
pub proof fn lemma_remove_contains<A>(s: Seq<A>, at: int)
    requires
        0 <= at < s.len(),
        s.no_duplicates(),
    ensures
        s.remove(at).no_duplicates(),
        forall|d: A| s.remove(at).contains(d) <==> s.contains(d) && d != s[at],
{
    let t = s.remove(at);
    assert forall|i: int, j: int| 0 <= i < t.len() && 0 <= j < t.len() && i != j implies t[i] != t[j] by {
        let i2 = if i < at { i } else { i + 1 };
        let j2 = if j < at { j } else { j + 1 };
        assert(t[i] == s[i2] && t[j] == s[j2]);
    }
    assert forall|d: A| t.contains(d) <==> s.contains(d) && d != s[at] by {
        if t.contains(d) {
            let j = choose|j: int| 0 <= j < t.len() && t[j] == d;
            let j2 = if j < at { j } else { j + 1 };
            assert(s[j2] == d);
        }
        if s.contains(d) && d != s[at] {
            let j = choose|j: int| 0 <= j < s.len() && s[j] == d;
            let j2 = if j < at { j } else { j - 1 };
            assert(t[j2] == d);
        }
    }
}

} // verus!
