//! Box labels of an inventory: a checksum over the letters that repeat, and
//! the two labels that differ by one letter.

use crate::scheduler::codepoint::{code, lemma_code_names_one};
use crate::seqs::{lemma_occurs_somewhere, occurrences};
use std::collections::HashMap;
use vstd::prelude::*;

verus! {

broadcast use {vstd::std_specs::hash::group_hash_axioms, lemma_code_names_one};

/// The characters of a text.
pub fn chars_of(text: &str) -> (chars: Vec<char>)
    ensures
        chars@ == text@,
{
    let mut chars: Vec<char> = Vec::new();
    for c in it: text.chars()
        invariant
            it.seq() == text@,
            chars@ == it.seq().take(it.index()),
    {
        proof {
            assert(it.seq().take(it.index() + 1) =~= it.seq().take(it.index()).push(c));
        }
        chars.push(c);
    }
    assert(text@.take(text@.len() as int) =~= text@);
    chars
}

/// The texts of some strings.
pub open spec fn texts(lines: Seq<String>) -> Seq<Seq<char>> {
    Seq::new(lines.len(), |i: int| lines[i]@)
}

/// The texts of some lists of characters.
pub open spec fn rows(lines: Seq<Vec<char>>) -> Seq<Seq<char>> {
    Seq::new(lines.len(), |i: int| lines[i]@)
}

/// The characters of each line.
pub fn all_chars(lines: &Vec<String>) -> (r: Vec<Vec<char>>)
    ensures
        rows(r@) == texts(lines@),
        r@.len() == lines@.len(),
        forall|j: int| 0 <= j < lines@.len() ==> (#[trigger] r@[j])@ == lines@[j]@,
{
    let mut r: Vec<Vec<char>> = Vec::new();
    for i in 0..lines.len()
        invariant
            r@.len() == i,
            forall|j: int| 0 <= j < i ==> (#[trigger] r@[j])@ == lines@[j]@,
    {
        r.push(chars_of(lines[i].as_str()));
    }
    assert(rows(r@) =~= texts(lines@));
    r
}

/// Some character occurs exactly `n` times in `line`.
pub open spec fn has_exactly(line: Seq<char>, n: nat) -> bool {
    exists|c: char| occurrences(line, c) == n
}

/// How many of the lines hold some character exactly `n` times.
pub open spec fn count_lines(lines: Seq<Seq<char>>, n: nat) -> nat
    decreases lines.len(),
{
    if lines.len() == 0 {
        0
    } else {
        count_lines(lines.drop_last(), n) + if has_exactly(lines.last(), n) { 1nat } else { 0nat }
    }
}

/// No more lines are counted than there are.
pub proof fn lemma_count_lines_bound(lines: Seq<Seq<char>>, n: nat)
    ensures
        count_lines(lines, n) <= lines.len(),
    decreases lines.len(),
{
    if lines.len() > 0 {
        lemma_count_lines_bound(lines.drop_last(), n);
    }
}

/// `counts` tells of every character how often it occurs in `line`, and
/// holds nothing for a character that does not occur.
pub open spec fn counted(counts: Map<u32, usize>, line: Seq<char>) -> bool {
    forall|c: char|
        (#[trigger] counts.contains_key(code(c)) <==> occurrences(line, c) > 0) && (counts.contains_key(
            code(c),
        ) ==> counts[code(c)] == occurrences(line, c))
}

/// A sequence holds nothing more often than it is long.
pub proof fn lemma_occurrences_bound(line: Seq<char>, c: char)
    ensures
        occurrences(line, c) <= line.len(),
    decreases line.len(),
{
    if line.len() > 0 {
        lemma_occurrences_bound(line.drop_last(), c);
    }
}

/// Counts how often each character occurs in `line`.
pub fn count_letters(line: &Vec<char>) -> (nb_occurs: HashMap<u32, usize>)
    ensures
        counted(nb_occurs@, line@),
{
    let mut nb_occurs: HashMap<u32, usize> = HashMap::new();
    for i in 0..line.len()
        invariant
            counted(nb_occurs@, line@.take(i as int)),
    {
        let letter = line[i];
        let ghost before = line@.take(i as int);
        let ghost counts0 = nb_occurs@;
        proof {
            assert(line@.take(i + 1).drop_last() =~= before);
            assert(line@.take(i + 1).last() == letter);
            lemma_occurrences_bound(before, letter);
            assert(counts0.contains_key(code(letter)) <==> occurrences(before, letter) > 0);
        }
        let counter = nb_occurs.entry(letter as u32).or_insert(0);
        *counter += 1;
        proof {
            assert forall|c: char|
                (#[trigger] nb_occurs@.contains_key(code(c)) <==> occurrences(line@.take(i + 1), c) > 0) && (
                nb_occurs@.contains_key(code(c)) ==> nb_occurs@[code(c)] == occurrences(
                    line@.take(i + 1),
                    c,
                )) by {
                assert(counts0.contains_key(code(c)) <==> occurrences(before, c) > 0);
                if c != letter {
                    assert(code(c) != code(letter));
                }
            }
        }
    }
    assert(line@.take(line@.len() as int) =~= line@);
    nb_occurs
}

/// Whether some character occurs exactly `n` times in `line`.
pub fn has_count(line: &Vec<char>, nb_occurs: &HashMap<u32, usize>, n: usize) -> (r: bool)
    requires
        counted(nb_occurs@, line@),
        n > 0,
    ensures
        r == has_exactly(line@, n as nat),
{
    for i in 0..line.len()
        invariant
            counted(nb_occurs@, line@),
            n > 0,
            forall|j: int| 0 <= j < i ==> occurrences(line@, #[trigger] line@[j]) != n,
    {
        let c = line[i];
        proof {
            assert(nb_occurs@.contains_key(code(c)) <==> occurrences(line@, c) > 0);
        }
        let found = match nb_occurs.get(&(c as u32)) {
            Some(nb_occur) => *nb_occur == n,
            None => false,
        };
        if found {
            return true;
        }
    }
    proof {
        if has_exactly(line@, n as nat) {
            let c = choose|c: char| occurrences(line@, c) == n;
            lemma_occurs_somewhere(line@, c);
            let j = choose|j: int| 0 <= j < line@.len() && line@[j] == c;
            assert(occurrences(line@, line@[j]) != n);
        }
    }
    false
}

/// The checksum of the labels: the number of labels that hold some letter
/// exactly twice, times the number of labels that hold some letter exactly
/// three times.
pub fn part1(lines: &Vec<String>) -> (checksum: u64)
    requires
        lines@.len() <= 0xffff_ffff,
    ensures
        checksum == count_lines(texts(lines@), 2) * count_lines(texts(lines@), 3),
{
    let mut nb_doubles: u64 = 0;
    let mut nb_triples: u64 = 0;
    let ghost all = texts(lines@);

    for i in 0..lines.len()
        invariant
            lines@.len() <= 0xffff_ffff,
            all == texts(lines@),
            nb_doubles == count_lines(all.take(i as int), 2),
            nb_triples == count_lines(all.take(i as int), 3),
    {
        let line = chars_of(lines[i].as_str());
        proof {
            assert(all.take(i + 1).drop_last() =~= all.take(i as int));
            assert(all.take(i + 1).last() == line@);
            lemma_count_lines_bound(all.take(i as int), 2);
            lemma_count_lines_bound(all.take(i as int), 3);
        }
        let nb_occurs = count_letters(&line);
        if has_count(&line, &nb_occurs, 2) {
            nb_doubles += 1;
        }
        if has_count(&line, &nb_occurs, 3) {
            nb_triples += 1;
        }
    }
    proof {
        assert(all.take(lines@.len() as int) =~= all);
        lemma_count_lines_bound(all, 2);
        lemma_count_lines_bound(all, 3);
        assert(nb_doubles * nb_triples <= 0xffff_ffff * 0xffff_ffff) by (nonlinear_arith)
            requires
                0 <= nb_doubles <= 0xffff_ffff,
                0 <= nb_triples <= 0xffff_ffff,
        ;
    }
    nb_doubles * nb_triples
}

/// The label at `j` without its letter at `p` is a label before it without
/// one of its letters.
pub open spec fn is_match(lines: Seq<Seq<char>>, j: int, p: int) -> bool {
    exists|k: int, q: int| is_match_with(lines, j, p, k, q)
}

/// The label at `j` without its letter at `p` is the label at `k` before it
/// without its letter at `q`.
pub open spec fn is_match_with(lines: Seq<Seq<char>>, j: int, p: int, k: int, q: int) -> bool {
    &&& 0 <= k < j
    &&& 0 <= q < lines[k].len()
    &&& lines[k].remove(q) == lines[j].remove(p)
}

/// Whether `a` without its element at `q` is `b` without its element at
/// `p`.
pub fn same_without(a: &Vec<char>, q: usize, b: &Vec<char>, p: usize) -> (r: bool)
    requires
        q < a@.len(),
        p < b@.len(),
    ensures
        r == (a@.remove(q as int) == b@.remove(p as int)),
{
    if a.len() != b.len() {
        assert(a@.remove(q as int).len() != b@.remove(p as int).len());
        return false;
    }
    let ghost left = a@.remove(q as int);
    let ghost right = b@.remove(p as int);
    let len = a.len() - 1;
    for i in 0..len
        invariant
            len == a@.len() - 1,
            q < a@.len(),
            p < b@.len(),
            a@.len() == b@.len(),
            left == a@.remove(q as int),
            right == b@.remove(p as int),
            forall|j: int| 0 <= j < i ==> left[j] == right[j],
    {
        let x = if i < q { a[i] } else { a[i + 1] };
        let y = if i < p { b[i] } else { b[i + 1] };
        assert(x == left[i as int] && y == right[i as int]);
        if x != y {
            assert(left[i as int] != right[i as int]);
            return false;
        }
    }
    assert(left =~= right);
    true
}

/// Whether the label at `j` without its letter at `p` is a label before it
/// without one of its letters.
pub fn seen_before(lines: &Vec<Vec<char>>, j: usize, p: usize) -> (r: bool)
    requires
        j < lines@.len(),
        p < lines@[j as int]@.len(),
    ensures
        r == is_match(rows(lines@), j as int, p as int),
{
    let ghost all = rows(lines@);
    for k in 0..j
        invariant
            j < lines@.len(),
            p < lines@[j as int]@.len(),
            all == rows(lines@),
            forall|kk: int, q: int| 0 <= kk < k ==> !is_match_with(all, j as int, p as int, kk, q),
    {
        let other = &lines[k];
        let len = other.len();
        for q in 0..len
            invariant
                other == &lines@[k as int],
                len == other@.len(),
                k < j < lines@.len(),
                p < lines@[j as int]@.len(),
                all == rows(lines@),
                forall|qq: int| 0 <= qq < q ==> !is_match_with(all, j as int, p as int, k as int, qq),
        {
            if same_without(other, q, &lines[j], p) {
                assert(is_match_with(all, j as int, p as int, k as int, q as int));
                return true;
            }
        }
    }
    false
}

/// `(j, p)` is the first label and, in it, the first letter such that the
/// label without the letter is a label before it without one of its
/// letters.
pub open spec fn is_first_match(lines: Seq<Seq<char>>, j: int, p: int) -> bool {
    &&& 0 <= j < lines.len()
    &&& 0 <= p < lines[j].len()
    &&& is_match(lines, j, p)
    &&& forall|jj: int, pp: int|
        0 <= jj < lines.len() && 0 <= pp < lines[jj].len() && (jj < j || (jj == j && pp < p)) ==> !is_match(
            lines,
            jj,
            pp,
        )
}

/// The letters that two labels have in common which are the same but for
/// one letter: the first label that is, without one of its letters, a label
/// before it without one of its letters.  None if there is no such label.
pub fn part2(lines: &Vec<String>) -> (r: Option<String>)
    ensures
        match r {
            Some(sig) => exists|j: int, p: int|
                is_first_match(texts(lines@), j, p) && sig@ == texts(lines@)[j].remove(p),
            None => forall|j: int, p: int|
                0 <= j < lines@.len() && 0 <= p < lines@[j]@.len() ==> !is_match(texts(lines@), j, p),
        },
{
    let all_lines = all_chars(lines);
    let ghost all = texts(lines@);
    for j in 0..all_lines.len()
        invariant
            all == texts(lines@),
            rows(all_lines@) == all,
            all_lines@.len() == lines@.len(),
            forall|i: int| 0 <= i < lines@.len() ==> (#[trigger] all_lines@[i])@ == lines@[i]@,
            forall|jj: int, pp: int| 0 <= jj < j && 0 <= pp < all[jj].len() ==> !is_match(all, jj, pp),
    {
        let line = &all_lines[j];
        assert(line@ == all[j as int]);
        let len = line.len();
        for p in 0..len
            invariant
                len == line@.len(),
                j < all_lines@.len(),
                line == &all_lines@[j as int],
                line@ == all[j as int],
                all == texts(lines@),
                rows(all_lines@) == all,
                all_lines@.len() == lines@.len(),
                forall|jj: int, pp: int| 0 <= jj < j && 0 <= pp < all[jj].len() ==> !is_match(all, jj, pp),
                forall|pp: int| 0 <= pp < p ==> !is_match(all, j as int, pp),
        {
            if seen_before(&all_lines, j, p) {
                let mut sig = String::new();
                for i in 0..len
                    invariant
                        len == line@.len(),
                        p < line@.len(),
                        sig@ == if i <= p {
                            line@.take(i as int)
                        } else {
                            line@.remove(p as int).take(i - 1)
                        },
                {
                    if i != p {
                        sig.push(line[i]);
                    }
                    proof {
                        if i < p {
                            assert(line@.take(i + 1) =~= line@.take(i as int).push(line@[i as int]));
                        } else if i == p {
                            assert(line@.remove(p as int).take(i as int) =~= line@.take(i as int));
                        } else {
                            assert(line@.remove(p as int).take(i as int) =~= line@.remove(p as int).take(
                                i - 1,
                            ).push(line@[i as int]));
                        }
                    }
                }
                proof {
                    assert(line@.remove(p as int).take(line@.len() - 1) =~= line@.remove(p as int));
                    assert(is_first_match(all, j as int, p as int));
                }
                return Some(sig);
            }
        }
    }
    None
}

} // verus!
