//! Polymers: chains of units that react and vanish where two units of the
//! same type and opposite polarity meet.

use std::collections::HashMap;
use vstd::prelude::*;
use vstd::slice::slice_index_get;
use vstd::string::StringSliceAdditionalSpecFns;

verus! {

broadcast use vstd::std_specs::hash::group_hash_axioms;

/// Two units react: their codes differ by 32, as those of a letter and its
/// other case do.
pub open spec fn reacts(a: u8, b: u8) -> bool {
    a - b == 32 || b - a == 32
}

/// What is left of `input` when its units are added one by one and each
/// unit that reacts with the last one left takes that one with it.
pub open spec fn reduce(input: Seq<u8>) -> Seq<u8>
    decreases input.len(),
{
    if input.len() == 0 {
        Seq::empty()
    } else {
        let left = reduce(input.drop_last());
        if left.len() > 0 && reacts(left.last(), input.last()) {
            left.drop_last()
        } else {
            left.push(input.last())
        }
    }
}

/// The lower case of an ASCII capital letter, every other code as it is.
pub open spec fn lower(c: u8) -> u8 {
    if 0x41 <= c <= 0x5a {
        (c + 32) as u8
    } else {
        c
    }
}

/// `input` without the units of type `unit`, of either polarity.
pub open spec fn without(input: Seq<u8>, unit: u8) -> Seq<u8>
    decreases input.len(),
{
    if input.len() == 0 {
        Seq::empty()
    } else if lower(input.last()) != unit {
        without(input.drop_last(), unit).push(input.last())
    } else {
        without(input.drop_last(), unit)
    }
}

/// The length of what is left of `input` without the units of the type of
/// its unit at `i`.
pub open spec fn score(input: Seq<u8>, i: int) -> nat {
    reduce(without(input, lower(input[i]))).len()
}

/// What is left is no longer than what was there.
pub proof fn lemma_reduce_len(input: Seq<u8>)
    ensures
        reduce(input).len() <= input.len(),
    decreases input.len(),
{
    if input.len() > 0 {
        lemma_reduce_len(input.drop_last());
    }
}

/// The lower case of an ASCII capital letter, every other code as it is.
pub fn to_lower(c: u8) -> (r: u8)
    ensures
        r == lower(c),
{
    if 0x41 <= c && c <= 0x5a {
        c + 32
    } else {
        c
    }
}

/// The number of units that are left when all reactions are over.
pub fn react(input: &[u8]) -> (len: usize)
    ensures
        len == reduce(input@).len(),
{
    let mut seq: Vec<u8> = Vec::new();
    for i in 0..input.len()
        invariant
            seq@ == reduce(input@.take(i as int)),
    {
        let c = *slice_index_get(input, i);
        proof {
            assert(input@.take(i + 1).drop_last() =~= input@.take(i as int));
            assert(input@.take(i + 1).last() == c);
        }
        let mut reacted = false;
        if seq.len() > 0 {
            let prevc = seq[seq.len() - 1];
            let diff = if c > prevc { c - prevc } else { prevc - c };
            if diff == 32 {
                seq.pop();
                reacted = true;
            }
        }
        if !reacted {
            seq.push(c);
        }
    }
    assert(input@.take(input@.len() as int) =~= input@);
    seq.len()
}

/// The number of units that are left of the polymer `input`.
pub fn part1(input: &str) -> (len: usize)
    ensures
        len == reduce(input.spec_bytes()).len(),
{
    react(input.as_bytes())
}

/// The polymer `input` without the units of type `unit`, of either polarity.
pub fn polymer_without_unit(input: &str, unit: u8) -> (polymer: Vec<u8>)
    ensures
        polymer@ == without(input.spec_bytes(), unit),
{
    let bytes = input.as_bytes();
    let mut polymer: Vec<u8> = Vec::new();
    for i in 0..bytes.len()
        invariant
            bytes@ == input.spec_bytes(),
            polymer@ == without(bytes@.take(i as int), unit),
    {
        let c = *slice_index_get(bytes, i);
        proof {
            assert(bytes@.take(i + 1).drop_last() =~= bytes@.take(i as int));
            assert(bytes@.take(i + 1).last() == c);
        }
        if to_lower(c) != unit {
            polymer.push(c);
        }
    }
    assert(bytes@.take(bytes@.len() as int) =~= bytes@);
    polymer
}

/// The shortest that is left of the polymer `input` when all units of one
/// of its types are taken out before the reactions.
pub fn part2(input: &str) -> (min: usize)
    requires
        input.spec_bytes().len() > 0,
    ensures
        exists|i: int| 0 <= i < input.spec_bytes().len() && min == score(input.spec_bytes(), i),
        forall|i: int| 0 <= i < input.spec_bytes().len() ==> min <= score(input.spec_bytes(), i),
{
    let bytes = input.as_bytes();
    let mut size_without: HashMap<u8, usize> = HashMap::new();
    let mut min: usize = 0;
    let ghost mut at: int = 0;

    for k in 0..bytes.len()
        invariant
            bytes@ == input.spec_bytes(),
            forall|i: int| 0 <= i < k ==> size_without@.contains_key(lower(#[trigger] bytes@[i])),
            k > 0 ==> 0 <= at < k && min == score(bytes@, at),
            forall|i: int| 0 <= i < k ==> min <= score(bytes@, i),
            forall|c: u8| #[trigger]
                size_without@.contains_key(c) ==> exists|i: int| 0 <= i < k && lower(bytes@[i]) == c,
    {
        let c = to_lower(*slice_index_get(bytes, k));
        if size_without.contains_key(&c) {
            proof {
                let j = choose|j: int| 0 <= j < k && lower(bytes@[j]) == c;
                assert(score(bytes@, k as int) == score(bytes@, j));
            }
        } else {
            let polymer = polymer_without_unit(input, c);
            let score = react(polymer.as_slice());
            size_without.insert(c, score);
            if k == 0 || score < min {
                min = score;
                proof {
                    at = k as int;
                }
            }
        }
    }
    min
}

} // verus!
