//! Frequency changes: what they sum to, and the first frequency that is
//! reached twice when the list of changes is applied over and over.

use crate::scan::{parse_i32, signed_of};
use std::collections::HashSet;
use vstd::prelude::*;

verus! {

broadcast use vstd::std_specs::hash::group_hash_axioms;

/// What can keep the changes from being applied.
#[derive(Clone, Copy, Debug, PartialEq, Eq, Structural)]
pub enum FrequencyError {
    /// The line with this number, counted from 0, holds no change.
    Parse(usize),
    /// The frequency leaves the range of `i32` at the line with this number.
    Overflow(usize),
}

/// The change that a line holds.
pub open spec fn change_of(line: Seq<char>) -> Option<int> {
    signed_of(line, 0x8000_0000, 0x7fff_ffff)
}

/// The frequency `acc` after the change of the line at `i`.
pub open spec fn after_line(lines: Seq<Seq<char>>, i: int, acc: int) -> Result<int, FrequencyError> {
    match change_of(lines[i]) {
        None => Err(FrequencyError::Parse(i as usize)),
        Some(change) => if i32::MIN <= acc + change <= i32::MAX {
            Ok(acc + change)
        } else {
            Err(FrequencyError::Overflow(i as usize))
        },
    }
}

/// The frequency after the changes of the first `upto` lines, from 0.
pub open spec fn frequency_after(lines: Seq<Seq<char>>, upto: int) -> Result<int, FrequencyError>
    decreases upto,
{
    if upto <= 0 {
        Ok(0)
    } else {
        match frequency_after(lines, upto - 1) {
            Ok(acc) => after_line(lines, upto - 1, acc),
            Err(e) => Err(e),
        }
    }
}

/// The texts of some strings.
pub open spec fn texts(lines: Seq<String>) -> Seq<Seq<char>> {
    Seq::new(lines.len(), |i: int| lines[i]@)
}

/// Once a line cannot be applied, the list cannot.
pub proof fn lemma_error_stays(lines: Seq<Seq<char>>, k: int, upto: int)
    requires
        0 <= k <= upto,
        frequency_after(lines, k) is Err,
    ensures
        frequency_after(lines, upto) == frequency_after(lines, k),
    decreases upto - k,
{
    if k < upto {
        lemma_error_stays(lines, k, upto - 1);
    }
}

/// The frequency after all changes, from 0.
pub fn part1(lines: &Vec<String>) -> (r: Result<i32, FrequencyError>)
    ensures
        match r {
            Ok(res) => frequency_after(texts(lines@), lines@.len() as int) == Ok::<int, FrequencyError>(
                res as int,
            ),
            Err(e) => frequency_after(texts(lines@), lines@.len() as int) == Err::<int, FrequencyError>(e),
        },
{
    let mut res: i32 = 0;
    let ghost all = texts(lines@);
    for i in 0..lines.len()
        invariant
            all == texts(lines@),
            frequency_after(all, i as int) == Ok::<int, FrequencyError>(res as int),
    {
        assert(all[i as int] == lines@[i as int]@);
        let change = match parse_i32(lines[i].as_str()) {
            Some(v) => v,
            None => {
                proof {
                    lemma_error_stays(all, i as int + 1, lines@.len() as int);
                }
                return Err(FrequencyError::Parse(i));
            },
        };
        res = match res.checked_add(change) {
            Some(v) => v,
            None => {
                proof {
                    lemma_error_stays(all, i as int + 1, lines@.len() as int);
                }
                return Err(FrequencyError::Overflow(i));
            },
        };
    }
    Ok(res)
}

/// The frequency after all changes, from 0.
pub fn run(lines: &Vec<String>) -> (r: Result<i32, FrequencyError>)
    ensures
        match r {
            Ok(res) => frequency_after(texts(lines@), lines@.len() as int) == Ok::<int, FrequencyError>(
                res as int,
            ),
            Err(e) => frequency_after(texts(lines@), lines@.len() as int) == Err::<int, FrequencyError>(e),
        },
{
    part1(lines)
}

/// How a pass over the list, or the search, ends.
pub enum Search {
    /// This frequency was reached for the second time.
    Found(int),
    /// No frequency was reached twice: the frequency and the frequencies
    /// reached so far.
    Open(int, Set<int>),
    /// A line could not be applied.
    Failed(FrequencyError),
}

/// One pass over the list from the line at `i` on, with the frequency
/// `acc` and the frequencies `seen` so far.
pub open spec fn pass(lines: Seq<Seq<char>>, i: int, acc: int, seen: Set<int>) -> Search
    decreases lines.len() - i,
{
    if i < 0 || i >= lines.len() {
        Search::Open(acc, seen)
    } else {
        match after_line(lines, i, acc) {
            Err(e) => Search::Failed(e),
            Ok(next) => if seen.contains(next) {
                Search::Found(next)
            } else {
                pass(lines, i + 1, next, seen.insert(next))
            },
        }
    }
}

/// Up to `rounds` passes over the list, with the frequency `acc` and the
/// frequencies `seen` so far.
pub open spec fn passes(lines: Seq<Seq<char>>, rounds: nat, acc: int, seen: Set<int>) -> Search
    decreases rounds,
{
    if rounds == 0 {
        Search::Open(acc, seen)
    } else {
        match pass(lines, 0, acc, seen) {
            Search::Open(next, more) => passes(lines, (rounds - 1) as nat, next, more),
            end => end,
        }
    }
}

/// The first frequency that is reached twice when the list of changes is
/// applied over and over, from 0.  None if none is reached twice within
/// `max_rounds` passes over the list.
pub fn part2(lines: &Vec<String>, max_rounds: usize) -> (r: Result<Option<i32>, FrequencyError>)
    ensures
        match passes(texts(lines@), max_rounds as nat, 0, Set::empty()) {
            Search::Found(f) => r == Ok::<Option<i32>, FrequencyError>(Some(f as i32)) && i32::MIN <= f
                <= i32::MAX,
            Search::Open(_, _) => r == Ok::<Option<i32>, FrequencyError>(None),
            Search::Failed(e) => r == Err::<Option<i32>, FrequencyError>(e),
        },
{
    let mut acc: i32 = 0;
    let mut map: HashSet<i32> = HashSet::new();
    let ghost all = texts(lines@);
    let ghost mut seen: Set<int> = Set::empty();

    for round in 0..max_rounds
        invariant
            all == texts(lines@),
            forall|f: i32| map@.contains(f) <==> seen.contains(f as int),
            forall|f: int| seen.contains(f) ==> i32::MIN <= f <= i32::MAX,
            passes(all, max_rounds as nat, 0, Set::empty()) == passes(
                all,
                (max_rounds - round) as nat,
                acc as int,
                seen,
            ),
    {
        for i in 0..lines.len()
            invariant
                all == texts(lines@),
                forall|f: i32| map@.contains(f) <==> seen.contains(f as int),
                forall|f: int| seen.contains(f) ==> i32::MIN <= f <= i32::MAX,
                round < max_rounds,
                passes(all, max_rounds as nat, 0, Set::empty()) == (match pass(all, i as int, acc as int, seen) {
                    Search::Open(next, more) => passes(all, (max_rounds - round - 1) as nat, next, more),
                    end => end,
                }),
        {
            assert(all[i as int] == lines@[i as int]@);
            let change = match parse_i32(lines[i].as_str()) {
                Some(v) => v,
                None => {
                    return Err(FrequencyError::Parse(i));
                },
            };
            acc = match acc.checked_add(change) {
                Some(v) => v,
                None => {
                    return Err(FrequencyError::Overflow(i));
                },
            };
            if !map.insert(acc) {
                return Ok(Some(acc));
            }
            proof {
                seen = seen.insert(acc as int);
            }
        }
    }
    Ok(None)
}

} // verus!
