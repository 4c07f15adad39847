//! Claims on a sheet of fabric: rectangles of square inches, counted per
//! square to find where claims overlap and which claim overlaps none.

use crate::scan::{parse_u32, scan, scanned, unsigned_of, ParseError};
use std::collections::HashMap;
use vstd::prelude::*;
use vstd::std_specs::iter::IteratorSpec;

verus! {

broadcast use vstd::std_specs::hash::group_hash_axioms;

#[derive(Clone, Copy, Debug, PartialEq, Eq)]
pub struct Claim {
    pub id: u32,
    pub x: u32,
    pub y: u32,
    pub width: u32,
    pub height: u32,
}

/// Walks the squares of a claim, column by column.
#[derive(Clone, Copy, Debug, PartialEq, Eq)]
pub struct ClaimIterator {
    pub x: u32,
    pub x2: u32,
    pub y: u32,
    pub y2: u32,
    pub yiter: u32,
}

/// The key under which the grid holds the square in column `x` and row `y`.
pub open spec fn key_of(x: u32, y: u32) -> u64 {
    (x * 0x1_0000_0000 + y) as u64
}

/// The column of the square with the key `k`.
pub open spec fn column_of(k: u64) -> int {
    k as int / 0x1_0000_0000
}

/// The row of the square with the key `k`.
pub open spec fn row_of(k: u64) -> int {
    k as int % 0x1_0000_0000
}

/// The claim holds the square with the key `k`.
pub open spec fn covers(c: Claim, k: u64) -> bool {
    &&& c.x <= column_of(k) < c.x + c.width
    &&& c.y <= row_of(k) < c.y + c.height
}

/// How many of the claims hold the square with the key `k`.
pub open spec fn cover_count(claims: Seq<Claim>, k: u64) -> nat
    decreases claims.len(),
{
    if claims.len() == 0 {
        0
    } else {
        cover_count(claims.drop_last(), k) + if covers(claims.last(), k) { 1nat } else { 0nat }
    }
}

/// The claim lies within the range of the coordinates.
pub open spec fn fits(c: Claim) -> bool {
    c.x + c.width <= u32::MAX && c.y + c.height <= u32::MAX
}

/// The grid holds for each square how many of the claims hold it, and
/// nothing for the squares that no claim holds.
pub open spec fn grid_of(grid: Map<u64, u32>, claims: Seq<Claim>) -> bool {
    forall|k: u64|
        (#[trigger] grid.contains_key(k) <==> cover_count(claims, k) > 0) && (grid.contains_key(k)
            ==> grid[k] == cover_count(claims, k))
}

/// No claim overlaps the claim at `i`.
pub open spec fn uncontested(claims: Seq<Claim>, i: int) -> bool {
    forall|k: u64| covers(claims[i], k) ==> #[trigger] cover_count(claims, k) == 1
}

/// No more claims hold a square than there are.
pub proof fn lemma_cover_count_bound(claims: Seq<Claim>, k: u64)
    ensures
        cover_count(claims, k) <= claims.len(),
    decreases claims.len(),
{
    if claims.len() > 0 {
        lemma_cover_count_bound(claims.drop_last(), k);
    }
}

/// The claim that the fields of a scanned line hold: its number, its left
/// and top edge, its width and height.
pub open spec fn claim_of_fields(fields: Seq<Seq<char>>) -> Result<Claim, ParseError> {
    match first_bad_field(fields, 5) {
        Some(field) => Err(ParseError { field: field as usize }),
        None => Ok(
            Claim {
                id: u32_of(fields[0])->0 as u32,
                x: u32_of(fields[1])->0 as u32,
                y: u32_of(fields[2])->0 as u32,
                width: u32_of(fields[3])->0 as u32,
                height: u32_of(fields[4])->0 as u32,
            },
        ),
    }
}

/// The `u32` that a field holds.
pub open spec fn u32_of(field: Seq<char>) -> Option<nat> {
    unsigned_of(field, 0xffff_ffff)
}

/// The first of the first `upto` fields that is missing or holds no `u32`.
pub open spec fn first_bad_field(fields: Seq<Seq<char>>, upto: int) -> Option<int>
    decreases upto,
{
    if upto <= 0 {
        None
    } else if first_bad_field(fields, upto - 1) is Some {
        first_bad_field(fields, upto - 1)
    } else if fields.len() < upto || u32_of(fields[upto - 1]) is None {
        Some(upto - 1)
    } else {
        None
    }
}

/// Reads the first `count` fields as `u32`; the number of the first field
/// that is missing or holds none is the error.
pub fn parse_u32_fields(fields: &Vec<String>, count: usize) -> (r: Result<Vec<u32>, ParseError>)
    ensures
        ({
            let all = Seq::new(fields@.len(), |i: int| fields@[i]@);
            match r {
                Ok(values) => first_bad_field(all, count as int) is None && values@.len() == count
                    && forall|i: int| 0 <= i < count ==> u32_of(all[i]) == Some(#[trigger] values@[i] as nat),
                Err(e) => first_bad_field(all, count as int) == Some(e.field as int),
            }
        }),
{
    let ghost all = Seq::new(fields@.len(), |i: int| fields@[i]@);
    let mut values: Vec<u32> = Vec::new();
    for k in 0..count
        invariant
            all == Seq::new(fields@.len(), |i: int| fields@[i]@),
            values@.len() == k,
            first_bad_field(all, k as int) is None,
            forall|i: int| 0 <= i < k ==> u32_of(all[i]) == Some(#[trigger] values@[i] as nat),
    {
        if fields.len() <= k {
            proof {
                lemma_first_bad_field_stays(all, k as int + 1, count as int);
            }
            return Err(ParseError { field: k });
        }
        match parse_u32(fields[k].as_str()) {
            Some(v) => {
                values.push(v);
            },
            None => {
                proof {
                    lemma_first_bad_field_stays(all, k as int + 1, count as int);
                }
                return Err(ParseError { field: k });
            },
        }
    }
    Ok(values)
}

/// The first bad field among some fields is the first bad field among more.
pub proof fn lemma_first_bad_field_stays(fields: Seq<Seq<char>>, k: int, upto: int)
    requires
        0 <= k <= upto,
        first_bad_field(fields, k) is Some,
    ensures
        first_bad_field(fields, upto) == first_bad_field(fields, k),
    decreases upto - k,
{
    if k < upto {
        lemma_first_bad_field_stays(fields, k, upto - 1);
    }
}

impl Claim {
    /// The claim that scanned fields hold.
    pub fn from_fields(fields: &Vec<String>) -> (r: Result<Claim, ParseError>)
        ensures
            r == claim_of_fields(Seq::new(fields@.len(), |i: int| fields@[i]@)),
    {
        match parse_u32_fields(fields, 5) {
            Ok(v) => Ok(Claim { id: v[0], x: v[1], y: v[2], width: v[3], height: v[4] }),
            Err(e) => Err(e),
        }
    }

    /// Reads a line of the form `#1 @ 1,3: 4x4`.
    pub fn from_str(s: &str) -> (r: Result<Claim, ParseError>)
        ensures
            r == claim_of_fields(scanned(s@, "#{d} @ {d},{d}: {d}x{d}"@)),
    {
        let fields = scan(s, "#{d} @ {d},{d}: {d}x{d}");
        assert(Seq::new(fields@.len(), |i: int| fields@[i]@) =~= scanned(s@, "#{d} @ {d},{d}: {d}x{d}"@));
        Claim::from_fields(&fields)
    }

    /// The walk over the squares of the claim, from its first column.
    pub fn iter_points(&self) -> (it: ClaimIterator)
        requires
            fits(*self),
        ensures
            it == (ClaimIterator {
                x: self.x,
                y: self.y,
                x2: (self.x + self.width) as u32,
                y2: (self.y + self.height) as u32,
                yiter: self.y,
            }),
            it.wf(),
    {
        ClaimIterator {
            x: self.x,
            y: self.y,
            x2: self.x + self.width,
            y2: self.y + self.height,
            yiter: self.y,
        }
    }
}

impl ClaimIterator {
    /// The walk stands on a row of the claim, or the claim has no rows.
    pub open spec fn wf(self) -> bool {
        self.y <= self.yiter && (self.yiter < self.y2 || self.yiter == self.y)
    }

    /// The walk is over.
    pub open spec fn is_done(self) -> bool {
        self.x >= self.x2 || self.yiter >= self.y2
    }

    /// The walk one square on: down the column, and from its end to the top
    /// of the next column.
    pub open spec fn advanced(self) -> ClaimIterator {
        if self.yiter + 1 >= self.y2 {
            ClaimIterator { x: (self.x + 1) as u32, yiter: self.y, ..self }
        } else {
            ClaimIterator { yiter: (self.yiter + 1) as u32, ..self }
        }
    }

    /// The walk has passed the square with the key `k`.
    pub open spec fn passed(self, k: u64) -> bool {
        column_of(k) < self.x || (column_of(k) == self.x && row_of(k) < self.yiter)
    }

    /// The square on which the walk stands, and a step on; nothing when the
    /// walk is over.
    pub fn next(&mut self) -> (r: Option<(u32, u32)>)
        requires
            old(self).wf(),
        ensures
            final(self).wf(),
            match r {
                Some(p) => !old(self).is_done() && p == (old(self).x, old(self).yiter) && *final(self) == old(
                    self,
                ).advanced(),
                None => old(self).is_done() && *final(self) == *old(self),
            },
    {
        // current point
        let (x, y) = (self.x, self.yiter);
        if self.x >= self.x2 || self.yiter >= self.y2 {
            return None;
        }
        // advance
        self.yiter += 1;
        if self.yiter >= self.y2 {
            self.yiter = self.y;
            self.x += 1;
        }
        Some((x, y))
    }
}

/// The key under which the grid holds the square in column `x` and row `y`.
pub fn key(x: u32, y: u32) -> (k: u64)
    ensures
        k == key_of(x, y),
        column_of(k) == x,
        row_of(k) == y,
{
    (x as u64) * 0x1_0000_0000 + (y as u64)
}

pub type Grid = HashMap<u64, u32>;

/// Counts for each square how many of the claims hold it.
pub fn build_grid(claims: &Vec<Claim>) -> (grid: Grid)
    requires
        claims@.len() <= u32::MAX,
        forall|i: int| 0 <= i < claims@.len() ==> fits(#[trigger] claims@[i]),
    ensures
        grid_of(grid@, claims@),
{
    let mut grid: Grid = HashMap::new();
    for i in 0..claims.len()
        invariant
            claims@.len() <= u32::MAX,
            forall|i: int| 0 <= i < claims@.len() ==> fits(#[trigger] claims@[i]),
            grid_of(grid@, claims@.take(i as int)),
    {
        let claim = claims[i];
        let ghost before = claims@.take(i as int);
        let mut it = claim.iter_points();
        let ghost marked = |it: ClaimIterator, k: u64|
            cover_count(before, k) + if covers(claim, k) && it.passed(k) { 1nat } else { 0nat };
        loop
            invariant
                i < claims@.len() <= u32::MAX,
                claim == claims@[i as int],
                fits(claim),
                before == claims@.take(i as int),
                it.wf(),
                it.x2 == claim.x + claim.width,
                it.y2 == claim.y + claim.height,
                it.y == claim.y,
                claim.x <= it.x,
                marked == |it: ClaimIterator, k: u64|
                    cover_count(before, k) + if covers(claim, k) && it.passed(k) { 1nat } else { 0nat },
                forall|k: u64|
                    (#[trigger] grid@.contains_key(k) <==> marked(it, k) > 0) && (grid@.contains_key(k)
                        ==> grid@[k] == marked(it, k)),
            ensures
                it.is_done(),
            decreases
                    if it.x2 > it.x { it.x2 - it.x } else { 0 },
                    if it.y2 > it.yiter { it.y2 - it.yiter } else { 0 },
        {
            let ghost it0 = it;
            match it.next() {
                Some((x, y)) => {
                    let k0 = key(x, y);
                    proof {
                        lemma_cover_count_bound(before, k0);
                        assert(covers(claim, k0));
                        assert(!it0.passed(k0));
                        assert forall|k: u64| covers(claim, k) implies (it.passed(k) <==> it0.passed(k) || k
                            == k0) by {
                            if column_of(k) == x && row_of(k) == y {
                                assert(k == k0);
                            }
                        }
                        assert forall|k: u64| #[trigger] marked(it, k) == marked(it0, k) + if k == k0 {
                            1nat
                        } else {
                            0nat
                        } by {
                            if k == k0 {
                                assert(it.passed(k));
                            }
                        }
                    }
                    let count = grid.entry(k0).or_insert(0);
                    *count += 1;
                },
                None => {
                    break ;
                },
            }
        }
        proof {
            assert(claims@.take(i + 1).drop_last() =~= before);
            assert(claims@.take(i + 1).last() == claim);
            assert forall|k: u64|
                (#[trigger] grid@.contains_key(k) <==> cover_count(claims@.take(i + 1), k) > 0) && (
                grid@.contains_key(k) ==> grid@[k] == cover_count(claims@.take(i + 1), k)) by {
                assert(grid@.contains_key(k) <==> marked(it, k) > 0);
                if covers(claim, k) {
                    assert(it.passed(k));
                }
            }
        }
    }
    assert(claims@.take(claims@.len() as int) =~= claims@);
    grid
}

/// The number of squares that two claims or more hold.
pub fn part1(grid: &Grid) -> (nb: usize)
    ensures
        nb == grid@.dom().filter(|k: u64| grid@[k] > 1).len(),
{
    let mut nb: usize = 0;
    let ghost mut shared: Set<u64> = Set::empty();
    let ghost wanted = grid@.dom().filter(|k: u64| grid@[k] > 1);
    proof {
        grid@.dom().lemma_len_filter(|k: u64| grid@[k] > 1);
    }
    let total = grid.len();
    for entry in it: grid.iter()
        invariant
            it.seq() == vstd::std_specs::hash::spec_hash_map_iter(grid).remaining(),
            it.seq().no_duplicates(),
            wanted == grid@.dom().filter(|k: u64| grid@[k] > 1),
            wanted.finite(),
            wanted.len() <= total,
            shared.finite(),
            nb == shared.len(),
            shared.subset_of(wanted),
            forall|j: int| 0 <= j < it.index() && *(#[trigger] it.seq()[j]).1 > 1 ==> shared.contains(*it.seq()[j].0),
            forall|k: u64| #[trigger]
                shared.contains(k) ==> exists|j: int| 0 <= j < it.index() && *(#[trigger] it.seq()[j]).0 == k,
    {
        proof {
            let n = it.index();
            assert(it.seq()[n] == entry);
            assert(grid@.contains_key(*entry.0) && grid@[*entry.0] == *entry.1);
            if shared.contains(*entry.0) {
                let j = choose|j: int| 0 <= j < n && *(#[trigger] it.seq()[j]).0 == *entry.0;
                assert(grid@.contains_key(*it.seq()[j].0) && grid@[*it.seq()[j].0] == *it.seq()[j].1);
                assert(it.seq()[j] == it.seq()[n]);
            }
        }
        if *entry.1 > 1 {
            proof {
                assert(wanted.contains(*entry.0));
                shared = shared.insert(*entry.0);
                vstd::set_lib::lemma_len_subset(shared, wanted);
            }
            nb += 1;
        }
    }
    proof {
        let all = vstd::std_specs::hash::spec_hash_map_iter(grid).remaining();
        assert forall|k: u64| wanted.contains(k) implies shared.contains(k) by {
            assert(all.contains((&k, &grid@[k])));
            let j = choose|j: int| 0 <= j < all.len() && all[j] == (&k, &grid@[k]);
            assert(*all[j].1 > 1);
        }
        assert(shared =~= wanted);
    }
    nb
}

/// Every square of the claim is counted once in the grid.
pub open spec fn alone_in(grid: Map<u64, u32>, c: Claim) -> bool {
    forall|k: u64| covers(c, k) ==> #[trigger] grid[k] == 1
}

/// The grid holds a count for every square of every claim.
pub open spec fn holds_squares(grid: Map<u64, u32>, claims: Seq<Claim>) -> bool {
    forall|i: int, k: u64| 0 <= i < claims.len() && #[trigger] covers(claims[i], k) ==> grid.contains_key(k)
}

/// In the grid of the claims, a claim is alone on its squares exactly when
/// no other claim overlaps it.
pub proof fn lemma_alone_is_uncontested(grid: Map<u64, u32>, claims: Seq<Claim>, i: int)
    requires
        grid_of(grid, claims),
        0 <= i < claims.len(),
    ensures
        holds_squares(grid, claims),
        alone_in(grid, claims[i]) <==> uncontested(claims, i),
{
    assert forall|j: int, k: u64| 0 <= j < claims.len() && #[trigger] covers(claims[j], k) implies grid.contains_key(
        k,
    ) by {
        lemma_cover_count_holds(claims, j, k);
    }
    if alone_in(grid, claims[i]) {
        assert forall|k: u64| covers(claims[i], k) implies #[trigger] cover_count(claims, k) == 1 by {
            lemma_cover_count_holds(claims, i, k);
            assert(grid.contains_key(k));
            assert(grid[k] == 1);
        }
    }
    if uncontested(claims, i) {
        assert forall|k: u64| covers(claims[i], k) implies #[trigger] grid[k] == 1 by {
            assert(cover_count(claims, k) == 1);
            assert(grid.contains_key(k));
        }
    }
}

/// A square that one of the claims holds is held by a claim at least.
pub proof fn lemma_cover_count_holds(claims: Seq<Claim>, i: int, k: u64)
    requires
        0 <= i < claims.len(),
        covers(claims[i], k),
    ensures
        cover_count(claims, k) > 0,
    decreases claims.len(),
{
    if i < claims.len() - 1 {
        assert(claims.drop_last()[i] == claims[i]);
        lemma_cover_count_holds(claims.drop_last(), i, k);
    }
}

/// The number of the first claim all of whose squares are counted once in
/// the grid; none if there is no such claim.  In the grid of the claims
/// this is the first claim that no other claim overlaps.
pub fn part2(claims: &Vec<Claim>, grid: &Grid) -> (r: Option<u32>)
    requires
        holds_squares(grid@, claims@),
        forall|i: int| 0 <= i < claims@.len() ==> fits(#[trigger] claims@[i]),
    ensures
        match r {
            Some(id) => exists|i: int|
                0 <= i < claims@.len() && claims@[i].id == id && alone_in(grid@, claims@[i]) && forall|j: int|
                    0 <= j < i ==> !alone_in(grid@, claims@[j]),
            None => forall|i: int| 0 <= i < claims@.len() ==> !alone_in(grid@, claims@[i]),
        },
{
    for i in 0..claims.len()
        invariant
            holds_squares(grid@, claims@),
            forall|i: int| 0 <= i < claims@.len() ==> fits(#[trigger] claims@[i]),
            forall|j: int| 0 <= j < i ==> !alone_in(grid@, claims@[j]),
    {
        let claim = claims[i];
        let mut it = claim.iter_points();
        let mut alone = true;
        loop
            invariant
                i < claims@.len(),
                claim == claims@[i as int],
                fits(claim),
                holds_squares(grid@, claims@),
                it.wf(),
                it.x2 == claim.x + claim.width,
                it.y2 == claim.y + claim.height,
                it.y == claim.y,
                claim.x <= it.x,
                alone ==> forall|k: u64| covers(claim, k) && it.passed(k) ==> #[trigger] grid@[k] == 1,
                !alone ==> !alone_in(grid@, claim),
            ensures
                !alone || it.is_done(),
            decreases
                    if alone { 1int } else { 0int },
                    if it.x2 > it.x { it.x2 - it.x } else { 0 },
                    if it.y2 > it.yiter { it.y2 - it.yiter } else { 0 },
        {
            let ghost it0 = it;
            match it.next() {
                Some((x, y)) => {
                    let k0 = key(x, y);
                    proof {
                        assert(covers(claim, k0));
                        assert forall|k: u64| covers(claim, k) implies (it.passed(k) <==> it0.passed(k) || k
                            == k0) by {
                            if column_of(k) == x && row_of(k) == y {
                                assert(k == k0);
                            }
                        }
                    }
                    assert(grid@.contains_key(k0));
                    let once = *grid.get(&k0).unwrap() == 1;
                    if !once {
                        assert(grid@[k0] != 1);
                        alone = false;
                        break ;
                    }
                },
                None => {
                    break ;
                },
            }
        }
        if alone {
            proof {
                assert forall|k: u64| covers(claim, k) implies #[trigger] grid@[k] == 1 by {
                    assert(it.passed(k));
                }
                assert(alone_in(grid@, claims@[i as int]));
            }
            return Some(claim.id);
        }
    }
    None
}

} // verus!
