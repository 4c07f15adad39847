//! Coordinates on a grid: which coordinate is closest to each cell, how
//! large the finite areas are, and how many cells are near all of them.

use crate::scan::{parse_u32, scan, scanned, unsigned_of, ParseError};
use vstd::prelude::*;

verus! {

#[derive(Clone, Copy, Debug, PartialEq, Eq)]
pub struct Point {
    pub x: u32,
    pub y: u32,
}

/// How far `a` and `b` are apart.
pub open spec fn gap(a: u32, b: u32) -> nat {
    if a > b {
        (a - b) as nat
    } else {
        (b - a) as nat
    }
}

/// The Manhattan distance from `p` to the cell `(x, y)`.
pub open spec fn distance(p: Point, x: u32, y: u32) -> nat {
    gap(x, p.x) + gap(y, p.y)
}

/// The point that the fields of a scanned line hold.
pub open spec fn point_of_fields(fields: Seq<Seq<char>>) -> Result<Point, ParseError> {
    if fields.len() < 1 || unsigned_of(fields[0], 0xffff_ffff) is None {
        Err(ParseError { field: 0 })
    } else if fields.len() < 2 || unsigned_of(fields[1], 0xffff_ffff) is None {
        Err(ParseError { field: 1 })
    } else {
        Ok(
            Point {
                x: unsigned_of(fields[0], 0xffff_ffff)->0 as u32,
                y: unsigned_of(fields[1], 0xffff_ffff)->0 as u32,
            },
        )
    }
}

impl Point {
    pub fn get_manhattan_distance(&self, x: u32, y: u32) -> (d: u32)
        requires
            distance(*self, x, y) <= u32::MAX,
        ensures
            d == distance(*self, x, y),
    {
        (if x > self.x {
            x - self.x
        } else {
            self.x - x
        }) + (if y > self.y {
            y - self.y
        } else {
            self.y - y
        })
    }

    /// The point that scanned fields hold.
    pub fn from_fields(fields: &Vec<String>) -> (r: Result<Point, ParseError>)
        ensures
            r == point_of_fields(Seq::new(fields@.len(), |i: int| fields@[i]@)),
    {
        if fields.len() < 1 {
            return Err(ParseError { field: 0 });
        }
        let x = match parse_u32(fields[0].as_str()) {
            Some(v) => v,
            None => {
                return Err(ParseError { field: 0 });
            },
        };
        if fields.len() < 2 {
            return Err(ParseError { field: 1 });
        }
        match parse_u32(fields[1].as_str()) {
            Some(y) => Ok(Point { x, y }),
            None => Err(ParseError { field: 1 }),
        }
    }

    /// Reads a line of the form `1, 6`.
    pub fn from_str(s: &str) -> (r: Result<Point, ParseError>)
        ensures
            r == point_of_fields(scanned(s@, "{d}, {d}"@)),
    {
        let fields = scan(s, "{d}, {d}");
        assert(Seq::new(fields@.len(), |i: int| fields@[i]@) =~= scanned(s@, "{d}, {d}"@));
        Point::from_fields(&fields)
    }
}

/// The grid reaches one cell beyond the largest coordinate in each
/// direction.
pub fn compute_bounds(points: &Vec<Point>) -> (bounds: (u32, u32))
    requires
        points@.len() > 0,
        forall|i: int| 0 <= i < points@.len() ==> points@[i].x < u32::MAX && points@[i].y < u32::MAX,
    ensures
        exists|i: int| 0 <= i < points@.len() && points@[i].x + 1 == bounds.0,
        exists|i: int| 0 <= i < points@.len() && points@[i].y + 1 == bounds.1,
        forall|i: int| 0 <= i < points@.len() ==> points@[i].x < bounds.0 && points@[i].y < bounds.1,
{
    let mut max_x = points[0].x;
    let mut max_y = points[0].y;
    let ghost mut at_x: int = 0;
    let ghost mut at_y: int = 0;
    for k in 1..points.len()
        invariant
            0 <= at_x < k && points@[at_x].x == max_x,
            0 <= at_y < k && points@[at_y].y == max_y,
            forall|i: int| 0 <= i < k ==> points@[i].x <= max_x && points@[i].y <= max_y,
    {
        if points[k].x >= max_x {
            max_x = points[k].x;
            proof {
                at_x = k as int;
            }
        }
        if points[k].y >= max_y {
            max_y = points[k].y;
            proof {
                at_y = k as int;
            }
        }
    }
    (max_x + 1, max_y + 1)
}

/// The point at `i` is nearer to the cell `(x, y)` than every other point.
pub open spec fn is_closest(points: Seq<Point>, x: u32, y: u32, i: int) -> bool {
    &&& 0 <= i < points.len()
    &&& distance(points[i], x, y) < u32::MAX
    &&& forall|j: int|
        0 <= j < points.len() && j != i ==> distance(points[i], x, y) < distance(#[trigger] points[j], x, y)
}

/// The one point that is nearest to the cell `(x, y)`, if there is one.
pub open spec fn closest(points: Seq<Point>, x: u32, y: u32) -> Option<usize> {
    if exists|i: int| is_closest(points, x, y, i) {
        Some((choose|i: int| is_closest(points, x, y, i)) as usize)
    } else {
        None
    }
}

/// The index of the one point that is nearest to the cell `(x, y)`; none
/// where several points are nearest.
pub fn get_closest_point(points: &Vec<Point>, x: u32, y: u32) -> (r: Option<usize>)
    requires
        forall|i: int| 0 <= i < points@.len() ==> distance(#[trigger] points@[i], x, y) <= u32::MAX,
    ensures
        r == closest(points@, x, y),
        r matches Some(i) ==> is_closest(points@, x, y, i as int),
        r is None ==> forall|i: int| !is_closest(points@, x, y, i),
{
    let mut found: Option<usize> = None;
    let mut min_dist = u32::MAX;
    let ghost mut a: int = 0;
    let ghost mut b: int = 0;

    for index in 0..points.len()
        invariant
            forall|i: int| 0 <= i < points@.len() ==> distance(#[trigger] points@[i], x, y) <= u32::MAX,
            forall|j: int| 0 <= j < index ==> min_dist <= distance(#[trigger] points@[j], x, y),
            found matches Some(i) ==> i < index && distance(points@[i as int], x, y) == min_dist && min_dist
                < u32::MAX && forall|j: int|
                0 <= j < index && j != i ==> min_dist < distance(#[trigger] points@[j], x, y),
            found is None ==> min_dist == u32::MAX || (0 <= a < b < index && distance(points@[a], x, y)
                == min_dist && distance(points@[b], x, y) == min_dist),
    {
        let dist = points[index].get_manhattan_distance(x, y);
        if dist == min_dist {
            proof {
                if min_dist < u32::MAX {
                    match found {
                        Some(i) => {
                            a = i as int;
                            b = index as int;
                        },
                        None => {},
                    }
                }
            }
            found = None;
        } else if dist < min_dist {
            min_dist = dist;
            found = Some(index);
        }
    }
    proof {
        match found {
            Some(i) => {
                assert(is_closest(points@, x, y, i as int));
                let other = choose|j: int| is_closest(points@, x, y, j);
                if other != i {
                    assert(distance(points@[other], x, y) < distance(points@[i as int], x, y));
                    assert(distance(points@[i as int], x, y) < distance(points@[other], x, y));
                }
            },
            None => {
                assert forall|i: int| !is_closest(points@, x, y, i) by {
                    if is_closest(points@, x, y, i) {
                        if min_dist == u32::MAX {
                            assert(min_dist <= distance(points@[i], x, y));
                        } else {
                            assert(min_dist <= distance(points@[i], x, y));
                            if i != a {
                                assert(distance(points@[i], x, y) < distance(points@[a], x, y));
                            } else {
                                assert(distance(points@[i], x, y) < distance(points@[b], x, y));
                            }
                        }
                    }
                }
            },
        }
    }
    found
}

/// How many of the first `h` cells of the column `x` are marked by `f`.
pub open spec fn count_column(f: spec_fn(int, int) -> bool, x: int, h: int) -> nat
    decreases h,
{
    if h <= 0 {
        0
    } else {
        count_column(f, x, h - 1) + if f(x, h - 1) { 1nat } else { 0nat }
    }
}

/// How many cells of the first `w` columns, of `h` cells each, are marked
/// by `f`.
pub open spec fn count_cells(f: spec_fn(int, int) -> bool, w: int, h: int) -> nat
    decreases w,
{
    if w <= 0 {
        0
    } else {
        count_cells(f, w - 1, h) + count_column(f, w - 1, h)
    }
}

/// A column has no more marked cells than cells.
pub proof fn lemma_count_column_bound(f: spec_fn(int, int) -> bool, x: int, h: int)
    requires
        0 <= h,
    ensures
        count_column(f, x, h) <= h,
    decreases h,
{
    if h > 0 {
        lemma_count_column_bound(f, x, h - 1);
    }
}

/// A grid has no more marked cells than cells.
pub proof fn lemma_count_cells_bound(f: spec_fn(int, int) -> bool, w: int, h: int)
    requires
        0 <= w,
        0 <= h,
    ensures
        count_cells(f, w, h) <= w * h,
    decreases w,
{
    if w > 0 {
        lemma_count_cells_bound(f, w - 1, h);
        lemma_count_column_bound(f, w - 1, h);
        assert((w - 1) * h + h == w * h) by (nonlinear_arith);
    } else {
        assert(w * h == 0) by (nonlinear_arith)
            requires
                w == 0,
        ;
    }
}

/// The sum of the distances from the points to the cell `(x, y)`.
pub open spec fn total_distance(points: Seq<Point>, x: u32, y: u32) -> nat
    decreases points.len(),
{
    if points.len() == 0 {
        0
    } else {
        total_distance(points.drop_last(), x, y) + distance(points.last(), x, y)
    }
}

/// More points are not nearer in sum.
pub proof fn lemma_total_distance_grows(points: Seq<Point>, k: int, x: u32, y: u32)
    requires
        0 <= k <= points.len(),
    ensures
        total_distance(points.take(k), x, y) <= total_distance(points, x, y),
    decreases points.len() - k,
{
    if k < points.len() {
        assert(points.take(k + 1).drop_last() =~= points.take(k));
        lemma_total_distance_grows(points, k + 1, x, y);
    } else {
        assert(points.take(k) =~= points);
    }
}

/// The cell `(x, y)` is less than 10000 away from the points in sum.
pub open spec fn is_safe(points: Seq<Point>, x: int, y: int) -> bool {
    total_distance(points, x as u32, y as u32) < 10000
}

/// Whether the cell `(x, y)` is less than 10000 away from the points in
/// sum.
pub fn is_safe_cell(points: &Vec<Point>, x: u32, y: u32) -> (safe: bool)
    requires
        forall|i: int| 0 <= i < points@.len() ==> distance(#[trigger] points@[i], x, y) <= u32::MAX,
    ensures
        safe == is_safe(points@, x as int, y as int),
{
    let mut sum: u64 = 0;
    let mut i: usize = 0;
    while i < points.len() && sum < 10000
        invariant
            forall|i: int| 0 <= i < points@.len() ==> distance(#[trigger] points@[i], x, y) <= u32::MAX,
            0 <= i <= points@.len(),
            sum == total_distance(points@.take(i as int), x, y),
            sum < 10000 + 0x1_0000_0000,
        decreases points@.len() - i,
    {
        proof {
            assert(points@.take(i + 1).drop_last() =~= points@.take(i as int));
            assert(points@.take(i + 1).last() == points@[i as int]);
        }
        sum += points[i].get_manhattan_distance(x, y) as u64;
        i += 1;
    }
    proof {
        lemma_total_distance_grows(points@, i as int, x, y);
        if i == points@.len() {
            assert(points@.take(i as int) =~= points@);
        }
    }
    sum < 10000
}

/// The number of cells of the grid that are less than 10000 away from the
/// points in sum.
pub fn part2(points: &Vec<Point>) -> (nb_safe: u64)
    requires
        points@.len() > 0,
        forall|i: int| 0 <= i < points@.len() ==> points@[i].x < 0x7fff_ffff && points@[i].y < 0x7fff_ffff,
    ensures
        exists|w: u32, h: u32|
            is_extent(points@, w, h) && nb_safe == count_cells(|x: int, y: int| is_safe(points@, x, y), w as int, h as int),
{
    let (max_x, max_y) = compute_bounds(points);
    let ghost f = |x: int, y: int| is_safe(points@, x, y);
    let mut nb_safe: u64 = 0;
    proof {
        assert(is_extent(points@, max_x, max_y));
    }
    for x in 0..max_x
        invariant
            is_extent(points@, max_x, max_y),
            forall|i: int| 0 <= i < points@.len() ==> points@[i].x < 0x7fff_ffff && points@[i].y < 0x7fff_ffff,
            f == |x: int, y: int| is_safe(points@, x, y),
            nb_safe == count_cells(f, x as int, max_y as int),
    {
        proof {
            lemma_count_cells_bound(f, x as int, max_y as int);
            lemma_grid_fits(x as int + 1, max_x as int, max_y as int);
        }
        let ghost before = nb_safe;
        for y in 0..max_y
            invariant
                is_extent(points@, max_x, max_y),
                forall|i: int| 0 <= i < points@.len() ==> points@[i].x < 0x7fff_ffff && points@[i].y < 0x7fff_ffff,
                f == |x: int, y: int| is_safe(points@, x, y),
                x < max_x,
                before <= x * max_y,
                (x + 1) * max_y <= 0xffff_ffff_ffff_ffff,
                nb_safe == before + count_column(f, x as int, y as int),
        {
            proof {
                lemma_count_column_bound(f, x as int, y as int);
                assert(x * max_y + max_y == (x + 1) * max_y) by (nonlinear_arith);
                lemma_distances_fit(points@, max_x, max_y, x, y);
            }
            if is_safe_cell(points, x, y) {
                nb_safe += 1;
            }
        }
    }
    nb_safe
}

/// `w` and `h` are one more than the largest coordinates of the points.
pub open spec fn is_extent(points: Seq<Point>, w: u32, h: u32) -> bool {
    &&& exists|i: int| 0 <= i < points.len() && points[i].x + 1 == w
    &&& exists|i: int| 0 <= i < points.len() && points[i].y + 1 == h
    &&& forall|i: int| 0 <= i < points.len() ==> points[i].x < w && points[i].y < h
}

/// The number of cells of a grid whose sides fit in 32 bits fits in 64 bits.
pub proof fn lemma_grid_fits(x: int, w: int, h: int)
    requires
        0 <= x <= w <= 0xffff_ffff,
        0 <= h <= 0xffff_ffff,
    ensures
        x * h <= 0xffff_ffff_ffff_ffff,
{
    assert(x * h <= 0xffff_ffff * 0xffff_ffff) by (nonlinear_arith)
        requires
            0 <= x <= 0xffff_ffff,
            0 <= h <= 0xffff_ffff,
    ;
}

/// Within the grid every distance fits in 32 bits, and stays under the
/// largest value.
pub proof fn lemma_distances_fit(points: Seq<Point>, w: u32, h: u32, x: u32, y: u32)
    requires
        is_extent(points, w, h),
        forall|i: int| 0 <= i < points.len() ==> points[i].x < 0x7fff_ffff && points[i].y < 0x7fff_ffff,
        x < w,
        y < h,
    ensures
        forall|i: int| 0 <= i < points.len() ==> distance(#[trigger] points[i], x, y) < u32::MAX,
{
    let i = choose|i: int| 0 <= i < points.len() && points[i].x + 1 == w;
    let j = choose|j: int| 0 <= j < points.len() && points[j].y + 1 == h;
    assert(w <= 0x7fff_ffff && h <= 0x7fff_ffff);
}

/// The point at `i` is the one nearest to the cell `(x, y)`.
pub open spec fn owns(points: Seq<Point>, i: int, x: int, y: int) -> bool {
    closest(points, x as u32, y as u32) == Some(i as usize)
}

/// The cell `(x, y)` lies on the border of the grid of `w` columns of `h`
/// cells.
pub open spec fn on_border(x: int, y: int, w: int, h: int) -> bool {
    x == 0 || x == w - 1 || y == 0 || y == h - 1
}

/// The number of cells of the grid to which the point at `i` is nearest.
pub open spec fn area(points: Seq<Point>, i: int, w: int, h: int) -> nat {
    count_cells(|x: int, y: int| owns(points, i, x, y), w, h)
}

/// The number of the first `y` cells of the column `x` to which the point at
/// `i` is nearest.
pub open spec fn area_in_column(points: Seq<Point>, i: int, x: int, y: int) -> nat {
    count_column(|x: int, y: int| owns(points, i, x, y), x, y)
}

/// The number of cells on the border of the grid of `w` columns of `h`
/// cells, in its first `upto` columns, to which the point at `i` is
/// nearest.
pub open spec fn border_upto(points: Seq<Point>, i: int, w: int, h: int, upto: int) -> nat {
    count_cells(|x: int, y: int| on_border(x, y, w, h) && owns(points, i, x, y), upto, h)
}

/// The same for the first `y` cells of the column `x`.
pub open spec fn border_in_column(points: Seq<Point>, i: int, w: int, h: int, x: int, y: int) -> nat {
    count_column(|x: int, y: int| on_border(x, y, w, h) && owns(points, i, x, y), x, y)
}

/// The number of cells on the border of the grid to which the point at `i`
/// is nearest.  Where there is one, the area of the point goes on beyond
/// the grid without end.
pub open spec fn border_cells(points: Seq<Point>, i: int, w: int, h: int) -> nat {
    border_upto(points, i, w, h, w)
}

/// No more cells of a grid are nearest to a point than the grid has, and no
/// more of a column than the column has.
pub proof fn lemma_area_bound(points: Seq<Point>, i: int, x: int, y: int, h: int)
    requires
        0 <= x,
        0 <= y,
        0 <= h,
    ensures
        area(points, i, x, h) <= x * h,
        area_in_column(points, i, x, y) <= y,
{
    lemma_count_cells_bound(|x: int, y: int| owns(points, i, x, y), x, h);
    lemma_count_column_bound(|x: int, y: int| owns(points, i, x, y), x, y);
}

/// The largest area among the points whose area does not reach the border
/// of the grid; 0 if there is no such point.
pub fn part1(points: &Vec<Point>) -> (max_area: u64)
    requires
        points@.len() > 0,
        forall|i: int| 0 <= i < points@.len() ==> points@[i].x < 0x7fff_ffff && points@[i].y < 0x7fff_ffff,
    ensures
        exists|w: u32, h: u32|
            {
                &&& is_extent(points@, w, h)
                &&& forall|i: int|
                    0 <= i < points@.len() && border_cells(points@, i, w as int, h as int) == 0 ==> area(
                        points@,
                        i,
                        w as int,
                        h as int,
                    ) <= max_area
                &&& max_area == 0 || exists|i: int|
                    0 <= i < points@.len() && border_cells(points@, i, w as int, h as int) == 0
                        && max_area == area(points@, i, w as int, h as int)
            },
{
    let (max_x, max_y) = compute_bounds(points);
    let n = points.len();
    let ghost w = max_x as int;
    let ghost h = max_y as int;
    let mut areas: Vec<u64> = Vec::new();
    let mut exclude: Vec<bool> = Vec::new();
    for i in 0..n
        invariant
            areas@.len() == i,
            exclude@.len() == i,
            forall|j: int| 0 <= j < i ==> areas@[j] == 0 && !exclude@[j],
    {
        areas.push(0);
        exclude.push(false);
    }
    proof {
        assert(is_extent(points@, max_x, max_y));
    }

    // count areas, and mark the points that are nearest to a cell of the border
    for x in 0..max_x
        invariant
            n == points@.len(),
            w == max_x,
            h == max_y,
            is_extent(points@, max_x, max_y),
            forall|i: int| 0 <= i < points@.len() ==> points@[i].x < 0x7fff_ffff && points@[i].y < 0x7fff_ffff,
            areas@.len() == n,
            exclude@.len() == n,
            forall|i: int| 0 <= i < n ==> #[trigger] areas@[i] == area(points@, i, x as int, h),
            forall|i: int|
                0 <= i < n ==> (#[trigger] exclude@[i] <==> border_upto(points@, i, w, h, x as int) > 0),
    {
        let ghost areas0 = areas@;
        let ghost exclude0 = exclude@;
        proof {
            lemma_grid_fits(x as int + 1, w, h);
            assert forall|i: int| 0 <= i < n implies #[trigger] areas0[i] <= x * h by {
                lemma_area_bound(points@, i, x as int, 0, h);
            }
        }
        for y in 0..max_y
            invariant
                n == points@.len(),
                w == max_x,
                h == max_y,
                x < max_x,
                is_extent(points@, max_x, max_y),
                forall|i: int|
                    0 <= i < points@.len() ==> points@[i].x < 0x7fff_ffff && points@[i].y < 0x7fff_ffff,
                areas@.len() == n,
                exclude@.len() == n,
                areas0.len() == n,
                exclude0.len() == n,
                (x + 1) * h <= 0xffff_ffff_ffff_ffff,
                forall|i: int| 0 <= i < n ==> #[trigger] areas0[i] <= x * h,
                forall|i: int|
                    0 <= i < n ==> #[trigger] areas@[i] == areas0[i] + area_in_column(
                        points@,
                        i,
                        x as int,
                        y as int,
                    ),
                forall|i: int|
                    0 <= i < n ==> (#[trigger] exclude@[i] <==> exclude0[i] || border_in_column(
                        points@,
                        i,
                        w,
                        h,
                        x as int,
                        y as int,
                    ) > 0),
        {
            proof {
                lemma_distances_fit(points@, max_x, max_y, x, y);
                assert(x * h + h == (x + 1) * h) by (nonlinear_arith);
                assert forall|i: int| 0 <= i < n implies #[trigger] area_in_column(
                    points@,
                    i,
                    x as int,
                    y as int,
                ) <= y by {
                    lemma_area_bound(points@, i, x as int, y as int, h);
                }
            }
            let border = x == 0 || x == max_x - 1 || y == 0 || y == max_y - 1;
            match get_closest_point(points, x, y) {
                Some(idx) => {
                    assert(areas@[idx as int] <= x * h + y);
                    let area = areas[idx];
                    areas.set(idx, area + 1);
                    if border {
                        exclude.set(idx, true);
                    }
                },
                None => {},
            }
        }
    }

    // find max
    let mut max_area: u64 = 0;
    let ghost mut at: int = -1;
    for i in 0..n
        invariant
            n == points@.len(),
            areas@.len() == n,
            exclude@.len() == n,
            forall|j: int| 0 <= j < i && !exclude@[j] ==> areas@[j] <= max_area,
            max_area == 0 || (0 <= at < i && !exclude@[at] && max_area == areas@[at]),
    {
        if !exclude[i] && areas[i] > max_area {
            max_area = areas[i];
            proof {
                at = i as int;
            }
        }
    }
    proof {
        assert forall|i: int|
            0 <= i < points@.len() && border_cells(points@, i, w, h) == 0 implies area(points@, i, w, h)
            <= max_area by {
            assert(!exclude@[i]);
            assert(areas@[i] == area(points@, i, w, h));
        }
        if max_area != 0 {
            assert(!exclude@[at]);
            assert(areas@[at] == area(points@, at, w, h));
            assert(border_cells(points@, at, w, h) == 0);
        }
    }
    max_area
}

} // verus!
