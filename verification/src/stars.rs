//! Points of light that drift across the sky: where they are, the box that
//! holds them all, and the picture they make when the box is small.

use crate::scan::{parse_i32, scan, scanned, signed_of, ParseError};
use vstd::prelude::*;

verus! {

#[derive(Clone, Copy, Debug, PartialEq, Eq)]
pub struct Point {
    pub x: i32,
    pub y: i32,
    pub vel_x: i32,
    pub vel_y: i32,
}

/// The `i32` that a field holds.
pub open spec fn i32_of(field: Seq<char>) -> Option<int> {
    signed_of(field, 0x8000_0000, 0x7fff_ffff)
}

/// The first of the four fields that is missing or holds no `i32`.
pub open spec fn first_bad_field(fields: Seq<Seq<char>>, upto: int) -> Option<int>
    decreases upto,
{
    if upto <= 0 {
        None
    } else if first_bad_field(fields, upto - 1) is Some {
        first_bad_field(fields, upto - 1)
    } else if fields.len() < upto || i32_of(fields[upto - 1]) is None {
        Some(upto - 1)
    } else {
        None
    }
}

/// The point that the fields of a scanned line hold: its place, then its
/// velocity.
pub open spec fn point_of_fields(fields: Seq<Seq<char>>) -> Result<Point, ParseError> {
    match first_bad_field(fields, 4) {
        Some(field) => Err(ParseError { field: field as usize }),
        None => Ok(
            Point {
                x: i32_of(fields[0])->0 as i32,
                y: i32_of(fields[1])->0 as i32,
                vel_x: i32_of(fields[2])->0 as i32,
                vel_y: i32_of(fields[3])->0 as i32,
            },
        ),
    }
}

/// The point one step later.
pub open spec fn moved(p: Point) -> Point {
    Point { x: (p.x + p.vel_x) as i32, y: (p.y + p.vel_y) as i32, ..p }
}

/// The point can take a step without leaving the range of `i32`.
pub open spec fn can_move(p: Point) -> bool {
    &&& i32::MIN <= p.x + p.vel_x <= i32::MAX
    &&& i32::MIN <= p.y + p.vel_y <= i32::MAX
}

impl Point {
    /// The point that scanned fields hold.
    pub fn from_fields(fields: &Vec<String>) -> (r: Result<Point, ParseError>)
        ensures
            r == point_of_fields(Seq::new(fields@.len(), |i: int| fields@[i]@)),
    {
        let ghost all = Seq::new(fields@.len(), |i: int| fields@[i]@);
        let mut values: Vec<i32> = Vec::new();
        for k in 0..4usize
            invariant
                all == Seq::new(fields@.len(), |i: int| fields@[i]@),
                values@.len() == k,
                first_bad_field(all, k as int) is None,
                forall|i: int| 0 <= i < k ==> i32_of(all[i]) == Some(#[trigger] values@[i] as int),
        {
            if fields.len() <= k {
                proof {
                    reveal_with_fuel(first_bad_field, 5);
                }
                return Err(ParseError { field: k });
            }
            match parse_i32(fields[k].as_str()) {
                Some(v) => {
                    values.push(v);
                },
                None => {
                    proof {
                        reveal_with_fuel(first_bad_field, 5);
                    }
                    return Err(ParseError { field: k });
                },
            }
        }
        Ok(Point { x: values[0], y: values[1], vel_x: values[2], vel_y: values[3] })
    }

    /// Reads a line of the form `position=< 9,  1> velocity=< 0,  2>`.
    pub fn from_str(s: &str) -> (r: Result<Point, ParseError>)
        ensures
            r == point_of_fields(scanned(s@, "position=<{}, {}> velocity=<{}, {}>"@)),
    {
        let fields = scan(s, "position=<{}, {}> velocity=<{}, {}>");
        assert(Seq::new(fields@.len(), |i: int| fields@[i]@) =~= scanned(
            s@,
            "position=<{}, {}> velocity=<{}, {}>"@,
        ));
        Point::from_fields(&fields)
    }

    /// Whether the point can take a step without leaving the range of `i32`.
    pub fn can_step(&self) -> (r: bool)
        ensures
            r == can_move(*self),
    {
        self.x.checked_add(self.vel_x).is_some() && self.y.checked_add(self.vel_y).is_some()
    }

    /// Moves the point by its velocity.
    pub fn step(&mut self)
        requires
            can_move(*old(self)),
        ensures
            *final(self) == moved(*old(self)),
    {
        self.x += self.vel_x;
        self.y += self.vel_y;
    }
}

/// Whether every point can take a step.
pub fn can_step_all(points: &Vec<Point>) -> (r: bool)
    ensures
        r == forall|i: int| 0 <= i < points@.len() ==> can_move(#[trigger] points@[i]),
{
    for k in 0..points.len()
        invariant
            forall|i: int| 0 <= i < k ==> can_move(#[trigger] points@[i]),
    {
        if !points[k].can_step() {
            return false;
        }
    }
    true
}

/// Moves every point by its velocity.
pub fn step_all(points: &mut Vec<Point>)
    requires
        forall|i: int| 0 <= i < old(points)@.len() ==> can_move(#[trigger] old(points)@[i]),
    ensures
        final(points)@.len() == old(points)@.len(),
        forall|i: int| 0 <= i < old(points)@.len() ==> #[trigger] final(points)@[i] == moved(old(points)@[i]),
{
    let n = points.len();
    for k in 0..n
        invariant
            n == points@.len(),
            points@.len() == old(points)@.len(),
            forall|i: int| 0 <= i < k ==> #[trigger] points@[i] == moved(old(points)@[i]),
            forall|i: int| k <= i < points@.len() ==> #[trigger] points@[i] == old(points)@[i],
            forall|i: int| 0 <= i < old(points)@.len() ==> can_move(#[trigger] old(points)@[i]),
    {
        let mut p = points[k];
        p.step();
        points.set(k, p);
    }
}

/// `(xmin, xmax, ymin, ymax)` is the smallest box that holds all `points`.
pub open spec fn is_bounding_box(points: Seq<Point>, b: (i32, i32, i32, i32)) -> bool {
    &&& forall|i: int|
        0 <= i < points.len() ==> b.0 <= (#[trigger] points[i]).x <= b.1 && b.2 <= points[i].y <= b.3
    &&& exists|i: int| 0 <= i < points.len() && points[i].x == b.0
    &&& exists|i: int| 0 <= i < points.len() && points[i].x == b.1
    &&& exists|i: int| 0 <= i < points.len() && points[i].y == b.2
    &&& exists|i: int| 0 <= i < points.len() && points[i].y == b.3
}

/// The smallest box that holds all points, as `(xmin, xmax, ymin, ymax)`.
pub fn compute_bounding_box_size(points: &Vec<Point>) -> (b: (i32, i32, i32, i32))
    requires
        points@.len() > 0,
    ensures
        is_bounding_box(points@, b),
{
    let first_point = points[0];
    let mut xmin = first_point.x;
    let mut xmax = first_point.x;
    let mut ymin = first_point.y;
    let mut ymax = first_point.y;
    let ghost mut at: (int, int, int, int) = (0, 0, 0, 0);

    for k in 1..points.len()
        invariant
            forall|i: int|
                0 <= i < k ==> xmin <= (#[trigger] points@[i]).x <= xmax && ymin <= points@[i].y <= ymax,
            0 <= at.0 < k && points@[at.0].x == xmin,
            0 <= at.1 < k && points@[at.1].x == xmax,
            0 <= at.2 < k && points@[at.2].y == ymin,
            0 <= at.3 < k && points@[at.3].y == ymax,
    {
        let p = points[k];
        if p.x < xmin {
            xmin = p.x;
            proof {
                at = (k as int, at.1, at.2, at.3);
            }
        }
        if p.x > xmax {
            xmax = p.x;
            proof {
                at = (at.0, k as int, at.2, at.3);
            }
        }
        if p.y < ymin {
            ymin = p.y;
            proof {
                at = (at.0, at.1, k as int, at.3);
            }
        }
        if p.y > ymax {
            ymax = p.y;
            proof {
                at = (at.0, at.1, at.2, k as int);
            }
        }
    }
    (xmin, xmax, ymin, ymax)
}

/// What to do with the sky as it is now.
#[derive(Clone, Copy, Debug, PartialEq, Eq, Structural)]
pub enum Sighting {
    /// The box has grown in both directions: the points drift apart again.
    Done,
    /// The box is under 100 wide and high: the points may spell a message.
    Show { xmin: i32, width: usize, ymin: i32, height: usize },
    /// The box is large: nothing to show.
    Pass { width: usize, height: usize },
}

/// What the box `b` means after a box `prev_width` wide and `prev_height`
/// high; both are 0 where there was no box before.
pub open spec fn sighting_of(b: (i32, i32, i32, i32), prev_width: usize, prev_height: usize) -> Sighting {
    let width = (b.1 - b.0) as usize;
    let height = (b.3 - b.2) as usize;
    if prev_width != 0 && width > prev_width && prev_height != 0 && height > prev_height {
        Sighting::Done
    } else if width < 100 && height < 100 {
        Sighting::Show { xmin: b.0, width, ymin: b.2, height }
    } else {
        Sighting::Pass { width, height }
    }
}

/// Looks at the sky: whether the points have begun to drift apart, and
/// else whether they are close enough to be shown.
pub fn observe(points: &Vec<Point>, prev_width: usize, prev_height: usize) -> (r: Sighting)
    requires
        points@.len() > 0,
    ensures
        exists|b: (i32, i32, i32, i32)| is_bounding_box(points@, b) && r == sighting_of(b, prev_width, prev_height),
{
    let (xmin, xmax, ymin, ymax) = compute_bounding_box_size(points);
    let width = (xmax as i64 - xmin as i64) as usize;
    let height = (ymax as i64 - ymin as i64) as usize;

    // go on until the bounding box increases
    if prev_width != 0 && width > prev_width && prev_height != 0 && height > prev_height {
        assert(Sighting::Done == sighting_of((xmin, xmax, ymin, ymax), prev_width, prev_height));
        return Sighting::Done;
    }
    // if the bounding box is small enough, the points are worth showing
    if width < 100 && height < 100 {
        Sighting::Show { xmin, width, ymin, height }
    } else {
        Sighting::Pass { width, height }
    }
}

/// The cell in column `col` of row `row` holds a point.
pub open spec fn is_lit(points: Seq<Point>, xmin: i32, ymin: i32, row: int, col: int) -> bool {
    exists|i: int| 0 <= i < points.len() && (#[trigger] points[i]).x - xmin == col && points[i].y - ymin == row
}

/// The picture of the points: `height + 1` rows of `width + 1` cells, `#`
/// where a point is and `.` elsewhere.
pub fn display_points(points: &Vec<Point>, xmin: i32, width: usize, ymin: i32, height: usize) -> (grid: Vec<
    Vec<char>,
>)
    requires
        width < usize::MAX,
        height < usize::MAX,
        forall|i: int|
            0 <= i < points@.len() ==> 0 <= (#[trigger] points@[i]).x - xmin <= width && 0 <= points@[i].y
                - ymin <= height,
    ensures
        grid@.len() == height + 1,
        forall|row: int| 0 <= row <= height ==> (#[trigger] grid@[row])@.len() == width + 1,
        forall|row: int, col: int|
            0 <= row <= height && 0 <= col <= width ==> #[trigger] grid@[row]@[col] == if is_lit(
                points@,
                xmin,
                ymin,
                row,
                col,
            ) {
                '#'
            } else {
                '.'
            },
{
    let mut grid: Vec<Vec<char>> = Vec::new();
    for r in 0..height + 1
        invariant
            width < usize::MAX,
            grid@.len() == r,
            forall|row: int| 0 <= row < r ==> (#[trigger] grid@[row])@.len() == width + 1,
            forall|row: int, col: int| 0 <= row < r && 0 <= col <= width ==> #[trigger] grid@[row]@[col] == '.',
    {
        let mut line: Vec<char> = Vec::new();
        for c in 0..width + 1
            invariant
                line@.len() == c,
                forall|col: int| 0 <= col < c ==> line@[col] == '.',
        {
            line.push('.');
        }
        grid.push(line);
    }

    for k in 0..points.len()
        invariant
            forall|i: int|
                0 <= i < points@.len() ==> 0 <= (#[trigger] points@[i]).x - xmin <= width && 0
                    <= points@[i].y - ymin <= height,
            grid@.len() == height + 1,
            forall|row: int| 0 <= row <= height ==> (#[trigger] grid@[row])@.len() == width + 1,
            forall|row: int, col: int|
                0 <= row <= height && 0 <= col <= width ==> #[trigger] grid@[row]@[col] == if is_lit(
                    points@.take(k as int),
                    xmin,
                    ymin,
                    row,
                    col,
                ) {
                    '#'
                } else {
                    '.'
                },
    {
        let p = points[k];
        let row = (p.y as i64 - ymin as i64) as usize;
        let col = (p.x as i64 - xmin as i64) as usize;
        let ghost before = grid@;
        let mut line = grid[row].clone();
        assert(line@ == before[row as int]@);
        line.set(col, '#');
        grid.set(row, line);
        proof {
            let old_points = points@.take(k as int);
            let new_points = points@.take(k + 1);
            assert forall|r: int, c: int| 0 <= r <= height && 0 <= c <= width implies (is_lit(
                new_points,
                xmin,
                ymin,
                r,
                c,
            ) <==> is_lit(old_points, xmin, ymin, r, c) || (r == row && c == col)) by {
                if is_lit(old_points, xmin, ymin, r, c) {
                    let i = choose|i: int|
                        0 <= i < old_points.len() && (#[trigger] old_points[i]).x - xmin == c
                            && old_points[i].y - ymin == r;
                    assert(new_points[i] == old_points[i]);
                }
                if r == row && c == col {
                    assert(new_points[k as int] == p);
                }
                if is_lit(new_points, xmin, ymin, r, c) {
                    let i = choose|i: int|
                        0 <= i < new_points.len() && (#[trigger] new_points[i]).x - xmin == c
                            && new_points[i].y - ymin == r;
                    if i < k {
                        assert(old_points[i] == new_points[i]);
                    }
                }
            }
        }
    }
    assert(points@.take(points@.len() as int) =~= points@);
    grid
}

} // verus!
