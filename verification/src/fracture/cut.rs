//! The geometry of a cut: where the line of a cutting segment crosses the
//! boundary of a polygon, and the two large rectangles, one on each side of
//! that line, that the polygon is clipped to.
//!
//! A cutting segment stands for its whole line: it need not reach the
//! polygon to cut it.

use crate::fracture::geometry::Rect;
use crate::fracture::half_plane::{measurable, measurable_point, MAX_COORDINATE};
use crate::fracture::Point;
use vstd::arithmetic::div_mod::lemma_fundamental_div_mod;
use vstd::prelude::*;

verus! {

/// A cutting segment: two points of the line along which a polygon is cut.
#[derive(Clone, Copy, Debug, PartialEq, Eq, Structural)]
pub struct Cut {
    pub start: Point,
    pub end: Point,
}

/// Largest reach of a side rectangle: the width and the height of a box of
/// measurable points, added.
pub const MAX_REACH: i64 = 0x100_0000_0000;

/// Whether `part / whole` lies from 0 to 1, for a `whole` other than 0.
pub open spec fn is_fraction(part: int, whole: int) -> bool {
    if whole > 0 {
        0 <= part <= whole
    } else {
        whole <= part <= 0
    }
}

/// Whether the segment from `a1` to `a2` and the segment from `b1` to `b2`
/// meet in one point: they are not parallel, and the point in which their
/// lines meet lies on both.
pub open spec fn segments_meet(a1: Point, a2: Point, b1: Point, b2: Point) -> bool {
    let ax = a2.x - a1.x;
    let ay = a2.y - a1.y;
    let bx = b2.x - b1.x;
    let by = b2.y - b1.y;
    let cross = ax * by - ay * bx;
    let dx = b1.x - a1.x;
    let dy = b1.y - a1.y;
    cross != 0 && is_fraction(dx * by - dy * bx, cross) && is_fraction(dx * ay - dy * ax, cross)
}

/// Whether the line through `a1` and `a2` crosses the segment from `b1` to
/// `b2` in one point: the two are not parallel, and the point in which
/// their lines meet lies on the segment. Where on the line it lies, between
/// `a1` and `a2` or beyond them, is left open.
pub open spec fn line_crosses(a1: Point, a2: Point, b1: Point, b2: Point) -> bool {
    let ax = a2.x - a1.x;
    let ay = a2.y - a1.y;
    let bx = b2.x - b1.x;
    let by = b2.y - b1.y;
    let cross = ax * by - ay * bx;
    let dx = b1.x - a1.x;
    let dy = b1.y - a1.y;
    cross != 0 && is_fraction(dx * ay - dy * ax, cross)
}

/// Two segments that meet: the line of the first crosses the second.
pub proof fn lemma_meeting_segments_cross(a1: Point, a2: Point, b1: Point, b2: Point)
    requires
        segments_meet(a1, a2, b1, b2),
    ensures
        line_crosses(a1, a2, b1, b2),
{
}

/// The number of the first `edges` edges of the polygon that the line of the
/// cut crosses. The last edge leads back to the first point.
pub open spec fn crossings(polygon: Seq<Point>, cut: Cut, edges: nat) -> nat
    decreases edges,
{
    if edges == 0 {
        0
    } else {
        let i = edges - 1;
        let here: nat = if line_crosses(
            cut.start,
            cut.end,
            polygon[i],
            polygon[(i + 1) % (polygon.len() as int)],
        ) {
            1
        } else {
            0
        };
        crossings(polygon, cut, i as nat) + here
    }
}

/// Tells whether two segments meet in one point.
pub fn line_segment_intersection(a1: Point, a2: Point, b1: Point, b2: Point) -> (meet: bool)
    requires
        measurable_point(a1),
        measurable_point(a2),
        measurable_point(b1),
        measurable_point(b2),
    ensures
        meet == segments_meet(a1, a2, b1, b2),
{
    let ax: i128 = a2.x as i128 - a1.x as i128;
    let ay: i128 = a2.y as i128 - a1.y as i128;
    let bx: i128 = b2.x as i128 - b1.x as i128;
    let by: i128 = b2.y as i128 - b1.y as i128;
    let dx: i128 = b1.x as i128 - a1.x as i128;
    let dy: i128 = b1.y as i128 - a1.y as i128;
    proof {
        lemma_product_fits(ax as int, by as int);
        lemma_product_fits(ay as int, bx as int);
        lemma_product_fits(dx as int, by as int);
        lemma_product_fits(dy as int, bx as int);
        lemma_product_fits(dx as int, ay as int);
        lemma_product_fits(dy as int, ax as int);
    }
    let cross: i128 = ax * by - ay * bx;
    if cross == 0 {
        return false;
    }
    let along_a: i128 = dx * by - dy * bx;
    let along_b: i128 = dx * ay - dy * ax;
    if cross > 0 {
        0 <= along_a && along_a <= cross && 0 <= along_b && along_b <= cross
    } else {
        cross <= along_a && along_a <= 0 && cross <= along_b && along_b <= 0
    }
}

/// Tells whether the line through `a1` and `a2` crosses the segment from
/// `b1` to `b2` in one point.
pub fn line_intersects_segment(a1: Point, a2: Point, b1: Point, b2: Point) -> (crosses: bool)
    requires
        measurable_point(a1),
        measurable_point(a2),
        measurable_point(b1),
        measurable_point(b2),
    ensures
        crosses == line_crosses(a1, a2, b1, b2),
{
    let ax: i128 = a2.x as i128 - a1.x as i128;
    let ay: i128 = a2.y as i128 - a1.y as i128;
    let bx: i128 = b2.x as i128 - b1.x as i128;
    let by: i128 = b2.y as i128 - b1.y as i128;
    let dx: i128 = b1.x as i128 - a1.x as i128;
    let dy: i128 = b1.y as i128 - a1.y as i128;
    proof {
        lemma_product_fits(ax as int, by as int);
        lemma_product_fits(ay as int, bx as int);
        lemma_product_fits(dx as int, ay as int);
        lemma_product_fits(dy as int, ax as int);
    }
    let cross: i128 = ax * by - ay * bx;
    if cross == 0 {
        return false;
    }
    let along_b: i128 = dx * ay - dy * ax;
    if cross > 0 {
        0 <= along_b && along_b <= cross
    } else {
        cross <= along_b && along_b <= 0
    }
}

/// The product of two differences of measurable coordinates is small.
proof fn lemma_product_fits(a: int, b: int)
    requires
        -2 * MAX_COORDINATE <= a <= 2 * MAX_COORDINATE,
        -2 * MAX_COORDINATE <= b <= 2 * MAX_COORDINATE,
    ensures
        -0x4000_0000_0000_0000_0000 <= a * b <= 0x4000_0000_0000_0000_0000,
{
    assert(-0x4000_0000_0000_0000_0000 <= a * b <= 0x4000_0000_0000_0000_0000)
        by (nonlinear_arith)
        requires
            -0x80_0000_0000 <= a <= 0x80_0000_0000,
            -0x80_0000_0000 <= b <= 0x80_0000_0000,
    ;
}

/// Counts the edges of a polygon that the line of a cutting segment crosses.
pub fn find_polygon_intersections(polygon: &Vec<Point>, line_start: Point, line_end: Point) -> (count:
    usize)
    requires
        measurable(polygon@),
        measurable_point(line_start),
        measurable_point(line_end),
    ensures
        count == crossings(
            polygon@,
            Cut { start: line_start, end: line_end },
            polygon@.len() as nat,
        ),
{
    let n: usize = polygon.len();
    let ghost cut = Cut { start: line_start, end: line_end };
    let mut count: usize = 0;
    let mut i: usize = 0;
    while i < n
        invariant
            i <= n,
            n == polygon@.len(),
            measurable(polygon@),
            measurable_point(line_start),
            measurable_point(line_end),
            cut == (Cut { start: line_start, end: line_end }),
            count == crossings(polygon@, cut, i as nat),
            count <= i,
        decreases n - i,
    {
        if line_intersects_segment(line_start, line_end, polygon[i], polygon[(i + 1) % n]) {
            count += 1;
        }
        i += 1;
    }
    count
}

/// The absolute value.
pub open spec fn magnitude(v: int) -> int {
    if v < 0 {
        -v
    } else {
        v
    }
}

/// The larger of the extents of the cut along x and along y.
pub open spec fn longest_extent(cut: Cut) -> int {
    let dx = magnitude(cut.end.x - cut.start.x);
    let dy = magnitude(cut.end.y - cut.start.y);
    if dx >= dy {
        dx
    } else {
        dy
    }
}

/// How many times the cut has to be laid end to end to be at least `reach`
/// long. A cut without length is not stretched at all.
pub open spec fn stretch(cut: Cut, reach: int) -> int {
    if longest_extent(cut) == 0 {
        0
    } else {
        (reach + longest_extent(cut) - 1) / longest_extent(cut)
    }
}

/// The rectangle on one side of the line of a cut.
///
/// Its first side lies on the line and runs from before the start of the
/// cut to behind its end, at least `reach` each way. From there it extends
/// at least `reach` to the left of the direction of the cut, or to the
/// right. A cut without length has no line, and its rectangle is the one
/// point of the cut.
pub open spec fn side_rectangle(cut: Cut, reach: int, left: bool) -> Seq<Point> {
    let k = stretch(cut, reach);
    let ex = (cut.end.x - cut.start.x) * k;
    let ey = (cut.end.y - cut.start.y) * k;
    let nx = if left {
        -ey
    } else {
        ey
    };
    let ny = if left {
        ex
    } else {
        -ex
    };
    seq![
        Point { x: (cut.start.x - ex) as i64, y: (cut.start.y - ey) as i64 },
        Point { x: (cut.end.x + ex) as i64, y: (cut.end.y + ey) as i64 },
        Point { x: (cut.end.x + ex + nx) as i64, y: (cut.end.y + ey + ny) as i64 },
        Point { x: (cut.start.x - ex + nx) as i64, y: (cut.start.y - ey + ny) as i64 },
    ]
}

/// The length of the stretch from `low` to `high` once it is widened to hold
/// `at`.
pub open spec fn widened(low: int, high: int, at: int) -> int {
    (if high > at {
        high
    } else {
        at
    }) - (if low < at {
        low
    } else {
        at
    })
}

/// How far the side rectangles of a cut that starts at `from` have to reach
/// to cover the box: the width and the height, added, of the box widened to
/// hold `from`. No point of the box lies further from `from`, and no two
/// points of the box lie further apart.
pub open spec fn reach_of(bounds: Rect, from: Point) -> int {
    widened(bounds.min.x as int, bounds.max.x as int, from.x as int) + widened(
        bounds.min.y as int,
        bounds.max.y as int,
        from.y as int,
    )
}

/// The length of the stretch from `low` to `high` once it holds `at`.
fn widen(low: i64, high: i64, at: i64) -> (length: i64)
    requires
        -MAX_COORDINATE <= low <= MAX_COORDINATE,
        -MAX_COORDINATE <= high <= MAX_COORDINATE,
        -MAX_COORDINATE <= at <= MAX_COORDINATE,
    ensures
        length == widened(low as int, high as int, at as int),
        0 <= length <= 2 * MAX_COORDINATE,
{
    let top: i64 = if high > at {
        high
    } else {
        at
    };
    let bottom: i64 = if low < at {
        low
    } else {
        at
    };
    top - bottom
}

/// Computes how far the side rectangles of a cut that starts at `from` have
/// to reach to cover the box.
pub fn box_reach(bounds: Rect, from: Point) -> (reach: i64)
    requires
        measurable_point(bounds.min),
        measurable_point(bounds.max),
        measurable_point(from),
    ensures
        reach == reach_of(bounds, from),
        0 <= reach <= MAX_REACH,
{
    widen(bounds.min.x, bounds.max.x, from.x) + widen(bounds.min.y, bounds.max.y, from.y)
}

/// A stretched extent is at most the reach and the longest extent together.
pub proof fn lemma_stretched_extent(d: int, longest: int, reach: int)
    requires
        0 <= reach,
        longest > 0,
        -longest <= d <= longest,
    ensures
        (reach + longest - 1) / longest >= 0,
        -(reach + longest) <= d * ((reach + longest - 1) / longest) <= reach + longest,
{
    let k = (reach + longest - 1) / longest;
    lemma_fundamental_div_mod(reach + longest - 1, longest);
    let r = (reach + longest - 1) % longest;
    assert(reach + longest - 1 == longest * k + r);
    assert(0 <= r < longest);
    assert(k >= 0) by (nonlinear_arith)
        requires
            reach + longest - 1 == longest * k + r,
            0 <= r < longest,
            reach >= 0,
            longest > 0,
    ;
    assert(-(longest * k) <= d * k <= longest * k) by (nonlinear_arith)
        requires
            -longest <= d <= longest,
            k >= 0,
    ;
}

/// The reach of a rectangle along x and along y: the extents of the cut,
/// stretched.
fn stretched(line_start: Point, line_end: Point, extent: i64) -> (reach: (i64, i64))
    requires
        measurable_point(line_start),
        measurable_point(line_end),
        0 <= extent <= MAX_REACH,
    ensures
        reach.0 == (line_end.x - line_start.x) * stretch(
            Cut { start: line_start, end: line_end },
            extent as int,
        ),
        reach.1 == (line_end.y - line_start.y) * stretch(
            Cut { start: line_start, end: line_end },
            extent as int,
        ),
        -3 * MAX_REACH <= reach.0 <= 3 * MAX_REACH,
        -3 * MAX_REACH <= reach.1 <= 3 * MAX_REACH,
{
    let ghost cut = Cut { start: line_start, end: line_end };
    let dx: i64 = line_end.x - line_start.x;
    let dy: i64 = line_end.y - line_start.y;
    let wide: i64 = if dx < 0 {
        -dx
    } else {
        dx
    };
    let high: i64 = if dy < 0 {
        -dy
    } else {
        dy
    };
    let longest: i64 = if wide >= high {
        wide
    } else {
        high
    };
    assert(longest == longest_extent(cut));
    if longest == 0 {
        assert(stretch(cut, extent as int) == 0);
        assert(dx * 0 == 0 && dy * 0 == 0);
        return (0, 0);
    }
    let k: i64 = (extent + longest - 1) / longest;
    assert(k == stretch(cut, extent as int));
    proof {
        lemma_stretched_extent(dx as int, longest as int, extent as int);
        lemma_stretched_extent(dy as int, longest as int, extent as int);
    }
    (dx * k, dy * k)
}

/// Builds the rectangle on one side of the line of a cut.
pub fn build_half_plane_rect(line_start: Point, line_end: Point, left: bool, extent: i64) -> (rectangle:
    Vec<Point>)
    requires
        measurable_point(line_start),
        measurable_point(line_end),
        0 <= extent <= MAX_REACH,
    ensures
        rectangle@ == side_rectangle(
            Cut { start: line_start, end: line_end },
            extent as int,
            left,
        ),
        rectangle@.len() == 4,
{
    let (ex, ey) = stretched(line_start, line_end, extent);
    let nx: i64 = if left {
        -ey
    } else {
        ey
    };
    let ny: i64 = if left {
        ex
    } else {
        -ex
    };
    let mut rectangle: Vec<Point> = Vec::with_capacity(4);
    rectangle.push(Point { x: line_start.x - ex, y: line_start.y - ey });
    rectangle.push(Point { x: line_end.x + ex, y: line_end.y + ey });
    rectangle.push(Point { x: line_end.x + ex + nx, y: line_end.y + ey + ny });
    rectangle.push(Point { x: line_start.x - ex + nx, y: line_start.y - ey + ny });
    assert(rectangle@ =~= side_rectangle(
        Cut { start: line_start, end: line_end },
        extent as int,
        left,
    ));
    rectangle
}

} // verus!
