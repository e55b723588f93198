//! Testing whether a point lies inside a polygon, by casting a ray from the
//! point towards larger x and counting the edges that it crosses.

use crate::fracture::half_plane::{measurable, measurable_point};
use crate::fracture::{Point, MIN_POLYGON_POINTS};
use vstd::prelude::*;

verus! {

/// Whether `q` is at, or on the side of smaller x of, the point of the line
/// through `p1` and `p2` at the height of `q`. Meaningful for an edge that
/// is not level.
pub open spec fn at_or_before_edge(q: Point, p1: Point, p2: Point) -> bool {
    let run = (q.x - p1.x) * (p2.y - p1.y);
    let rise = (q.y - p1.y) * (p2.x - p1.x);
    if p2.y > p1.y {
        run <= rise
    } else {
        run >= rise
    }
}

/// Whether the ray from `q` crosses the edge from `p1` to `p2`. The edge
/// counts from above its lower end up to its upper end, and a level edge
/// never counts.
pub open spec fn ray_crosses(q: Point, p1: Point, p2: Point) -> bool {
    let low = if p1.y <= p2.y {
        p1.y
    } else {
        p2.y
    };
    let high = if p1.y >= p2.y {
        p1.y
    } else {
        p2.y
    };
    let right = if p1.x >= p2.x {
        p1.x
    } else {
        p2.x
    };
    q.y > low && q.y <= high && q.x <= right && p1.y != p2.y && (p1.x == p2.x
        || at_or_before_edge(q, p1, p2))
}

/// The number of the first `edges` edges of the polygon that the ray from
/// `q` crosses. The last edge leads back to the first point.
pub open spec fn ray_crossings(q: Point, polygon: Seq<Point>, edges: nat) -> nat
    decreases edges,
{
    if edges == 0 {
        0
    } else {
        let i = edges - 1;
        let here: nat = if ray_crosses(q, polygon[i], polygon[(i + 1) % (polygon.len() as int)]) {
            1
        } else {
            0
        };
        ray_crossings(q, polygon, i as nat) + here
    }
}

/// Whether `q` lies inside the polygon: the ray from it crosses the
/// boundary an odd number of times. Nothing lies inside a polygon of fewer
/// than three points.
pub open spec fn inside(q: Point, polygon: Seq<Point>) -> bool {
    polygon.len() >= MIN_POLYGON_POINTS && ray_crossings(q, polygon, polygon.len()) % 2 == 1
}

/// Tells whether the ray from `q` crosses the edge from `p1` to `p2`.
fn crosses_edge(q: Point, p1: Point, p2: Point) -> (crosses: bool)
    requires
        measurable_point(q),
        measurable_point(p1),
        measurable_point(p2),
    ensures
        crosses == ray_crosses(q, p1, p2),
{
    let low: i64 = if p1.y <= p2.y {
        p1.y
    } else {
        p2.y
    };
    let high: i64 = if p1.y >= p2.y {
        p1.y
    } else {
        p2.y
    };
    let right: i64 = if p1.x >= p2.x {
        p1.x
    } else {
        p2.x
    };
    if !(q.y > low && q.y <= high && q.x <= right && p1.y != p2.y) {
        return false;
    }
    if p1.x == p2.x {
        return true;
    }
    let a: i128 = q.x as i128 - p1.x as i128;
    let b: i128 = p2.y as i128 - p1.y as i128;
    let c: i128 = q.y as i128 - p1.y as i128;
    let d: i128 = p2.x as i128 - p1.x as i128;
    assert(-0x4000_0000_0000_0000_0000 <= a * b <= 0x4000_0000_0000_0000_0000)
        by (nonlinear_arith)
        requires
            -0x80_0000_0000 <= a <= 0x80_0000_0000,
            -0x80_0000_0000 <= b <= 0x80_0000_0000,
    ;
    assert(-0x4000_0000_0000_0000_0000 <= c * d <= 0x4000_0000_0000_0000_0000)
        by (nonlinear_arith)
        requires
            -0x80_0000_0000 <= c <= 0x80_0000_0000,
            -0x80_0000_0000 <= d <= 0x80_0000_0000,
    ;
    let run: i128 = a * b;
    let rise: i128 = c * d;
    if p2.y > p1.y {
        run <= rise
    } else {
        run >= rise
    }
}

/// Tells whether a point lies inside a polygon.
pub fn point_in_polygon(point: Point, polygon: &Vec<Point>) -> (within: bool)
    requires
        measurable_point(point),
        measurable(polygon@),
    ensures
        within == inside(point, polygon@),
{
    let n: usize = polygon.len();
    if n < MIN_POLYGON_POINTS {
        return false;
    }
    let mut within: bool = false;
    let mut i: usize = 0;
    while i < n
        invariant
            i <= n,
            n == polygon@.len(),
            measurable_point(point),
            measurable(polygon@),
            within == (ray_crossings(point, polygon@, i as nat) % 2 == 1),
        decreases n - i,
    {
        if crosses_edge(point, polygon[i], polygon[(i + 1) % n]) {
            within = !within;
        }
        i += 1;
    }
    within
}

} // verus!
