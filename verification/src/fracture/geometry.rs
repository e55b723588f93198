//! Bounding boxes of polygons in clipper units.

use crate::fracture::half_plane::{measurable_point, MAX_COORDINATE};
use crate::fracture::Point;
use vstd::prelude::*;

verus! {

/// An axis-aligned box, given by its smallest and its largest corner.
#[derive(Clone, Copy, Debug, PartialEq, Eq, Structural)]
pub struct Rect {
    pub min: Point,
    pub max: Point,
}

impl Rect {
    /// Extent along x.
    pub open spec fn width(&self) -> int {
        self.max.x - self.min.x
    }

    /// Extent along y.
    pub open spec fn height(&self) -> int {
        self.max.y - self.min.y
    }
}

/// Whether `bounds` is the bounding box of `polygon`: the box of no points
/// is the empty box at the origin, and any other box touches a point on
/// each of its four sides and leaves none outside.
pub open spec fn is_bounds_of(bounds: Rect, polygon: Seq<Point>) -> bool {
    if polygon.len() == 0 {
        bounds == (Rect { min: Point { x: 0, y: 0 }, max: Point { x: 0, y: 0 } })
    } else {
        &&& forall|i: int|
            0 <= i < polygon.len() ==> bounds.min.x <= (#[trigger] polygon[i]).x <= bounds.max.x
                && bounds.min.y <= polygon[i].y <= bounds.max.y
        &&& exists|i: int| 0 <= i < polygon.len() && (#[trigger] polygon[i]).x == bounds.min.x
        &&& exists|i: int| 0 <= i < polygon.len() && (#[trigger] polygon[i]).x == bounds.max.x
        &&& exists|i: int| 0 <= i < polygon.len() && (#[trigger] polygon[i]).y == bounds.min.y
        &&& exists|i: int| 0 <= i < polygon.len() && (#[trigger] polygon[i]).y == bounds.max.y
    }
}

/// A polygon has one bounding box only.
pub proof fn lemma_bounds_are_unique(a: Rect, b: Rect, polygon: Seq<Point>)
    requires
        is_bounds_of(a, polygon),
        is_bounds_of(b, polygon),
    ensures
        a == b,
{
}

/// The bounding box of a polygon.
pub open spec fn bounds_of(polygon: Seq<Point>) -> Rect {
    choose|bounds: Rect| is_bounds_of(bounds, polygon)
}

/// The bounding box of a polygon.
pub fn calculate_bounds(polygon: &Vec<Point>) -> (bounds: Rect)
    ensures
        is_bounds_of(bounds, polygon@),
        bounds == bounds_of(polygon@),
{
    if polygon.len() == 0 {
        let bounds = Rect { min: Point { x: 0, y: 0 }, max: Point { x: 0, y: 0 } };
        proof {
            lemma_bounds_are_unique(bounds, bounds_of(polygon@), polygon@);
        }
        return bounds;
    }
    let first = polygon[0];
    let mut min_x: i64 = first.x;
    let mut max_x: i64 = first.x;
    let mut min_y: i64 = first.y;
    let mut max_y: i64 = first.y;
    let ghost mut at_min_x: int = 0;
    let ghost mut at_max_x: int = 0;
    let ghost mut at_min_y: int = 0;
    let ghost mut at_max_y: int = 0;
    let mut i: usize = 1;
    while i < polygon.len()
        invariant
            1 <= i <= polygon@.len(),
            forall|k: int|
                0 <= k < i ==> min_x <= (#[trigger] polygon@[k]).x <= max_x && min_y
                    <= polygon@[k].y <= max_y,
            0 <= at_min_x < i && polygon@[at_min_x].x == min_x,
            0 <= at_max_x < i && polygon@[at_max_x].x == max_x,
            0 <= at_min_y < i && polygon@[at_min_y].y == min_y,
            0 <= at_max_y < i && polygon@[at_max_y].y == max_y,
        decreases polygon@.len() - i,
    {
        let p = polygon[i];
        if p.x < min_x {
            min_x = p.x;
            proof {
                at_min_x = i as int;
            }
        }
        if p.x > max_x {
            max_x = p.x;
            proof {
                at_max_x = i as int;
            }
        }
        if p.y < min_y {
            min_y = p.y;
            proof {
                at_min_y = i as int;
            }
        }
        if p.y > max_y {
            max_y = p.y;
            proof {
                at_max_y = i as int;
            }
        }
        i += 1;
    }
    let bounds = Rect { min: Point { x: min_x, y: min_y }, max: Point { x: max_x, y: max_y } };
    proof {
        assert(is_bounds_of(bounds, polygon@));
        lemma_bounds_are_unique(bounds, bounds_of(polygon@), polygon@);
    }
    bounds
}

/// Whether two boxes overlap in more than a border.
pub open spec fn overlapping(a: Rect, b: Rect) -> bool {
    a.min.x < b.max.x && a.max.x > b.min.x && a.min.y < b.max.y && a.max.y > b.min.y
}

/// Tells whether two boxes overlap. Boxes that only touch, and boxes without
/// extent, do not.
pub fn rects_intersect(a: Rect, b: Rect) -> (overlap: bool)
    ensures
        overlap == overlapping(a, b),
{
    a.min.x < b.max.x && a.max.x > b.min.x && a.min.y < b.max.y && a.max.y > b.min.y
}

/// The end of an extent that starts at `low` and ends at `high`, once it
/// is grown by `amount` at both ends. An extent that would shrink to less
/// than nothing ends where it starts.
pub open spec fn grown_end(low: int, high: int, amount: int) -> int {
    if high - low + 2 * amount >= 0 {
        high + amount
    } else {
        low - amount
    }
}

/// The box grown by `amount` on every side, or shrunk for a negative
/// `amount`. The smallest corner always moves; the extent never falls
/// below nothing.
pub open spec fn grown(rect: Rect, amount: int) -> Rect {
    Rect {
        min: Point { x: (rect.min.x - amount) as i64, y: (rect.min.y - amount) as i64 },
        max: Point {
            x: grown_end(rect.min.x as int, rect.max.x as int, amount) as i64,
            y: grown_end(rect.min.y as int, rect.max.y as int, amount) as i64,
        },
    }
}

/// Grows a box by `amount` on every side, or shrinks it for a negative
/// `amount`.
pub fn grow_rect(rect: Rect, amount: i64) -> (result: Rect)
    requires
        measurable_point(rect.min),
        measurable_point(rect.max),
        -MAX_COORDINATE <= amount <= MAX_COORDINATE,
    ensures
        result == grown(rect, amount as int),
        result.width() >= 0 || rect.width() < 0,
        result.height() >= 0 || rect.height() < 0,
{
    let min = Point { x: rect.min.x - amount, y: rect.min.y - amount };
    let max_x: i64 = if rect.max.x - rect.min.x + 2 * amount >= 0 {
        rect.max.x + amount
    } else {
        min.x
    };
    let max_y: i64 = if rect.max.y - rect.min.y + 2 * amount >= 0 {
        rect.max.y + amount
    } else {
        min.y
    };
    Rect { min, max: Point { x: max_x, y: max_y } }
}

/// Whether the point lies in the box, borders included.
pub open spec fn in_rect(rect: Rect, p: Point) -> bool {
    rect.min.x <= p.x <= rect.max.x && rect.min.y <= p.y <= rect.max.y
}

/// Tells whether the point lies in the box, borders included.
pub fn rect_contains(rect: Rect, p: Point) -> (within: bool)
    ensures
        within == in_rect(rect, p),
{
    rect.min.x <= p.x && p.x <= rect.max.x && rect.min.y <= p.y && p.y <= rect.max.y
}

} // verus!
