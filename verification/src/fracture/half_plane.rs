//! Clipping a polygon to one side of a line.
//!
//! The side is given by whole numbers `a`, `b` and `c`: a point `(x, y)` is
//! kept where `a * x + b * y - c` is not negative. Where an edge of the
//! polygon crosses the line, the crossing point is added, rounded to the
//! nearest whole coordinates.

use crate::fracture::exact::{
    lemma_rounded_quotient_is_nearest, round_div, rounded_quotient, MAX_DIVIDEND,
};
use crate::fracture::{Point, MIN_POLYGON_POINTS};
use vstd::prelude::*;

verus! {

/// Largest coordinate, in either direction, that geometry is computed on.
pub const MAX_COORDINATE: i64 = 0x40_0000_0000;

/// Largest magnitude of the numbers `a` and `b` of a line.
pub const MAX_SLOPE: i128 = 0x100_0000_0000;

/// Largest magnitude of the number `c` of a line.
pub const MAX_OFFSET: i128 = 0x1_0000_0000_0000_0000_0000;

/// Whether geometry can be computed on the point.
pub open spec fn measurable_point(p: Point) -> bool {
    -MAX_COORDINATE <= p.x <= MAX_COORDINATE && -MAX_COORDINATE <= p.y <= MAX_COORDINATE
}

/// Whether geometry can be computed on every point of the polygon.
pub open spec fn measurable(polygon: Seq<Point>) -> bool {
    forall|i: int| 0 <= i < polygon.len() ==> measurable_point(#[trigger] polygon[i])
}

/// Tells whether geometry can be computed on the point.
pub fn is_measurable_point(p: Point) -> (ok: bool)
    ensures
        ok == measurable_point(p),
{
    -MAX_COORDINATE <= p.x && p.x <= MAX_COORDINATE && -MAX_COORDINATE <= p.y && p.y
        <= MAX_COORDINATE
}

/// Tells whether geometry can be computed on every point of the polygon.
pub fn is_measurable(polygon: &Vec<Point>) -> (ok: bool)
    ensures
        ok == measurable(polygon@),
{
    let mut i: usize = 0;
    while i < polygon.len()
        invariant
            i <= polygon@.len(),
            forall|k: int| 0 <= k < i ==> measurable_point(#[trigger] polygon@[k]),
        decreases polygon@.len() - i,
    {
        if !is_measurable_point(polygon[i]) {
            return false;
        }
        i += 1;
    }
    true
}

/// A line, as the numbers `a`, `b` and `c` of `a * x + b * y = c`. The side
/// that is kept is the one where `a * x + b * y - c` is not negative.
#[derive(Clone, Copy, Debug, PartialEq, Eq, Structural)]
pub struct Line {
    pub a: i128,
    pub b: i128,
    pub c: i128,
}

impl Line {
    /// Whether the numbers of the line are small enough to compute with.
    pub open spec fn usable(&self) -> bool {
        &&& -MAX_SLOPE <= self.a <= MAX_SLOPE
        &&& -MAX_SLOPE <= self.b <= MAX_SLOPE
        &&& -MAX_OFFSET <= self.c <= MAX_OFFSET
    }

    /// How far `p` lies on the kept side, in units that depend on the line:
    /// zero on the line, negative on the other side.
    pub open spec fn side(&self, p: Point) -> int {
        self.a * p.x + self.b * p.y - self.c
    }

    /// Whether `p` is kept.
    pub open spec fn keeps(&self, p: Point) -> bool {
        self.side(p) >= 0
    }

    /// The point in which the edge from `from` to `to` crosses the line,
    /// rounded to whole coordinates. Meaningful where exactly one of the
    /// two is kept.
    pub open spec fn crossing(&self, from: Point, to: Point) -> Point {
        let near = if self.keeps(from) {
            self.side(from)
        } else {
            -self.side(from)
        };
        let span = if self.keeps(from) {
            self.side(from) - self.side(to)
        } else {
            self.side(to) - self.side(from)
        };
        Point {
            x: (from.x + rounded_quotient((to.x - from.x) * near, span)) as i64,
            y: (from.y + rounded_quotient((to.y - from.y) * near, span)) as i64,
        }
    }

    /// What one edge adds to the clipped polygon: its start where that is
    /// kept, then the crossing point where the edge crosses the line.
    pub open spec fn clipped_edge(&self, from: Point, to: Point) -> Seq<Point> {
        let start = if self.keeps(from) {
            seq![from]
        } else {
            Seq::empty()
        };
        if self.keeps(from) != self.keeps(to) {
            start.push(self.crossing(from, to))
        } else {
            start
        }
    }

    /// What the first `edges` edges of the polygon add to the clipped
    /// polygon. The last edge leads back to the first point.
    pub open spec fn clipped_edges(&self, polygon: Seq<Point>, edges: nat) -> Seq<Point>
        decreases edges,
    {
        if edges == 0 {
            Seq::empty()
        } else {
            let i = edges - 1;
            self.clipped_edges(polygon, i as nat) + self.clipped_edge(
                polygon[i],
                polygon[(i + 1) % (polygon.len() as int)],
            )
        }
    }

    /// The polygon clipped to the kept side. A polygon of fewer than three
    /// points has no area and is clipped to nothing.
    pub open spec fn clipped(&self, polygon: Seq<Point>) -> Seq<Point> {
        if polygon.len() < MIN_POLYGON_POINTS {
            Seq::empty()
        } else {
            self.clipped_edges(polygon, polygon.len())
        }
    }

    /// Computes `side`.
    fn side_of(&self, p: Point) -> (side: i128)
        requires
            self.usable(),
            measurable_point(p),
        ensures
            side == self.side(p),
            -3 * MAX_OFFSET <= side <= 3 * MAX_OFFSET,
    {
        let x: i128 = p.x as i128;
        let y: i128 = p.y as i128;
        assert(-MAX_OFFSET <= self.a * x <= MAX_OFFSET) by (nonlinear_arith)
            requires
                -0x100_0000_0000 <= self.a <= 0x100_0000_0000,
                -0x40_0000_0000 <= x <= 0x40_0000_0000,
                MAX_OFFSET == 0x1_0000_0000_0000_0000_0000,
        ;
        assert(-MAX_OFFSET <= self.b * y <= MAX_OFFSET) by (nonlinear_arith)
            requires
                -0x100_0000_0000 <= self.b <= 0x100_0000_0000,
                -0x40_0000_0000 <= y <= 0x40_0000_0000,
                MAX_OFFSET == 0x1_0000_0000_0000_0000_0000,
        ;
        self.a * x + self.b * y - self.c
    }

    /// Computes `crossing`.
    fn crossing_of(&self, from: Point, to: Point, from_side: i128, to_side: i128) -> (point: Point)
        requires
            self.usable(),
            measurable_point(from),
            measurable_point(to),
            from_side == self.side(from),
            to_side == self.side(to),
            -3 * MAX_OFFSET <= from_side <= 3 * MAX_OFFSET,
            -3 * MAX_OFFSET <= to_side <= 3 * MAX_OFFSET,
            self.keeps(from) != self.keeps(to),
        ensures
            point == self.crossing(from, to),
            measurable_point(point),
    {
        let near: i128 = if from_side >= 0 {
            from_side
        } else {
            -from_side
        };
        let span: i128 = if from_side >= 0 {
            from_side - to_side
        } else {
            to_side - from_side
        };
        assert(0 <= near <= span && span > 0);
        let dx: i128 = to.x as i128 - from.x as i128;
        let dy: i128 = to.y as i128 - from.y as i128;
        proof {
            lemma_step_is_between(dx as int, near as int, span as int);
            lemma_step_is_between(dy as int, near as int, span as int);
        }
        assert(-MAX_DIVIDEND / 4 <= dx * near <= MAX_DIVIDEND / 4) by (nonlinear_arith)
            requires
                -0x80_0000_0000 <= dx <= 0x80_0000_0000,
                0 <= near <= 3 * 0x1_0000_0000_0000_0000_0000,
                MAX_DIVIDEND == 0x1000_0000_0000_0000_0000_0000_0000_0000,
        ;
        assert(-MAX_DIVIDEND / 4 <= dy * near <= MAX_DIVIDEND / 4) by (nonlinear_arith)
            requires
                -0x80_0000_0000 <= dy <= 0x80_0000_0000,
                0 <= near <= 3 * 0x1_0000_0000_0000_0000_0000,
                MAX_DIVIDEND == 0x1000_0000_0000_0000_0000_0000_0000_0000,
        ;
        let step_x: i128 = round_div(dx * near, span);
        let step_y: i128 = round_div(dy * near, span);
        Point { x: (from.x as i128 + step_x) as i64, y: (from.y as i128 + step_y) as i64 }
    }
}

/// A step of the `near / span` part of `delta` lies between no step and the
/// whole of `delta`.
pub proof fn lemma_step_is_between(delta: int, near: int, span: int)
    requires
        0 <= near <= span,
        span > 0,
    ensures
        delta >= 0 ==> 0 <= rounded_quotient(delta * near, span) <= delta,
        delta <= 0 ==> delta <= rounded_quotient(delta * near, span) <= 0,
{
    let q = rounded_quotient(delta * near, span);
    lemma_rounded_quotient_is_nearest(delta * near, span);
    // -span <= 2 * (delta * near - q * span) < span
    if delta >= 0 {
        assert(0 <= delta * near <= delta * span) by (nonlinear_arith)
            requires
                0 <= near <= span,
                delta >= 0,
        ;
        assert(q >= 0) by (nonlinear_arith)
            requires
                2 * (delta * near - q * span) < span,
                delta * near >= 0,
                span > 0,
        ;
        assert(q <= delta) by (nonlinear_arith)
            requires
                -span <= 2 * (delta * near - q * span),
                delta * near <= delta * span,
                span > 0,
        ;
    }
    if delta <= 0 {
        assert(delta * span <= delta * near <= 0) by (nonlinear_arith)
            requires
                0 <= near <= span,
                delta <= 0,
        ;
        assert(q <= 0) by (nonlinear_arith)
            requires
                -span <= 2 * (delta * near - q * span),
                delta * near <= 0,
                span > 0,
        ;
        assert(q >= delta) by (nonlinear_arith)
            requires
                2 * (delta * near - q * span) < span,
                delta * span <= delta * near,
                span > 0,
        ;
    }
}

/// Whether the numbers of a direction are small enough to make a line of.
pub open spec fn usable_normal(normal: Point) -> bool {
    -MAX_SLOPE <= normal.x <= MAX_SLOPE && -MAX_SLOPE <= normal.y <= MAX_SLOPE
}

impl Line {
    /// The line through `plane_point` that keeps the side into which
    /// `plane_normal` points.
    pub fn through(plane_point: Point, plane_normal: Point) -> (line: Line)
        requires
            measurable_point(plane_point),
            usable_normal(plane_normal),
        ensures
            line.usable(),
            line.a == plane_normal.x,
            line.b == plane_normal.y,
            line.c == plane_normal.x * plane_point.x + plane_normal.y * plane_point.y,
            forall|p: Point| #[trigger]
                line.side(p) == plane_normal.x * (p.x - plane_point.x) + plane_normal.y * (p.y
                    - plane_point.y),
    {
        let a: i128 = plane_normal.x as i128;
        let b: i128 = plane_normal.y as i128;
        let x: i128 = plane_point.x as i128;
        let y: i128 = plane_point.y as i128;
        assert(-0x4000_0000_0000_0000_0000 <= a * x <= 0x4000_0000_0000_0000_0000)
            by (nonlinear_arith)
            requires
                -0x100_0000_0000 <= a <= 0x100_0000_0000,
                -0x40_0000_0000 <= x <= 0x40_0000_0000,
        ;
        assert(-0x4000_0000_0000_0000_0000 <= b * y <= 0x4000_0000_0000_0000_0000)
            by (nonlinear_arith)
            requires
                -0x100_0000_0000 <= b <= 0x100_0000_0000,
                -0x40_0000_0000 <= y <= 0x40_0000_0000,
        ;
        let line = Line { a, b, c: a * x + b * y };
        assert forall|p: Point| #[trigger]
            line.side(p) == plane_normal.x * (p.x - plane_point.x) + plane_normal.y * (p.y
                - plane_point.y) by {
            assert(a * p.x - a * x == a * (p.x - x)) by (nonlinear_arith);
            assert(b * p.y - b * y == b * (p.y - y)) by (nonlinear_arith);
        }
        line
    }

    /// The line of all points equally far from `keep` and `away`, keeping
    /// the side of `keep`. For two equal points every point is kept.
    pub fn bisector(keep: Point, away: Point) -> (line: Line)
        requires
            measurable_point(keep),
            measurable_point(away),
        ensures
            line.usable(),
            line.a == 2 * (keep.x - away.x),
            line.b == 2 * (keep.y - away.y),
            line.c == (keep.x - away.x) * (keep.x + away.x) + (keep.y - away.y) * (keep.y
                + away.y),
            forall|p: Point| #[trigger]
                line.side(p) == squared_distance(p, away) - squared_distance(p, keep),
    {
        let dx: i128 = keep.x as i128 - away.x as i128;
        let dy: i128 = keep.y as i128 - away.y as i128;
        let sx: i128 = keep.x as i128 + away.x as i128;
        let sy: i128 = keep.y as i128 + away.y as i128;
        assert(-0x4000_0000_0000_0000_0000 <= dx * sx <= 0x4000_0000_0000_0000_0000)
            by (nonlinear_arith)
            requires
                -0x80_0000_0000 <= dx <= 0x80_0000_0000,
                -0x80_0000_0000 <= sx <= 0x80_0000_0000,
        ;
        assert(-0x4000_0000_0000_0000_0000 <= dy * sy <= 0x4000_0000_0000_0000_0000)
            by (nonlinear_arith)
            requires
                -0x80_0000_0000 <= dy <= 0x80_0000_0000,
                -0x80_0000_0000 <= sy <= 0x80_0000_0000,
        ;
        let line = Line { a: 2 * dx, b: 2 * dy, c: dx * sx + dy * sy };
        assert forall|p: Point| #[trigger]
            line.side(p) == squared_distance(p, away) - squared_distance(p, keep) by {
            let px = p.x as int;
            let py = p.y as int;
            let kx = keep.x as int;
            let ky = keep.y as int;
            let ax = away.x as int;
            let ay = away.y as int;
            assert((px - ax) * (px - ax) - (px - kx) * (px - kx) == 2 * (kx - ax) * px - (kx - ax)
                * (kx + ax)) by (nonlinear_arith);
            assert((py - ay) * (py - ay) - (py - ky) * (py - ky) == 2 * (ky - ay) * py - (ky - ay)
                * (ky + ay)) by (nonlinear_arith);
        }
        line
    }
}

/// The square of the distance between two points.
pub open spec fn squared_distance(p: Point, q: Point) -> int {
    (p.x - q.x) * (p.x - q.x) + (p.y - q.y) * (p.y - q.y)
}

/// Clips a polygon to the kept side of a line.
///
/// Every point on the kept side stays, and every edge that crosses the line
/// adds its crossing point, rounded to whole coordinates. A polygon of fewer
/// than three points gives nothing.
pub fn clip_to_line(polygon: &Vec<Point>, line: Line) -> (kept: Vec<Point>)
    requires
        measurable(polygon@),
        line.usable(),
    ensures
        kept@ == line.clipped(polygon@),
        measurable(kept@),
{
    let mut kept: Vec<Point> = Vec::new();
    let count: usize = polygon.len();
    if count < MIN_POLYGON_POINTS {
        return kept;
    }
    let mut i: usize = 0;
    while i < count
        invariant
            i <= count,
            count == polygon@.len(),
            count >= MIN_POLYGON_POINTS,
            measurable(polygon@),
            measurable(kept@),
            line.usable(),
            kept@ == line.clipped_edges(polygon@, i as nat),
        decreases count - i,
    {
        let from = polygon[i];
        let to = polygon[(i + 1) % count];
        let from_side = line.side_of(from);
        let to_side = line.side_of(to);
        let ghost before = kept@;
        if from_side >= 0 {
            kept.push(from);
        }
        if (from_side >= 0) != (to_side >= 0) {
            kept.push(line.crossing_of(from, to, from_side, to_side));
        }
        assert(kept@ =~= before + line.clipped_edge(from, to));
        i += 1;
    }
    kept
}

/// Clips a polygon to the side of the plane through `plane_point` into
/// which `plane_normal` points. Points on the plane are kept.
pub fn clip_polygon_to_half_plane(polygon: &Vec<Point>, plane_point: Point, plane_normal: Point) -> (kept:
    Vec<Point>)
    requires
        measurable(polygon@),
        measurable_point(plane_point),
        usable_normal(plane_normal),
    ensures
        kept@ == (Line {
            a: plane_normal.x as i128,
            b: plane_normal.y as i128,
            c: (plane_normal.x * plane_point.x + plane_normal.y * plane_point.y) as i128,
        }).clipped(polygon@),
        measurable(kept@),
{
    clip_to_line(polygon, Line::through(plane_point, plane_normal))
}

/// While every point so far is kept, clipping adds each of them and nothing
/// else.
proof fn lemma_kept_edges(line: Line, polygon: Seq<Point>, edges: nat)
    requires
        edges <= polygon.len(),
        forall|i: int| 0 <= i < polygon.len() ==> line.keeps(#[trigger] polygon[i]),
    ensures
        line.clipped_edges(polygon, edges) == polygon.take(edges as int),
    decreases edges,
{
    if edges == 0 {
        assert(polygon.take(0) =~= Seq::<Point>::empty());
    } else {
        let i = edges - 1;
        lemma_kept_edges(line, polygon, i as nat);
        let next = (i + 1) % (polygon.len() as int);
        assert(line.keeps(polygon[i]));
        assert(line.keeps(polygon[next]));
        assert(line.clipped_edge(polygon[i], polygon[next]) =~= seq![polygon[i]]);
        assert(polygon.take(edges as int) =~= polygon.take(i) + seq![polygon[i]]);
    }
}

proof fn lemma_dropped_edges(line: Line, polygon: Seq<Point>, edges: nat)
    requires
        edges <= polygon.len(),
        forall|i: int| 0 <= i < polygon.len() ==> !line.keeps(#[trigger] polygon[i]),
    ensures
        line.clipped_edges(polygon, edges) == Seq::<Point>::empty(),
    decreases edges,
{
    if edges > 0 {
        let i = edges - 1;
        lemma_dropped_edges(line, polygon, i as nat);
        let next = (i + 1) % (polygon.len() as int);
        assert(!line.keeps(polygon[i]));
        assert(!line.keeps(polygon[next]));
        assert(line.clipped_edge(polygon[i], polygon[next]) =~= Seq::<Point>::empty());
    }
}

/// A polygon that lies wholly on the kept side of a line comes back from
/// clipping as it was, point for point.
pub proof fn lemma_clip_inside_changes_nothing(line: Line, polygon: Seq<Point>)
    requires
        polygon.len() >= MIN_POLYGON_POINTS,
        forall|i: int| 0 <= i < polygon.len() ==> line.keeps(#[trigger] polygon[i]),
    ensures
        line.clipped(polygon) == polygon,
{
    lemma_kept_edges(line, polygon, polygon.len());
    assert(polygon.take(polygon.len() as int) =~= polygon);
}

/// A polygon that lies wholly on the other side of a line is clipped to
/// nothing.
pub proof fn lemma_clip_outside_leaves_nothing(line: Line, polygon: Seq<Point>)
    requires
        forall|i: int| 0 <= i < polygon.len() ==> !line.keeps(#[trigger] polygon[i]),
    ensures
        line.clipped(polygon) == Seq::<Point>::empty(),
{
    lemma_dropped_edges(line, polygon, polygon.len());
}

} // verus!
