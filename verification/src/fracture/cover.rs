//! The two side rectangles of a cut cover the polygon that is cut.
//!
//! The rectangles reach from the start of the cut, along its line and to
//! both sides, at least as far as the width and the height, added, of the
//! box that holds the polygon and that start. No point of the polygon lies
//! further from the start, so none lies outside both rectangles, wherever
//! the cut lies.

use crate::fracture::cut::{
    lemma_stretched_extent, longest_extent, reach_of, side_rectangle, stretch, widened, Cut,
    MAX_REACH,
};
use crate::fracture::geometry::{bounds_of, is_bounds_of, Rect};
use crate::fracture::half_plane::{measurable, measurable_point};
use crate::fracture::Point;
use vstd::prelude::*;

verus! {

/// A direction or an offset in the plane.
pub struct Offset {
    pub x: int,
    pub y: int,
}

/// The cross product of two offsets: how far the second turns to the left
/// of the first.
pub open spec fn cross(a: Offset, b: Offset) -> int {
    a.x * b.y - a.y * b.x
}

/// The dot product of two offsets.
pub open spec fn dot(a: Offset, b: Offset) -> int {
    a.x * b.x + a.y * b.y
}

/// The sum of two offsets.
pub open spec fn plus(a: Offset, b: Offset) -> Offset {
    Offset { x: a.x + b.x, y: a.y + b.y }
}

/// An offset laid end to end `t` times.
pub open spec fn times(t: int, a: Offset) -> Offset {
    Offset { x: t * a.x, y: t * a.y }
}

/// The offset turned a quarter to the left.
pub open spec fn turned(a: Offset) -> Offset {
    Offset { x: -a.y, y: a.x }
}

proof fn lemma_cross_of_sum(a: Offset, b: Offset, c: Offset)
    ensures
        cross(plus(a, b), c) == cross(a, c) + cross(b, c),
        cross(c, plus(a, b)) == cross(c, a) + cross(c, b),
        dot(plus(a, b), c) == dot(a, c) + dot(b, c),
        dot(c, plus(a, b)) == dot(c, a) + dot(c, b),
{
    assert((a.x + b.x) * c.y == a.x * c.y + b.x * c.y) by (nonlinear_arith);
    assert((a.y + b.y) * c.x == a.y * c.x + b.y * c.x) by (nonlinear_arith);
    assert(c.x * (a.y + b.y) == c.x * a.y + c.x * b.y) by (nonlinear_arith);
    assert(c.y * (a.x + b.x) == c.y * a.x + c.y * b.x) by (nonlinear_arith);
    assert((a.x + b.x) * c.x == a.x * c.x + b.x * c.x) by (nonlinear_arith);
    assert((a.y + b.y) * c.y == a.y * c.y + b.y * c.y) by (nonlinear_arith);
    assert(c.x * (a.x + b.x) == c.x * a.x + c.x * b.x) by (nonlinear_arith);
    assert(c.y * (a.y + b.y) == c.y * a.y + c.y * b.y) by (nonlinear_arith);
}

proof fn lemma_cross_of_times(t: int, a: Offset, c: Offset)
    ensures
        cross(times(t, a), c) == t * cross(a, c),
        cross(c, times(t, a)) == t * cross(c, a),
        dot(times(t, a), c) == t * dot(a, c),
        dot(c, times(t, a)) == t * dot(c, a),
{
    assert((t * a.x) * c.y == t * (a.x * c.y)) by (nonlinear_arith);
    assert((t * a.y) * c.x == t * (a.y * c.x)) by (nonlinear_arith);
    assert(c.x * (t * a.y) == t * (c.x * a.y)) by (nonlinear_arith);
    assert(c.y * (t * a.x) == t * (c.y * a.x)) by (nonlinear_arith);
    assert((t * a.x) * c.x == t * (a.x * c.x)) by (nonlinear_arith);
    assert((t * a.y) * c.y == t * (a.y * c.y)) by (nonlinear_arith);
    assert(c.x * (t * a.x) == t * (c.x * a.x)) by (nonlinear_arith);
    assert(c.y * (t * a.y) == t * (c.y * a.y)) by (nonlinear_arith);
    assert(t * (a.x * c.y) - t * (a.y * c.x) == t * (a.x * c.y - a.y * c.x)) by (nonlinear_arith);
    assert(t * (c.x * a.y) - t * (c.y * a.x) == t * (c.x * a.y - c.y * a.x)) by (nonlinear_arith);
    assert(t * (a.x * c.x) + t * (a.y * c.y) == t * (a.x * c.x + a.y * c.y)) by (nonlinear_arith);
    assert(t * (c.x * a.x) + t * (c.y * a.y) == t * (c.x * a.x + c.y * a.y)) by (nonlinear_arith);
}

proof fn lemma_cross_of_turned(a: Offset, c: Offset)
    ensures
        cross(turned(a), c) == -dot(a, c),
        cross(c, turned(a)) == dot(c, a),
        cross(a, a) == 0,
        dot(a, turned(a)) == 0,
        dot(a, c) == dot(c, a),
        cross(a, c) == -cross(c, a),
{
    assert(a.x * (-a.y) == -(a.x * a.y)) by (nonlinear_arith);
    assert((-a.y) * c.y == -(a.y * c.y)) by (nonlinear_arith);
    assert(c.y * (-a.y) == -(c.y * a.y)) by (nonlinear_arith);
    assert(a.x * c.x == c.x * a.x) by (nonlinear_arith);
    assert(a.y * c.y == c.y * a.y) by (nonlinear_arith);
    assert(a.x * c.y == c.y * a.x) by (nonlinear_arith);
    assert(a.y * c.x == c.x * a.y) by (nonlinear_arith);
    assert(a.x * a.y == a.y * a.x) by (nonlinear_arith);
}

/// The offset from one point to another.
pub open spec fn offset(from: Point, to: Point) -> Offset {
    Offset { x: to.x - from.x, y: to.y - from.y }
}

/// How far `v` lies to the left of the directed line from `a` to `b`, in
/// units that depend on the line: zero on the line, negative to the right.
pub open spec fn turn(a: Point, b: Point, v: Point) -> int {
    cross(offset(a, b), offset(a, v))
}

/// Whether `v` lies in the quadrilateral with the given corners, border
/// included. The corners may be listed either way round.
pub open spec fn in_quad(corners: Seq<Point>, v: Point) -> bool {
    let a = corners[0];
    let b = corners[1];
    let c = corners[2];
    let d = corners[3];
    (turn(a, b, v) >= 0 && turn(b, c, v) >= 0 && turn(c, d, v) >= 0 && turn(d, a, v) >= 0) || (turn(
        a,
        b,
        v,
    ) <= 0 && turn(b, c, v) <= 0 && turn(c, d, v) <= 0 && turn(d, a, v) <= 0)
}

/// How far `v` lies to the left of the line of the cut.
pub open spec fn aside(cut: Cut, v: Point) -> int {
    cross(offset(cut.start, cut.end), offset(cut.start, v))
}

/// How far `v` lies along the cut from its start.
pub open spec fn along(cut: Cut, v: Point) -> int {
    dot(offset(cut.start, cut.end), offset(cut.start, v))
}

/// The square of the length of the cut.
pub open spec fn squared_length(cut: Cut) -> int {
    dot(offset(cut.start, cut.end), offset(cut.start, cut.end))
}

/// The four values that tell on which side of the four sides of a side
/// rectangle a point lies. `d` is the cut, `e` the cut stretched `k`
/// times, `u` the point as seen from the start of the cut, and `sign` is 1
/// for the left rectangle and -1 for the right.
proof fn lemma_turns(d: Offset, u: Offset, k: int, sign: int)
    requires
        sign == 1 || sign == -1,
    ensures
        ({
            let e = times(k, d);
            let q = times(sign, turned(e));
            let side = cross(d, u);
            let far = dot(d, u);
            let n = dot(d, d);
            &&& cross(plus(d, times(2, e)), plus(u, e)) == (1 + 2 * k) * side
            &&& cross(q, plus(u, times(-1, plus(d, e)))) == sign * (k * ((1 + k) * n - far))
            &&& cross(
                times(-1, plus(d, times(2, e))),
                plus(u, times(-1, plus(plus(d, e), q))),
            ) == sign * ((1 + 2 * k) * (k * n - sign * side))
            &&& cross(times(-1, q), plus(plus(u, e), times(-1, q))) == sign * (k * (far + k * n))
        }),
{
    let e = times(k, d);
    let te = turned(e);
    let q = times(sign, te);
    let side = cross(d, u);
    let far = dot(d, u);
    let n = dot(d, d);
    let de = plus(d, e);
    let d2e = plus(d, times(2, e));
    // What the stretched cut makes of the three values.
    lemma_cross_of_times(k, d, u);
    lemma_cross_of_times(k, d, d);
    lemma_cross_of_times(k, d, e);
    lemma_cross_of_turned(d, u);
    lemma_cross_of_turned(e, e);
    lemma_cross_of_turned(e, d);
    lemma_cross_of_turned(e, u);
    lemma_cross_of_turned(d, e);
    assert(cross(e, u) == k * side);
    assert(dot(e, u) == k * far);
    assert(cross(d, d) == 0 && cross(e, e) == 0);
    assert(cross(e, d) == 0 && cross(d, e) == 0);
    assert(dot(e, d) == k * n && dot(d, e) == k * n);
    assert(dot(e, e) == k * (k * n));
    // Along the line of the cut.
    lemma_cross_of_times(2, e, u);
    lemma_cross_of_times(2, e, e);
    lemma_cross_of_times(2, e, d);
    lemma_cross_of_sum(d, times(2, e), u);
    lemma_cross_of_sum(d, times(2, e), e);
    lemma_cross_of_sum(d, times(2, e), d);
    lemma_cross_of_sum(u, e, d2e);
    assert(cross(d2e, u) == side + 2 * (k * side));
    assert(cross(d2e, e) == 0);
    assert(cross(d2e, d) == 0);
    assert(cross(d2e, plus(u, e)) == side + 2 * (k * side));
    assert(side + 2 * (k * side) == (1 + 2 * k) * side) by (nonlinear_arith);
    // The far end.
    let back = times(-1, de);
    lemma_cross_of_sum(d, e, te);
    lemma_cross_of_sum(d, e, e);
    lemma_cross_of_times(-1, de, te);
    lemma_cross_of_sum(u, back, te);
    lemma_cross_of_turned(e, plus(u, back));
    lemma_cross_of_turned(e, de);
    lemma_cross_of_turned(e, back);
    lemma_cross_of_sum(u, back, e);
    lemma_cross_of_times(-1, de, e);
    lemma_cross_of_times(sign, te, plus(u, back));
    assert(dot(e, de) == k * n + k * (k * n));
    assert(dot(e, back) == -(k * n + k * (k * n)));
    assert(dot(e, plus(u, back)) == k * far - (k * n + k * (k * n)));
    assert(cross(te, plus(u, back)) == -(k * far - (k * n + k * (k * n))));
    assert(-(k * far - (k * n + k * (k * n))) == k * ((1 + k) * n - far)) by (nonlinear_arith);
    assert(cross(q, plus(u, back)) == sign * (k * ((1 + k) * n - far)));
    // The side away from the line.
    let deq = plus(de, q);
    let away = times(-1, deq);
    let w = plus(u, away);
    lemma_cross_of_times(-1, d2e, w);
    lemma_cross_of_sum(u, away, d2e);
    lemma_cross_of_times(-1, deq, d2e);
    lemma_cross_of_sum(de, q, d2e);
    lemma_cross_of_sum(d, e, d2e);
    lemma_cross_of_times(sign, te, d2e);
    lemma_cross_of_turned(e, d2e);
    lemma_cross_of_sum(d, times(2, e), e);
    lemma_cross_of_times(2, e, e);
    assert(dot(d2e, e) == k * n + 2 * (k * (k * n)));
    assert(cross(d2e, te) == k * n + 2 * (k * (k * n)));
    assert(cross(d2e, q) == sign * (k * n + 2 * (k * (k * n))));
    assert(cross(d2e, de) == 0);
    assert(cross(d2e, deq) == sign * (k * n + 2 * (k * (k * n))));
    assert(cross(d2e, away) == -(sign * (k * n + 2 * (k * (k * n)))));
    assert(cross(d2e, w) == (side + 2 * (k * side)) - sign * (k * n + 2 * (k * (k * n))));
    assert(-((side + 2 * (k * side)) - sign * (k * n + 2 * (k * (k * n)))) == sign * ((1 + 2 * k)
        * (k * n - sign * side))) by (nonlinear_arith)
        requires
            sign == 1 || sign == -1,
    ;
    // The near end.
    let near = plus(plus(u, e), times(-1, q));
    lemma_cross_of_times(-1, q, near);
    lemma_cross_of_times(sign, te, near);
    lemma_cross_of_turned(e, near);
    lemma_cross_of_sum(plus(u, e), times(-1, q), e);
    lemma_cross_of_sum(u, e, e);
    lemma_cross_of_times(-1, q, e);
    lemma_cross_of_times(sign, te, e);
    assert(dot(e, te) == 0);
    assert(dot(e, q) == 0) by {
        assert(dot(e, q) == dot(q, e));
        assert(dot(q, e) == sign * dot(te, e));
        assert(dot(te, e) == dot(e, te));
    }
    assert(dot(e, times(-1, q)) == 0) by {
        assert(dot(e, times(-1, q)) == dot(times(-1, q), e));
        assert(dot(times(-1, q), e) == -1 * dot(q, e));
        assert(dot(q, e) == dot(e, q));
    }
    assert(dot(e, near) == k * far + k * (k * n));
    assert(cross(te, near) == -(k * far + k * (k * n)));
    assert(cross(q, near) == sign * -(k * far + k * (k * n)));
    assert(-1 * (sign * -(k * far + k * (k * n))) == sign * (k * (far + k * n)))
        by (nonlinear_arith);
}

/// Whether `v` lies in the band that the two side rectangles make up: no
/// further to either side of the line of the cut, and no further before its
/// start or behind its end, than the rectangles reach.
pub open spec fn in_band(cut: Cut, reach: int, v: Point) -> bool {
    let k = stretch(cut, reach);
    let n = squared_length(cut);
    -(k * n) <= aside(cut, v) <= k * n && -(k * n) <= along(cut, v) <= (1 + k) * n
}

/// A point in the band that lies to the left of the cut, or on its line,
/// lies in the left rectangle.
#[verifier::rlimit(40)]
proof fn lemma_left_is_covered(cut: Cut, reach: int, v: Point)
    requires
        measurable_point(cut.start),
        measurable_point(cut.end),
        measurable_point(v),
        0 <= reach <= MAX_REACH,
        cut.start != cut.end,
        in_band(cut, reach, v),
        aside(cut, v) >= 0,
    ensures
        in_quad(side_rectangle(cut, reach, true), v),
{
    let k = stretch(cut, reach);
    let d = offset(cut.start, cut.end);
    let u = offset(cut.start, v);
    let e = times(k, d);
    let n = squared_length(cut);
    let side = aside(cut, v);
    let far = along(cut, v);
    let longest = longest_extent(cut);
    assert(longest > 0);
    lemma_stretched_extent(d.x, longest, reach);
    lemma_stretched_extent(d.y, longest, reach);
    assert(k >= 0);
    assert(d.x * k == k * d.x && d.y * k == k * d.y) by (nonlinear_arith);
    assert(e.x == d.x * k && e.y == d.y * k);
    let corners = side_rectangle(cut, reach, true);
    let q = times(1, turned(e));
    lemma_turns(d, u, k, 1);
    let t1 = (1 + 2 * k) * side;
    let t2 = k * ((1 + k) * n - far);
    let t3 = (1 + 2 * k) * (k * n - 1 * side);
    let t4 = k * (far + k * n);
    assert(t2 >= 0 && t4 >= 0) by (nonlinear_arith)
        requires
            k >= 0,
            -(k * n) <= far <= (1 + k) * n,
            t2 == k * ((1 + k) * n - far),
            t4 == k * (far + k * n),
    ;
    assert(t3 >= 0 && t1 >= 0) by (nonlinear_arith)
        requires
            k >= 0,
            -(k * n) <= side <= k * n,
            side >= 0,
            t3 == (1 + 2 * k) * (k * n - 1 * side),
            t1 == (1 + 2 * k) * side,
    ;
    assert(offset(corners[0], corners[1]) == plus(d, times(2, e)));
    assert(offset(corners[0], v) == plus(u, e));
    assert(turn(corners[0], corners[1], v) == t1);
    assert(offset(corners[1], corners[2]) == q);
    assert(offset(corners[1], v) == plus(u, times(-1, plus(d, e))));
    assert(turn(corners[1], corners[2], v) == 1 * t2);
    assert(offset(corners[2], corners[3]) == times(-1, plus(d, times(2, e))));
    assert(offset(corners[2], v) == plus(u, times(-1, plus(plus(d, e), q))));
    assert(turn(corners[2], corners[3], v) == 1 * t3);
    assert(offset(corners[3], corners[0]) == times(-1, q));
    assert(offset(corners[3], v) == plus(plus(u, e), times(-1, q)));
    assert(turn(corners[3], corners[0], v) == 1 * t4);
}

/// A point in the band that lies to the right of the cut, or on its line,
/// lies in the right rectangle.
#[verifier::rlimit(40)]
proof fn lemma_right_is_covered(cut: Cut, reach: int, v: Point)
    requires
        measurable_point(cut.start),
        measurable_point(cut.end),
        measurable_point(v),
        0 <= reach <= MAX_REACH,
        cut.start != cut.end,
        in_band(cut, reach, v),
        aside(cut, v) <= 0,
    ensures
        in_quad(side_rectangle(cut, reach, false), v),
{
    let k = stretch(cut, reach);
    let d = offset(cut.start, cut.end);
    let u = offset(cut.start, v);
    let e = times(k, d);
    let n = squared_length(cut);
    let side = aside(cut, v);
    let far = along(cut, v);
    let longest = longest_extent(cut);
    assert(longest > 0);
    lemma_stretched_extent(d.x, longest, reach);
    lemma_stretched_extent(d.y, longest, reach);
    assert(k >= 0);
    assert(d.x * k == k * d.x && d.y * k == k * d.y) by (nonlinear_arith);
    assert(e.x == d.x * k && e.y == d.y * k);
    let corners = side_rectangle(cut, reach, false);
    let q = times(-1, turned(e));
    lemma_turns(d, u, k, -1);
    let t1 = (1 + 2 * k) * side;
    let t2 = k * ((1 + k) * n - far);
    let t3 = (1 + 2 * k) * (k * n - -1 * side);
    let t4 = k * (far + k * n);
    assert(t2 >= 0 && t4 >= 0) by (nonlinear_arith)
        requires
            k >= 0,
            -(k * n) <= far <= (1 + k) * n,
            t2 == k * ((1 + k) * n - far),
            t4 == k * (far + k * n),
    ;
    assert(t3 >= 0 && t1 <= 0) by (nonlinear_arith)
        requires
            k >= 0,
            -(k * n) <= side <= k * n,
            side <= 0,
            t3 == (1 + 2 * k) * (k * n - -1 * side),
            t1 == (1 + 2 * k) * side,
    ;
    assert(offset(corners[0], corners[1]) == plus(d, times(2, e)));
    assert(offset(corners[0], v) == plus(u, e));
    assert(turn(corners[0], corners[1], v) == t1);
    assert(offset(corners[1], corners[2]) == q);
    assert(offset(corners[1], v) == plus(u, times(-1, plus(d, e))));
    assert(turn(corners[1], corners[2], v) == -1 * t2);
    assert(offset(corners[2], corners[3]) == times(-1, plus(d, times(2, e))));
    assert(offset(corners[2], v) == plus(u, times(-1, plus(plus(d, e), q))));
    assert(turn(corners[2], corners[3], v) == -1 * t3);
    assert(offset(corners[3], corners[0]) == times(-1, q));
    assert(offset(corners[3], v) == plus(plus(u, e), times(-1, q)));
    assert(turn(corners[3], corners[0], v) == -1 * t4);
}

/// A side rectangle keeps to its side of the line of the cut: a point in
/// the left rectangle lies to the left of the line or on it, and a point in
/// the right rectangle to the right of the line or on it.
#[verifier::rlimit(40)]
pub proof fn lemma_rectangle_keeps_to_its_side(cut: Cut, reach: int, left: bool, v: Point)
    requires
        measurable_point(cut.start),
        measurable_point(cut.end),
        0 <= reach <= MAX_REACH,
        cut.start != cut.end,
        in_quad(side_rectangle(cut, reach, left), v),
    ensures
        left ==> aside(cut, v) >= 0,
        !left ==> aside(cut, v) <= 0,
{
    let k = stretch(cut, reach);
    let d = offset(cut.start, cut.end);
    let u = offset(cut.start, v);
    let e = times(k, d);
    let n = squared_length(cut);
    let side = aside(cut, v);
    let longest = longest_extent(cut);
    assert(longest > 0);
    lemma_stretched_extent(d.x, longest, reach);
    lemma_stretched_extent(d.y, longest, reach);
    assert(k >= 0);
    assert(d.x * k == k * d.x && d.y * k == k * d.y) by (nonlinear_arith);
    assert(e.x == d.x * k && e.y == d.y * k);
    assert(n >= 0) by (nonlinear_arith)
        requires
            n == d.x * d.x + d.y * d.y,
    ;
    assert(k * n >= 0) by (nonlinear_arith)
        requires
            k >= 0,
            n >= 0,
    ;
    let corners = side_rectangle(cut, reach, left);
    let t1 = (1 + 2 * k) * side;
    assert(offset(corners[0], corners[1]) == plus(d, times(2, e)));
    assert(offset(corners[0], v) == plus(u, e));
    if left {
        let q = times(1, turned(e));
        lemma_turns(d, u, k, 1);
        let t3 = (1 + 2 * k) * (k * n - 1 * side);
        assert(turn(corners[0], corners[1], v) == t1);
        assert(offset(corners[2], corners[3]) == times(-1, plus(d, times(2, e))));
        assert(offset(corners[2], v) == plus(u, times(-1, plus(plus(d, e), q))));
        assert(turn(corners[2], corners[3], v) == 1 * t3);
        assert(side >= 0) by (nonlinear_arith)
            requires
                k >= 0,
                k * n >= 0,
                t1 == (1 + 2 * k) * side,
                t3 == (1 + 2 * k) * (k * n - 1 * side),
                (t1 >= 0 && t3 >= 0) || (t1 <= 0 && t3 <= 0),
        ;
    } else {
        let q = times(-1, turned(e));
        lemma_turns(d, u, k, -1);
        let t3 = (1 + 2 * k) * (k * n - -1 * side);
        assert(turn(corners[0], corners[1], v) == t1);
        assert(offset(corners[2], corners[3]) == times(-1, plus(d, times(2, e))));
        assert(offset(corners[2], v) == plus(u, times(-1, plus(plus(d, e), q))));
        assert(turn(corners[2], corners[3], v) == -1 * t3);
        assert(side <= 0) by (nonlinear_arith)
            requires
                k >= 0,
                k * n >= 0,
                t1 == (1 + 2 * k) * side,
                t3 == (1 + 2 * k) * (k * n - -1 * side),
                (t1 >= 0 && -1 * t3 >= 0) || (t1 <= 0 && -1 * t3 <= 0),
        ;
    }
}

/// A point in the band of the two side rectangles lies in one of them: in
/// the left one if it lies to the left of the cut, else in the right one.
pub proof fn lemma_band_is_covered(cut: Cut, reach: int, v: Point)
    requires
        measurable_point(cut.start),
        measurable_point(cut.end),
        measurable_point(v),
        0 <= reach <= MAX_REACH,
        cut.start != cut.end,
        in_band(cut, reach, v),
    ensures
        in_quad(side_rectangle(cut, reach, true), v) || in_quad(
            side_rectangle(cut, reach, false),
            v,
        ),
{
    if aside(cut, v) >= 0 {
        lemma_left_is_covered(cut, reach, v);
    } else {
        lemma_right_is_covered(cut, reach, v);
    }
}

/// How far a point lies to the side of a direction, or along it, is at most
/// the longest extent of the direction times the extents of the point.
proof fn lemma_offset_bounds(d: Offset, w: Offset, longest: int, wide: int, high: int)
    requires
        -longest <= d.x <= longest,
        -longest <= d.y <= longest,
        -wide <= w.x <= wide,
        -high <= w.y <= high,
    ensures
        -(longest * (wide + high)) <= cross(d, w) <= longest * (wide + high),
        -(longest * (wide + high)) <= dot(d, w) <= longest * (wide + high),
{
    assert(-(longest * high) <= d.x * w.y <= longest * high) by (nonlinear_arith)
        requires
            -longest <= d.x <= longest,
            -high <= w.y <= high,
    ;
    assert(-(longest * wide) <= d.y * w.x <= longest * wide) by (nonlinear_arith)
        requires
            -longest <= d.y <= longest,
            -wide <= w.x <= wide,
    ;
    assert(-(longest * wide) <= d.x * w.x <= longest * wide) by (nonlinear_arith)
        requires
            -longest <= d.x <= longest,
            -wide <= w.x <= wide,
    ;
    assert(-(longest * high) <= d.y * w.y <= longest * high) by (nonlinear_arith)
        requires
            -longest <= d.y <= longest,
            -high <= w.y <= high,
    ;
    assert(longest * (wide + high) == longest * wide + longest * high) by (nonlinear_arith);
}

/// A point lies in the band of the side rectangles of a cut where the
/// rectangles reach as far as the point lies from the start of the cut,
/// along x and along y added.
proof fn lemma_near_is_in_band(cut: Cut, v: Point, wide: int, high: int)
    requires
        cut.start != cut.end,
        -wide <= v.x - cut.start.x <= wide,
        -high <= v.y - cut.start.y <= high,
    ensures
        in_band(cut, wide + high, v),
{
    let d = offset(cut.start, cut.end);
    let u = offset(cut.start, v);
    let reach = wide + high;
    let longest = longest_extent(cut);
    let k = stretch(cut, reach);
    let n = squared_length(cut);
    assert(longest > 0);
    // The rectangles reach far enough: k * n >= longest * reach.
    lemma_stretched_extent(d.x, longest, reach);
    vstd::arithmetic::div_mod::lemma_fundamental_div_mod(reach + longest - 1, longest);
    assert(k * longest >= reach) by (nonlinear_arith)
        requires
            reach + longest - 1 == longest * k + ((reach + longest - 1) % longest),
            (reach + longest - 1) % longest < longest,
    ;
    assert(n >= longest * longest) by (nonlinear_arith)
        requires
            n == d.x * d.x + d.y * d.y,
            longest == d.x || longest == -d.x || longest == d.y || longest == -d.y,
    ;
    assert(k * n >= longest * reach) by (nonlinear_arith)
        requires
            k >= 0,
            longest > 0,
            k * longest >= reach,
            n >= longest * longest,
    ;
    assert(longest * longest > 0) by (nonlinear_arith)
        requires
            longest > 0,
    ;
    // The point lies no further to the side, and no further along the line.
    lemma_offset_bounds(d, u, longest, wide, high);
    assert((1 + k) * n == n + k * n) by (nonlinear_arith);
}

/// The two side rectangles of a cut cover the polygon, wherever the cut
/// lies: every point of the polygon lies in one of them. They reach at
/// least as far as the width and the height of the bounding box of the
/// polygon, added.
pub proof fn lemma_side_rectangles_cover(outer: Seq<Point>, cut: Cut, at: int)
    requires
        measurable(outer),
        measurable_point(cut.start),
        measurable_point(cut.end),
        cut.start != cut.end,
        0 <= at < outer.len(),
    ensures
        0 <= reach_of(bounds_of(outer), cut.start) <= MAX_REACH,
        reach_of(bounds_of(outer), cut.start) >= bounds_of(outer).width() + bounds_of(
            outer,
        ).height(),
        in_quad(side_rectangle(cut, reach_of(bounds_of(outer), cut.start), true), outer[at])
            || in_quad(
            side_rectangle(cut, reach_of(bounds_of(outer), cut.start), false),
            outer[at],
        ),
{
    let v = outer[at];
    let bounds = bounds_of(outer);
    lemma_bounds_are_measurable(outer);
    assert(is_bounds_of(bounds, outer));
    let wide = widened(bounds.min.x as int, bounds.max.x as int, cut.start.x as int);
    let high = widened(bounds.min.y as int, bounds.max.y as int, cut.start.y as int);
    assert(bounds.min.x <= v.x <= bounds.max.x && bounds.min.y <= v.y <= bounds.max.y);
    assert(reach_of(bounds, cut.start) == wide + high);
    lemma_near_is_in_band(cut, v, wide, high);
    lemma_band_is_covered(cut, wide + high, v);
}

/// The bounding box of a polygon of measurable points is the box of the
/// polygon, and its corners are measurable.
pub proof fn lemma_bounds_are_measurable(outer: Seq<Point>)
    requires
        measurable(outer),
    ensures
        is_bounds_of(bounds_of(outer), outer),
        measurable_point(bounds_of(outer).min),
        measurable_point(bounds_of(outer).max),
{
    let bounds = bounds_of(outer);
    assert(exists|some: Rect| is_bounds_of(some, outer)) by {
        lemma_has_bounds(outer);
    }
    assert(is_bounds_of(bounds, outer));
    if outer.len() > 0 {
        let i1 = choose|i: int| 0 <= i < outer.len() && (#[trigger] outer[i]).x == bounds.min.x;
        let i2 = choose|i: int| 0 <= i < outer.len() && (#[trigger] outer[i]).x == bounds.max.x;
        let i3 = choose|i: int| 0 <= i < outer.len() && (#[trigger] outer[i]).y == bounds.min.y;
        let i4 = choose|i: int| 0 <= i < outer.len() && (#[trigger] outer[i]).y == bounds.max.y;
        assert(measurable_point(outer[i1]) && measurable_point(outer[i2]) && measurable_point(
            outer[i3],
        ) && measurable_point(outer[i4]));
    }
}

/// Every polygon has a bounding box.
proof fn lemma_has_bounds(polygon: Seq<Point>)
    ensures
        exists|bounds: Rect| is_bounds_of(bounds, polygon),
    decreases polygon.len(),
{
    if polygon.len() == 0 {
        let empty = Rect {
            min: Point { x: 0, y: 0 },
            max: Point { x: 0, y: 0 },
        };
        assert(is_bounds_of(empty, polygon));
    } else if polygon.len() == 1 {
        let only = Rect { min: polygon[0], max: polygon[0] };
        assert(is_bounds_of(only, polygon));
    } else {
        let shorter = polygon.drop_last();
        let last = polygon.last();
        lemma_has_bounds(shorter);
        let inner = choose|bounds: Rect| is_bounds_of(bounds, shorter);
        let i1 = choose|i: int| 0 <= i < shorter.len() && (#[trigger] shorter[i]).x == inner.min.x;
        let i2 = choose|i: int| 0 <= i < shorter.len() && (#[trigger] shorter[i]).x == inner.max.x;
        let i3 = choose|i: int| 0 <= i < shorter.len() && (#[trigger] shorter[i]).y == inner.min.y;
        let i4 = choose|i: int| 0 <= i < shorter.len() && (#[trigger] shorter[i]).y == inner.max.y;
        let end = polygon.len() - 1;
        let outer = Rect {
            min: Point {
                x: if last.x < inner.min.x {
                    last.x
                } else {
                    inner.min.x
                },
                y: if last.y < inner.min.y {
                    last.y
                } else {
                    inner.min.y
                },
            },
            max: Point {
                x: if last.x > inner.max.x {
                    last.x
                } else {
                    inner.max.x
                },
                y: if last.y > inner.max.y {
                    last.y
                } else {
                    inner.max.y
                },
            },
        };
        assert forall|i: int| 0 <= i < polygon.len() implies outer.min.x <= (#[trigger] polygon[i]).x
            <= outer.max.x && outer.min.y <= polygon[i].y <= outer.max.y by {
            if i < end {
                assert(shorter[i] == polygon[i]);
            }
        }
        assert(polygon[i1] == shorter[i1] && polygon[i2] == shorter[i2] && polygon[i3]
            == shorter[i3] && polygon[i4] == shorter[i4]);
        assert(polygon[end] == last);
        assert(exists|i: int| 0 <= i < polygon.len() && (#[trigger] polygon[i]).x == outer.min.x) by {
            if last.x < inner.min.x {
                assert(polygon[end].x == outer.min.x);
            } else {
                assert(polygon[i1].x == outer.min.x);
            }
        }
        assert(exists|i: int| 0 <= i < polygon.len() && (#[trigger] polygon[i]).x == outer.max.x) by {
            if last.x > inner.max.x {
                assert(polygon[end].x == outer.max.x);
            } else {
                assert(polygon[i2].x == outer.max.x);
            }
        }
        assert(exists|i: int| 0 <= i < polygon.len() && (#[trigger] polygon[i]).y == outer.min.y) by {
            if last.y < inner.min.y {
                assert(polygon[end].y == outer.min.y);
            } else {
                assert(polygon[i3].y == outer.min.y);
            }
        }
        assert(exists|i: int| 0 <= i < polygon.len() && (#[trigger] polygon[i]).y == outer.max.y) by {
            if last.y > inner.max.y {
                assert(polygon[end].y == outer.max.y);
            } else {
                assert(polygon[i4].y == outer.max.y);
            }
        }
        assert(is_bounds_of(outer, polygon));
    }
}

} // verus!
