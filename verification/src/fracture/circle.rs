//! The centre of the circle through three points.

use crate::fracture::area::doubled_area;
use crate::fracture::exact::{round_div, rounded_quotient};
use crate::fracture::half_plane::{measurable_point, MAX_COORDINATE};
use crate::fracture::Point;
use vstd::prelude::*;

verus! {

/// Twice the doubled area of the triangle `a`, `b`, `c`: the number by
/// which the centre of its circle is divided. It is 0 exactly when the three
/// points lie on one line.
pub open spec fn spread(a: Point, b: Point, c: Point) -> int {
    2 * (a.x * (b.y - c.y) + b.x * (c.y - a.y) + c.x * (a.y - b.y))
}

/// The square of the distance of a point from the origin.
pub open spec fn norm(p: Point) -> int {
    p.x * p.x + p.y * p.y
}

/// The x of the centre, times `spread`.
pub open spec fn centre_x_times_spread(a: Point, b: Point, c: Point) -> int {
    norm(a) * (b.y - c.y) + norm(b) * (c.y - a.y) + norm(c) * (a.y - b.y)
}

/// The y of the centre, times `spread`.
pub open spec fn centre_y_times_spread(a: Point, b: Point, c: Point) -> int {
    norm(a) * (c.x - b.x) + norm(b) * (a.x - c.x) + norm(c) * (b.x - a.x)
}

/// The whole number nearest to `n / d`, for a `d` other than 0.
pub open spec fn rounded_ratio(n: int, d: int) -> int {
    if d > 0 {
        rounded_quotient(n, d)
    } else {
        rounded_quotient(-n, -d)
    }
}

/// Whether a number can be a coordinate.
pub open spec fn is_coordinate(v: int) -> bool {
    i64::MIN <= v <= i64::MAX
}

/// The centre of the circle through three points, to the nearest whole
/// coordinates; `None` for points on one line, which have no such circle,
/// and for a centre so far away that it has no coordinates.
pub open spec fn circle_centre(a: Point, b: Point, c: Point) -> Option<Point> {
    let d = spread(a, b, c);
    let x = rounded_ratio(centre_x_times_spread(a, b, c), d);
    let y = rounded_ratio(centre_y_times_spread(a, b, c), d);
    if d == 0 || !is_coordinate(x) || !is_coordinate(y) {
        None
    } else {
        Some(Point { x: x as i64, y: y as i64 })
    }
}

/// The divisor of the centre is twice the doubled area of the triangle.
pub proof fn lemma_spread_is_area(a: Point, b: Point, c: Point)
    ensures
        spread(a, b, c) == 2 * doubled_area(seq![a, b, c]),
{
    let triangle = seq![a, b, c];
    let terms = crate::fracture::area::edge_areas(triangle);
    assert(terms.len() == 3);
    assert(terms[0] == a.x * b.y - b.x * a.y);
    assert(terms[1] == b.x * c.y - c.x * b.y);
    assert(terms[2] == c.x * a.y - a.x * c.y);
    reveal_with_fuel(crate::fracture::area::sum, 4);
    assert(terms.drop_last().drop_last().drop_last() =~= Seq::<int>::empty());
    assert(crate::fracture::area::sum(terms) == terms[0] + terms[1] + terms[2]);
    assert(a.x * (b.y - c.y) + b.x * (c.y - a.y) + c.x * (a.y - b.y) == (a.x * b.y - b.x * a.y)
        + (b.x * c.y - c.x * b.y) + (c.x * a.y - a.x * c.y)) by (nonlinear_arith);
}

/// A product of the square of a distance and a difference of coordinates.
fn weighted(p: Point, from: i64, to: i64) -> (product: i128)
    requires
        measurable_point(p),
        -MAX_COORDINATE <= from <= MAX_COORDINATE,
        -MAX_COORDINATE <= to <= MAX_COORDINATE,
    ensures
        product == norm(p) * (to - from),
        -0x10_0000_0000_0000_0000_0000_0000_0000 <= product
            <= 0x10_0000_0000_0000_0000_0000_0000_0000,
{
    let x: i128 = p.x as i128;
    let y: i128 = p.y as i128;
    assert(0 <= x * x <= 0x1000_0000_0000_0000_0000) by (nonlinear_arith)
        requires
            -0x40_0000_0000 <= x <= 0x40_0000_0000,
    ;
    assert(0 <= y * y <= 0x1000_0000_0000_0000_0000) by (nonlinear_arith)
        requires
            -0x40_0000_0000 <= y <= 0x40_0000_0000,
    ;
    let squared: i128 = x * x + y * y;
    let difference: i128 = to as i128 - from as i128;
    assert(-0x10_0000_0000_0000_0000_0000_0000_0000 <= squared * difference
        <= 0x10_0000_0000_0000_0000_0000_0000_0000) by (nonlinear_arith)
        requires
            0 <= squared <= 0x2000_0000_0000_0000_0000,
            -0x80_0000_0000 <= difference <= 0x80_0000_0000,
    ;
    squared * difference
}

/// A product of a coordinate and a difference of coordinates.
fn crossed(x: i64, from: i64, to: i64) -> (product: i128)
    requires
        -MAX_COORDINATE <= x <= MAX_COORDINATE,
        -MAX_COORDINATE <= from <= MAX_COORDINATE,
        -MAX_COORDINATE <= to <= MAX_COORDINATE,
    ensures
        product == x * (to - from),
        -0x2000_0000_0000_0000_0000 <= product <= 0x2000_0000_0000_0000_0000,
{
    let factor: i128 = x as i128;
    let difference: i128 = to as i128 - from as i128;
    assert(-0x2000_0000_0000_0000_0000 <= factor * difference <= 0x2000_0000_0000_0000_0000)
        by (nonlinear_arith)
        requires
            -0x40_0000_0000 <= factor <= 0x40_0000_0000,
            -0x80_0000_0000 <= difference <= 0x80_0000_0000,
    ;
    factor * difference
}

/// The centre of the circle through three points, to the nearest whole
/// coordinates. There is none for three points on one line, and none for
/// three points so nearly on one line that a coordinate of the centre does
/// not fit an `i64`.
pub fn circumcenter(a: Point, b: Point, c: Point) -> (centre: Option<Point>)
    requires
        measurable_point(a),
        measurable_point(b),
        measurable_point(c),
    ensures
        centre == circle_centre(a, b, c),
        spread(a, b, c) == 0 ==> centre.is_none(),
        centre.is_some() <==> spread(a, b, c) != 0 && is_coordinate(
            rounded_ratio(centre_x_times_spread(a, b, c), spread(a, b, c)),
        ) && is_coordinate(rounded_ratio(centre_y_times_spread(a, b, c), spread(a, b, c))),
{
    let d: i128 = 2 * (crossed(a.x, c.y, b.y) + crossed(b.x, a.y, c.y) + crossed(c.x, b.y, a.y));
    if d == 0 {
        return None;
    }
    let over_x: i128 = weighted(a, c.y, b.y) + weighted(b, a.y, c.y) + weighted(c, b.y, a.y);
    let over_y: i128 = weighted(a, b.x, c.x) + weighted(b, c.x, a.x) + weighted(c, a.x, b.x);
    let (x, y) = if d > 0 {
        (round_div(over_x, d), round_div(over_y, d))
    } else {
        (round_div(-over_x, -d), round_div(-over_y, -d))
    };
    if x < i64::MIN as i128 || x > i64::MAX as i128 || y < i64::MIN as i128 || y > i64::MAX as i128 {
        return None;
    }
    Some(Point { x: x as i64, y: y as i64 })
}

/// A sum of three weighted numbers, each multiplied by `p`.
proof fn lemma_weighted_sum(wa: int, wb: int, wc: int, a: int, b: int, c: int, p: int)
    ensures
        (wa * a + wb * b + wc * c) * p == wa * (a * p) + wb * (b * p) + wc * (c * p),
{
    let ta = wa * a;
    let tb = wb * b;
    let tc = wc * c;
    assert((ta + tb + tc) * p == ta * p + tb * p + tc * p) by (nonlinear_arith);
    assert(ta * p == wa * (a * p)) by (nonlinear_arith)
        requires
            ta == wa * a,
    ;
    assert(tb * p == wb * (b * p)) by (nonlinear_arith)
        requires
            tb == wb * b,
    ;
    assert(tc * p == wc * (c * p)) by (nonlinear_arith)
        requires
            tc == wc * c,
    ;
}

/// The exact centre of the circle, before it is rounded, is as far from
/// the first point as from the second: it lies on the line of all points
/// equally far from the two. With `x / spread` and `y / spread` for its
/// coordinates, that is what this equation says.
pub proof fn lemma_centre_is_equally_far(a: Point, b: Point, c: Point)
    ensures
        2 * (centre_x_times_spread(a, b, c) * (b.x - a.x) + centre_y_times_spread(a, b, c) * (b.y
            - a.y)) == spread(a, b, c) * (norm(b) - norm(a)),
{
    let na = norm(a);
    let nb = norm(b);
    let nc = norm(c);
    let p = b.x - a.x;
    let q = b.y - a.y;
    let u1 = b.y - c.y;
    let u2 = c.y - a.y;
    let u3 = a.y - b.y;
    let v1 = c.x - b.x;
    let v2 = a.x - c.x;
    let v3 = b.x - a.x;
    let half = a.x * u1 + b.x * u2 + c.x * u3;
    let x = centre_x_times_spread(a, b, c);
    let y = centre_y_times_spread(a, b, c);
    assert(x == na * u1 + nb * u2 + nc * u3);
    assert(y == na * v1 + nb * v2 + nc * v3);
    assert(spread(a, b, c) == 2 * half);
    // What each of the three squared distances is multiplied by.
    assert(u1 * p + v1 * q == -half) by (nonlinear_arith)
        requires
            p == b.x - a.x,
            q == b.y - a.y,
            u1 == b.y - c.y,
            v1 == c.x - b.x,
            half == a.x * (b.y - c.y) + b.x * (c.y - a.y) + c.x * (a.y - b.y),
    ;
    assert(u2 * p + v2 * q == half) by (nonlinear_arith)
        requires
            p == b.x - a.x,
            q == b.y - a.y,
            u2 == c.y - a.y,
            v2 == a.x - c.x,
            half == a.x * (b.y - c.y) + b.x * (c.y - a.y) + c.x * (a.y - b.y),
    ;
    assert(u3 * p + v3 * q == 0) by (nonlinear_arith)
        requires
            p == b.x - a.x,
            q == b.y - a.y,
            u3 == a.y - b.y,
            v3 == b.x - a.x,
    ;
    lemma_weighted_sum(na, nb, nc, u1, u2, u3, p);
    lemma_weighted_sum(na, nb, nc, v1, v2, v3, q);
    assert(na * (u1 * p) + na * (v1 * q) == na * (u1 * p + v1 * q)) by (nonlinear_arith);
    assert(nb * (u2 * p) + nb * (v2 * q) == nb * (u2 * p + v2 * q)) by (nonlinear_arith);
    assert(nc * (u3 * p) + nc * (v3 * q) == nc * (u3 * p + v3 * q)) by (nonlinear_arith);
    assert(na * (-half) == -(na * half)) by (nonlinear_arith);
    assert(nc * 0 == 0);
    assert(x * p + y * q == nb * half - na * half);
    assert(2 * (nb * half - na * half) == (2 * half) * (nb - na)) by (nonlinear_arith);
}

/// The exact centre of the circle is equally far from all three points.
pub proof fn lemma_centre_is_equally_far_from_all(a: Point, b: Point, c: Point)
    ensures
        2 * (centre_x_times_spread(a, b, c) * (b.x - a.x) + centre_y_times_spread(a, b, c) * (b.y
            - a.y)) == spread(a, b, c) * (norm(b) - norm(a)),
        2 * (centre_x_times_spread(a, b, c) * (c.x - b.x) + centre_y_times_spread(a, b, c) * (c.y
            - b.y)) == spread(a, b, c) * (norm(c) - norm(b)),
{
    lemma_centre_is_equally_far(a, b, c);
    lemma_centre_is_equally_far(b, c, a);
    assert(centre_x_times_spread(b, c, a) == centre_x_times_spread(a, b, c));
    assert(centre_y_times_spread(b, c, a) == centre_y_times_spread(a, b, c));
    assert(spread(b, c, a) == spread(a, b, c));
}

} // verus!
