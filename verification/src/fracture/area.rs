//! The signed area of a polygon, by the shoelace formula.
//!
//! In whole coordinates the area is a whole number or half of one, so it is
//! kept doubled. It is positive for a polygon wound counter-clockwise, where
//! y points up.

use crate::fracture::half_plane::measurable;
use crate::fracture::{Point, MIN_POLYGON_POINTS};
use vstd::arithmetic::div_mod::{lemma_mod_self_0, lemma_small_mod};
use vstd::prelude::*;

verus! {

/// Most points of a polygon whose area is computed.
pub const MAX_AREA_POINTS: usize = 0x4000_0000;

/// What the edge from `p` to `q` adds to the doubled area.
pub open spec fn edge_area(p: Point, q: Point) -> int {
    p.x * q.y - q.x * p.y
}

/// What each edge of the polygon adds to the doubled area, edge by edge. The
/// last edge leads back to the first point.
pub open spec fn edge_areas(polygon: Seq<Point>) -> Seq<int> {
    Seq::new(
        polygon.len(),
        |i: int| edge_area(polygon[i], polygon[(i + 1) % (polygon.len() as int)]),
    )
}

/// The sum of a list of numbers.
pub open spec fn sum(terms: Seq<int>) -> int
    decreases terms.len(),
{
    if terms.len() == 0 {
        0
    } else {
        sum(terms.drop_last()) + terms.last()
    }
}

/// Twice the signed area of the polygon. A polygon of fewer than three
/// points has none.
pub open spec fn doubled_area(polygon: Seq<Point>) -> int {
    if polygon.len() < MIN_POLYGON_POINTS {
        0
    } else {
        sum(edge_areas(polygon))
    }
}

/// The polygon with its first point moved to the end: the same closed
/// polygon, started one point later.
pub open spec fn rotated_once(polygon: Seq<Point>) -> Seq<Point> {
    if polygon.len() == 0 {
        polygon
    } else {
        polygon.drop_first().push(polygon.first())
    }
}

/// The polygon started `steps` points later.
pub open spec fn rotated(polygon: Seq<Point>, steps: nat) -> Seq<Point>
    decreases steps,
{
    if steps == 0 {
        polygon
    } else {
        rotated_once(rotated(polygon, (steps - 1) as nat))
    }
}

/// The point after the last is the first.
proof fn lemma_next_index(i: int, n: int)
    requires
        0 <= i < n,
    ensures
        i + 1 < n ==> (i + 1) % n == i + 1,
        i + 1 == n ==> (i + 1) % n == 0,
{
    if i + 1 < n {
        lemma_small_mod((i + 1) as nat, n as nat);
    } else {
        lemma_mod_self_0(n);
    }
}

proof fn lemma_sum_push(terms: Seq<int>, last: int)
    ensures
        sum(terms.push(last)) == sum(terms) + last,
{
    assert(terms.push(last).drop_last() =~= terms);
}

proof fn lemma_sum_from_front(terms: Seq<int>)
    requires
        terms.len() > 0,
    ensures
        sum(terms) == terms.first() + sum(terms.drop_first()),
    decreases terms.len(),
{
    if terms.len() == 1 {
        assert(terms.drop_last() =~= Seq::<int>::empty());
        assert(terms.drop_first() =~= Seq::<int>::empty());
    } else {
        lemma_sum_from_front(terms.drop_last());
        assert(terms.drop_last().drop_first() =~= terms.drop_first().drop_last());
        assert(terms.drop_first().last() == terms.last());
        assert(terms.drop_last().first() == terms.first());
    }
}

/// Moving the first number to the end keeps the sum.
proof fn lemma_sum_rotated(terms: Seq<int>)
    requires
        terms.len() > 0,
    ensures
        sum(terms.drop_first().push(terms.first())) == sum(terms),
{
    lemma_sum_push(terms.drop_first(), terms.first());
    lemma_sum_from_front(terms);
}

/// Turning the list round keeps the sum.
proof fn lemma_sum_reversed(terms: Seq<int>)
    ensures
        sum(terms.reverse()) == sum(terms),
    decreases terms.len(),
{
    if terms.len() > 0 {
        let turned = terms.reverse();
        lemma_sum_from_front(turned);
        assert(turned.first() == terms.last());
        assert(turned.drop_first() =~= terms.drop_last().reverse());
        lemma_sum_reversed(terms.drop_last());
    } else {
        assert(terms.reverse() =~= terms);
    }
}

/// The list with the sign of every number changed.
spec fn negated(terms: Seq<int>) -> Seq<int> {
    Seq::new(terms.len(), |i: int| -terms[i])
}

proof fn lemma_sum_negated(terms: Seq<int>)
    ensures
        sum(negated(terms)) == -sum(terms),
    decreases terms.len(),
{
    if terms.len() > 0 {
        lemma_sum_negated(terms.drop_last());
        assert(negated(terms).drop_last() =~= negated(terms.drop_last()));
    }
}

/// The signed area does not depend on the point at which the polygon is
/// started.
pub proof fn lemma_area_of_rotated_once(polygon: Seq<Point>)
    ensures
        doubled_area(rotated_once(polygon)) == doubled_area(polygon),
{
    let n = polygon.len() as int;
    if n >= 3 {
        let turned = rotated_once(polygon);
        let terms = edge_areas(polygon);
        assert forall|i: int| 0 <= i < n implies #[trigger] turned[i] == polygon[(i + 1) % n] by {
            lemma_next_index(i, n);
        }
        assert(edge_areas(turned) =~= terms.drop_first().push(terms.first())) by {
            assert forall|i: int| 0 <= i < n implies edge_areas(turned)[i] == terms.drop_first().push(
                terms.first(),
            )[i] by {
                let j = (i + 1) % n;
                lemma_next_index(i, n);
                assert(turned[i] == polygon[j]);
                assert(turned[j] == polygon[(j + 1) % n]);
            }
        }
        lemma_sum_rotated(terms);
    }
}

/// The signed area does not depend on the point at which the polygon is
/// started, however many points later that is.
pub proof fn lemma_area_of_rotated(polygon: Seq<Point>, steps: nat)
    ensures
        doubled_area(rotated(polygon, steps)) == doubled_area(polygon),
        rotated(polygon, steps).len() == polygon.len(),
    decreases steps,
{
    if steps > 0 {
        lemma_area_of_rotated(polygon, (steps - 1) as nat);
        lemma_area_of_rotated_once(rotated(polygon, (steps - 1) as nat));
    }
}

/// Walking round the polygon the other way changes the sign of the area and
/// nothing else.
pub proof fn lemma_area_of_reversed(polygon: Seq<Point>)
    ensures
        doubled_area(polygon.reverse()) == -doubled_area(polygon),
{
    let n = polygon.len() as int;
    if n >= 3 {
        let back = polygon.reverse();
        let terms = edge_areas(polygon);
        let turned = terms.reverse();
        let shifted = turned.drop_first().push(turned.first());
        assert(edge_areas(back) =~= negated(shifted)) by {
            assert forall|i: int| 0 <= i < n implies edge_areas(back)[i] == negated(shifted)[i] by {
                // The edge from back[i] leads from polygon[n - 1 - i] to the
                // point before it.
                let a = n - 1 - i;
                let j = (i + 1) % n;
                lemma_next_index(i, n);
                assert(back[i] == polygon[a]);
                if i + 1 < n {
                    lemma_next_index(a - 1, n);
                    assert(back[j] == polygon[a - 1]);
                    assert(shifted[i] == turned[i + 1]);
                    assert(turned[i + 1] == terms[a - 1]);
                } else {
                    lemma_next_index(n - 1, n);
                    assert(back[j] == polygon[n - 1]);
                    assert(shifted[i] == turned[0]);
                    assert(turned[0] == terms[n - 1]);
                }
            }
        }
        lemma_sum_negated(shifted);
        lemma_sum_rotated(turned);
        lemma_sum_reversed(terms);
    } else {
        assert(polygon.reverse().len() == polygon.len());
    }
}

/// Twice the signed area of a polygon, in square coordinate units.
///
/// The area is half of what is returned. It is positive for a polygon wound
/// counter-clockwise where y points up, and 0 for fewer than three points.
pub fn polygon_area(polygon: &Vec<Point>) -> (doubled: i128)
    requires
        measurable(polygon@),
        polygon@.len() <= MAX_AREA_POINTS,
    ensures
        doubled == doubled_area(polygon@),
{
    let n: usize = polygon.len();
    if n < MIN_POLYGON_POINTS {
        return 0;
    }
    let ghost terms = edge_areas(polygon@);
    let mut total: i128 = 0;
    let mut i: usize = 0;
    assert(terms.take(0) =~= Seq::<int>::empty());
    while i < n
        invariant
            i <= n,
            n == polygon@.len(),
            n <= MAX_AREA_POINTS,
            measurable(polygon@),
            terms == edge_areas(polygon@),
            total == sum(terms.take(i as int)),
            -0x2000_0000_0000_0000_0000 * i <= total <= 0x2000_0000_0000_0000_0000 * i,
        decreases n - i,
    {
        let p = polygon[i];
        let q = polygon[(i + 1) % n];
        let px: i128 = p.x as i128;
        let py: i128 = p.y as i128;
        let qx: i128 = q.x as i128;
        let qy: i128 = q.y as i128;
        assert(-0x1000_0000_0000_0000_0000 <= px * qy <= 0x1000_0000_0000_0000_0000)
            by (nonlinear_arith)
            requires
                -0x40_0000_0000 <= px <= 0x40_0000_0000,
                -0x40_0000_0000 <= qy <= 0x40_0000_0000,
        ;
        assert(-0x1000_0000_0000_0000_0000 <= qx * py <= 0x1000_0000_0000_0000_0000)
            by (nonlinear_arith)
            requires
                -0x40_0000_0000 <= qx <= 0x40_0000_0000,
                -0x40_0000_0000 <= py <= 0x40_0000_0000,
        ;
        let term: i128 = px * qy - qx * py;
        assert(term == terms[i as int]);
        proof {
            assert(terms.take(i + 1) =~= terms.take(i as int).push(terms[i as int]));
            lemma_sum_push(terms.take(i as int), terms[i as int]);
            assert(0x2000_0000_0000_0000_0000 * (i + 1) == 0x2000_0000_0000_0000_0000 * i
                + 0x2000_0000_0000_0000_0000) by (nonlinear_arith);
            assert(0x2000_0000_0000_0000_0000 * (i + 1)
                <= 0x2000_0000_0000_0000_0000_0000_0000_0000) by (nonlinear_arith)
                requires
                    i + 1 <= 0x4000_0000,
            ;
        }
        total = total + term;
        i += 1;
    }
    assert(terms.take(n as int) =~= terms);
    total
}

} // verus!
