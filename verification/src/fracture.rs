//! Fracturing polygons into fragments.
//!
//! Polygons are lists of points in clipper units: hundredths of a world
//! unit, as whole numbers. The boolean clipper works on exactly these
//! numbers, so nothing is rounded between two clipping steps. A polygon list
//! handed to a fracturer holds the outer boundary first and then the holes.

pub mod area;
pub mod circle;
pub mod clip;
pub mod cover;
pub mod cut;
pub mod exact;
pub mod geometry;
pub mod half_plane;
pub mod inside;
pub mod poisson;
pub mod scatter;
pub mod seeds;
pub mod slice;
pub mod voronoi;

use vstd::prelude::*;

verus! {

/// A point in clipper units.
#[derive(Clone, Copy, Debug, PartialEq, Eq, Structural, Hash)]
pub struct Point {
    pub x: i64,
    pub y: i64,
}

/// Fewest points of a polygon that encloses an area.
pub const MIN_POLYGON_POINTS: usize = 3;

/// The polygons held by a vector of point vectors.
pub open spec fn polygons(list: Seq<Vec<Point>>) -> Seq<Seq<Point>> {
    Seq::new(list.len(), |i: int| list[i]@)
}

/// The polygons of `list` that have at least three points, in order.
pub open spec fn proper_polygons(list: Seq<Seq<Point>>) -> Seq<Seq<Point>>
    decreases list.len(),
{
    if list.len() == 0 {
        Seq::empty()
    } else if list.last().len() >= MIN_POLYGON_POINTS {
        proper_polygons(list.drop_last()).push(list.last())
    } else {
        proper_polygons(list.drop_last())
    }
}

/// The holes of a polygon list: every entry after the first that has at
/// least three points.
pub open spec fn holes_in(list: Seq<Seq<Point>>) -> Seq<Seq<Point>> {
    if list.len() == 0 {
        Seq::empty()
    } else {
        proper_polygons(list.skip(1))
    }
}

/// A copy of a polygon.
pub fn copy_polygon(polygon: &Vec<Point>) -> (copy: Vec<Point>)
    ensures
        copy@ == polygon@,
{
    let mut copy: Vec<Point> = Vec::with_capacity(polygon.len());
    let mut i: usize = 0;
    while i < polygon.len()
        invariant
            i <= polygon@.len(),
            copy@ == polygon@.take(i as int),
        decreases polygon@.len() - i,
    {
        copy.push(polygon[i]);
        assert(polygon@.take(i + 1) =~= polygon@.take(i as int).push(polygon@[i as int]));
        i += 1;
    }
    assert(polygon@.take(polygon@.len() as int) =~= polygon@);
    copy
}

/// A copy of a polygon list.
pub fn copy_polygons(list: &Vec<Vec<Point>>) -> (copy: Vec<Vec<Point>>)
    ensures
        polygons(copy@) == polygons(list@),
{
    let mut copy: Vec<Vec<Point>> = Vec::with_capacity(list.len());
    let mut i: usize = 0;
    while i < list.len()
        invariant
            i <= list@.len(),
            polygons(copy@) == polygons(list@).take(i as int),
        decreases list@.len() - i,
    {
        let ghost before = copy@;
        copy.push(copy_polygon(&list[i]));
        assert(polygons(copy@) =~= polygons(before).push(list@[i as int]@));
        assert(polygons(list@).take(i + 1) =~= polygons(list@).take(i as int).push(
            list@[i as int]@,
        ));
        i += 1;
    }
    assert(polygons(list@).take(list@.len() as int) =~= polygons(list@));
    copy
}

/// Appends copies of the polygons of `more` that have at least three points.
pub fn push_proper(into: &mut Vec<Vec<Point>>, more: &Vec<Vec<Point>>)
    ensures
        polygons(final(into)@) == polygons(old(into)@) + proper_polygons(polygons(more@)),
{
    let ghost start = polygons(into@);
    let ghost all = polygons(more@);
    let mut i: usize = 0;
    assert(all.take(0) =~= Seq::<Seq<Point>>::empty());
    assert(start + proper_polygons(all.take(0)) =~= start);
    while i < more.len()
        invariant
            i <= more@.len(),
            all == polygons(more@),
            polygons(into@) == start + proper_polygons(all.take(i as int)),
        decreases more@.len() - i,
    {
        let ghost before = into@;
        assert(all.take(i + 1).drop_last() =~= all.take(i as int));
        assert(all.take(i + 1).last() == more@[i as int]@);
        if more[i].len() >= MIN_POLYGON_POINTS {
            into.push(copy_polygon(&more[i]));
            assert(polygons(into@) =~= polygons(before).push(more@[i as int]@));
            assert(polygons(into@) =~= start + proper_polygons(all.take(i + 1)));
        }
        i += 1;
    }
    assert(all.take(more@.len() as int) =~= all);
}

/// The holes of a polygon list.
pub fn collect_holes(list: &Vec<Vec<Point>>) -> (holes: Vec<Vec<Point>>)
    ensures
        polygons(holes@) == holes_in(polygons(list@)),
{
    let mut holes: Vec<Vec<Point>> = Vec::new();
    if list.len() == 0 {
        assert(polygons(holes@) =~= Seq::<Seq<Point>>::empty());
        return holes;
    }
    let ghost all = polygons(list@).skip(1);
    let mut i: usize = 1;
    assert(all.take(0) =~= Seq::<Seq<Point>>::empty());
    assert(polygons(holes@) =~= proper_polygons(all.take(0)));
    while i < list.len()
        invariant
            1 <= i <= list@.len(),
            all == polygons(list@).skip(1),
            polygons(holes@) == proper_polygons(all.take(i - 1)),
        decreases list@.len() - i,
    {
        let ghost before = holes@;
        assert(all.take(i as int).drop_last() =~= all.take(i - 1));
        assert(all.take(i as int).last() == list@[i as int]@);
        if list[i].len() >= MIN_POLYGON_POINTS {
            holes.push(copy_polygon(&list[i]));
            assert(polygons(holes@) =~= polygons(before).push(list@[i as int]@));
        }
        i += 1;
    }
    assert(all.take(list@.len() - 1) =~= all);
    holes
}

} // verus!
