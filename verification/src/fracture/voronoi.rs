//! Voronoi fracture: the neighbour lists of the seeds, read off their
//! Delaunay triangles, and the clipping of the Voronoi cells to the polygon
//! and its holes.

use crate::fracture::clip::{clipper2_intersect, intersection, subtract_hole, without_hole};
use crate::fracture::geometry::{bounds_of, calculate_bounds, overlapping, rects_intersect, Rect};
use crate::fracture::half_plane::{
    clip_to_line, is_measurable, measurable, measurable_point, Line,
};
use crate::fracture::{
    collect_holes, copy_polygon, copy_polygons, holes_in, polygons, proper_polygons, push_proper,
    Point, MIN_POLYGON_POINTS,
};
use vstd::prelude::*;

verus! {

/// A neighbour list with `n` added at its end unless it is in it already.
pub open spec fn with_neighbour(list: Seq<usize>, n: usize) -> Seq<usize> {
    if list.contains(n) {
        list
    } else {
        list.push(n)
    }
}

/// Neighbour lists with `b` added to those of `a`.
pub open spec fn linked(lists: Seq<Seq<usize>>, a: usize, b: usize) -> Seq<Seq<usize>> {
    lists.update(a as int, with_neighbour(lists[a as int], b))
}

/// Neighbour lists with the three sides of one triangle added, each in both
/// directions.
pub open spec fn with_triangle(lists: Seq<Seq<usize>>, a: usize, b: usize, c: usize) -> Seq<
    Seq<usize>,
> {
    linked(linked(linked(linked(linked(linked(lists, a, b), b, a), b, c), c, b), c, a), a, c)
}

/// The neighbour lists of `count` points after the first `done` triangles.
/// Triangles are triples of point numbers, one after the other.
pub open spec fn adjacency_after(count: nat, triangles: Seq<usize>, done: nat) -> Seq<Seq<usize>>
    decreases done,
{
    if done == 0 {
        Seq::new(count, |i: int| Seq::<usize>::empty())
    } else {
        let at = 3 * (done - 1);
        with_triangle(
            adjacency_after(count, triangles, (done - 1) as nat),
            triangles[at],
            triangles[at + 1],
            triangles[at + 2],
        )
    }
}

/// The neighbour lists of `count` points joined by the given triangles.
/// Numbers left over after the last whole triple are ignored.
pub open spec fn adjacency(count: nat, triangles: Seq<usize>) -> Seq<Seq<usize>> {
    adjacency_after(count, triangles, triangles.len() / 3)
}

/// Whether one of the first `done` triangles has `i` and `j` as two of its
/// corners.
pub open spec fn share_triangle(triangles: Seq<usize>, done: nat, i: usize, j: usize) -> bool {
    exists|t: int, p: int, q: int|
        0 <= t < done && 0 <= p < 3 && 0 <= q < 3 && p != q && #[trigger] triangles[3 * t + p]
            == i && #[trigger] triangles[3 * t + q] == j
}

/// Whether every list holds point numbers below `count` only, and none twice.
pub open spec fn tidy(lists: Seq<Seq<usize>>, count: nat) -> bool {
    &&& lists.len() == count
    &&& forall|i: int, k: int|
        0 <= i < lists.len() && 0 <= k < lists[i].len() ==> (#[trigger] lists[i][k]) < count
    &&& forall|i: int| 0 <= i < lists.len() ==> (#[trigger] lists[i]).no_duplicates()
}

proof fn lemma_linked(lists: Seq<Seq<usize>>, count: nat, a: usize, b: usize)
    requires
        tidy(lists, count),
        a < count,
        b < count,
    ensures
        tidy(linked(lists, a, b), count),
        forall|i: int, j: usize|
            0 <= i < count ==> (#[trigger] linked(lists, a, b)[i].contains(j) <==> (
            lists[i].contains(j) || (i == a && j == b))),
{
    let after = linked(lists, a, b);
    let old_list = lists[a as int];
    let new_list = with_neighbour(old_list, b);
    assert(old_list.no_duplicates());
    assert forall|i: int, j: usize| 0 <= i < count implies (#[trigger] after[i].contains(j) <==> (
    lists[i].contains(j) || (i == a && j == b))) by {
        if i == a {
            if !old_list.contains(b) {
                if new_list.contains(j) {
                    let k = choose|k: int| 0 <= k < new_list.len() && new_list[k] == j;
                    if k < old_list.len() {
                        assert(old_list[k] == j);
                    }
                }
                if old_list.contains(j) {
                    let k = choose|k: int| 0 <= k < old_list.len() && old_list[k] == j;
                    assert(new_list[k] == j);
                }
                assert(new_list[old_list.len() as int] == b);
            }
        }
    }
    assert forall|i: int, k: int| 0 <= i < after.len() && 0 <= k < after[i].len() implies (
    #[trigger] after[i][k]) < count by {
        if i == a && k < old_list.len() {
            assert(after[i][k] == old_list[k]);
        } else if i != a {
            assert(after[i][k] == lists[i][k]);
        }
    }
    assert forall|i: int| 0 <= i < after.len() implies (#[trigger] after[i]).no_duplicates() by {
        if i == a {
            if !old_list.contains(b) {
                assert forall|p: int, q: int|
                    0 <= p < new_list.len() && 0 <= q < new_list.len() && p != q implies new_list[p]
                    != new_list[q] by {
                    if p < old_list.len() && q < old_list.len() {
                        assert(old_list[p] != old_list[q]);
                    } else if p < old_list.len() {
                        assert(old_list.contains(old_list[p]));
                    } else if q < old_list.len() {
                        assert(old_list.contains(old_list[q]));
                    }
                }
            }
        } else {
            assert(after[i] == lists[i]);
        }
    }
}

proof fn lemma_with_triangle(lists: Seq<Seq<usize>>, count: nat, a: usize, b: usize, c: usize)
    requires
        tidy(lists, count),
        a < count,
        b < count,
        c < count,
    ensures
        tidy(with_triangle(lists, a, b, c), count),
        forall|i: int, j: usize|
            0 <= i < count ==> (#[trigger] with_triangle(lists, a, b, c)[i].contains(j) <==> (
            lists[i].contains(j) || (i == a && j == b) || (i == b && j == a) || (i == b && j == c)
                || (i == c && j == b) || (i == c && j == a) || (i == a && j == c))),
{
    let l1 = linked(lists, a, b);
    let l2 = linked(l1, b, a);
    let l3 = linked(l2, b, c);
    let l4 = linked(l3, c, b);
    let l5 = linked(l4, c, a);
    let l6 = linked(l5, a, c);
    lemma_linked(lists, count, a, b);
    lemma_linked(l1, count, b, a);
    lemma_linked(l2, count, b, c);
    lemma_linked(l3, count, c, b);
    lemma_linked(l4, count, c, a);
    lemma_linked(l5, count, a, c);
    assert forall|i: int, j: usize| 0 <= i < count implies (#[trigger] l6[i].contains(j) <==> (
    lists[i].contains(j) || (i == a && j == b) || (i == b && j == a) || (i == b && j == c) || (i
        == c && j == b) || (i == c && j == a) || (i == a && j == c))) by {
        assert(l1[i].contains(j) <==> (lists[i].contains(j) || (i == a && j == b)));
        assert(l2[i].contains(j) <==> (l1[i].contains(j) || (i == b && j == a)));
        assert(l3[i].contains(j) <==> (l2[i].contains(j) || (i == b && j == c)));
        assert(l4[i].contains(j) <==> (l3[i].contains(j) || (i == c && j == b)));
        assert(l5[i].contains(j) <==> (l4[i].contains(j) || (i == c && j == a)));
        assert(l6[i].contains(j) <==> (l5[i].contains(j) || (i == a && j == c)));
    }
}

/// Whether the first `done` triangles name points below `count` only.
pub open spec fn triangles_in_range(count: nat, triangles: Seq<usize>, done: nat) -> bool {
    3 * done <= triangles.len() && forall|k: int| 0 <= k < 3 * done ==> (#[trigger] triangles[k])
        < count
}

/// The neighbour lists hold exactly the pairs of points that share a
/// triangle, every pair once.
pub proof fn lemma_adjacency_after(count: nat, triangles: Seq<usize>, done: nat)
    requires
        triangles_in_range(count, triangles, done),
    ensures
        tidy(adjacency_after(count, triangles, done), count),
        forall|i: usize, j: usize|
            i < count ==> (#[trigger] adjacency_after(count, triangles, done)[i as int].contains(j)
                <==> share_triangle(triangles, done, i, j)),
    decreases done,
{
    let lists = adjacency_after(count, triangles, done);
    if done == 0 {
        assert forall|i: usize, j: usize| i < count implies (#[trigger] lists[i as int].contains(j)
            <==> share_triangle(triangles, done, i, j)) by {}
    } else {
        let earlier = adjacency_after(count, triangles, (done - 1) as nat);
        let at = 3 * (done - 1);
        let a = triangles[at];
        let b = triangles[at + 1];
        let c = triangles[at + 2];
        lemma_adjacency_after(count, triangles, (done - 1) as nat);
        lemma_with_triangle(earlier, count, a, b, c);
        assert forall|i: usize, j: usize| i < count implies (#[trigger] lists[i as int].contains(j)
            <==> share_triangle(triangles, done, i, j)) by {
            let here = (i == a && j == b) || (i == b && j == a) || (i == b && j == c) || (i == c
                && j == b) || (i == c && j == a) || (i == a && j == c);
            assert(lists[i as int].contains(j) <==> (earlier[i as int].contains(j) || here));
            assert(earlier[i as int].contains(j) <==> share_triangle(
                triangles,
                (done - 1) as nat,
                i,
                j,
            ));
            if share_triangle(triangles, (done - 1) as nat, i, j) {
                let (t, p, q) = choose|t: int, p: int, q: int|
                    0 <= t < done - 1 && 0 <= p < 3 && 0 <= q < 3 && p != q
                        && #[trigger] triangles[3 * t + p] == i && #[trigger] triangles[3 * t + q]
                        == j;
                assert(triangles[3 * t + p] == i && triangles[3 * t + q] == j);
            }
            if here {
                let t = done - 1;
                assert(triangles[3 * t + 0] == a);
                assert(triangles[3 * t + 1] == b);
                assert(triangles[3 * t + 2] == c);
            }
            if share_triangle(triangles, done, i, j) {
                let (t, p, q) = choose|t: int, p: int, q: int|
                    0 <= t < done && 0 <= p < 3 && 0 <= q < 3 && p != q
                        && #[trigger] triangles[3 * t + p] == i && #[trigger] triangles[3 * t + q]
                        == j;
                if t < done - 1 {
                    assert(triangles[3 * t + p] == i && triangles[3 * t + q] == j);
                    assert(share_triangle(triangles, (done - 1) as nat, i, j));
                } else {
                    assert(here);
                }
            }
        }
    }
}

/// Being neighbours is mutual.
pub proof fn lemma_adjacency_is_symmetric(count: nat, triangles: Seq<usize>, i: usize, j: usize)
    requires
        triangles_in_range(count, triangles, triangles.len() / 3),
        i < count,
        j < count,
    ensures
        adjacency(count, triangles)[i as int].contains(j) <==> adjacency(
            count,
            triangles,
        )[j as int].contains(i),
{
    let done = triangles.len() / 3;
    lemma_adjacency_after(count, triangles, done);
    if share_triangle(triangles, done, i, j) {
        let (t, p, q) = choose|t: int, p: int, q: int|
            0 <= t < done && 0 <= p < 3 && 0 <= q < 3 && p != q && #[trigger] triangles[3 * t + p]
                == i && #[trigger] triangles[3 * t + q] == j;
        assert(triangles[3 * t + q] == j && triangles[3 * t + p] == i);
    }
    if share_triangle(triangles, done, j, i) {
        let (t, p, q) = choose|t: int, p: int, q: int|
            0 <= t < done && 0 <= p < 3 && 0 <= q < 3 && p != q && #[trigger] triangles[3 * t + p]
                == j && #[trigger] triangles[3 * t + q] == i;
        assert(triangles[3 * t + q] == i && triangles[3 * t + p] == j);
    }
}

/// Adds `b` to the neighbours of `a` unless it is one already.
fn link(lists: &mut Vec<Vec<usize>>, a: usize, b: usize)
    requires
        a < old(lists)@.len(),
    ensures
        final(lists)@.len() == old(lists)@.len(),
        neighbour_lists(final(lists)@) == linked(neighbour_lists(old(lists)@), a, b),
{
    let ghost before = neighbour_lists(lists@);
    let mut known = false;
    let mut k: usize = 0;
    let list = &lists[a];
    while k < list.len()
        invariant
            k <= list@.len(),
            list@ == before[a as int],
            known <==> list@.take(k as int).contains(b),
        decreases list@.len() - k,
    {
        let ghost seen = list@.take(k as int);
        let ghost next = list@.take(k + 1);
        assert(next =~= seen.push(list@[k as int]));
        assert(next.contains(b) <==> (seen.contains(b) || list@[k as int] == b)) by {
            if next.contains(b) {
                let at = choose|at: int| 0 <= at < next.len() && next[at] == b;
                if at < k {
                    assert(seen[at] == b);
                }
            }
            if seen.contains(b) {
                let at = choose|at: int| 0 <= at < seen.len() && seen[at] == b;
                assert(next[at] == b);
            }
            if list@[k as int] == b {
                assert(next[k as int] == b);
            }
        }
        if list[k] == b {
            known = true;
        }
        k += 1;
    }
    assert(list@.take(list@.len() as int) =~= list@);
    if !known {
        lists[a].push(b);
    }
    assert(neighbour_lists(lists@) =~= linked(before, a, b));
}

/// The number lists held by a vector of vectors.
pub open spec fn neighbour_lists(lists: Seq<Vec<usize>>) -> Seq<Seq<usize>> {
    Seq::new(lists.len(), |i: int| lists[i]@)
}

/// The neighbour lists of `num_points` seeds, read off their Delaunay
/// triangles.
///
/// `triangles` holds three point numbers per triangle. Two points are
/// neighbours exactly when some triangle has both as corners; every list
/// names each neighbour once, in the order in which the triangles bring
/// them.
pub fn build_adjacency(num_points: usize, triangles: &Vec<usize>) -> (lists: Vec<Vec<usize>>)
    requires
        forall|k: int| 0 <= k < triangles@.len() ==> (#[trigger] triangles@[k]) < num_points,
    ensures
        neighbour_lists(lists@) == adjacency(num_points as nat, triangles@),
        tidy(neighbour_lists(lists@), num_points as nat),
        forall|i: usize, j: usize|
            i < num_points ==> (#[trigger] lists@[i as int]@.contains(j) <==> share_triangle(
                triangles@,
                triangles@.len() / 3,
                i,
                j,
            )),
{
    let mut lists: Vec<Vec<usize>> = Vec::with_capacity(num_points);
    let mut i: usize = 0;
    while i < num_points
        invariant
            i <= num_points,
            lists@.len() == i,
            forall|k: int| 0 <= k < i ==> (#[trigger] lists@[k])@.len() == 0,
        decreases num_points - i,
    {
        lists.push(Vec::new());
        i += 1;
    }
    assert forall|k: int| 0 <= k < num_points implies (#[trigger] neighbour_lists(lists@)[k])
        == Seq::<usize>::empty() by {
        assert(lists@[k]@ =~= Seq::<usize>::empty());
    }
    assert(neighbour_lists(lists@) =~= adjacency_after(num_points as nat, triangles@, 0));
    let total: usize = triangles.len();
    let whole: usize = total / 3;
    let mut done: usize = 0;
    while done < whole
        invariant
            done <= whole,
            total == triangles@.len(),
            whole == total / 3,
            lists@.len() == num_points,
            forall|k: int| 0 <= k < triangles@.len() ==> (#[trigger] triangles@[k]) < num_points,
            neighbour_lists(lists@) == adjacency_after(
                num_points as nat,
                triangles@,
                done as nat,
            ),
        decreases whole - done,
    {
        assert(3 * done + 2 < triangles@.len());
        let a = triangles[3 * done];
        let b = triangles[3 * done + 1];
        let c = triangles[3 * done + 2];
        link(&mut lists, a, b);
        link(&mut lists, b, a);
        link(&mut lists, b, c);
        link(&mut lists, c, b);
        link(&mut lists, c, a);
        link(&mut lists, a, c);
        done += 1;
    }
    proof {
        lemma_adjacency_after(num_points as nat, triangles@, whole as nat);
        assert forall|i: usize, j: usize| i < num_points implies (
        #[trigger] lists@[i as int]@.contains(j) <==> share_triangle(
            triangles@,
            triangles@.len() / 3,
            i,
            j,
        )) by {
            assert(neighbour_lists(lists@)[i as int] == lists@[i as int]@);
        }
    }
    lists
}

/// What is left of `pieces` once the first `done` holes are cut out, one
/// after the other, skipping every hole whose box does not overlap `frame`.
pub open spec fn without_near_holes(
    pieces: Seq<Seq<Point>>,
    frame: Rect,
    holes: Seq<Seq<Point>>,
    boxes: Seq<Rect>,
    done: nat,
) -> Seq<Seq<Point>>
    decreases done,
{
    if done == 0 {
        pieces
    } else {
        let earlier = without_near_holes(pieces, frame, holes, boxes, (done - 1) as nat);
        if overlapping(frame, boxes[done - 1]) {
            without_hole(earlier, holes[done - 1])
        } else {
            earlier
        }
    }
}

/// Cuts the holes out of a fragment, one after the other. A hole is skipped
/// without asking the clipper when its box, as `hole_bounds` gives it, does
/// not overlap the bounding box of the fragment.
pub fn subtract_holes(fragment: &Vec<Point>, holes: &Vec<Vec<Point>>, hole_bounds: &Vec<Rect>) -> (remaining:
    Vec<Vec<Point>>)
    requires
        hole_bounds@.len() == holes@.len(),
    ensures
        polygons(remaining@) == without_near_holes(
            seq![fragment@],
            bounds_of(fragment@),
            polygons(holes@),
            hole_bounds@,
            holes@.len() as nat,
        ),
{
    let mut remaining: Vec<Vec<Point>> = Vec::new();
    remaining.push(copy_polygon(fragment));
    assert(polygons(remaining@) =~= seq![fragment@]);
    if holes.len() == 0 {
        return remaining;
    }
    let frame = calculate_bounds(fragment);
    let mut i: usize = 0;
    while i < holes.len()
        invariant
            i <= holes@.len(),
            hole_bounds@.len() == holes@.len(),
            frame == bounds_of(fragment@),
            polygons(remaining@) == without_near_holes(
                seq![fragment@],
                frame,
                polygons(holes@),
                hole_bounds@,
                i as nat,
            ),
        decreases holes@.len() - i,
    {
        if rects_intersect(frame, hole_bounds[i]) {
            remaining = subtract_hole(&remaining, &holes[i]);
        }
        i += 1;
    }
    remaining
}

/// The bounding boxes of the holes, in order.
pub open spec fn boxes_of(holes: Seq<Seq<Point>>) -> Seq<Rect> {
    Seq::new(holes.len(), |i: int| bounds_of(holes[i]))
}

/// The final pieces of one clipped fragment: nothing for a fragment of fewer
/// than three points, else what the holes leave of it, as far as it still
/// has three points.
pub open spec fn fragment_pieces(fragment: Seq<Point>, holes: Seq<Seq<Point>>) -> Seq<Seq<Point>> {
    if fragment.len() < MIN_POLYGON_POINTS {
        Seq::empty()
    } else {
        proper_polygons(
            without_near_holes(
                seq![fragment],
                bounds_of(fragment),
                holes,
                boxes_of(holes),
                holes.len(),
            ),
        )
    }
}

/// The final pieces of a list of clipped fragments, in order.
pub open spec fn fragments_pieces(fragments: Seq<Seq<Point>>, holes: Seq<Seq<Point>>) -> Seq<
    Seq<Point>,
>
    decreases fragments.len(),
{
    if fragments.len() == 0 {
        Seq::empty()
    } else {
        fragments_pieces(fragments.drop_last(), holes) + fragment_pieces(fragments.last(), holes)
    }
}

/// The final pieces of one Voronoi cell: the cell clipped to the outer
/// polygon, without the holes. A cell of fewer than three points has none.
pub open spec fn cell_pieces(cell: Seq<Point>, outer: Seq<Point>, holes: Seq<Seq<Point>>) -> Seq<
    Seq<Point>,
> {
    if cell.len() < MIN_POLYGON_POINTS {
        Seq::empty()
    } else {
        fragments_pieces(intersection(cell, outer), holes)
    }
}

/// The final pieces of all cells, cell after cell.
pub open spec fn cells_pieces(cells: Seq<Seq<Point>>, outer: Seq<Point>, holes: Seq<Seq<Point>>) -> Seq<
    Seq<Point>,
>
    decreases cells.len(),
{
    if cells.len() == 0 {
        Seq::empty()
    } else {
        cells_pieces(cells.drop_last(), outer, holes) + cell_pieces(cells.last(), outer, holes)
    }
}

/// The corners of a box, starting at its smallest corner and going round by
/// way of the corner with the largest x and the smallest y.
pub open spec fn box_polygon(bounds: Rect) -> Seq<Point> {
    seq![
        bounds.min,
        Point { x: bounds.max.x, y: bounds.min.y },
        bounds.max,
        Point { x: bounds.min.x, y: bounds.max.y },
    ]
}

/// The line of all points equally far from `keep` and `away`, keeping the
/// side of `keep`.
pub open spec fn bisector_of(keep: Point, away: Point) -> Line {
    Line {
        a: (2 * (keep.x - away.x)) as i128,
        b: (2 * (keep.y - away.y)) as i128,
        c: ((keep.x - away.x) * (keep.x + away.x) + (keep.y - away.y) * (keep.y + away.y)) as i128,
    }
}

/// The cell of the seed `seed` after the first `done` of its neighbours:
/// the box, clipped to its side of the bisector against each of them in turn.
pub open spec fn cell_after(
    seeds: Seq<Point>,
    neighbours: Seq<usize>,
    bounds: Rect,
    seed: int,
    done: nat,
) -> Seq<Point>
    decreases done,
{
    if done == 0 {
        box_polygon(bounds)
    } else {
        bisector_of(seeds[seed], seeds[neighbours[done - 1] as int]).clipped(
            cell_after(seeds, neighbours, bounds, seed, (done - 1) as nat),
        )
    }
}

/// The Voronoi cell of one seed inside the box.
pub open spec fn cell_of(seeds: Seq<Point>, lists: Seq<Seq<usize>>, bounds: Rect, seed: int) -> Seq<
    Point,
> {
    cell_after(seeds, lists[seed], bounds, seed, lists[seed].len())
}

/// The Voronoi cells of the seeds inside the box, in seed order, as far as
/// they have three points.
pub open spec fn voronoi_cells(seeds: Seq<Point>, lists: Seq<Seq<usize>>, bounds: Rect) -> Seq<
    Seq<Point>,
> {
    proper_polygons(Seq::new(seeds.len(), |i: int| cell_of(seeds, lists, bounds, i)))
}

/// The fewest seeds that divide a polygon: one seed alone owns all of it.
pub const MIN_SEEDS: usize = 2;

/// Whether the cells of the seeds can be built: there is a triangle, the
/// triangles name seeds only, and geometry can be computed on the seeds and
/// on the outer polygon.
pub open spec fn can_build_cells(outer: Seq<Point>, seeds: Seq<Point>, triangles: Seq<usize>) -> bool {
    &&& triangles.len() > 0
    &&& forall|k: int| 0 <= k < triangles.len() ==> (#[trigger] triangles[k]) < seeds.len()
    &&& measurable(seeds)
    &&& measurable(outer)
}

/// The result of a Voronoi fracture.
///
/// Nothing comes back for an empty polygon list or an outer polygon of
/// fewer than three points. The list itself comes back for fewer than two
/// seeds, where the cells cannot be built, and where no cell leaves a piece.
/// Otherwise the pieces of all cells come back.
pub open spec fn fractured(list: Seq<Seq<Point>>, seeds: Seq<Point>, triangles: Seq<usize>) -> Seq<
    Seq<Point>,
> {
    if list.len() == 0 || list[0].len() < MIN_POLYGON_POINTS {
        Seq::empty()
    } else if seeds.len() < MIN_SEEDS || !can_build_cells(list[0], seeds, triangles) {
        list
    } else {
        let cells = voronoi_cells(
            seeds,
            adjacency(seeds.len(), triangles),
            bounds_of(list[0]),
        );
        let pieces = cells_pieces(cells, list[0], holes_in(list));
        if pieces.len() == 0 {
            list
        } else {
            pieces
        }
    }
}

/// Once a cell has fewer than three points, no further bisector gives it
/// three again.
proof fn lemma_short_cell_stays_short(
    seeds: Seq<Point>,
    neighbours: Seq<usize>,
    bounds: Rect,
    seed: int,
    from: nat,
    to: nat,
)
    requires
        from <= to,
        cell_after(seeds, neighbours, bounds, seed, from).len() < MIN_POLYGON_POINTS,
    ensures
        cell_after(seeds, neighbours, bounds, seed, to).len() < MIN_POLYGON_POINTS,
    decreases to - from,
{
    if from < to {
        lemma_short_cell_stays_short(seeds, neighbours, bounds, seed, from, (to - 1) as nat);
    }
}

/// Whether the neighbour lists fit the seeds: one list per seed, naming
/// seeds only.
pub open spec fn lists_fit(lists: Seq<Seq<usize>>, count: nat) -> bool {
    &&& lists.len() == count
    &&& forall|i: int, k: int|
        0 <= i < lists.len() && 0 <= k < lists[i].len() ==> (#[trigger] lists[i][k]) < count
}

/// The Voronoi cell of one seed inside the box.
fn compute_cell(seeds: &Vec<Point>, neighbours: &Vec<usize>, bounds: Rect, seed: usize) -> (cell:
    Vec<Point>)
    requires
        measurable(seeds@),
        measurable_point(bounds.min),
        measurable_point(bounds.max),
        seed < seeds@.len(),
        forall|k: int| 0 <= k < neighbours@.len() ==> (#[trigger] neighbours@[k]) < seeds@.len(),
    ensures
        cell@.len() >= MIN_POLYGON_POINTS ==> cell@ == cell_after(
            seeds@,
            neighbours@,
            bounds,
            seed as int,
            neighbours@.len() as nat,
        ),
        cell@.len() < MIN_POLYGON_POINTS ==> cell_after(
            seeds@,
            neighbours@,
            bounds,
            seed as int,
            neighbours@.len() as nat,
        ).len() < MIN_POLYGON_POINTS,
{
    let center = seeds[seed];
    let mut cell: Vec<Point> = Vec::with_capacity(4);
    cell.push(bounds.min);
    cell.push(Point { x: bounds.max.x, y: bounds.min.y });
    cell.push(bounds.max);
    cell.push(Point { x: bounds.min.x, y: bounds.max.y });
    assert(cell@ =~= box_polygon(bounds));
    let mut k: usize = 0;
    while k < neighbours.len() && cell.len() >= MIN_POLYGON_POINTS
        invariant
            k <= neighbours@.len(),
            measurable(seeds@),
            measurable(cell@),
            seed < seeds@.len(),
            center == seeds@[seed as int],
            forall|j: int|
                0 <= j < neighbours@.len() ==> (#[trigger] neighbours@[j]) < seeds@.len(),
            cell@ == cell_after(seeds@, neighbours@, bounds, seed as int, k as nat),
        decreases neighbours@.len() - k,
    {
        let other = seeds[neighbours[k]];
        cell = clip_to_line(&cell, Line::bisector(center, other));
        k += 1;
    }
    proof {
        if cell@.len() < MIN_POLYGON_POINTS {
            lemma_short_cell_stays_short(
                seeds@,
                neighbours@,
                bounds,
                seed as int,
                k as nat,
                neighbours@.len() as nat,
            );
        }
    }
    cell
}

/// The Voronoi cells of the seeds inside a box.
///
/// The cell of a seed starts as the box and is clipped, for each of its
/// neighbours in turn, to the side of the seed of the line half way between
/// the two. Cells that end with fewer than three points are left out.
pub fn compute_voronoi_cells(seeds: &Vec<Point>, adjacency: &Vec<Vec<usize>>, bounds: Rect) -> (cells:
    Vec<Vec<Point>>)
    requires
        measurable(seeds@),
        measurable_point(bounds.min),
        measurable_point(bounds.max),
        lists_fit(neighbour_lists(adjacency@), seeds@.len()),
    ensures
        polygons(cells@) == voronoi_cells(seeds@, neighbour_lists(adjacency@), bounds),
{
    let ghost lists = neighbour_lists(adjacency@);
    let ghost all = Seq::new(seeds@.len(), |i: int| cell_of(seeds@, lists, bounds, i));
    let mut cells: Vec<Vec<Point>> = Vec::with_capacity(seeds.len());
    let mut i: usize = 0;
    assert(all.take(0) =~= Seq::<Seq<Point>>::empty());
    assert(polygons(cells@) =~= proper_polygons(all.take(0)));
    while i < seeds.len()
        invariant
            i <= seeds@.len(),
            measurable(seeds@),
            measurable_point(bounds.min),
            measurable_point(bounds.max),
            lists == neighbour_lists(adjacency@),
            lists_fit(lists, seeds@.len()),
            all == Seq::new(seeds@.len(), |i: int| cell_of(seeds@, lists, bounds, i)),
            polygons(cells@) == proper_polygons(all.take(i as int)),
        decreases seeds@.len() - i,
    {
        let ghost before = cells@;
        assert forall|k: int| 0 <= k < adjacency@[i as int]@.len() implies (
        #[trigger] adjacency@[i as int]@[k]) < seeds@.len() by {
            assert(lists[i as int][k] < seeds@.len());
        }
        let cell = compute_cell(seeds, &adjacency[i], bounds, i);
        proof {
            assert(lists[i as int] == adjacency@[i as int]@);
            assert(all.take(i + 1).drop_last() =~= all.take(i as int));
            assert(all.take(i + 1).last() == cell_of(seeds@, lists, bounds, i as int));
        }
        if cell.len() >= MIN_POLYGON_POINTS {
            cells.push(cell);
            assert(polygons(cells@) =~= polygons(before).push(cell@));
        }
        i += 1;
    }
    assert(all.take(seeds@.len() as int) =~= all);
    cells
}

/// Tells whether every triangle corner names a seed.
fn triangles_fit(triangles: &Vec<usize>, count: usize) -> (ok: bool)
    ensures
        ok == (forall|k: int| 0 <= k < triangles@.len() ==> (#[trigger] triangles@[k]) < count),
{
    let mut i: usize = 0;
    while i < triangles.len()
        invariant
            i <= triangles@.len(),
            forall|k: int| 0 <= k < i ==> (#[trigger] triangles@[k]) < count,
        decreases triangles@.len() - i,
    {
        if triangles[i] >= count {
            return false;
        }
        i += 1;
    }
    true
}

/// Appends the final pieces of one clipped fragment.
fn push_fragment_pieces(
    into: &mut Vec<Vec<Point>>,
    fragment: &Vec<Point>,
    holes: &Vec<Vec<Point>>,
    hole_bounds: &Vec<Rect>,
)
    requires
        hole_bounds@ == boxes_of(polygons(holes@)),
    ensures
        polygons(final(into)@) == polygons(old(into)@) + fragment_pieces(
            fragment@,
            polygons(holes@),
        ),
{
    if fragment.len() < MIN_POLYGON_POINTS {
        assert(polygons(into@) + Seq::<Seq<Point>>::empty() =~= polygons(into@));
        return ;
    }
    let remaining = subtract_holes(fragment, holes, hole_bounds);
    push_proper(into, &remaining);
}

/// Appends the final pieces of one Voronoi cell.
fn push_cell_pieces(
    into: &mut Vec<Vec<Point>>,
    cell: &Vec<Point>,
    outer: &Vec<Point>,
    holes: &Vec<Vec<Point>>,
    hole_bounds: &Vec<Rect>,
)
    requires
        hole_bounds@ == boxes_of(polygons(holes@)),
    ensures
        polygons(final(into)@) == polygons(old(into)@) + cell_pieces(
            cell@,
            outer@,
            polygons(holes@),
        ),
{
    let ghost start = polygons(into@);
    if cell.len() < MIN_POLYGON_POINTS {
        assert(start + Seq::<Seq<Point>>::empty() =~= start);
        return ;
    }
    let clipped = clipper2_intersect(cell, outer);
    let ghost all = polygons(clipped@);
    let mut i: usize = 0;
    assert(all.take(0) =~= Seq::<Seq<Point>>::empty());
    assert(start + fragments_pieces(all.take(0), polygons(holes@)) =~= start);
    while i < clipped.len()
        invariant
            i <= clipped@.len(),
            all == polygons(clipped@),
            hole_bounds@ == boxes_of(polygons(holes@)),
            polygons(into@) == start + fragments_pieces(all.take(i as int), polygons(holes@)),
        decreases clipped@.len() - i,
    {
        push_fragment_pieces(into, &clipped[i], holes, hole_bounds);
        proof {
            assert(all.take(i + 1).drop_last() =~= all.take(i as int));
            assert(all.take(i + 1).last() == clipped@[i as int]@);
            assert(polygons(into@) =~= start + fragments_pieces(
                all.take(i + 1),
                polygons(holes@),
            ));
        }
        i += 1;
    }
    assert(all.take(clipped@.len() as int) =~= all);
}

/// The bounding boxes of the holes, in order.
fn bounds_of_all(holes: &Vec<Vec<Point>>) -> (boxes: Vec<Rect>)
    ensures
        boxes@ == boxes_of(polygons(holes@)),
{
    let mut boxes: Vec<Rect> = Vec::with_capacity(holes.len());
    let mut i: usize = 0;
    while i < holes.len()
        invariant
            i <= holes@.len(),
            boxes@.len() == i,
            forall|k: int| 0 <= k < i ==> (#[trigger] boxes@[k]) == bounds_of(holes@[k]@),
        decreases holes@.len() - i,
    {
        boxes.push(calculate_bounds(&holes[i]));
        i += 1;
    }
    assert(boxes@ =~= boxes_of(polygons(holes@)));
    boxes
}

/// Breaks a polygon with holes into the pieces of its Voronoi cells.
///
/// `polygons_in` holds the outer boundary first, then the holes.
/// `seed_points` are the centres of the cells, and `triangles` their
/// Delaunay triangulation, three seed numbers per triangle. Every cell is
/// clipped to the outer boundary, every hole is cut out of what the clip
/// leaves, and the pieces of at least three points are collected. The input
/// list is returned for fewer than two seeds and where the cells leave
/// nothing, so the answer is empty only for an empty list or an outer
/// boundary of fewer than three points.
pub fn fracture(polygons_in: &Vec<Vec<Point>>, seed_points: &Vec<Point>, triangles: &Vec<usize>) -> (fragments:
    Vec<Vec<Point>>)
    ensures
        polygons(fragments@) == fractured(polygons(polygons_in@), seed_points@, triangles@),
{
    if polygons_in.len() == 0 || polygons_in[0].len() < MIN_POLYGON_POINTS {
        let nothing: Vec<Vec<Point>> = Vec::new();
        assert(polygons(nothing@) =~= Seq::<Seq<Point>>::empty());
        return nothing;
    }
    let outer = &polygons_in[0];
    assert(polygons(polygons_in@)[0] == outer@);
    if seed_points.len() < MIN_SEEDS || triangles.len() == 0 || !triangles_fit(triangles, seed_points.len()) || !is_measurable(
        seed_points,
    ) || !is_measurable(outer) {
        return copy_polygons(polygons_in);
    }
    let bounds = calculate_bounds(outer);
    let adjacency = build_adjacency(seed_points.len(), triangles);
    let cells = compute_voronoi_cells(seed_points, &adjacency, bounds);
    let holes = collect_holes(polygons_in);
    let hole_bounds = bounds_of_all(&holes);
    let ghost all = polygons(cells@);
    let mut fragments: Vec<Vec<Point>> = Vec::new();
    let mut i: usize = 0;
    assert(all.take(0) =~= Seq::<Seq<Point>>::empty());
    assert(polygons(fragments@) =~= Seq::<Seq<Point>>::empty());
    while i < cells.len()
        invariant
            i <= cells@.len(),
            all == polygons(cells@),
            hole_bounds@ == boxes_of(polygons(holes@)),
            polygons(fragments@) == cells_pieces(all.take(i as int), outer@, polygons(holes@)),
        decreases cells@.len() - i,
    {
        push_cell_pieces(&mut fragments, &cells[i], outer, &holes, &hole_bounds);
        proof {
            assert(all.take(i + 1).drop_last() =~= all.take(i as int));
            assert(all.take(i + 1).last() == cells@[i as int]@);
        }
        i += 1;
    }
    assert(all.take(cells@.len() as int) =~= all);
    if fragments.len() == 0 {
        return copy_polygons(polygons_in);
    }
    fragments
}

/// A Voronoi fracture answers a list whose outer boundary has at least three
/// points with at least one polygon, whatever the seeds: the pieces of the
/// cells, or the list that it was given. With fewer than two seeds it is the
/// list.
pub proof fn lemma_fracture_is_never_empty(
    list: Seq<Seq<Point>>,
    seeds: Seq<Point>,
    triangles: Seq<usize>,
)
    requires
        list.len() > 0,
        list[0].len() >= MIN_POLYGON_POINTS,
    ensures
        fractured(list, seeds, triangles).len() > 0,
        seeds.len() < MIN_SEEDS ==> fractured(list, seeds, triangles) == list,
        !can_build_cells(list[0], seeds, triangles) ==> fractured(list, seeds, triangles) == list,
{
}

} // verus!
