//! The boundary segments of a grid meet two by two.
//!
//! Every boundary point is the midpoint of a side that two cells share, and
//! each of the two cells has exactly one segment that ends there. So every
//! boundary point has two neighbours, and the contours of a grid are closed
//! loops.

use crate::contour::by_length::{lemma_longest_first, lemma_longest_first_members};
use crate::contour::chain::{
    chain, endpoints, lemma_joined_is_neighbour, lemma_neighbours_push, neighbours,
};
use crate::contour::closed::{
    apart, is_closed, lemma_endpoints_have_neighbours, lemma_trace_closes, lemma_trace_covers,
    regular,
};
use crate::contour::marching_squares::{
    cell_config, cell_segments, contours_of, edge_point, grid_segments, row_segments,
    rows_segments, traceable, Edge, MAX_TRACE_DIMENSION,
};
use crate::contour::{GridPoint, Segment};
use crate::grid::Grid;
use vstd::prelude::*;

verus! {

/// The neighbours of a point in two lists of segments, one after the other,
/// are its neighbours in the first and then those in the second.
pub proof fn lemma_neighbours_of_both(a: Seq<Segment>, b: Seq<Segment>, p: GridPoint)
    ensures
        neighbours(a + b, p) == neighbours(a, p) + neighbours(b, p),
    decreases b.len(),
{
    if b.len() == 0 {
        assert(a + b =~= a);
        assert(neighbours(a, p) + neighbours(b, p) =~= neighbours(a, p));
    } else {
        lemma_neighbours_of_both(a, b.drop_last(), p);
        assert((a + b).drop_last() =~= a + b.drop_last());
        assert((a + b).last() == b.last());
        assert(neighbours(a + b, p) =~= neighbours(a, p) + neighbours(b, p));
    }
}

/// The neighbours that the segments of one cell give to `p`.
pub open spec fn cell_around(grid: &Grid, cx: int, cy: int, p: GridPoint) -> Seq<GridPoint> {
    neighbours(cell_segments(grid, cx, cy), p)
}

/// The neighbours that the segments of one row of cells give to `p`.
pub open spec fn row_around(grid: &Grid, cy: int, p: GridPoint) -> Seq<GridPoint> {
    neighbours(row_segments(grid, cy, grid.spec_width() as int), p)
}

/// Whether the cell is one that the scan of the grid visits.
pub open spec fn scanned(grid: &Grid, cx: int, cy: int) -> bool {
    -1 <= cx < grid.spec_width() && -1 <= cy < grid.spec_height()
}

/// Cells that give `p` no neighbour add nothing to its neighbours in a row.
proof fn lemma_row_skips(grid: &Grid, cy: int, from: int, to: int, p: GridPoint)
    requires
        -1 <= from <= to,
        forall|cx: int| from <= cx < to ==> (#[trigger] cell_around(grid, cx, cy, p)).len() == 0,
    ensures
        neighbours(row_segments(grid, cy, to), p) == neighbours(row_segments(grid, cy, from), p),
    decreases to - from,
{
    if from < to {
        lemma_row_skips(grid, cy, from, to - 1, p);
        lemma_neighbours_of_both(
            row_segments(grid, cy, to - 1),
            cell_segments(grid, to - 1, cy),
            p,
        );
        assert(cell_around(grid, to - 1, cy, p).len() == 0);
        assert(neighbours(row_segments(grid, cy, to), p) =~= neighbours(
            row_segments(grid, cy, to - 1),
            p,
        ));
    }
}

/// One more cell adds the neighbours that it gives.
proof fn lemma_row_step(grid: &Grid, cy: int, cx: int, p: GridPoint)
    requires
        -1 <= cx,
    ensures
        neighbours(row_segments(grid, cy, cx + 1), p) == neighbours(
            row_segments(grid, cy, cx),
            p,
        ) + cell_around(grid, cx, cy, p),
{
    lemma_neighbours_of_both(row_segments(grid, cy, cx), cell_segments(grid, cx, cy), p);
}

/// Rows that give `p` no neighbour add nothing to its neighbours.
proof fn lemma_rows_skip(grid: &Grid, from: int, to: int, p: GridPoint)
    requires
        -1 <= from <= to,
        forall|cy: int| from <= cy < to ==> (#[trigger] row_around(grid, cy, p)).len() == 0,
    ensures
        neighbours(rows_segments(grid, to), p) == neighbours(rows_segments(grid, from), p),
    decreases to - from,
{
    if from < to {
        lemma_rows_skip(grid, from, to - 1, p);
        lemma_neighbours_of_both(
            rows_segments(grid, to - 1),
            row_segments(grid, to - 1, grid.spec_width() as int),
            p,
        );
        assert(row_around(grid, to - 1, p).len() == 0);
        assert(neighbours(rows_segments(grid, to), p) =~= neighbours(
            rows_segments(grid, to - 1),
            p,
        ));
    }
}

/// One more row adds the neighbours that it gives.
proof fn lemma_rows_step(grid: &Grid, cy: int, p: GridPoint)
    requires
        -1 <= cy,
    ensures
        neighbours(rows_segments(grid, cy + 1), p) == neighbours(rows_segments(grid, cy), p)
            + row_around(grid, cy, p),
{
    lemma_neighbours_of_both(
        rows_segments(grid, cy),
        row_segments(grid, cy, grid.spec_width() as int),
        p,
    );
}

/// Where no cell gives `p` a neighbour, it has none.
proof fn lemma_no_cell(grid: &Grid, p: GridPoint)
    requires
        forall|cx: int, cy: int|
            scanned(grid, cx, cy) ==> (#[trigger] cell_around(grid, cx, cy, p)).len() == 0,
    ensures
        neighbours(grid_segments(grid), p).len() == 0,
{
    let width = grid.spec_width() as int;
    let height = grid.spec_height() as int;
    assert forall|cy: int| -1 <= cy < height implies (#[trigger] row_around(grid, cy, p)).len()
        == 0 by {
        assert forall|cx: int| -1 <= cx < width implies (#[trigger] cell_around(
            grid,
            cx,
            cy,
            p,
        )).len() == 0 by {
            assert(scanned(grid, cx, cy));
        }
        lemma_row_skips(grid, cy, -1, width, p);
    }
    lemma_rows_skip(grid, -1, height, p);
}

/// Where one cell of a row gives `p` neighbours, and no other, the row
/// gives those.
proof fn lemma_one_cell_of_row(grid: &Grid, cx: int, cy: int, p: GridPoint)
    requires
        -1 <= cx < grid.spec_width(),
        forall|x: int|
            -1 <= x < grid.spec_width() && x != cx ==> (#[trigger] cell_around(
                grid,
                x,
                cy,
                p,
            )).len() == 0,
    ensures
        row_around(grid, cy, p) == cell_around(grid, cx, cy, p),
{
    let width = grid.spec_width() as int;
    lemma_row_skips(grid, cy, -1, cx, p);
    lemma_row_step(grid, cy, cx, p);
    lemma_row_skips(grid, cy, cx + 1, width, p);
    assert(neighbours(row_segments(grid, cy, -1), p) =~= Seq::<GridPoint>::empty());
    assert(Seq::<GridPoint>::empty() + cell_around(grid, cx, cy, p) =~= cell_around(
        grid,
        cx,
        cy,
        p,
    ));
}

/// Where two cells give `p` neighbours, and no other, `p` has the
/// neighbours that the first gives and then those that the second gives.
/// The first is the one that the scan meets first.
proof fn lemma_two_cells(grid: &Grid, x1: int, y1: int, x2: int, y2: int, p: GridPoint)
    requires
        scanned(grid, x1, y1),
        scanned(grid, x2, y2),
        y1 < y2 || (y1 == y2 && x1 < x2),
        forall|cx: int, cy: int|
            scanned(grid, cx, cy) && !(cx == x1 && cy == y1) && !(cx == x2 && cy == y2) ==> (
            #[trigger] cell_around(grid, cx, cy, p)).len() == 0,
    ensures
        neighbours(grid_segments(grid), p) == cell_around(grid, x1, y1, p) + cell_around(
            grid,
            x2,
            y2,
            p,
        ),
{
    let width = grid.spec_width() as int;
    let height = grid.spec_height() as int;
    let none = Seq::<GridPoint>::empty();
    let first = cell_around(grid, x1, y1, p);
    let second = cell_around(grid, x2, y2, p);
    assert forall|cy: int| -1 <= cy < height && cy != y1 && cy != y2 implies (#[trigger] row_around(
        grid,
        cy,
        p,
    )).len() == 0 by {
        assert forall|cx: int| -1 <= cx < width implies (#[trigger] cell_around(
            grid,
            cx,
            cy,
            p,
        )).len() == 0 by {
            assert(scanned(grid, cx, cy));
        }
        lemma_row_skips(grid, cy, -1, width, p);
    }
    assert(neighbours(rows_segments(grid, -1), p) =~= none);
    if y1 < y2 {
        assert forall|x: int| -1 <= x < width && x != x1 implies (#[trigger] cell_around(
            grid,
            x,
            y1,
            p,
        )).len() == 0 by {
            assert(scanned(grid, x, y1));
        }
        lemma_one_cell_of_row(grid, x1, y1, p);
        assert forall|x: int| -1 <= x < width && x != x2 implies (#[trigger] cell_around(
            grid,
            x,
            y2,
            p,
        )).len() == 0 by {
            assert(scanned(grid, x, y2));
        }
        lemma_one_cell_of_row(grid, x2, y2, p);
        lemma_rows_skip(grid, -1, y1, p);
        lemma_rows_step(grid, y1, p);
        lemma_rows_skip(grid, y1 + 1, y2, p);
        lemma_rows_step(grid, y2, p);
        lemma_rows_skip(grid, y2 + 1, height, p);
        assert(none + first =~= first);
    } else {
        // Both in one row.
        assert forall|x: int| -1 <= x < x1 implies (#[trigger] cell_around(grid, x, y1, p)).len()
            == 0 by {
            assert(scanned(grid, x, y1));
        }
        lemma_row_skips(grid, y1, -1, x1, p);
        lemma_row_step(grid, y1, x1, p);
        assert forall|x: int| x1 + 1 <= x < x2 implies (#[trigger] cell_around(
            grid,
            x,
            y1,
            p,
        )).len() == 0 by {
            assert(scanned(grid, x, y1));
        }
        lemma_row_skips(grid, y1, x1 + 1, x2, p);
        lemma_row_step(grid, y1, x2, p);
        assert forall|x: int| x2 + 1 <= x < width implies (#[trigger] cell_around(
            grid,
            x,
            y1,
            p,
        )).len() == 0 by {
            assert(scanned(grid, x, y1));
        }
        lemma_row_skips(grid, y1, x2 + 1, width, p);
        assert(neighbours(row_segments(grid, y1, -1), p) =~= none);
        assert(none + first =~= first);
        assert(row_around(grid, y1, p) == first + second);
        lemma_rows_skip(grid, -1, y1, p);
        lemma_rows_step(grid, y1, p);
        lemma_rows_skip(grid, y1 + 1, height, p);
        assert(none + (first + second) =~= first + second);
    }
}

/// Whether the pixels at the two ends of a side of the cell differ: one is
/// solid, the other empty.
pub open spec fn differs(grid: &Grid, cx: int, cy: int, side: Edge) -> bool {
    match side {
        Edge::Top => grid.solid(cx, cy) != grid.solid(cx + 1, cy),
        Edge::Right => grid.solid(cx + 1, cy) != grid.solid(cx + 1, cy + 1),
        Edge::Bottom => grid.solid(cx + 1, cy + 1) != grid.solid(cx, cy + 1),
        Edge::Left => grid.solid(cx, cy + 1) != grid.solid(cx, cy),
    }
}

/// Whether `p` is the midpoint of the given side of the cell, and the
/// boundary crosses that side.
pub open spec fn on_side(grid: &Grid, cx: int, cy: int, side: Edge, p: GridPoint) -> bool {
    p == edge_point(cx, cy, side) && differs(grid, cx, cy, side)
}

/// Whether `p` is a point at which a segment of the cell ends.
pub open spec fn on_cell(grid: &Grid, cx: int, cy: int, p: GridPoint) -> bool {
    on_side(grid, cx, cy, Edge::Top, p) || on_side(grid, cx, cy, Edge::Right, p) || on_side(
        grid,
        cx,
        cy,
        Edge::Bottom,
        p,
    ) || on_side(grid, cx, cy, Edge::Left, p)
}

/// Whether `q` is the midpoint of a side of the cell.
pub open spec fn is_midpoint(cx: int, cy: int, q: GridPoint) -> bool {
    q == edge_point(cx, cy, Edge::Top) || q == edge_point(cx, cy, Edge::Right) || q == edge_point(
        cx,
        cy,
        Edge::Bottom,
    ) || q == edge_point(cx, cy, Edge::Left)
}

/// The neighbours that one segment gives.
proof fn lemma_around_one(s: Segment, p: GridPoint)
    ensures
        neighbours(seq![s], p) == (if s.start == p {
            seq![s.end]
        } else {
            Seq::empty()
        }) + (if s.end == p {
            seq![s.start]
        } else {
            Seq::empty()
        }),
{
    let none = Seq::<Segment>::empty();
    assert(seq![s] =~= none.push(s));
    lemma_neighbours_push(none, s, p);
    assert(neighbours(none, p) =~= Seq::<GridPoint>::empty());
    assert(neighbours(seq![s], p) =~= (if s.start == p {
        seq![s.end]
    } else {
        Seq::empty()
    }) + (if s.end == p {
        seq![s.start]
    } else {
        Seq::empty()
    }));
}

/// The neighbours that two segments give.
proof fn lemma_around_two(s: Segment, t: Segment, p: GridPoint)
    ensures
        neighbours(seq![s, t], p) == neighbours(seq![s], p) + neighbours(seq![t], p),
{
    assert(seq![s, t] =~= seq![s] + seq![t]);
    lemma_neighbours_of_both(seq![s], seq![t], p);
}

/// The segments of a cell give a point one neighbour where the boundary
/// crosses the side of the cell that the point is the midpoint of, and none
/// elsewhere. The neighbour is the midpoint of another side of the cell.
pub proof fn lemma_cell_around(grid: &Grid, cx: int, cy: int, p: GridPoint)
    requires
        -1 <= cx <= MAX_TRACE_DIMENSION,
        -1 <= cy <= MAX_TRACE_DIMENSION,
    ensures
        cell_around(grid, cx, cy, p).len() == (if on_cell(grid, cx, cy, p) {
            1int
        } else {
            0int
        }),
        on_cell(grid, cx, cy, p) ==> is_midpoint(cx, cy, cell_around(grid, cx, cy, p)[0])
            && cell_around(grid, cx, cy, p)[0] != p,
        forall|k: int|
            0 <= k < cell_segments(grid, cx, cy).len() ==> (#[trigger] cell_segments(
                grid,
                cx,
                cy,
            )[k]).start != cell_segments(grid, cx, cy)[k].end,
{
    let config = cell_config(grid, cx, cy);
    let top = edge_point(cx, cy, Edge::Top);
    let right = edge_point(cx, cy, Edge::Right);
    let bottom = edge_point(cx, cy, Edge::Bottom);
    let left = edge_point(cx, cy, Edge::Left);
    let cell = cell_segments(grid, cx, cy);
    assert(top != right && top != bottom && top != left && right != bottom && right != left
        && bottom != left);
    if config == 0 || config == 15 {
        assert(cell =~= Seq::<Segment>::empty());
    } else if config == 5 {
        let s = Segment { start: left, end: top };
        let t = Segment { start: bottom, end: right };
        assert(cell =~= seq![s, t]);
        lemma_around_two(s, t, p);
        lemma_around_one(s, p);
        lemma_around_one(t, p);
    } else if config == 10 {
        let s = Segment { start: top, end: right };
        let t = Segment { start: left, end: bottom };
        assert(cell =~= seq![s, t]);
        lemma_around_two(s, t, p);
        lemma_around_one(s, p);
        lemma_around_one(t, p);
    } else {
        let s = if config == 1 {
            Segment { start: left, end: bottom }
        } else if config == 2 {
            Segment { start: bottom, end: right }
        } else if config == 3 {
            Segment { start: left, end: right }
        } else if config == 4 {
            Segment { start: right, end: top }
        } else if config == 6 {
            Segment { start: bottom, end: top }
        } else if config == 7 {
            Segment { start: left, end: top }
        } else if config == 8 {
            Segment { start: top, end: left }
        } else if config == 9 {
            Segment { start: top, end: bottom }
        } else if config == 11 {
            Segment { start: top, end: right }
        } else if config == 12 {
            Segment { start: right, end: left }
        } else if config == 13 {
            Segment { start: right, end: bottom }
        } else {
            Segment { start: bottom, end: left }
        };
        assert(cell =~= seq![s]);
        lemma_around_one(s, p);
    }
}

/// A point has no neighbour or two, which differ from one another and from
/// the point.
pub open spec fn has_none_or_two(segments: Seq<Segment>, p: GridPoint) -> bool {
    let around = neighbours(segments, p);
    around.len() == 0 || (around.len() == 2 && around[0] != around[1] && around[0] != p
        && around[1] != p)
}

/// A point that is the midpoint of no side of a scanned cell, or of sides
/// that the boundary does not cross, has no neighbour.
proof fn lemma_point_off_boundary(grid: &Grid, p: GridPoint)
    requires
        traceable(grid),
        forall|cx: int, cy: int| scanned(grid, cx, cy) ==> !#[trigger] on_cell(grid, cx, cy, p),
    ensures
        neighbours(grid_segments(grid), p).len() == 0,
{
    assert forall|cx: int, cy: int| scanned(grid, cx, cy) implies (#[trigger] cell_around(
        grid,
        cx,
        cy,
        p,
    )).len() == 0 by {
        lemma_cell_around(grid, cx, cy, p);
        assert(!on_cell(grid, cx, cy, p));
    }
    lemma_no_cell(grid, p);
}

/// A point between two cells that both have a segment ending there has the
/// two other ends as neighbours.
proof fn lemma_point_between(grid: &Grid, x1: int, y1: int, x2: int, y2: int, p: GridPoint)
    requires
        traceable(grid),
        scanned(grid, x1, y1),
        scanned(grid, x2, y2),
        y1 < y2 || (y1 == y2 && x1 < x2),
        on_cell(grid, x1, y1, p),
        on_cell(grid, x2, y2, p),
        forall|cx: int, cy: int|
            scanned(grid, cx, cy) && #[trigger] on_cell(grid, cx, cy, p) ==> (cx == x1 && cy == y1)
                || (cx == x2 && cy == y2),
        forall|q: GridPoint| is_midpoint(x1, y1, q) && is_midpoint(x2, y2, q) ==> q == p,
    ensures
        has_none_or_two(grid_segments(grid), p),
{
    assert forall|cx: int, cy: int|
        scanned(grid, cx, cy) && !(cx == x1 && cy == y1) && !(cx == x2 && cy == y2) implies (
    #[trigger] cell_around(grid, cx, cy, p)).len() == 0 by {
        lemma_cell_around(grid, cx, cy, p);
        assert(!on_cell(grid, cx, cy, p));
    }
    lemma_two_cells(grid, x1, y1, x2, y2, p);
    lemma_cell_around(grid, x1, y1, p);
    lemma_cell_around(grid, x2, y2, p);
    let first = cell_around(grid, x1, y1, p);
    let second = cell_around(grid, x2, y2, p);
    let around = neighbours(grid_segments(grid), p);
    assert(around =~= first + second);
    assert(around[0] == first[0]);
    assert(around[1] == second[0]);
}

/// Every point has no neighbour among the boundary segments of a grid, or
/// two.
pub proof fn lemma_point_is_regular(grid: &Grid, p: GridPoint)
    requires
        traceable(grid),
    ensures
        has_none_or_two(grid_segments(grid), p),
{
    let px = p.x as int;
    let py = p.y as int;
    if px % 2 != 0 && py % 2 == 0 {
        // The midpoint of a level side: the bottom of the cell above it and
        // the top of the cell below it.
        let a = (px - 1) / 2;
        let b = py / 2;
        assert(px == 2 * a + 1 && py == 2 * b);
        assert forall|cx: int, cy: int| scanned(grid, cx, cy) && #[trigger] on_cell(
            grid,
            cx,
            cy,
            p,
        ) implies (cx == a && cy == b - 1) || (cx == a && cy == b) by {}
        if grid.solid(a, b) != grid.solid(a + 1, b) {
            assert(scanned(grid, a, b - 1));
            assert(scanned(grid, a, b));
            assert(on_side(grid, a, b - 1, Edge::Bottom, p));
            assert(on_side(grid, a, b, Edge::Top, p));
            lemma_point_between(grid, a, b - 1, a, b, p);
        } else {
            assert forall|cx: int, cy: int| scanned(grid, cx, cy) implies !#[trigger] on_cell(
                grid,
                cx,
                cy,
                p,
            ) by {
                if on_cell(grid, cx, cy, p) {
                    assert(cx == a && (cy == b - 1 || cy == b));
                }
            }
            lemma_point_off_boundary(grid, p);
        }
    } else if px % 2 == 0 && py % 2 != 0 {
        // The midpoint of an upright side: the right of the cell before it
        // and the left of the cell after it.
        let a = px / 2;
        let b = (py - 1) / 2;
        assert(px == 2 * a && py == 2 * b + 1);
        assert forall|cx: int, cy: int| scanned(grid, cx, cy) && #[trigger] on_cell(
            grid,
            cx,
            cy,
            p,
        ) implies (cx == a - 1 && cy == b) || (cx == a && cy == b) by {}
        if grid.solid(a, b + 1) != grid.solid(a, b) {
            assert(scanned(grid, a - 1, b));
            assert(scanned(grid, a, b));
            assert(on_side(grid, a - 1, b, Edge::Right, p));
            assert(on_side(grid, a, b, Edge::Left, p));
            lemma_point_between(grid, a - 1, b, a, b, p);
        } else {
            assert forall|cx: int, cy: int| scanned(grid, cx, cy) implies !#[trigger] on_cell(
                grid,
                cx,
                cy,
                p,
            ) by {
                if on_cell(grid, cx, cy, p) {
                    assert(cy == b && (cx == a - 1 || cx == a));
                }
            }
            lemma_point_off_boundary(grid, p);
        }
    } else {
        assert forall|cx: int, cy: int| scanned(grid, cx, cy) implies !#[trigger] on_cell(
            grid,
            cx,
            cy,
            p,
        ) by {}
        lemma_point_off_boundary(grid, p);
    }
}

/// The boundary segments of a grid meet two by two.
pub proof fn lemma_grid_is_regular(grid: &Grid)
    requires
        traceable(grid),
    ensures
        regular(grid_segments(grid)),
{
    let segments = grid_segments(grid);
    assert forall|p: GridPoint|
        (#[trigger] neighbours(segments, p)).len() == 0 || (neighbours(segments, p).len() == 2
            && neighbours(segments, p)[0] != neighbours(segments, p)[1]) by {
        lemma_point_is_regular(grid, p);
    }
    assert forall|j: int| 0 <= j < segments.len() implies (#[trigger] segments[j]).start
        != segments[j].end by {
        let q = segments[j].start;
        if segments[j].end == q {
            lemma_joined_is_neighbour(segments, q, j);
            lemma_point_is_regular(grid, q);
            let around = neighbours(segments, q);
            let k = choose|k: int| 0 <= k < around.len() && around[k] == q;
            assert(around[k] != q);
        }
    }
}

/// Every contour of a grid is a closed loop: it has at least three points,
/// and a boundary segment joins its last point to its first.
pub proof fn lemma_contours_are_closed(grid: &Grid, i: int)
    requires
        traceable(grid),
        0 <= i < contours_of(grid).len(),
    ensures
        is_closed(grid_segments(grid), contours_of(grid)[i]),
{
    let segments = grid_segments(grid);
    let found = chain(segments);
    let starts = endpoints(segments);
    lemma_grid_is_regular(grid);
    lemma_longest_first_members(found, i);
    let at = choose|k: int| 0 <= k < found.len() && found[k] == contours_of(grid)[i];
    assert forall|k: int| 0 <= k < starts.len() implies neighbours(segments, #[trigger] starts[k]).len()
        == 2 by {
        lemma_endpoints_have_neighbours(segments, k);
    }
    lemma_trace_closes(segments, starts, Set::empty(), at);
}

/// The contours of a grid cover its boundary: every end of a boundary
/// segment lies on a contour.
pub proof fn lemma_contours_cover_boundary(grid: &Grid, j: int)
    requires
        traceable(grid),
        0 <= j < grid_segments(grid).len(),
    ensures
        exists|i: int|
            0 <= i < contours_of(grid).len() && (#[trigger] contours_of(grid)[i]).contains(
                grid_segments(grid)[j].start,
            ),
        exists|i: int|
            0 <= i < contours_of(grid).len() && (#[trigger] contours_of(grid)[i]).contains(
                grid_segments(grid)[j].end,
            ),
{
    broadcast use vstd::seq_lib::group_to_multiset_ensures;

    let segments = grid_segments(grid);
    let found = chain(segments);
    let starts = endpoints(segments);
    let sorted = contours_of(grid);
    lemma_grid_is_regular(grid);
    assert forall|k: int| 0 <= k < starts.len() implies neighbours(segments, #[trigger] starts[k]).len()
        == 2 by {
        lemma_endpoints_have_neighbours(segments, k);
    }
    lemma_trace_covers(segments, starts, Set::empty());
    lemma_longest_first(found);
    assert(starts[2 * j] == segments[j].start);
    assert(starts[2 * j + 1] == segments[j].end);
    let a = choose|a: int| 0 <= a < found.len() && (#[trigger] found[a]).contains(starts[2 * j]);
    assert(found.contains(found[a]));
    assert(sorted.to_multiset().count(found[a]) > 0);
    assert(sorted.contains(found[a]));
    let at = choose|i: int| 0 <= i < sorted.len() && sorted[i] == found[a];
    assert(sorted[at].contains(segments[j].start));
    let b = choose|b: int| 0 <= b < found.len() && (#[trigger] found[b]).contains(starts[2 * j + 1]);
    assert(found.contains(found[b]));
    assert(sorted.to_multiset().count(found[b]) > 0);
    assert(sorted.contains(found[b]));
    let bt = choose|i: int| 0 <= i < sorted.len() && sorted[i] == found[b];
    assert(sorted[bt].contains(segments[j].end));
}

/// No two contours of a grid have a point in common.
pub proof fn lemma_contours_are_apart(grid: &Grid, i: int, j: int)
    requires
        traceable(grid),
        0 <= i < contours_of(grid).len(),
        0 <= j < contours_of(grid).len(),
        i != j,
    ensures
        apart(contours_of(grid)[i], contours_of(grid)[j]),
{
    broadcast use vstd::seq_lib::group_to_multiset_ensures;

    let segments = grid_segments(grid);
    let found = chain(segments);
    let starts = endpoints(segments);
    let sorted = contours_of(grid);
    lemma_grid_is_regular(grid);
    assert forall|k: int| 0 <= k < starts.len() implies neighbours(segments, #[trigger] starts[k]).len()
        == 2 by {
        lemma_endpoints_have_neighbours(segments, k);
    }
    lemma_trace_covers(segments, starts, Set::empty());
    lemma_longest_first(found);
    // Contours without a common point are different contours.
    assert forall|a: int, b: int| 0 <= a < found.len() && 0 <= b < found.len() && a != b implies found[a]
        != found[b] by {
        lemma_trace_closes(segments, starts, Set::empty(), a);
        if a < b {
            assert(apart(found[a], found[b]));
        } else {
            assert(apart(found[b], found[a]));
        }
        assert(found[a][0] == found[a][0]);
        if found[a] == found[b] {
            assert(found[a][0] != found[b][0]);
        }
    }
    found.lemma_multiset_has_no_duplicates();
    sorted.lemma_multiset_has_no_duplicates_conv();
    assert(sorted[i] != sorted[j]);
    lemma_longest_first_members(found, i);
    lemma_longest_first_members(found, j);
    let a = choose|a: int| 0 <= a < found.len() && found[a] == sorted[i];
    let b = choose|b: int| 0 <= b < found.len() && found[b] == sorted[j];
    assert(a != b);
    if a < b {
        assert(apart(found[a], found[b]));
    } else {
        assert(apart(found[b], found[a]));
        assert forall|x: int, y: int|
            0 <= x < sorted[i].len() && 0 <= y < sorted[j].len() implies #[trigger] sorted[i][x]
            != #[trigger] sorted[j][y] by {
            assert(found[b][y] != found[a][x]);
        }
    }
}

} // verus!
