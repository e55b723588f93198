//! The contour of a filled rectangle of pixels.
//!
//! A grid whose solid pixels fill one rectangle has one contour: the loop
//! through the midpoints of the outer sides of the pixels on the border of
//! the rectangle. This module names that loop and proves that tracing finds
//! it.

use crate::contour::by_length::lemma_longest_first_of_one;
use crate::contour::chain::{is_loop, lemma_chain_of_loop, loop_edge};
use crate::contour::marching_squares::{
    cell_config, cell_segments, contours_of, grid_segments, lemma_row_skips_blank_cells,
    lemma_rows_skip_blank_rows, row_segments, rows_segments, traceable, MAX_TRACE_DIMENSION,
};
use crate::contour::{grid_point, GridPoint, Segment};
use crate::grid::Grid;
use vstd::arithmetic::div_mod::{lemma_mod_self_0, lemma_small_mod};
use vstd::prelude::*;

verus! {

/// A rectangle of pixels: `w` columns from `x0` on, `h` rows from `y0` on.
pub struct PixelRect {
    pub x0: int,
    pub y0: int,
    pub w: int,
    pub h: int,
}

impl PixelRect {
    /// Whether the rectangle has pixels and lies where boundary points can
    /// be told apart.
    pub open spec fn valid(&self) -> bool {
        &&& self.w >= 1
        &&& self.h >= 1
        &&& self.x0 >= 0
        &&& self.y0 >= 0
        &&& self.x0 + self.w <= MAX_TRACE_DIMENSION
        &&& self.y0 + self.h <= MAX_TRACE_DIMENSION
    }

    /// Whether the pixel `(x, y)` belongs to the rectangle.
    pub open spec fn holds(&self, x: int, y: int) -> bool {
        self.x0 <= x < self.x0 + self.w && self.y0 <= y < self.y0 + self.h
    }

    /// The number of boundary points: one for every outer side of a pixel.
    pub open spec fn border(&self) -> int {
        2 * self.w + 2 * self.h
    }

    /// The boundary point numbered `i`, at twice its true coordinates.
    ///
    /// The loop starts at the left side of the top-left pixel. It runs
    /// along the top to the right, down the right side, back along the
    /// bottom, and up the left side.
    pub open spec fn outline_point(&self, i: int) -> GridPoint {
        let x = 2 * self.x0;
        let y = 2 * self.y0;
        let w = self.w;
        let h = self.h;
        if i <= 0 {
            grid_point(x - 1, y)
        } else if i <= w {
            grid_point(x + 2 * (i - 1), y - 1)
        } else if i <= w + h {
            grid_point(x + 2 * w - 1, y + 2 * (i - w - 1))
        } else if i <= 2 * w + h {
            grid_point(x + 2 * w - 2 - 2 * (i - w - h - 1), y + 2 * h - 1)
        } else {
            grid_point(x - 1, y + 2 * h - 2 - 2 * (i - 2 * w - h - 1))
        }
    }

    /// The contour of the rectangle.
    pub open spec fn outline(&self) -> Seq<GridPoint> {
        Seq::new(self.border() as nat, |i: int| self.outline_point(i))
    }

    /// The point of the loop at which the segment listed at `j` starts.
    /// Segments are listed as the scan of the grid meets them: the row of
    /// cells above the rectangle, then the two sides row by row, then the
    /// row of cells at its bottom.
    pub open spec fn edge_of(&self, j: int) -> int {
        let w = self.w;
        let h = self.h;
        if j <= w {
            // Along the top, in the direction of the loop.
            j
        } else if j < w + 2 * h - 1 {
            // The sides: left and right take turns.
            let r = (j - w - 1) / 2;
            if (j - w - 1) % 2 == 0 {
                2 * w + 2 * h - 1 - r
            } else {
                w + 1 + r
            }
        } else {
            // Along the bottom, against the direction of the loop.
            3 * w + 3 * h - 1 - j
        }
    }

    /// The place in the listing of the segment that starts at the point
    /// numbered `i` of the loop.
    pub open spec fn listed_at(&self, i: int) -> int {
        let w = self.w;
        let h = self.h;
        if i <= w {
            i
        } else if i < w + h {
            w + 2 + 2 * (i - w - 1)
        } else if i <= 2 * w + h {
            3 * w + 3 * h - 1 - i
        } else {
            w + 1 + 2 * (2 * w + 2 * h - 1 - i)
        }
    }

    /// The boundary segments of the rectangle as the scan lists them.
    pub open spec fn segments(&self) -> Seq<Segment> {
        Seq::new(self.border() as nat, |j: int| loop_edge(self.outline(), self.edge_of(j)))
    }
}

proof fn lemma_wrap(i: int, n: int)
    requires
        0 <= i < n,
    ensures
        0 <= (i + 1) % n < n,
        i + 1 < n ==> (i + 1) % n == i + 1,
        i + 1 == n ==> (i + 1) % n == 0,
{
    if i + 1 < n {
        lemma_small_mod((i + 1) as nat, n as nat);
    } else {
        lemma_mod_self_0(n);
    }
}

/// The boundary points of a rectangle are all different.
proof fn lemma_outline_points_differ(rect: PixelRect, i: int, j: int)
    requires
        rect.valid(),
        0 <= i < rect.border(),
        0 <= j < rect.border(),
        i != j,
    ensures
        rect.outline_point(i) != rect.outline_point(j),
{
}

/// The boundary segments of a rectangle are the edges of its outline.
pub proof fn lemma_rectangle_is_loop(rect: PixelRect)
    requires
        rect.valid(),
    ensures
        is_loop(
            rect.segments(),
            rect.outline(),
            Seq::new(rect.border() as nat, |j: int| rect.edge_of(j)),
            Seq::new(rect.border() as nat, |i: int| rect.listed_at(i)),
        ),
{
    let n = rect.border();
    let cycle = rect.outline();
    let segments = rect.segments();
    let edge_of = Seq::new(n as nat, |j: int| rect.edge_of(j));
    let listed_at = Seq::new(n as nat, |i: int| rect.listed_at(i));
    assert forall|i: int, j: int| 0 <= i < cycle.len() && 0 <= j < cycle.len() && i != j implies cycle[i]
        != cycle[j] by {
        lemma_outline_points_differ(rect, i, j);
    }
    assert forall|j: int| 0 <= j < segments.len() implies 0 <= #[trigger] edge_of[j] < cycle.len()
        && segments[j] == loop_edge(cycle, edge_of[j]) by {}
    assert forall|i: int| 0 <= i < cycle.len() implies 0 <= #[trigger] listed_at[i]
        < segments.len() && segments[listed_at[i]] == loop_edge(cycle, i) by {
        let j = rect.listed_at(i);
        assert(rect.edge_of(j) == i);
    }
}

/// Whether the solid pixels of the grid are exactly those of the rectangle.
pub open spec fn is_filled_rectangle(grid: &Grid, rect: PixelRect) -> bool {
    &&& rect.w >= 1
    &&& rect.h >= 1
    &&& forall|x: int, y: int| #[trigger] grid.solid(x, y) <==> rect.holds(x, y)
}

/// The boundary segment listed at `j`, by its coordinates.
spec fn listed_segment(rect: PixelRect, j: int) -> Segment {
    let x = 2 * rect.x0;
    let y = 2 * rect.y0;
    let w = rect.w;
    let h = rect.h;
    if j <= 0 {
        Segment { start: grid_point(x - 1, y), end: grid_point(x, y - 1) }
    } else if j < w {
        Segment { start: grid_point(x + 2 * (j - 1), y - 1), end: grid_point(x + 2 * j, y - 1) }
    } else if j == w {
        Segment { start: grid_point(x + 2 * w - 2, y - 1), end: grid_point(x + 2 * w - 1, y) }
    } else if j < w + 2 * h - 1 {
        let r = (j - w - 1) / 2;
        if (j - w - 1) % 2 == 0 {
            Segment { start: grid_point(x - 1, y + 2 * r + 2), end: grid_point(x - 1, y + 2 * r) }
        } else {
            Segment {
                start: grid_point(x + 2 * w - 1, y + 2 * r),
                end: grid_point(x + 2 * w - 1, y + 2 * r + 2),
            }
        }
    } else {
        let t = j - (w + 2 * h - 1);
        if t <= 0 {
            Segment {
                start: grid_point(x, y + 2 * h - 1),
                end: grid_point(x - 1, y + 2 * h - 2),
            }
        } else if t < w {
            Segment {
                start: grid_point(x + 2 * t, y + 2 * h - 1),
                end: grid_point(x + 2 * t - 2, y + 2 * h - 1),
            }
        } else {
            Segment {
                start: grid_point(x + 2 * w - 1, y + 2 * h - 2),
                end: grid_point(x + 2 * w - 2, y + 2 * h - 1),
            }
        }
    }
}

proof fn lemma_listed_segment(rect: PixelRect, j: int)
    requires
        rect.valid(),
        0 <= j < rect.border(),
    ensures
        rect.segments()[j] == listed_segment(rect, j),
{
    let n = rect.border();
    let m = rect.edge_of(j);
    lemma_wrap(m, n);
    assert(rect.outline()[m] == rect.outline_point(m));
    assert(rect.outline()[(m + 1) % n] == rect.outline_point((m + 1) % n));
}

/// The corners of the cell at `(cx, cy)` that are solid, as a configuration.
proof fn lemma_rectangle_cell(grid: &Grid, rect: PixelRect, cx: int, cy: int)
    requires
        is_filled_rectangle(grid, rect),
    ensures
        cell_config(grid, cx, cy) == (if rect.holds(cx, cy) {
            8int
        } else {
            0int
        }) + (if rect.holds(cx + 1, cy) {
            4int
        } else {
            0int
        }) + (if rect.holds(cx + 1, cy + 1) {
            2int
        } else {
            0int
        }) + (if rect.holds(cx, cy + 1) {
            1int
        } else {
            0int
        }),
{
    assert(grid.solid(cx, cy) <==> rect.holds(cx, cy));
    assert(grid.solid(cx + 1, cy) <==> rect.holds(cx + 1, cy));
    assert(grid.solid(cx + 1, cy + 1) <==> rect.holds(cx + 1, cy + 1));
    assert(grid.solid(cx, cy + 1) <==> rect.holds(cx, cy + 1));
}

/// A row of cells away from the rectangle holds no segment.
proof fn lemma_row_away(grid: &Grid, rect: PixelRect, cy: int)
    requires
        is_filled_rectangle(grid, rect),
        cy < rect.y0 - 1 || cy >= rect.y0 + rect.h,
        grid.spec_width() >= 0,
    ensures
        row_segments(grid, cy, grid.spec_width() as int) == Seq::<Segment>::empty(),
{
    let width = grid.spec_width() as int;
    assert forall|cx: int| -1 <= cx < width implies #[trigger] cell_config(grid, cx, cy) == 0
        || cell_config(grid, cx, cy) == 15 by {
        lemma_rectangle_cell(grid, rect, cx, cy);
    }
    lemma_row_skips_blank_cells(grid, cy, -1, width);
}

/// The cells of a row before the rectangle, and those after it, hold no
/// segment.
proof fn lemma_row_ends(grid: &Grid, rect: PixelRect, cy: int)
    requires
        is_filled_rectangle(grid, rect),
        rect.x0 >= 0,
        rect.x0 + rect.w <= grid.spec_width(),
    ensures
        row_segments(grid, cy, rect.x0 - 1) == Seq::<Segment>::empty(),
        row_segments(grid, cy, grid.spec_width() as int) == row_segments(
            grid,
            cy,
            rect.x0 + rect.w,
        ),
{
    let width = grid.spec_width() as int;
    assert forall|cx: int| -1 <= cx < rect.x0 - 1 implies #[trigger] cell_config(grid, cx, cy)
        == 0 || cell_config(grid, cx, cy) == 15 by {
        lemma_rectangle_cell(grid, rect, cx, cy);
    }
    lemma_row_skips_blank_cells(grid, cy, -1, rect.x0 - 1);
    assert forall|cx: int| rect.x0 + rect.w <= cx < width implies #[trigger] cell_config(
        grid,
        cx,
        cy,
    ) == 0 || cell_config(grid, cx, cy) == 15 by {
        lemma_rectangle_cell(grid, rect, cx, cy);
    }
    lemma_row_skips_blank_cells(grid, cy, rect.x0 + rect.w, width);
}

/// The row of cells above the rectangle, as far as it has come.
proof fn lemma_top_row(grid: &Grid, rect: PixelRect, t: int)
    requires
        is_filled_rectangle(grid, rect),
        rect.valid(),
        rect.x0 + rect.w <= grid.spec_width(),
        0 <= t <= rect.w,
    ensures
        row_segments(grid, rect.y0 - 1, rect.x0 + t) == rect.segments().take(t + 1),
    decreases t,
{
    let cy = rect.y0 - 1;
    let cx = rect.x0 + t - 1;
    let all = rect.segments();
    lemma_rectangle_cell(grid, rect, cx, cy);
    lemma_listed_segment(rect, t);
    assert(cell_segments(grid, cx, cy) =~= seq![all[t]]);
    if t == 0 {
        lemma_row_ends(grid, rect, cy);
        assert(row_segments(grid, cy, rect.x0) =~= all.take(1));
    } else {
        lemma_top_row(grid, rect, t - 1);
        assert(all.take(t) + seq![all[t]] =~= all.take(t + 1));
    }
}

/// The row of cells at the bottom of the rectangle, as far as it has come.
proof fn lemma_bottom_row(grid: &Grid, rect: PixelRect, t: int)
    requires
        is_filled_rectangle(grid, rect),
        rect.valid(),
        rect.x0 + rect.w <= grid.spec_width(),
        0 <= t <= rect.w,
    ensures
        row_segments(grid, rect.y0 + rect.h - 1, rect.x0 + t) == rect.segments().subrange(
            rect.w + 2 * rect.h - 1,
            rect.w + 2 * rect.h + t,
        ),
    decreases t,
{
    let cy = rect.y0 + rect.h - 1;
    let cx = rect.x0 + t - 1;
    let all = rect.segments();
    let first = rect.w + 2 * rect.h - 1;
    lemma_rectangle_cell(grid, rect, cx, cy);
    lemma_listed_segment(rect, first + t);
    assert(cell_segments(grid, cx, cy) =~= seq![all[first + t]]);
    if t == 0 {
        lemma_row_ends(grid, rect, cy);
        assert(row_segments(grid, cy, rect.x0) =~= all.subrange(first, first + 1));
    } else {
        lemma_bottom_row(grid, rect, t - 1);
        assert(all.subrange(first, first + t) + seq![all[first + t]] =~= all.subrange(
            first,
            first + t + 1,
        ));
    }
}

/// A row of cells between the top and the bottom of the rectangle holds the
/// segment on its left side and the segment on its right side.
proof fn lemma_side_row(grid: &Grid, rect: PixelRect, r: int)
    requires
        is_filled_rectangle(grid, rect),
        rect.valid(),
        rect.x0 + rect.w <= grid.spec_width(),
        0 <= r < rect.h - 1,
    ensures
        row_segments(grid, rect.y0 + r, grid.spec_width() as int) == rect.segments().subrange(
            rect.w + 1 + 2 * r,
            rect.w + 3 + 2 * r,
        ),
{
    let cy = rect.y0 + r;
    let all = rect.segments();
    let left = rect.w + 1 + 2 * r;
    let inner_end = rect.x0 + rect.w - 1;
    lemma_row_ends(grid, rect, cy);
    lemma_rectangle_cell(grid, rect, rect.x0 - 1, cy);
    lemma_listed_segment(rect, left);
    assert(cell_segments(grid, rect.x0 - 1, cy) =~= seq![all[left]]);
    assert(row_segments(grid, cy, rect.x0) =~= seq![all[left]]);
    assert forall|cx: int| rect.x0 <= cx < inner_end implies #[trigger] cell_config(grid, cx, cy)
        == 0 || cell_config(grid, cx, cy) == 15 by {
        lemma_rectangle_cell(grid, rect, cx, cy);
    }
    lemma_row_skips_blank_cells(grid, cy, rect.x0, inner_end);
    lemma_rectangle_cell(grid, rect, inner_end, cy);
    lemma_listed_segment(rect, left + 1);
    assert(cell_segments(grid, inner_end, cy) =~= seq![all[left + 1]]);
    assert(row_segments(grid, cy, inner_end + 1) =~= seq![all[left], all[left + 1]]);
    assert(all.subrange(left, left + 2) =~= seq![all[left], all[left + 1]]);
}

/// The rows of cells down to the row `k` of the rectangle.
proof fn lemma_rows_down_to(grid: &Grid, rect: PixelRect, k: int)
    requires
        is_filled_rectangle(grid, rect),
        rect.valid(),
        rect.x0 + rect.w <= grid.spec_width(),
        0 <= k < rect.h,
    ensures
        rows_segments(grid, rect.y0 + k) == rect.segments().take(rect.w + 1 + 2 * k),
    decreases k,
{
    let all = rect.segments();
    if k == 0 {
        assert forall|cy: int| -1 <= cy < rect.y0 - 1 implies #[trigger] row_segments(
            grid,
            cy,
            grid.spec_width() as int,
        ) == Seq::<Segment>::empty() by {
            lemma_row_away(grid, rect, cy);
        }
        lemma_rows_skip_blank_rows(grid, -1, rect.y0 - 1);
        lemma_top_row(grid, rect, rect.w);
        lemma_row_ends(grid, rect, rect.y0 - 1);
        assert(rows_segments(grid, -1) =~= Seq::<Segment>::empty());
        assert(rows_segments(grid, rect.y0) =~= all.take(rect.w + 1));
    } else {
        lemma_rows_down_to(grid, rect, k - 1);
        lemma_side_row(grid, rect, k - 1);
        assert(all.take(rect.w + 1 + 2 * (k - 1)) + all.subrange(
            rect.w + 1 + 2 * (k - 1),
            rect.w + 3 + 2 * (k - 1),
        ) =~= all.take(rect.w + 1 + 2 * k));
    }
}

/// A grid whose solid pixels fill one rectangle has exactly the boundary
/// segments of that rectangle.
proof fn lemma_rectangle_segments(grid: &Grid, rect: PixelRect)
    requires
        is_filled_rectangle(grid, rect),
        rect.valid(),
        rect.x0 + rect.w <= grid.spec_width(),
        rect.y0 + rect.h <= grid.spec_height(),
    ensures
        grid_segments(grid) == rect.segments(),
{
    let all = rect.segments();
    let bottom = rect.y0 + rect.h - 1;
    let first = rect.w + 2 * rect.h - 1;
    lemma_rows_down_to(grid, rect, rect.h - 1);
    lemma_bottom_row(grid, rect, rect.w);
    lemma_row_ends(grid, rect, bottom);
    assert(rows_segments(grid, bottom + 1) =~= all.take(first) + all.subrange(
        first,
        first + rect.w + 1,
    ));
    assert(all.take(first) + all.subrange(first, first + rect.w + 1) =~= all);
    assert forall|cy: int| bottom + 1 <= cy < grid.spec_height() implies #[trigger] row_segments(
        grid,
        cy,
        grid.spec_width() as int,
    ) == Seq::<Segment>::empty() by {
        lemma_row_away(grid, rect, cy);
    }
    lemma_rows_skip_blank_rows(grid, bottom + 1, grid.spec_height() as int);
}

/// A grid whose solid pixels fill one rectangle has exactly one contour: the
/// loop through the midpoints of the outer sides of the pixels on the border
/// of the rectangle. There is no second contour, so no hole.
pub proof fn lemma_filled_rectangle_contour(grid: &Grid, rect: PixelRect)
    requires
        traceable(grid),
        is_filled_rectangle(grid, rect),
    ensures
        contours_of(grid) == seq![rect.outline()],
        rect.outline().len() == 2 * rect.w + 2 * rect.h,
{
    // The rectangle has pixels, and they are pixels of the grid.
    assert(rect.holds(rect.x0, rect.y0));
    assert(grid.solid(rect.x0, rect.y0));
    assert(rect.holds(rect.x0 + rect.w - 1, rect.y0 + rect.h - 1));
    assert(grid.solid(rect.x0 + rect.w - 1, rect.y0 + rect.h - 1));
    lemma_rectangle_segments(grid, rect);
    lemma_rectangle_is_loop(rect);
    lemma_chain_of_loop(
        rect.segments(),
        rect.outline(),
        Seq::new(rect.border() as nat, |j: int| rect.edge_of(j)),
        Seq::new(rect.border() as nat, |i: int| rect.listed_at(i)),
    );
    lemma_longest_first_of_one(rect.outline());
}

/// Whether `(x, y)` is the one solid pixel of the grid.
pub open spec fn only_solid_at(grid: &Grid, x: int, y: int) -> bool {
    forall|px: int, py: int| #[trigger] grid.solid(px, py) <==> (px == x && py == y)
}

/// The contour round the single pixel `(x, y)`: the midpoints of its four
/// sides, from the left one by way of the top one, at doubled coordinates.
pub open spec fn pixel_outline(x: int, y: int) -> Seq<GridPoint> {
    seq![
        grid_point(2 * x - 1, 2 * y),
        grid_point(2 * x, 2 * y - 1),
        grid_point(2 * x + 1, 2 * y),
        grid_point(2 * x, 2 * y + 1),
    ]
}

/// A grid with a single solid pixel has exactly one contour: the closed loop
/// through the midpoints of the four sides of that pixel. It is one pixel
/// wide and high, centred on the pixel, and holds no other point.
pub proof fn lemma_single_pixel_contour(grid: &Grid, x: int, y: int)
    requires
        traceable(grid),
        only_solid_at(grid, x, y),
    ensures
        contours_of(grid) == seq![pixel_outline(x, y)],
{
    let rect = PixelRect { x0: x, y0: y, w: 1, h: 1 };
    assert forall|px: int, py: int| #[trigger] grid.solid(px, py) <==> rect.holds(px, py) by {
        assert(grid.solid(px, py) <==> (px == x && py == y));
    }
    lemma_filled_rectangle_contour(grid, rect);
    assert(rect.outline() =~= pixel_outline(x, y));
}

} // verus!
