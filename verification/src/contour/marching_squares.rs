//! Marching squares: every 2x2 neighbourhood of pixels contributes the
//! boundary segments that cross it, and the segments are then chained into
//! closed contours.

use crate::contour::by_length::{
    falls_in_length, lemma_longest_first, lemma_longest_first_members, longest_first,
    sort_longest_first,
};
use crate::contour::chain::{
    chain, chain_segments, endpoints, follows_segments, lemma_chain_of_nothing,
    lemma_trace_keeps_polygons, lemma_traced_contours_are_paths,
};
use crate::contour::closed::is_closed;
use crate::contour::regular::lemma_contours_are_closed;
use crate::contour::{grid_point, polygons_of, GridPoint, Segment};
use crate::grid::Grid;
use vstd::prelude::*;

verus! {

/// One side of a cell.
#[derive(Clone, Copy, Debug, PartialEq, Eq, Structural)]
pub enum Edge {
    Top,
    Right,
    Bottom,
    Left,
}

/// Largest grid width and height whose doubled boundary coordinates fit the
/// point type.
pub const MAX_TRACE_DIMENSION: usize = 0x3FFF_FFFE;

/// Table entry of a configuration that has no such segment.
pub const NO_SEGMENT: u8 = 16;

// A segment is stored as `4 * from + to`, with the edges numbered
// Top = 0, Right = 1, Bottom = 2, Left = 3.
pub const TOP_RIGHT: u8 = 1;

pub const TOP_BOTTOM: u8 = 2;

pub const TOP_LEFT: u8 = 3;

pub const RIGHT_TOP: u8 = 4;

pub const RIGHT_BOTTOM: u8 = 6;

pub const RIGHT_LEFT: u8 = 7;

pub const BOTTOM_TOP: u8 = 8;

pub const BOTTOM_RIGHT: u8 = 9;

pub const BOTTOM_LEFT: u8 = 11;

pub const LEFT_TOP: u8 = 12;

pub const LEFT_RIGHT: u8 = 13;

pub const LEFT_BOTTOM: u8 = 14;

/// First segment of each corner configuration. The configuration packs the
/// four corners of a cell as `8 * top_left + 4 * top_right + 2 * bottom_right
/// + bottom_left`.
pub const FIRST_SEGMENT: [u8; 16] = [
    NO_SEGMENT,
    LEFT_BOTTOM,
    BOTTOM_RIGHT,
    LEFT_RIGHT,
    RIGHT_TOP,
    LEFT_TOP,
    BOTTOM_TOP,
    LEFT_TOP,
    TOP_LEFT,
    TOP_BOTTOM,
    TOP_RIGHT,
    TOP_RIGHT,
    RIGHT_LEFT,
    RIGHT_BOTTOM,
    BOTTOM_LEFT,
    NO_SEGMENT,
];

/// Second segment of each corner configuration. Only the two configurations
/// with opposite corners solid have one: they get two separate diagonals, one
/// round each empty corner.
pub const SECOND_SEGMENT: [u8; 16] = [
    NO_SEGMENT,
    NO_SEGMENT,
    NO_SEGMENT,
    NO_SEGMENT,
    NO_SEGMENT,
    BOTTOM_RIGHT,
    NO_SEGMENT,
    NO_SEGMENT,
    NO_SEGMENT,
    NO_SEGMENT,
    LEFT_BOTTOM,
    NO_SEGMENT,
    NO_SEGMENT,
    NO_SEGMENT,
    NO_SEGMENT,
    NO_SEGMENT,
];

/// The edge with the given number.
pub open spec fn edge_of(index: int) -> Edge {
    if index == 0 {
        Edge::Top
    } else if index == 1 {
        Edge::Right
    } else if index == 2 {
        Edge::Bottom
    } else {
        Edge::Left
    }
}

/// The edge pair that a table entry stands for.
pub open spec fn edges_of_code(code: int) -> (Edge, Edge) {
    (edge_of(code / 4), edge_of(code % 4))
}

/// The edge pairs of a corner configuration, in table order.
pub open spec fn config_edges(config: int) -> Seq<(Edge, Edge)> {
    if !(0 <= config < 16) || FIRST_SEGMENT[config] == NO_SEGMENT {
        Seq::empty()
    } else if SECOND_SEGMENT[config] == NO_SEGMENT {
        seq![edges_of_code(FIRST_SEGMENT[config] as int)]
    } else {
        seq![
            edges_of_code(FIRST_SEGMENT[config] as int),
            edges_of_code(SECOND_SEGMENT[config] as int),
        ]
    }
}

/// The midpoint of one edge of the cell whose top-left corner is the pixel
/// `(cx, cy)`, at twice its true coordinates.
pub open spec fn edge_point(cx: int, cy: int, edge: Edge) -> GridPoint {
    match edge {
        Edge::Top => grid_point(2 * cx + 1, 2 * cy),
        Edge::Right => grid_point(2 * cx + 2, 2 * cy + 1),
        Edge::Bottom => grid_point(2 * cx + 1, 2 * cy + 2),
        Edge::Left => grid_point(2 * cx, 2 * cy + 1),
    }
}

/// The segment that joins two edges of the cell at `(cx, cy)`.
pub open spec fn edge_segment(cx: int, cy: int, edges: (Edge, Edge)) -> Segment {
    Segment { start: edge_point(cx, cy, edges.0), end: edge_point(cx, cy, edges.1) }
}

/// 1 for a solid pixel, 0 for an empty one.
pub open spec fn occupancy(grid: &Grid, x: int, y: int) -> int {
    if grid.solid(x, y) {
        1
    } else {
        0
    }
}

/// The corner configuration of the cell whose top-left corner is the pixel
/// `(cx, cy)`. Corners outside the grid count as empty.
pub open spec fn cell_config(grid: &Grid, cx: int, cy: int) -> int {
    8 * occupancy(grid, cx, cy) + 4 * occupancy(grid, cx + 1, cy) + 2 * occupancy(
        grid,
        cx + 1,
        cy + 1,
    ) + occupancy(grid, cx, cy + 1)
}

/// The boundary segments inside one cell.
pub open spec fn cell_segments(grid: &Grid, cx: int, cy: int) -> Seq<Segment> {
    let edges = config_edges(cell_config(grid, cx, cy));
    Seq::new(edges.len(), |i: int| edge_segment(cx, cy, edges[i]))
}

/// The segments of the cells `(-1, cy)` up to, and without, `(end, cy)`.
pub open spec fn row_segments(grid: &Grid, cy: int, end: int) -> Seq<Segment>
    decreases end + 1,
{
    if end <= -1 {
        Seq::empty()
    } else {
        row_segments(grid, cy, end - 1) + cell_segments(grid, end - 1, cy)
    }
}

/// The segments of the cell rows `-1` up to, and without, `end`. A row runs
/// from the cell left of the grid to the cell at its last column.
pub open spec fn rows_segments(grid: &Grid, end: int) -> Seq<Segment>
    decreases end + 1,
{
    if end <= -1 {
        Seq::empty()
    } else {
        rows_segments(grid, end - 1) + row_segments(grid, end - 1, grid.spec_width() as int)
    }
}

/// All boundary segments of a grid: one pass over the cells from `(-1, -1)`
/// through `(width - 1, height - 1)`, row by row.
pub open spec fn grid_segments(grid: &Grid) -> Seq<Segment> {
    rows_segments(grid, grid.spec_height() as int)
}

/// Whether the doubled boundary coordinates of the grid fit the point type.
pub open spec fn traceable(grid: &Grid) -> bool {
    grid.spec_width() <= MAX_TRACE_DIMENSION && grid.spec_height() <= MAX_TRACE_DIMENSION
}

/// Tells whether `grid` is small enough to be traced.
pub fn is_traceable(grid: &Grid) -> (ok: bool)
    ensures
        ok == traceable(grid),
{
    grid.width() <= MAX_TRACE_DIMENSION && grid.height() <= MAX_TRACE_DIMENSION
}

impl Edge {
    /// The edge with the given number; numbers past 2 give `Left`.
    pub fn from_index(index: u8) -> (edge: Edge)
        ensures
            edge == edge_of(index as int),
    {
        if index == 0 {
            Edge::Top
        } else if index == 1 {
            Edge::Right
        } else if index == 2 {
            Edge::Bottom
        } else {
            Edge::Left
        }
    }
}

/// The midpoint of one edge of the cell at `(cx, cy)`, at twice its true
/// coordinates.
pub fn edge_to_point(cx: i32, cy: i32, edge: Edge) -> (point: GridPoint)
    requires
        -1 <= cx <= MAX_TRACE_DIMENSION,
        -1 <= cy <= MAX_TRACE_DIMENSION,
    ensures
        point == edge_point(cx as int, cy as int, edge),
{
    match edge {
        Edge::Top => GridPoint { x: cx * 2 + 1, y: cy * 2 },
        Edge::Right => GridPoint { x: cx * 2 + 2, y: cy * 2 + 1 },
        Edge::Bottom => GridPoint { x: cx * 2 + 1, y: cy * 2 + 2 },
        Edge::Left => GridPoint { x: cx * 2, y: cy * 2 + 1 },
    }
}

/// The segment of the cell at `(cx, cy)` that a table entry stands for.
fn segment_of_code(cx: i32, cy: i32, code: u8) -> (segment: Segment)
    requires
        -1 <= cx <= MAX_TRACE_DIMENSION,
        -1 <= cy <= MAX_TRACE_DIMENSION,
    ensures
        segment == edge_segment(cx as int, cy as int, edges_of_code(code as int)),
{
    let from = Edge::from_index(code / 4);
    let to = Edge::from_index(code % 4);
    Segment { start: edge_to_point(cx, cy, from), end: edge_to_point(cx, cy, to) }
}

/// All boundary segments of a grid, cell by cell.
pub fn generate_segments(grid: &Grid) -> (segments: Vec<Segment>)
    requires
        traceable(grid),
    ensures
        segments@ == grid_segments(grid),
{
    let mut segments: Vec<Segment> = Vec::new();
    let width: i32 = grid.width() as i32;
    let height: i32 = grid.height() as i32;
    let mut cy: i32 = -1;
    while cy < height
        invariant
            -1 <= cy <= height,
            width == grid.spec_width(),
            height == grid.spec_height(),
            traceable(grid),
            segments@ == rows_segments(grid, cy as int),
        decreases height - cy,
    {
        let mut cx: i32 = -1;
        while cx < width
            invariant
                -1 <= cx <= width,
                -1 <= cy < height,
                width == grid.spec_width(),
                height == grid.spec_height(),
                traceable(grid),
                segments@ == rows_segments(grid, cy as int) + row_segments(
                    grid,
                    cy as int,
                    cx as int,
                ),
            decreases width - cx,
        {
            let top_left: usize = if grid.is_solid(cx, cy) { 8 } else { 0 };
            let top_right: usize = if grid.is_solid(cx + 1, cy) { 4 } else { 0 };
            let bottom_right: usize = if grid.is_solid(cx + 1, cy + 1) { 2 } else { 0 };
            let bottom_left: usize = if grid.is_solid(cx, cy + 1) { 1 } else { 0 };
            let config: usize = top_left + top_right + bottom_right + bottom_left;
            assert(config == cell_config(grid, cx as int, cy as int));
            let ghost before = segments@;
            let ghost cell = cell_segments(grid, cx as int, cy as int);
            let first: u8 = FIRST_SEGMENT[config];
            if first != NO_SEGMENT {
                segments.push(segment_of_code(cx, cy, first));
                let second: u8 = SECOND_SEGMENT[config];
                if second != NO_SEGMENT {
                    segments.push(segment_of_code(cx, cy, second));
                }
            }
            assert(segments@ =~= before + cell);
            cx += 1;
        }
        cy += 1;
    }
    segments
}

/// The contours of a grid: its boundary segments chained into polygons, the
/// longest polygon first.
pub open spec fn contours_of(grid: &Grid) -> Seq<Seq<GridPoint>> {
    longest_first(chain(grid_segments(grid)))
}

/// A grid without a solid pixel has no boundary segment and no contour.
pub proof fn lemma_blank_grid_has_no_contours(grid: &Grid)
    requires
        grid.is_blank(),
    ensures
        grid_segments(grid) == Seq::<Segment>::empty(),
        contours_of(grid) == Seq::<Seq<GridPoint>>::empty(),
{
    let width = grid.spec_width() as int;
    let height = grid.spec_height() as int;
    assert forall|cy: int| -1 <= cy < height implies #[trigger] row_segments(grid, cy, width)
        == Seq::<Segment>::empty() by {
        assert forall|cx: int| -1 <= cx < width implies #[trigger] cell_config(grid, cx, cy) == 0
            || cell_config(grid, cx, cy) == 15 by {
            assert(!grid.solid(cx, cy) && !grid.solid(cx + 1, cy) && !grid.solid(cx + 1, cy + 1)
                && !grid.solid(cx, cy + 1));
        }
        lemma_row_skips_blank_cells(grid, cy, -1, width);
    }
    lemma_rows_skip_blank_rows(grid, -1, height);
    lemma_chain_of_nothing();
    lemma_longest_first(Seq::empty());
    assert(contours_of(grid) =~= Seq::<Seq<GridPoint>>::empty());
}

/// Every contour of a grid has at least three points, and none is followed
/// by a longer one.
pub proof fn lemma_contours_are_ordered_polygons(grid: &Grid)
    ensures
        falls_in_length(contours_of(grid)),
        forall|i: int|
            0 <= i < contours_of(grid).len() ==> (#[trigger] contours_of(grid)[i]).len() >= 3,
{
    let segments = grid_segments(grid);
    let found = chain(segments);
    lemma_longest_first(found);
    lemma_trace_keeps_polygons(segments, endpoints(segments), Set::empty());
    assert forall|i: int| 0 <= i < contours_of(grid).len() implies (#[trigger] contours_of(
        grid,
    )[i]).len() >= 3 by {
        lemma_longest_first_members(found, i);
        let at = choose|k: int| 0 <= k < found.len() && found[k] == contours_of(grid)[i];
        assert(found[at].len() >= 3);
    }
}

/// Traces the boundaries of the solid regions of `grid`.
///
/// Each contour is a closed loop of boundary segments that passes no point
/// twice; its points are at twice their true grid coordinates. The longest
/// contour comes first.
pub fn calculate(grid: &Grid) -> (contours: Vec<Vec<GridPoint>>)
    requires
        traceable(grid),
    ensures
        polygons_of(contours@) == contours_of(grid),
        falls_in_length(polygons_of(contours@)),
        forall|i: int|
            0 <= i < contours@.len() ==> is_closed(grid_segments(grid), (#[trigger] contours@[i])@)
                && follows_segments(grid_segments(grid), contours@[i]@)
                && contours@[i]@.no_duplicates(),
        grid.is_blank() ==> contours@.len() == 0,
{
    let segments = generate_segments(grid);
    let found = chain_segments(&segments);
    let contours = sort_longest_first(found);
    proof {
        lemma_contours_are_ordered_polygons(grid);
        if grid.is_blank() {
            lemma_blank_grid_has_no_contours(grid);
        }
        assert forall|i: int| 0 <= i < contours@.len() implies is_closed(
            grid_segments(grid),
            (#[trigger] contours@[i])@,
        ) && follows_segments(grid_segments(grid), contours@[i]@)
            && contours@[i]@.no_duplicates() by {
            assert(polygons_of(contours@)[i] == contours@[i]@);
            lemma_contours_are_closed(grid, i);
            lemma_contours_are_paths(grid, i);
        }
    }
    contours
}

/// Cells whose corners are all empty or all solid add nothing to a row.
pub proof fn lemma_row_skips_blank_cells(grid: &Grid, cy: int, from: int, to: int)
    requires
        -1 <= from <= to,
        forall|cx: int|
            from <= cx < to ==> #[trigger] cell_config(grid, cx, cy) == 0 || cell_config(
                grid,
                cx,
                cy,
            ) == 15,
    ensures
        row_segments(grid, cy, to) == row_segments(grid, cy, from),
    decreases to - from,
{
    if from < to {
        lemma_row_skips_blank_cells(grid, cy, from, to - 1);
        assert(cell_config(grid, to - 1, cy) == 0 || cell_config(grid, to - 1, cy) == 15);
        assert(cell_segments(grid, to - 1, cy) =~= Seq::<Segment>::empty());
        assert(row_segments(grid, cy, to) =~= row_segments(grid, cy, to - 1));
    }
}

/// Rows without a segment add nothing to the rows before them.
pub proof fn lemma_rows_skip_blank_rows(grid: &Grid, from: int, to: int)
    requires
        -1 <= from <= to,
        forall|cy: int|
            from <= cy < to ==> #[trigger] row_segments(grid, cy, grid.spec_width() as int)
                == Seq::<Segment>::empty(),
    ensures
        rows_segments(grid, to) == rows_segments(grid, from),
    decreases to - from,
{
    if from < to {
        lemma_rows_skip_blank_rows(grid, from, to - 1);
        assert(row_segments(grid, to - 1, grid.spec_width() as int) == Seq::<Segment>::empty());
        assert(rows_segments(grid, to) =~= rows_segments(grid, to - 1));
    }
}

/// Every contour of a grid is a path along the boundary segments of the
/// grid, from point to point, that passes no point twice.
pub proof fn lemma_contours_are_paths(grid: &Grid, i: int)
    requires
        0 <= i < contours_of(grid).len(),
    ensures
        follows_segments(grid_segments(grid), contours_of(grid)[i]),
        contours_of(grid)[i].no_duplicates(),
{
    let segments = grid_segments(grid);
    let found = chain(segments);
    lemma_longest_first_members(found, i);
    let at = choose|k: int| 0 <= k < found.len() && found[k] == contours_of(grid)[i];
    lemma_traced_contours_are_paths(segments, endpoints(segments), Set::empty(), at);
}

} // verus!
