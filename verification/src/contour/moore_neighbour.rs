//! Moore-neighbour tracing: one walk along the boundary of the solid region
//! that holds the bottommost, leftmost solid pixel.
//!
//! The walk goes from pixel to pixel. At every pixel it looks at the eight
//! neighbours in turn, starting one past the direction it last noted, and
//! moves to the first that is solid and was not visited. It ends when it is
//! back at its start, when no neighbour is left, or at a fixed number of
//! points. Its points are pixel coordinates, not doubled.

use crate::contour::marching_squares::traceable;
use crate::contour::{grid_point, polygons_of, GridPoint};
use crate::grid::{before_from_bottom, first_bottom_left_solid_pixel, Grid};
use vstd::prelude::*;

verus! {

/// Number of neighbours of a pixel.
pub const DIRECTIONS: usize = 8;

/// Most points of a traced contour.
pub const MAX_CONTOUR_POINTS: usize = 1_000_000;

/// Step along x to each neighbour: west, north-west, north, north-east,
/// east, south-east, south, south-west.
pub const STEP_X: [i32; 8] = [-1, -1, 0, 1, 1, 1, 0, -1];

/// Step along y to each neighbour, where y grows downwards.
pub const STEP_Y: [i32; 8] = [0, -1, -1, -1, 0, 1, 1, 1];

/// The neighbour of `p` in the direction `dir`.
pub open spec fn neighbour(p: GridPoint, dir: int) -> GridPoint {
    grid_point(p.x + STEP_X[dir], p.y + STEP_Y[dir])
}

/// Whether the walk may move to `p`: it is a solid pixel that was not
/// visited.
pub open spec fn eligible(grid: &Grid, visited: Set<GridPoint>, p: GridPoint) -> bool {
    grid.solid(p.x as int, p.y as int) && !visited.contains(p)
}

/// The direction in which the walk moves on from `current`: the first, in
/// turn from one past `noted`, whose neighbour is eligible. `tried` counts
/// the directions already looked at.
pub open spec fn next_direction(
    grid: &Grid,
    visited: Set<GridPoint>,
    current: GridPoint,
    noted: int,
    tried: int,
) -> Option<int>
    decreases 8 - tried,
{
    if tried >= 8 {
        None
    } else {
        let dir = (noted + 1 + tried) % 8;
        if eligible(grid, visited, neighbour(current, dir)) {
            Some(dir)
        } else {
            next_direction(grid, visited, current, noted, tried + 1)
        }
    }
}

/// The points that the walk adds from `current` on, when it has `count`
/// points already. After a move in the direction `dir` the walk notes the
/// opposite direction plus eight.
pub open spec fn walk_on(
    grid: &Grid,
    start: GridPoint,
    visited: Set<GridPoint>,
    current: GridPoint,
    noted: int,
    count: nat,
) -> Seq<GridPoint>
    decreases MAX_CONTOUR_POINTS - count,
{
    if current == start || count >= MAX_CONTOUR_POINTS {
        Seq::empty()
    } else {
        match next_direction(grid, visited, current, noted, 0) {
            None => Seq::empty(),
            Some(dir) => {
                let next = neighbour(current, dir);
                seq![next] + walk_on(
                    grid,
                    start,
                    visited.insert(next),
                    next,
                    dir + 4,
                    count + 1,
                )
            },
        }
    }
}

/// The contour traced from `start`: the start, the first solid neighbour
/// in turn from the north-west, and what the walk adds from there. A start
/// without a solid neighbour is a contour of one point.
pub open spec fn traced_from(grid: &Grid, start: GridPoint) -> Seq<GridPoint> {
    match next_direction(grid, Set::empty(), start, 0, 0) {
        None => seq![start],
        Some(dir) => {
            let next = neighbour(start, dir);
            seq![start, next] + walk_on(grid, start, Set::empty().insert(next), next, dir, 2)
        },
    }
}

/// Whether `(x, y)` is the pixel at which tracing starts: the bottommost
/// solid pixel, leftmost in its row.
pub open spec fn is_start(grid: &Grid, x: int, y: int) -> bool {
    grid.solid(x, y) && forall|px: int, py: int| #[trigger]
        grid.solid(px, py) ==> !before_from_bottom(px, py, x, y)
}

/// Whether the flags of `marks` are set at exactly the pixels of `visited`.
spec fn marked(grid: &Grid, marks: &Grid, visited: Set<GridPoint>) -> bool {
    &&& marks.spec_width() == grid.spec_width()
    &&& marks.spec_height() == grid.spec_height()
    &&& forall|x: int, y: int| #[trigger]
        marks.solid(x, y) <==> (grid.in_bounds(x, y) && visited.contains(grid_point(x, y)))
}

/// Looks for the direction in which the walk moves on.
fn find_direction(
    grid: &Grid,
    marks: &Grid,
    current: GridPoint,
    noted: usize,
    Ghost(visited): Ghost<Set<GridPoint>>,
) -> (found: Option<usize>)
    requires
        traceable(grid),
        marked(grid, marks, visited),
        grid.in_bounds(current.x as int, current.y as int),
        noted < 16,
    ensures
        match found {
            Some(dir) => dir < 8 && next_direction(grid, visited, current, noted as int, 0)
                == Some(dir as int) && eligible(grid, visited, neighbour(current, dir as int)),
            None => next_direction(grid, visited, current, noted as int, 0) is None,
        },
{
    let mut tried: usize = 0;
    while tried < DIRECTIONS
        invariant
            tried <= 8,
            traceable(grid),
            marked(grid, marks, visited),
            grid.in_bounds(current.x as int, current.y as int),
            noted < 16,
            next_direction(grid, visited, current, noted as int, 0) == next_direction(
                grid,
                visited,
                current,
                noted as int,
                tried as int,
            ),
        decreases 8 - tried,
    {
        let dir: usize = (noted + 1 + tried) % DIRECTIONS;
        let x: i32 = current.x + STEP_X[dir];
        let y: i32 = current.y + STEP_Y[dir];
        assert(neighbour(current, dir as int) == (GridPoint { x, y }));
        if grid.is_solid(x, y) && !marks.is_solid(x, y) {
            assert(grid_point(x as int, y as int) == (GridPoint { x, y }));
            return Some(dir);
        }
        proof {
            if grid.solid(x as int, y as int) {
                assert(marks.solid(x as int, y as int));
                assert(grid_point(x as int, y as int) == (GridPoint { x, y }));
            }
        }
        tried += 1;
    }
    None
}

/// Marks one pixel as visited.
fn mark(grid: &Grid, marks: &mut Grid, p: GridPoint, Ghost(visited): Ghost<Set<GridPoint>>)
    requires
        traceable(grid),
        marked(grid, old(marks), visited),
        grid.in_bounds(p.x as int, p.y as int),
    ensures
        marked(grid, final(marks), visited.insert(p)),
{
    let ghost before = *marks;
    marks.set(p.x as usize, p.y as usize, true);
    proof {
        assert forall|x: int, y: int| #[trigger]
            marks.solid(x, y) <==> (grid.in_bounds(x, y) && visited.insert(p).contains(
                grid_point(x, y),
            )) by {
            assert(before.solid(x, y) <==> (grid.in_bounds(x, y) && visited.contains(
                grid_point(x, y),
            )));
            if grid.in_bounds(x, y) {
                if x == p.x && y == p.y {
                    assert(grid_point(x, y) == p);
                } else {
                    assert(grid_point(x, y) != p);
                    assert(marks.cell(x, y) == before.cell(x, y));
                }
            }
        }
    }
}

/// Traces the boundary of the solid region that holds the bottommost,
/// leftmost solid pixel.
///
/// A blank grid has no contour. Any other grid has one, which starts at
/// that pixel; its points are pixel coordinates.
pub fn calculate(grid: &Grid) -> (contours: Vec<Vec<GridPoint>>)
    requires
        traceable(grid),
    ensures
        grid.is_blank() <==> contours@.len() == 0,
        !grid.is_blank() ==> contours@.len() == 1,
        forall|x: int, y: int|
            is_start(grid, x, y) ==> polygons_of(contours@) == seq![
                #[trigger] traced_from(grid, grid_point(x, y)),
            ],
{
    let mut contours: Vec<Vec<GridPoint>> = Vec::new();
    let (sx, sy) = match first_bottom_left_solid_pixel(grid) {
        Some(pixel) => pixel,
        None => {
            assert forall|x: int, y: int| is_start(grid, x, y) implies polygons_of(contours@)
                == seq![#[trigger] traced_from(grid, grid_point(x, y))] by {
                assert(!grid.solid(x, y));
            }
            return contours;
        },
    };
    assert(is_start(grid, sx as int, sy as int));
    assert(grid.solid(sx as int, sy as int));
    let start = GridPoint { x: sx as i32, y: sy as i32 };
    assert(start == grid_point(sx as int, sy as int));
    let ghost whole = traced_from(grid, start);
    let mut marks = grid.blank_like();
    let ghost mut visited: Set<GridPoint> = Set::empty();
    assert(marked(grid, &marks, visited));
    let mut points: Vec<GridPoint> = Vec::new();
    points.push(start);
    let mut current = start;
    let mut noted: usize = 0;
    let mut done: bool = true;
    match find_direction(grid, &marks, current, noted, Ghost(visited)) {
        Some(dir) => {
            let next = GridPoint { x: current.x + STEP_X[dir], y: current.y + STEP_Y[dir] };
            assert(next == neighbour(current, dir as int));
            assert(grid.solid(next.x as int, next.y as int));
            mark(grid, &mut marks, next, Ghost(visited));
            proof {
                visited = visited.insert(next);
            }
            points.push(next);
            current = next;
            noted = dir;
            done = false;
            assert(points@ =~= seq![start, next]);
        },
        None => {
            assert(points@ =~= seq![start]);
        },
    }
    while !done && !(current.x == start.x && current.y == start.y) && points.len()
        < MAX_CONTOUR_POINTS
        invariant
            traceable(grid),
            marked(grid, &marks, visited),
            grid.in_bounds(current.x as int, current.y as int),
            noted < 16,
            whole == traced_from(grid, start),
            done ==> points@ == whole,
            !done ==> whole == points@ + walk_on(
                grid,
                start,
                visited,
                current,
                noted as int,
                points@.len(),
            ),
        decreases
                if done {
                    0
                } else {
                    MAX_CONTOUR_POINTS - points@.len() + 1
                },
    {
        match find_direction(grid, &marks, current, noted, Ghost(visited)) {
            Some(dir) => {
                let next = GridPoint { x: current.x + STEP_X[dir], y: current.y + STEP_Y[dir] };
                assert(next == neighbour(current, dir as int));
                assert(grid.solid(next.x as int, next.y as int));
                let ghost rest = walk_on(
                    grid,
                    start,
                    visited.insert(next),
                    next,
                    dir + 4,
                    points@.len() + 1,
                );
                let ghost before = points@;
                mark(grid, &mut marks, next, Ghost(visited));
                proof {
                    visited = visited.insert(next);
                }
                points.push(next);
                current = next;
                noted = dir + DIRECTIONS / 2;
                assert(points@ + rest =~= before + (seq![next] + rest));
            },
            None => {
                assert(whole =~= points@);
                done = true;
            },
        }
    }
    proof {
        if !done {
            assert(walk_on(grid, start, visited, current, noted as int, points@.len())
                =~= Seq::<GridPoint>::empty());
            assert(whole =~= points@);
        }
    }
    contours.push(points);
    proof {
        assert(polygons_of(contours@) =~= seq![whole]);
        assert forall|x: int, y: int| is_start(grid, x, y) implies polygons_of(contours@) == seq![
            #[trigger] traced_from(grid, grid_point(x, y)),
        ] by {
            // The start is the only pixel that no solid pixel comes before.
            assert(!before_from_bottom(x, y, sx as int, sy as int));
            assert(!before_from_bottom(sx as int, sy as int, x, y));
            assert(x == sx && y == sy);
        }
        assert(grid.solid(sx as int, sy as int));
    }
    contours
}

} // verus!
