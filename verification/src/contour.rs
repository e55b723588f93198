//! Contour extraction: closed boundary polygons of the solid regions of an
//! occupancy grid.
//!
//! Boundary points sit on the midpoints of cell edges, so half of their
//! coordinates are halves. They are kept at twice their true value, which
//! makes every coordinate an integer and lets points from neighbouring cells
//! be compared exactly.

pub mod by_length;
pub mod chain;
pub mod closed;
pub mod marching_squares;
pub mod moore_neighbour;
pub mod rectangle;
pub mod regular;

use vstd::prelude::*;

verus! {

/// A lattice point. Contour tracing stores boundary points at twice their
/// true grid coordinates.
#[derive(Clone, Copy, Debug, PartialEq, Eq, Structural, Hash)]
pub struct GridPoint {
    pub x: i32,
    pub y: i32,
}

/// A directed boundary segment between two lattice points.
#[derive(Clone, Copy, Debug, PartialEq, Eq, Structural, Hash)]
pub struct Segment {
    pub start: GridPoint,
    pub end: GridPoint,
}

/// The lattice point with the given coordinates.
pub open spec fn grid_point(x: int, y: int) -> GridPoint {
    GridPoint { x: x as i32, y: y as i32 }
}

/// The polygons held by a vector of point vectors.
pub open spec fn polygons_of(contours: Seq<Vec<GridPoint>>) -> Seq<Seq<GridPoint>> {
    Seq::new(contours.len(), |i: int| contours[i]@)
}

} // verus!
