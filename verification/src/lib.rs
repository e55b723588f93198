//! Polygon boundaries of raster masks, and the fracturing of polygons.
//!
//! `grid` holds the occupancy grid of an image. `contour` traces the
//! boundaries of its solid regions as closed polygons. `fracture` breaks a
//! polygon with holes into fragments, along the cells of a Voronoi diagram
//! or along cutting segments, and places the seed points of such a diagram.
//!
//! All coordinates are whole numbers, and every result is stated exactly.

pub mod contour;
pub mod fracture;
pub mod grid;
