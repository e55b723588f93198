use cutout::grid::{
    create_grid_from_image, first_bottom_left_solid_pixel, first_top_left_solid_pixel, Grid,
    Grid2D,
};

#[test]
fn new_grid_is_blank() {
    let grid = Grid::new(3, 2);
    assert_eq!(grid.width(), 3);
    assert_eq!(grid.height(), 2);
    for y in 0..2 {
        for x in 0..3 {
            assert_eq!(grid.get_at(x, y), Some(&false));
        }
    }
}

#[test]
fn new_with_default_fills_every_cell() {
    let grid: Grid2D<u8> = Grid2D::new_with_default(2, 2, 7);
    assert_eq!(grid.get_at(0, 0), Some(&7));
    assert_eq!(grid.get_at(1, 1), Some(&7));
    assert_eq!(grid.get_at(2, 0), None);
    assert_eq!(grid.get_at(0, 2), None);
}

#[test]
fn set_stores_inside_and_refuses_outside() {
    let mut grid: Grid2D<u8> = Grid2D::new_with_default(3, 2, 0);
    assert!(grid.set(2, 1, 9));
    assert_eq!(grid.get_at(2, 1), Some(&9));
    assert_eq!(grid.get_at(1, 1), Some(&0));
    assert_eq!(grid.get_at(2, 0), Some(&0));
    assert!(!grid.set(3, 0, 5));
    assert!(!grid.set(0, 2, 5));
    assert_eq!(grid.get_at(0, 0), Some(&0));
}

#[test]
fn signed_lookup_is_empty_outside() {
    let mut grid = Grid::new(2, 2);
    assert!(grid.set(1, 0, true));
    assert_eq!(grid.get(1, 0), Some(&true));
    assert_eq!(grid.get(0, 0), Some(&false));
    assert_eq!(grid.get(-1, 0), None);
    assert_eq!(grid.get(0, -1), None);
    assert_eq!(grid.get(2, 0), None);
    assert_eq!(grid.get(0, 2), None);
    assert!(grid.is_solid(1, 0));
    assert!(!grid.is_solid(-1, -1));
    assert!(!grid.is_solid(2, 2));
    assert!(grid.is_solid_at(1, 0));
    assert!(!grid.is_solid_at(5, 0));
}

#[test]
fn from_image_compares_alpha_with_threshold() {
    let alpha = [0u8, 127, 128, 255, 129, 0];
    let grid = Grid::from_image(3, 2, &alpha, 128);
    assert_eq!(grid.get_at(0, 0), Some(&false));
    assert_eq!(grid.get_at(1, 0), Some(&false));
    assert_eq!(grid.get_at(2, 0), Some(&false));
    assert_eq!(grid.get_at(0, 1), Some(&true));
    assert_eq!(grid.get_at(1, 1), Some(&true));
    assert_eq!(grid.get_at(2, 1), Some(&false));
}

#[test]
fn create_grid_from_image_reads_the_alpha_byte() {
    // Two pixels in one row: opaque red, then transparent white.
    let rgba = [255u8, 0, 0, 255, 255, 255, 255, 0];
    let grid = create_grid_from_image(2, 1, &rgba, 127);
    assert_eq!(grid.width(), 2);
    assert_eq!(grid.height(), 1);
    assert_eq!(grid.get_at(0, 0), Some(&true));
    assert_eq!(grid.get_at(1, 0), Some(&false));
}

#[test]
fn first_solid_pixels_scan_rows_in_order() {
    let mut grid = Grid::new(4, 3);
    assert_eq!(first_top_left_solid_pixel(&grid), None);
    assert_eq!(first_bottom_left_solid_pixel(&grid), None);
    grid.set(2, 0, true);
    grid.set(3, 0, true);
    grid.set(1, 2, true);
    grid.set(3, 2, true);
    grid.set(0, 1, true);
    assert_eq!(first_top_left_solid_pixel(&grid), Some((2, 0)));
    assert_eq!(first_bottom_left_solid_pixel(&grid), Some((1, 2)));
}

#[test]
fn empty_dimensions_give_an_empty_grid() {
    let grid = Grid::new(0, 5);
    assert_eq!(grid.width(), 0);
    assert_eq!(grid.height(), 5);
    assert_eq!(grid.get_at(0, 0), None);
    assert_eq!(first_top_left_solid_pixel(&grid), None);
}
