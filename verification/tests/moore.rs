use cutout::contour::moore_neighbour::calculate;
use cutout::contour::GridPoint;
use cutout::grid::Grid;

fn pt(x: i32, y: i32) -> GridPoint {
    GridPoint { x, y }
}

fn solid_grid(width: usize, height: usize, pixels: &[(usize, usize)]) -> Grid {
    let mut grid = Grid::new(width, height);
    for &(x, y) in pixels {
        assert!(grid.set(x, y, true));
    }
    grid
}

#[test]
fn moore_blank_grid_has_no_contour() {
    assert!(calculate(&Grid::new(4, 4)).is_empty());
    assert!(calculate(&Grid::new(0, 0)).is_empty());
}

#[test]
fn moore_single_pixel_is_a_contour_of_one_point() {
    let grid = solid_grid(5, 4, &[(2, 1)]);
    assert_eq!(calculate(&grid), vec![vec![pt(2, 1)]]);
}

#[test]
fn moore_walks_round_a_block_back_to_its_start() {
    let grid = solid_grid(2, 2, &[(0, 0), (1, 0), (0, 1), (1, 1)]);
    assert_eq!(
        calculate(&grid),
        vec![vec![pt(0, 1), pt(0, 0), pt(1, 0), pt(1, 1), pt(0, 1)]]
    );
}

#[test]
fn moore_starts_at_the_bottom_left() {
    // Two regions: only the one with the bottommost, leftmost pixel is
    // traced.
    let grid = solid_grid(6, 4, &[(0, 0), (1, 0), (4, 3), (5, 3), (5, 2)]);
    let contours = calculate(&grid);
    assert_eq!(contours.len(), 1);
    assert_eq!(contours[0][0], pt(4, 3));
    assert!(contours[0].iter().all(|p| p.x >= 4));
}

#[test]
fn moore_turns_back_to_an_unmarked_start() {
    // A row of three: after its first step east the walk looks on from the
    // south-east and meets its start, which is never marked, before the
    // pixel further east.
    let grid = solid_grid(3, 1, &[(0, 0), (1, 0), (2, 0)]);
    assert_eq!(calculate(&grid), vec![vec![pt(0, 0), pt(1, 0), pt(0, 0)]]);
}

#[test]
fn moore_stops_in_a_dead_end() {
    // A hook: up from the start, then east. At its far end no neighbour is
    // left, and the start is out of reach.
    let grid = solid_grid(3, 2, &[(0, 1), (0, 0), (1, 0), (2, 0)]);
    assert_eq!(
        calculate(&grid),
        vec![vec![pt(0, 1), pt(0, 0), pt(1, 0), pt(2, 0)]]
    );
}

#[test]
fn moore_steps_lead_to_solid_neighbours() {
    let mut pixels = Vec::new();
    for y in 1..6 {
        for x in 1..7 {
            if (x + 2 * y) % 5 != 0 {
                pixels.push((x, y));
            }
        }
    }
    let grid = solid_grid(8, 7, &pixels);
    let contours = calculate(&grid);
    assert_eq!(contours.len(), 1);
    let contour = &contours[0];
    assert!(contour.len() > 2);
    for pair in contour.windows(2) {
        assert!((pair[0].x - pair[1].x).abs() <= 1);
        assert!((pair[0].y - pair[1].y).abs() <= 1);
        assert!(pair[0] != pair[1]);
    }
    for p in contour {
        assert!(grid.is_solid(p.x, p.y));
    }
}
