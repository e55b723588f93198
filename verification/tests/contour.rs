use cutout::contour::by_length::sort_longest_first;
use cutout::contour::chain::chain_segments;
use cutout::contour::marching_squares::{calculate, edge_to_point, generate_segments, Edge};
use cutout::contour::{GridPoint, Segment};
use cutout::grid::Grid;

fn pt(x: i32, y: i32) -> GridPoint {
    GridPoint { x, y }
}

fn seg(a: GridPoint, b: GridPoint) -> Segment {
    Segment { start: a, end: b }
}

fn bounds(contour: &[GridPoint]) -> (i32, i32, i32, i32) {
    let min_x = contour.iter().map(|p| p.x).min().unwrap();
    let max_x = contour.iter().map(|p| p.x).max().unwrap();
    let min_y = contour.iter().map(|p| p.y).min().unwrap();
    let max_y = contour.iter().map(|p| p.y).max().unwrap();
    (min_x, min_y, max_x, max_y)
}

/// Every step of the contour, and the step from its last point back to its
/// first, is one of the segments, in either direction.
fn is_closed_loop(contour: &[GridPoint], segments: &[Segment]) -> bool {
    let n = contour.len();
    (0..n).all(|i| {
        let a = contour[i];
        let b = contour[(i + 1) % n];
        segments
            .iter()
            .any(|s| (s.start == a && s.end == b) || (s.start == b && s.end == a))
    })
}

fn solid_grid(width: usize, height: usize, pixels: &[(usize, usize)]) -> Grid {
    let mut grid = Grid::new(width, height);
    for &(x, y) in pixels {
        assert!(grid.set(x, y, true));
    }
    grid
}

#[test]
fn blank_grid_has_no_contours() {
    assert!(calculate(&Grid::new(5, 4)).is_empty());
    assert!(calculate(&Grid::new(0, 0)).is_empty());
    assert!(calculate(&Grid::new(1, 1)).is_empty());
    assert!(generate_segments(&Grid::new(3, 3)).is_empty());
}

#[test]
fn edge_midpoints_are_doubled() {
    assert_eq!(edge_to_point(3, 5, Edge::Top), pt(7, 10));
    assert_eq!(edge_to_point(3, 5, Edge::Right), pt(8, 11));
    assert_eq!(edge_to_point(3, 5, Edge::Bottom), pt(7, 12));
    assert_eq!(edge_to_point(3, 5, Edge::Left), pt(6, 11));
    assert_eq!(edge_to_point(-1, -1, Edge::Top), pt(-1, -2));
    assert_eq!(edge_to_point(-1, -1, Edge::Left), pt(-2, -1));
}

#[test]
fn single_pixel_gives_one_unit_diamond() {
    let grid = solid_grid(5, 4, &[(2, 1)]);
    let segments = generate_segments(&grid);
    assert_eq!(
        segments,
        vec![
            seg(pt(3, 2), pt(4, 1)),
            seg(pt(4, 1), pt(5, 2)),
            seg(pt(4, 3), pt(3, 2)),
            seg(pt(5, 2), pt(4, 3)),
        ]
    );
    let contours = calculate(&grid);
    assert_eq!(contours, vec![vec![pt(3, 2), pt(4, 1), pt(5, 2), pt(4, 3)]]);
    // One unit wide and high, centred on the pixel, at doubled coordinates.
    assert_eq!(bounds(&contours[0]), (3, 1, 5, 3));
    assert!(is_closed_loop(&contours[0], &segments));
}

#[test]
fn single_pixel_at_the_border_is_closed_by_the_halo() {
    let grid = solid_grid(1, 1, &[(0, 0)]);
    let contours = calculate(&grid);
    assert_eq!(contours, vec![vec![pt(-1, 0), pt(0, -1), pt(1, 0), pt(0, 1)]]);
    let corner = solid_grid(3, 3, &[(2, 2)]);
    let contours = calculate(&corner);
    assert_eq!(contours.len(), 1);
    assert_eq!(bounds(&contours[0]), (3, 3, 5, 5));
}

#[test]
fn filled_rectangle_gives_its_outline() {
    for &(w, h) in &[(1usize, 1usize), (2, 1), (3, 2), (4, 4), (7, 3)] {
        let mut grid = Grid::new(w, h);
        for y in 0..h {
            for x in 0..w {
                grid.set(x, y, true);
            }
        }
        let segments = generate_segments(&grid);
        let contours = calculate(&grid);
        assert_eq!(contours.len(), 1, "{}x{}", w, h);
        let contour = &contours[0];
        // One boundary point per pixel side on the outline.
        assert_eq!(contour.len(), 2 * (w + h));
        assert_eq!(segments.len(), 2 * (w + h));
        assert_eq!(
            bounds(contour),
            (-1, -1, 2 * w as i32 - 1, 2 * h as i32 - 1)
        );
        assert!(is_closed_loop(contour, &segments));
        // Every point lies on the outline of the rectangle.
        for p in contour {
            let on_side = p.x == -1 || p.x == 2 * w as i32 - 1;
            let on_top = p.y == -1 || p.y == 2 * h as i32 - 1;
            assert!(on_side != on_top);
        }
    }
}

/// The loop round the rectangle of `w` by `h` pixels at `(x0, y0)`: from the
/// left side of its top-left pixel along the top, down the right side, back
/// along the bottom and up the left side.
fn outline(x0: i32, y0: i32, w: i32, h: i32) -> Vec<GridPoint> {
    let (x, y) = (2 * x0, 2 * y0);
    let mut points = vec![pt(x - 1, y)];
    points.extend((0..w).map(|i| pt(x + 2 * i, y - 1)));
    points.extend((0..h).map(|i| pt(x + 2 * w - 1, y + 2 * i)));
    points.extend((0..w).map(|i| pt(x + 2 * w - 2 - 2 * i, y + 2 * h - 1)));
    points.extend((0..h - 1).map(|i| pt(x - 1, y + 2 * h - 2 - 2 * i)));
    points
}

#[test]
fn filled_rectangle_contour_is_its_outline() {
    for &(x0, y0, w, h) in &[(0, 0, 1, 1), (2, 1, 3, 2), (0, 3, 1, 4), (1, 0, 5, 1), (3, 3, 4, 4)] {
        let mut grid = Grid::new(9, 8);
        for y in y0..y0 + h {
            for x in x0..x0 + w {
                grid.set(x as usize, y as usize, true);
            }
        }
        assert_eq!(calculate(&grid), vec![outline(x0, y0, w, h)]);
    }
    assert_eq!(
        outline(0, 0, 2, 1),
        vec![pt(-1, 0), pt(0, -1), pt(2, -1), pt(3, 0), pt(2, 1), pt(0, 1)]
    );
}

#[test]
fn rectangle_inside_larger_grid_has_no_hole() {
    let mut grid = Grid::new(6, 5);
    for y in 1..4 {
        for x in 2..5 {
            grid.set(x, y, true);
        }
    }
    let contours = calculate(&grid);
    assert_eq!(contours.len(), 1);
    assert_eq!(contours[0].len(), 12);
    assert_eq!(bounds(&contours[0]), (3, 1, 9, 7));
}

#[test]
fn ring_gives_outline_then_hole() {
    let mut grid = Grid::new(5, 5);
    for y in 1..4 {
        for x in 1..4 {
            grid.set(x, y, true);
        }
    }
    grid.set(2, 2, false);
    let segments = generate_segments(&grid);
    let contours = calculate(&grid);
    assert_eq!(contours.len(), 2);
    assert_eq!(contours[0].len(), 12);
    assert_eq!(contours[1].len(), 4);
    assert_eq!(bounds(&contours[0]), (1, 1, 7, 7));
    assert_eq!(bounds(&contours[1]), (3, 3, 5, 5));
    assert!(is_closed_loop(&contours[0], &segments));
    assert!(is_closed_loop(&contours[1], &segments));
}

#[test]
fn diagonal_pixels_share_one_contour() {
    // Opposite corners solid: the cell between them gets two segments, one
    // round each empty corner, so the two pixels are joined through it.
    let grid = solid_grid(2, 2, &[(0, 0), (1, 1)]);
    let segments = generate_segments(&grid);
    assert_eq!(segments.len(), 8);
    assert!(segments.contains(&seg(pt(1, 0), pt(2, 1))));
    assert!(segments.contains(&seg(pt(0, 1), pt(1, 2))));
    let contours = calculate(&grid);
    assert_eq!(contours.len(), 1);
    assert_eq!(contours[0].len(), 8);
    assert_eq!(bounds(&contours[0]), (-1, -1, 3, 3));
    assert!(is_closed_loop(&contours[0], &segments));
    let other = solid_grid(2, 2, &[(1, 0), (0, 1)]);
    let segments = generate_segments(&other);
    assert!(segments.contains(&seg(pt(0, 1), pt(1, 0))));
    assert!(segments.contains(&seg(pt(1, 2), pt(2, 1))));
    let contours = calculate(&other);
    assert_eq!(contours.len(), 1);
    assert_eq!(contours[0].len(), 8);
    assert_eq!(bounds(&contours[0]), (-1, -1, 3, 3));
    assert!(is_closed_loop(&contours[0], &segments));
}

#[test]
fn contours_come_longest_first_and_keep_their_order() {
    let grid = solid_grid(9, 3, &[(0, 0), (2, 0), (3, 0), (4, 0), (6, 0), (8, 0), (8, 1)]);
    let contours = calculate(&grid);
    let lengths: Vec<usize> = contours.iter().map(|c| c.len()).collect();
    assert_eq!(lengths, vec![8, 6, 4, 4]);
    assert_eq!(bounds(&contours[0]), (3, -1, 9, 1));
    assert_eq!(bounds(&contours[1]), (15, -1, 17, 3));
    // The two single pixels in the order in which the scan met them.
    assert_eq!(bounds(&contours[2]), (-1, -1, 1, 1));
    assert_eq!(bounds(&contours[3]), (11, -1, 13, 1));
}

#[test]
fn chain_walks_in_listing_order() {
    let a = pt(0, 0);
    let b = pt(2, 0);
    let c = pt(2, 2);
    let d = pt(0, 2);
    let square = vec![seg(a, b), seg(b, c), seg(c, d), seg(d, a)];
    assert_eq!(chain_segments(&square), vec![vec![a, b, c, d]]);
    // Listed the other way round, the walk follows the first neighbour.
    let mixed = vec![seg(c, d), seg(a, b), seg(d, a), seg(b, c)];
    assert_eq!(chain_segments(&mixed), vec![vec![c, d, a, b]]);
}

#[test]
fn chain_drops_short_and_open_pieces() {
    let a = pt(0, 0);
    let b = pt(2, 0);
    let c = pt(2, 2);
    assert!(chain_segments(&Vec::new()).is_empty());
    // A lone segment has two points only.
    assert!(chain_segments(&vec![seg(a, b)]).is_empty());
    // An open chain of two segments is kept as it is walked: the budget of
    // two steps ends the walk at its far end.
    assert_eq!(chain_segments(&vec![seg(a, b), seg(b, c)]), vec![vec![a, b, c]]);
    // Walked from the middle it falls apart.
    assert!(chain_segments(&vec![seg(b, a), seg(b, c)]).is_empty());
}

/// A grid filled by a small generator, so that the test is the same on every
/// run.
fn scattered_grid(width: usize, height: usize, seed: u64, density: u64) -> Grid {
    let mut grid = Grid::new(width, height);
    let mut state = seed;
    for y in 0..height {
        for x in 0..width {
            state ^= state << 13;
            state ^= state >> 7;
            state ^= state << 17;
            if state % 100 < density {
                grid.set(x, y, true);
            }
        }
    }
    grid
}

#[test]
fn contours_of_any_grid_are_closed_loops_that_share_no_point() {
    for (seed, density) in [(1u64, 10u64), (2, 35), (3, 50), (4, 65), (5, 90), (6, 100)] {
        let grid = scattered_grid(17, 13, seed, density);
        let segments = generate_segments(&grid);
        let contours = calculate(&grid);
        let mut seen = std::collections::HashSet::new();
        for contour in &contours {
            assert!(contour.len() >= 4);
            assert!(is_closed_loop(contour, &segments));
            for p in contour {
                assert!(seen.insert((p.x, p.y)), "a point on two contours");
            }
        }
        // Every end of a segment lies on a contour, and every contour point
        // is the end of exactly two segments.
        for s in &segments {
            assert!(seen.contains(&(s.start.x, s.start.y)));
            assert!(seen.contains(&(s.end.x, s.end.y)));
            assert!(s.start != s.end);
        }
        assert_eq!(seen.len(), segments.len());
        for pair in contours.windows(2) {
            assert!(pair[0].len() >= pair[1].len());
        }
    }
}

#[test]
fn ordering_is_by_falling_length_and_keeps_ties_in_order() {
    let line = |len: usize, mark: i32| -> Vec<GridPoint> {
        (0..len).map(|i| pt(mark, i as i32)).collect()
    };
    let contours = vec![
        line(2, 0),
        line(0, 1),
        line(5, 2),
        line(2, 3),
        line(5, 4),
        line(0, 5),
        line(1, 6),
    ];
    let sorted = sort_longest_first(contours);
    let lengths: Vec<usize> = sorted.iter().map(|c| c.len()).collect();
    assert_eq!(lengths, vec![5, 5, 2, 2, 1, 0, 0]);
    let marks: Vec<i32> = sorted.iter().filter(|c| !c.is_empty()).map(|c| c[0].x).collect();
    assert_eq!(marks, vec![2, 4, 0, 3, 6]);
    assert!(sort_longest_first(Vec::new()).is_empty());
    assert_eq!(sort_longest_first(vec![line(3, 9)]), vec![line(3, 9)]);
    assert_eq!(sort_longest_first(vec![Vec::new(), Vec::new()]).len(), 2);
}
