use cutout::fracture::cut::{
    box_reach, build_half_plane_rect, find_polygon_intersections, line_intersects_segment,
    line_segment_intersection, Cut,
};
use cutout::fracture::geometry::{calculate_bounds, rects_intersect, Rect};
use cutout::fracture::half_plane::MAX_COORDINATE;
use cutout::fracture::slice::{
    self, apply_slices, bisect_outer, fracture_slices, fracture_slices_manual, keep_or_unchanged,
    subtract_holes_from_all,
};
use cutout::fracture::voronoi::{self, build_adjacency, compute_voronoi_cells, subtract_holes};
use cutout::fracture::Point;

fn pt(x: i64, y: i64) -> Point {
    Point { x, y }
}

fn rect(x0: i64, y0: i64, x1: i64, y1: i64) -> Vec<Point> {
    vec![pt(x0, y0), pt(x1, y0), pt(x1, y1), pt(x0, y1)]
}

fn bounds(x0: i64, y0: i64, x1: i64, y1: i64) -> Rect {
    Rect { min: pt(x0, y0), max: pt(x1, y1) }
}

/// Twice the signed area, by the shoelace formula.
fn doubled_area(polygon: &[Point]) -> i128 {
    let n = polygon.len();
    let mut sum: i128 = 0;
    for i in 0..n {
        let a = polygon[i];
        let b = polygon[(i + 1) % n];
        sum += a.x as i128 * b.y as i128 - b.x as i128 * a.y as i128;
    }
    sum
}

fn total_doubled_area(pieces: &[Vec<Point>]) -> i128 {
    pieces.iter().map(|p| doubled_area(p)).sum()
}

#[test]
fn bounds_of_polygons() {
    assert_eq!(calculate_bounds(&Vec::new()), bounds(0, 0, 0, 0));
    assert_eq!(calculate_bounds(&vec![pt(5, -3)]), bounds(5, -3, 5, -3));
    let polygon = vec![pt(3, 4), pt(-2, 9), pt(7, -1), pt(0, 0)];
    assert_eq!(calculate_bounds(&polygon), bounds(-2, -1, 7, 9));
    let far = vec![pt(i64::MIN, i64::MAX), pt(i64::MAX, i64::MIN)];
    assert_eq!(
        calculate_bounds(&far),
        bounds(i64::MIN, i64::MIN, i64::MAX, i64::MAX)
    );
}

#[test]
fn boxes_overlap_only_with_area_in_common() {
    let a = bounds(0, 0, 10, 10);
    assert!(rects_intersect(a, bounds(5, 5, 15, 15)));
    assert!(rects_intersect(a, bounds(2, 2, 3, 3)));
    assert!(rects_intersect(bounds(2, 2, 3, 3), a));
    // Touching along a side or in a corner is no overlap.
    assert!(!rects_intersect(a, bounds(10, 0, 20, 10)));
    assert!(!rects_intersect(a, bounds(10, 10, 20, 20)));
    assert!(!rects_intersect(a, bounds(11, 0, 20, 10)));
    assert!(!rects_intersect(a, bounds(0, -5, 10, 0)));
    // A box without extent overlaps nothing, not even itself.
    assert!(!rects_intersect(bounds(0, 0, 0, 0), bounds(0, 0, 0, 0)));
}

#[test]
fn adjacency_of_two_triangles() {
    // A square 0-1-2-3 split along 0-2.
    let lists = build_adjacency(4, &vec![0, 1, 2, 0, 2, 3]);
    assert_eq!(lists, vec![vec![1, 2, 3], vec![0, 2], vec![1, 0, 3], vec![2, 0]]);
}

#[test]
fn adjacency_ignores_leftovers_and_isolated_points() {
    let lists = build_adjacency(5, &vec![2, 0, 1, 3, 4]);
    assert_eq!(
        lists,
        vec![vec![2, 1], vec![0, 2], vec![0, 1], vec![], vec![]]
    );
    assert_eq!(build_adjacency(3, &Vec::new()), vec![vec![], vec![], vec![]]);
    assert!(build_adjacency(0, &Vec::new()).is_empty());
}

#[test]
fn adjacency_is_mutual_and_without_repeats() {
    let triangles = vec![0, 1, 2, 2, 1, 3, 3, 1, 4, 4, 1, 0, 2, 3, 5];
    let lists = build_adjacency(6, &triangles);
    for (i, list) in lists.iter().enumerate() {
        for (k, &j) in list.iter().enumerate() {
            assert!(lists[j].contains(&i));
            assert!(!list[..k].contains(&j));
            assert_ne!(i, j);
        }
    }
    assert_eq!(lists[1].len(), 4);
    assert_eq!(lists[5], vec![3, 2]);
}

#[test]
fn far_holes_are_skipped() {
    let fragment = rect(0, 0, 100, 100);
    let near = rect(40, 40, 60, 60);
    let far = rect(500, 500, 600, 600);
    let holes = vec![far.clone(), near.clone()];
    let boxes = vec![calculate_bounds(&far), calculate_bounds(&near)];
    let pieces = subtract_holes(&fragment, &holes, &boxes);
    assert_eq!(total_doubled_area(&pieces), 2 * (100 * 100 - 20 * 20));
    // With only far holes the fragment is not even handed to the clipper,
    // which would have turned it round.
    let turned: Vec<Point> = fragment.iter().rev().cloned().collect();
    let pieces = subtract_holes(&turned, &vec![far.clone()], &vec![calculate_bounds(&far)]);
    assert_eq!(pieces, vec![turned.clone()]);
    assert_eq!(
        subtract_holes(&turned, &Vec::new(), &Vec::new()),
        vec![turned]
    );
}

/// The Delaunay triangles of the points, as the triangulation library gives
/// them.
fn delaunay(points: &[Point]) -> Vec<usize> {
    let coords: Vec<delaunator::Point> = points
        .iter()
        .map(|p| delaunator::Point { x: p.x as f64, y: p.y as f64 })
        .collect();
    delaunator::triangulate(&coords).triangles
}

fn cut(x0: i64, y0: i64, x1: i64, y1: i64) -> Cut {
    Cut { start: pt(x0, y0), end: pt(x1, y1) }
}

#[test]
fn voronoi_refuses_unusable_input() {
    let seeds = vec![pt(25, 25), pt(75, 25), pt(50, 75)];
    let triangles = vec![0, 1, 2];
    assert!(voronoi::fracture(&Vec::new(), &seeds, &triangles).is_empty());
    let line = vec![pt(0, 0), pt(100, 0)];
    assert!(voronoi::fracture(&vec![line.clone()], &seeds, &triangles).is_empty());
    // A degenerate outer boundary gives nothing, whatever the seeds.
    assert!(voronoi::fracture(&vec![line], &vec![pt(1, 1)], &Vec::new()).is_empty());
}

#[test]
fn voronoi_with_fewer_than_two_seeds_returns_the_input() {
    let list = vec![rect(0, 0, 100, 100), rect(40, 40, 60, 60)];
    let triangles = vec![0, 1, 2];
    assert_eq!(voronoi::fracture(&list, &vec![pt(1, 1)], &triangles), list);
    assert_eq!(voronoi::fracture(&list, &Vec::new(), &triangles), list);
    assert_eq!(voronoi::fracture(&list, &vec![pt(50, 50)], &Vec::new()), list);
    assert_eq!(voronoi::fracture(&list, &Vec::new(), &Vec::new()), list);
}

#[test]
fn voronoi_returns_input_where_cells_cannot_be_built() {
    let list = vec![rect(0, 0, 100, 100), rect(40, 40, 60, 60)];
    let seeds = vec![pt(25, 25), pt(75, 25), pt(50, 75)];
    // No triangles: the triangulation failed.
    assert_eq!(voronoi::fracture(&list, &seeds, &Vec::new()), list);
    // A triangle that names a seed that is not there.
    assert_eq!(voronoi::fracture(&list, &seeds, &vec![0, 1, 3]), list);
    // Seeds too far out to compute with.
    let far = vec![pt(25, 25), pt(75, 25), pt(MAX_COORDINATE + 1, 75)];
    assert_eq!(voronoi::fracture(&list, &far, &vec![0, 1, 2]), list);
}

#[test]
fn two_seeds_have_no_triangle() {
    // Two points cannot be triangulated, so the polygon stays whole.
    let list = vec![rect(0, 0, 100, 100)];
    let seeds = vec![pt(25, 50), pt(75, 50)];
    let triangles = delaunay(&seeds);
    assert!(triangles.is_empty());
    assert_eq!(voronoi::fracture(&list, &seeds, &triangles), list);
}

#[test]
fn voronoi_cells_of_four_seeds_are_the_quadrants() {
    let seeds = vec![pt(25, 25), pt(75, 25), pt(25, 75), pt(75, 75)];
    let triangles = delaunay(&seeds);
    assert_eq!(triangles.len(), 6);
    let adjacency = build_adjacency(4, &triangles);
    let bounds = Rect { min: pt(0, 0), max: pt(100, 100) };
    let cells = compute_voronoi_cells(&seeds, &adjacency, bounds);
    assert_eq!(cells.len(), 4);
    let expected = [
        (0, 0, 50, 50),
        (50, 0, 100, 50),
        (0, 50, 50, 100),
        (50, 50, 100, 100),
    ];
    for (cell, &(x0, y0, x1, y1)) in cells.iter().zip(expected.iter()) {
        assert_eq!(calculate_bounds(cell), bounds_rect(x0, y0, x1, y1));
        assert_eq!(doubled_area(cell).abs(), 2 * 50 * 50);
    }
}

fn bounds_rect(x0: i64, y0: i64, x1: i64, y1: i64) -> Rect {
    Rect { min: pt(x0, y0), max: pt(x1, y1) }
}

#[test]
fn voronoi_square_with_three_seeds() {
    let list = vec![rect(0, 0, 1000, 1000)];
    let seeds = vec![pt(200, 200), pt(800, 300), pt(500, 800)];
    let triangles = delaunay(&seeds);
    assert_eq!(triangles.len(), 3);
    let fragments = voronoi::fracture(&list, &seeds, &triangles);
    assert_eq!(fragments.len(), 3);
    for fragment in &fragments {
        assert!(doubled_area(fragment) > 0);
    }
    // The cells tile the square up to the rounding of their corners.
    let total = total_doubled_area(&fragments);
    assert!((total - 2 * 1000 * 1000).abs() <= 2 * 4 * 1000);
}

#[test]
fn voronoi_square_with_four_seeds() {
    let list = vec![rect(0, 0, 100, 100)];
    let seeds = vec![pt(25, 25), pt(75, 25), pt(25, 75), pt(75, 75)];
    let fragments = voronoi::fracture(&list, &seeds, &delaunay(&seeds));
    assert_eq!(fragments.len(), 4);
    for fragment in &fragments {
        assert_eq!(doubled_area(fragment), 2 * 50 * 50);
    }
    assert_eq!(total_doubled_area(&fragments), 2 * 100 * 100);
}

#[test]
fn voronoi_cuts_holes_out_of_every_cell() {
    let list = vec![
        rect(0, 0, 100, 100),
        rect(40, 40, 60, 60),
        vec![pt(1, 1), pt(2, 2)],
    ];
    let seeds = vec![pt(25, 25), pt(75, 25), pt(25, 75), pt(75, 75)];
    let fragments = voronoi::fracture(&list, &seeds, &delaunay(&seeds));
    assert_eq!(fragments.len(), 4);
    assert_eq!(total_doubled_area(&fragments), 2 * (100 * 100 - 20 * 20));
    for fragment in &fragments {
        assert_eq!(doubled_area(fragment), 2 * (50 * 50 - 10 * 10));
    }
}

#[test]
fn voronoi_returns_input_where_no_cell_leaves_a_piece() {
    // The hole covers the whole polygon.
    let list = vec![rect(0, 0, 100, 100), rect(-10, -10, 110, 110)];
    let seeds = vec![pt(25, 25), pt(75, 25), pt(25, 75), pt(75, 75)];
    assert_eq!(voronoi::fracture(&list, &seeds, &delaunay(&seeds)), list);
}

#[test]
fn segments_meet_in_a_point_of_both() {
    let a = pt(0, 0);
    let b = pt(10, 10);
    assert!(line_segment_intersection(a, b, pt(0, 10), pt(10, 0)));
    // Touching at an end counts.
    assert!(line_segment_intersection(a, b, pt(10, 10), pt(20, 0)));
    assert!(line_segment_intersection(a, b, pt(5, 5), pt(5, 50)));
    // The lines meet, but not on both segments.
    assert!(!line_segment_intersection(a, b, pt(20, 0), pt(11, 10)));
    assert!(!line_segment_intersection(a, b, pt(0, 30), pt(30, 0)));
    // Parallel, and on one line.
    assert!(!line_segment_intersection(a, b, pt(0, 1), pt(10, 11)));
    assert!(!line_segment_intersection(a, b, pt(5, 5), pt(20, 20)));
    // A segment without length meets nothing.
    assert!(!line_segment_intersection(a, a, pt(-5, 0), pt(5, 0)));
}

#[test]
fn a_line_crosses_a_segment_wherever_the_cut_lies_on_it() {
    let a = pt(0, 0);
    let b = pt(10, 10);
    assert!(line_intersects_segment(a, b, pt(0, 10), pt(10, 0)));
    // The cut stops short of the segment, or lies beyond it: its line goes on.
    assert!(line_intersects_segment(a, b, pt(20, 0), pt(11, 30)));
    assert!(line_intersects_segment(a, b, pt(0, 30), pt(30, 0)));
    assert!(line_intersects_segment(a, b, pt(-30, 0), pt(0, -30)));
    assert!(!line_segment_intersection(a, b, pt(0, 30), pt(30, 0)));
    // Touching the segment at an end counts.
    assert!(line_intersects_segment(a, b, pt(50, 50), pt(60, 0)));
    // The segment stops short of the line.
    assert!(!line_intersects_segment(a, b, pt(20, 0), pt(20, 19)));
    assert!(!line_intersects_segment(a, b, pt(-5, 0), pt(-1, 2)));
    // Parallel, and on one line.
    assert!(!line_intersects_segment(a, b, pt(0, 1), pt(10, 11)));
    assert!(!line_intersects_segment(a, b, pt(5, 5), pt(20, 20)));
    // A cut without length has no line.
    assert!(!line_intersects_segment(a, a, pt(-5, 0), pt(5, 0)));
}

#[test]
fn crossings_are_counted_per_edge() {
    let outer = rect(0, 0, 100, 100);
    assert_eq!(find_polygon_intersections(&outer, pt(-50, 50), pt(150, 50)), 2);
    // A cut that ends inside the polygon, or outside it, cuts along its line.
    assert_eq!(find_polygon_intersections(&outer, pt(10, 50), pt(90, 50)), 2);
    assert_eq!(find_polygon_intersections(&outer, pt(10, 50), pt(150, 50)), 2);
    assert_eq!(find_polygon_intersections(&outer, pt(0, 50), pt(100, 50)), 2);
    assert_eq!(find_polygon_intersections(&outer, pt(-500, 50), pt(-400, 50)), 2);
    assert_eq!(find_polygon_intersections(&outer, pt(-50, -50), pt(-10, 500)), 0);
    assert_eq!(find_polygon_intersections(&outer, pt(10, 150), pt(90, 150)), 0);
    // Through two corners: each corner ends two edges.
    assert_eq!(find_polygon_intersections(&outer, pt(-10, -10), pt(110, 110)), 4);
    assert_eq!(find_polygon_intersections(&outer, pt(20, 20), pt(30, 30)), 4);
    // Through one corner.
    assert_eq!(find_polygon_intersections(&outer, pt(-10, 10), pt(10, -10)), 2);
    // A cut without length crosses nothing.
    assert_eq!(find_polygon_intersections(&outer, pt(50, 50), pt(50, 50)), 0);
    assert_eq!(find_polygon_intersections(&Vec::new(), pt(0, 0), pt(1, 1)), 0);
}

#[test]
fn the_reach_is_the_width_and_height_of_the_box_with_the_start() {
    let b = bounds(0, 0, 100, 40);
    // From inside the box, and from its border: its width and height.
    assert_eq!(box_reach(b, pt(0, 0)), 140);
    assert_eq!(box_reach(b, pt(50, 20)), 140);
    assert_eq!(box_reach(b, pt(100, 10)), 140);
    // From outside, the box grows to hold the start.
    assert_eq!(box_reach(b, pt(-50, 50)), 150 + 50);
    assert_eq!(box_reach(b, pt(300, -7)), 300 + 47);
    assert_eq!(box_reach(b, pt(50, 1000)), 100 + 1000);
    assert_eq!(box_reach(bounds(0, 0, 0, 0), pt(0, 0)), 0);
    let far = bounds(-MAX_COORDINATE, -MAX_COORDINATE, -MAX_COORDINATE, -MAX_COORDINATE);
    assert_eq!(box_reach(far, pt(MAX_COORDINATE, MAX_COORDINATE)), 4 * MAX_COORDINATE);
}

#[test]
fn side_rectangles_lie_on_the_line() {
    let left = build_half_plane_rect(pt(-50, 50), pt(150, 50), true, 200);
    assert_eq!(left, vec![pt(-250, 50), pt(350, 50), pt(350, 250), pt(-250, 250)]);
    let right = build_half_plane_rect(pt(-50, 50), pt(150, 50), false, 200);
    assert_eq!(right, vec![pt(-250, 50), pt(350, 50), pt(350, -150), pt(-250, -150)]);
    // A short cut is laid end to end until it reaches far enough.
    let steep = build_half_plane_rect(pt(0, 0), pt(1, 3), true, 10);
    assert_eq!(steep, vec![pt(-4, -12), pt(5, 15), pt(-7, 19), pt(-16, -8)]);
    let none = build_half_plane_rect(pt(7, 7), pt(7, 7), true, 10);
    assert_eq!(none, vec![pt(7, 7), pt(7, 7), pt(7, 7), pt(7, 7)]);
    let flat = build_half_plane_rect(pt(0, 0), pt(4, 0), false, 0);
    assert_eq!(flat, vec![pt(0, 0), pt(4, 0), pt(4, 0), pt(0, 0)]);
}

#[test]
fn bisect_keeps_a_polygon_that_the_cut_misses() {
    let outer: Vec<Point> = rect(0, 0, 100, 100).into_iter().rev().collect();
    assert_eq!(bisect_outer(&outer, pt(10, 150), pt(90, 150)), vec![outer.clone()]);
    assert_eq!(bisect_outer(&outer, pt(-50, -50), pt(-10, 500)), vec![outer.clone()]);
    assert_eq!(bisect_outer(&outer, pt(500, 0), pt(500, 100)), vec![outer.clone()]);
    assert_eq!(bisect_outer(&outer, pt(50, 50), pt(50, 50)), vec![outer.clone()]);
    // A cut too far out to compute with.
    assert_eq!(
        bisect_outer(&outer, pt(-MAX_COORDINATE - 1, 50), pt(150, 50)),
        vec![outer.clone()]
    );
}

#[test]
fn bisect_cuts_in_two() {
    let outer = rect(0, 0, 100, 100);
    let pieces = bisect_outer(&outer, pt(-50, 30), pt(150, 30));
    assert_eq!(pieces.len(), 2);
    assert_eq!(calculate_bounds(&pieces[0]), bounds(0, 30, 100, 100));
    assert_eq!(calculate_bounds(&pieces[1]), bounds(0, 0, 100, 30));
    assert_eq!(total_doubled_area(&pieces), 2 * 100 * 100);
    // A slanted cut that ends on the boundary.
    let pieces = bisect_outer(&outer, pt(0, 0), pt(100, 50));
    assert_eq!(pieces.len(), 2);
    assert_eq!(total_doubled_area(&pieces), 2 * 100 * 100);
    assert_eq!(doubled_area(&pieces[0]).abs().min(doubled_area(&pieces[1]).abs()), 100 * 50);
}

#[test]
fn bisect_cuts_along_the_line_of_a_short_cut() {
    let outer = rect(0, 0, 100, 100);
    // The cut lies inside the polygon and reaches no edge.
    let pieces = bisect_outer(&outer, pt(10, 50), pt(90, 50));
    assert_eq!(pieces.len(), 2);
    assert_eq!(calculate_bounds(&pieces[0]), bounds(0, 50, 100, 100));
    assert_eq!(calculate_bounds(&pieces[1]), bounds(0, 0, 100, 50));
    assert_eq!(total_doubled_area(&pieces), 2 * 100 * 100);
    // The cut reaches one edge only.
    let pieces = bisect_outer(&outer, pt(10, 50), pt(150, 50));
    assert_eq!(pieces.len(), 2);
    assert_eq!(total_doubled_area(&pieces), 2 * 100 * 100);
    // The cut lies outside the polygon, far off, and points at it.
    let pieces = bisect_outer(&outer, pt(30, -5000), pt(30, -4999));
    assert_eq!(pieces.len(), 2);
    assert_eq!(calculate_bounds(&pieces[0]), bounds(0, 0, 30, 100));
    assert_eq!(calculate_bounds(&pieces[1]), bounds(30, 0, 100, 100));
    assert_eq!(total_doubled_area(&pieces), 2 * 100 * 100);
}

#[test]
fn slice_refuses_unusable_input() {
    assert!(slice::fracture(&Vec::new(), pt(-50, 50), pt(150, 50)).is_empty());
    let line = vec![vec![pt(0, 0), pt(100, 0)], rect(0, 0, 10, 10)];
    assert!(slice::fracture(&line, pt(-50, 50), pt(150, 50)).is_empty());
}

#[test]
fn slice_that_misses_returns_the_input() {
    let list = vec![rect(0, 0, 100, 100), rect(40, 40, 60, 60)];
    assert_eq!(slice::fracture(&list, pt(200, 0), pt(200, 100)), list);
    assert_eq!(slice::fracture(&list, pt(-50, -50), pt(-10, 300)), list);
    assert_eq!(slice::fracture(&list, pt(10, 150), pt(90, 150)), list);
    assert_eq!(slice::fracture(&list, pt(50, 50), pt(50, 50)), list);
    let triangle = vec![vec![pt(0, 0), pt(100, 0), pt(50, 80)]];
    assert_eq!(slice::fracture(&triangle, pt(-100, 90), pt(200, 90)), triangle);
}

#[test]
fn slice_by_a_cut_inside_the_square_gives_two_halves() {
    let list = vec![rect(0, 0, 4, 4)];
    let fragments = slice::fracture(&list, pt(1, 2), pt(3, 2));
    assert_eq!(fragments.len(), 2);
    assert_eq!(calculate_bounds(&fragments[0]), bounds(0, 2, 4, 4));
    assert_eq!(calculate_bounds(&fragments[1]), bounds(0, 0, 4, 2));
    assert_eq!(doubled_area(&fragments[0]).abs(), 2 * 4 * 2);
    assert_eq!(doubled_area(&fragments[1]).abs(), 2 * 4 * 2);
    // The same cut the other way round: the halves change places.
    let fragments = slice::fracture(&list, pt(3, 2), pt(1, 2));
    assert_eq!(fragments.len(), 2);
    assert_eq!(calculate_bounds(&fragments[0]), bounds(0, 0, 4, 2));
    assert_eq!(calculate_bounds(&fragments[1]), bounds(0, 2, 4, 4));
    // With a hole on the line of the cut, which the cut itself does not reach.
    let holed = vec![rect(0, 0, 100, 100), rect(40, 40, 60, 60)];
    let fragments = slice::fracture(&holed, pt(70, 50), pt(90, 50));
    assert_eq!(fragments.len(), 2);
    assert_eq!(total_doubled_area(&fragments), 2 * (100 * 100 - 20 * 20));
}

#[test]
fn slice_through_a_square_gives_two_halves() {
    let list = vec![rect(0, 0, 100, 100)];
    let fragments = slice::fracture(&list, pt(-50, 50), pt(150, 50));
    assert_eq!(fragments.len(), 2);
    assert_eq!(total_doubled_area(&fragments), 2 * 100 * 100);
    assert_eq!(calculate_bounds(&fragments[0]), bounds(0, 50, 100, 100));
    assert_eq!(calculate_bounds(&fragments[1]), bounds(0, 0, 100, 50));
    // A convex polygon cut in two edge points.
    let hexagon = vec![vec![
        pt(100, 0),
        pt(300, 0),
        pt(400, 200),
        pt(300, 400),
        pt(100, 400),
        pt(0, 200),
    ]];
    let whole = doubled_area(&hexagon[0]);
    let fragments = slice::fracture(&hexagon, pt(150, -100), pt(250, 500));
    assert_eq!(fragments.len(), 2);
    assert!((total_doubled_area(&fragments) - whole).abs() <= 2 * 400);
}

#[test]
fn slice_cuts_holes_out_of_both_halves() {
    let list = vec![rect(0, 0, 100, 100), rect(40, 40, 60, 60)];
    let fragments = slice::fracture(&list, pt(-50, 50), pt(150, 50));
    assert_eq!(fragments.len(), 2);
    for fragment in &fragments {
        assert_eq!(doubled_area(fragment), 2 * (50 * 100 - 10 * 20));
    }
}

#[test]
fn two_cuts_give_four_quarters() {
    let outer = rect(0, 0, 100, 100);
    let cuts = vec![cut(-50, 50, 150, 50), cut(50, -50, 50, 150)];
    let fragments = apply_slices(&outer, &Vec::new(), &cuts);
    assert_eq!(fragments.len(), 4);
    for fragment in &fragments {
        assert_eq!(doubled_area(fragment).abs(), 2 * 50 * 50);
    }
    let with_hole = apply_slices(&outer, &vec![rect(40, 40, 60, 60)], &cuts);
    assert_eq!(with_hole.len(), 4);
    assert_eq!(total_doubled_area(&with_hole), 2 * (100 * 100 - 20 * 20));
    // The same through the whole fracture.
    let list = vec![outer.clone(), rect(40, 40, 60, 60)];
    assert_eq!(fracture_slices(&list, &cuts), with_hole);
}

#[test]
fn cuts_that_miss_change_nothing() {
    let outer: Vec<Point> = rect(0, 0, 100, 100).into_iter().rev().collect();
    let cuts = vec![cut(200, 0, 200, 100), cut(-10, 0, -20, 20), cut(10, 10, 10, 10)];
    assert_eq!(apply_slices(&outer, &Vec::new(), &cuts), vec![outer.clone()]);
    assert_eq!(apply_slices(&outer, &Vec::new(), &Vec::new()), vec![outer.clone()]);
    let list = vec![outer.clone(), rect(40, 40, 60, 60)];
    assert_eq!(fracture_slices(&list, &Vec::new()), list);
}

#[test]
fn holes_are_cut_out_of_all_fragments() {
    let fragments = vec![rect(0, 0, 50, 100), rect(50, 0, 100, 100), vec![pt(0, 0)]];
    let holes = vec![rect(40, 40, 60, 60)];
    let result = subtract_holes_from_all(&fragments, &holes);
    assert_eq!(result.len(), 2);
    assert_eq!(total_doubled_area(&result), 2 * (100 * 100 - 20 * 20));
    assert_eq!(
        subtract_holes_from_all(&fragments, &Vec::new()),
        vec![rect(0, 0, 50, 100), rect(50, 0, 100, 100)]
    );
}

#[test]
fn pattern_fracture_refuses_unusable_input() {
    let cuts = vec![cut(-50, 50, 150, 50)];
    assert!(fracture_slices(&Vec::new(), &cuts).is_empty());
    assert!(fracture_slices(&vec![vec![pt(0, 0), pt(1, 1)]], &cuts).is_empty());
    assert!(fracture_slices(&vec![vec![pt(0, 0), pt(1, 1)]], &Vec::new()).is_empty());
}

#[test]
fn pattern_fracture_never_answers_with_nothing() {
    // The hole covers the polygon, so the cuts leave nothing.
    let list = vec![rect(0, 0, 100, 100), rect(-10, -10, 110, 110)];
    let cuts = vec![cut(-50, 50, 150, 50)];
    assert_eq!(fracture_slices(&list, &cuts), list);
}

#[test]
fn manual_segments_are_point_pairs() {
    let list = vec![rect(0, 0, 100, 100)];
    let segments = vec![
        vec![pt(-50, 50), pt(150, 50)],
        vec![pt(3, 3)],
        Vec::new(),
        vec![pt(50, -50), pt(50, 150), pt(0, 0)],
    ];
    let fragments = fracture_slices_manual(&list, &segments);
    assert_eq!(fragments.len(), 4);
    assert_eq!(total_doubled_area(&fragments), 2 * 100 * 100);
    let cuts = vec![cut(-50, 50, 150, 50), cut(50, -50, 50, 150)];
    assert_eq!(fragments, fracture_slices(&list, &cuts));
}

#[test]
fn manual_fracture_without_usable_segments_returns_the_input() {
    let list = vec![rect(0, 0, 100, 100), rect(40, 40, 60, 60)];
    assert_eq!(fracture_slices_manual(&list, &Vec::new()), list);
    assert_eq!(fracture_slices_manual(&list, &vec![vec![pt(1, 1)]]), list);
    assert!(fracture_slices_manual(&Vec::new(), &vec![vec![pt(0, 0), pt(1, 1)]]).is_empty());
    // Without segments even a degenerate list comes back as it is.
    let short = vec![vec![pt(0, 0), pt(1, 1)]];
    assert_eq!(fracture_slices_manual(&short, &Vec::new()), short);
    assert!(fracture_slices_manual(&short, &vec![vec![pt(0, 0), pt(1, 1)]]).is_empty());
}

#[test]
fn empty_result_falls_back_to_the_input() {
    let list = vec![rect(0, 0, 100, 100), rect(40, 40, 60, 60)];
    assert_eq!(keep_or_unchanged(&list, Vec::new()), list);
    let pieces = vec![rect(0, 0, 1, 1)];
    assert_eq!(keep_or_unchanged(&list, pieces.clone()), pieces);
}

/// Whether `v` lies in the quadrilateral, border included, whichever way
/// round its corners are listed.
fn in_quad(corners: &[Point], v: Point) -> bool {
    let turn = |a: Point, b: Point| -> i128 {
        (b.x - a.x) as i128 * (v.y - a.y) as i128 - (b.y - a.y) as i128 * (v.x - a.x) as i128
    };
    let turns: Vec<i128> = (0..4).map(|i| turn(corners[i], corners[(i + 1) % 4])).collect();
    turns.iter().all(|t| *t >= 0) || turns.iter().all(|t| *t <= 0)
}

#[test]
fn side_rectangles_cover_the_polygon() {
    let polygons = [
        rect(0, 0, 100, 100),
        vec![pt(0, 0), pt(900, 40), pt(1000, 700), pt(300, 990), pt(-200, 400)],
        vec![pt(0, 0), pt(10, 0), pt(10, 3000), pt(0, 3000)],
    ];
    let cuts = [
        cut(-50, 50, 150, 50),
        cut(0, 0, 1, 1),
        cut(5, -1, 6, 3500),
        cut(-300, 390, 1200, 410),
        cut(3, 2990, 4, 3010),
        cut(99, 100, 100, 99),
        cut(40, 50, 41, 50),
        cut(-5000, 7000, -5001, 6998),
        cut(20000, 3, 20000, 4),
    ];
    let mut cutting = 0;
    for polygon in &polygons {
        let bounds = calculate_bounds(polygon);
        for c in &cuts {
            let reach = box_reach(bounds, c.start);
            if find_polygon_intersections(polygon, c.start, c.end) >= 2 {
                cutting += 1;
            }
            let left = build_half_plane_rect(c.start, c.end, true, reach);
            let right = build_half_plane_rect(c.start, c.end, false, reach);
            for v in polygon {
                assert!(in_quad(&left, *v) || in_quad(&right, *v));
            }
        }
    }
    assert!(cutting >= 6);
}

/// How far `v` lies to the left of the line from `a` to `b`.
fn aside(a: Point, b: Point, v: Point) -> i128 {
    (b.x - a.x) as i128 * (v.y - a.y) as i128 - (b.y - a.y) as i128 * (v.x - a.x) as i128
}

#[test]
fn side_rectangles_keep_to_their_sides() {
    let cuts = [cut(-50, 50, 150, 50), cut(0, 0, 1, 3), cut(40, 50, 41, 50), cut(9, -4, -7, 12)];
    for c in &cuts {
        for reach in [1i64, 10, 200, 5170] {
            let left = build_half_plane_rect(c.start, c.end, true, reach);
            let right = build_half_plane_rect(c.start, c.end, false, reach);
            // The first side of both lies on the line of the cut.
            assert_eq!(left[0], right[0]);
            assert_eq!(left[1], right[1]);
            assert_eq!(aside(c.start, c.end, left[0]), 0);
            assert_eq!(aside(c.start, c.end, left[1]), 0);
            for corner in &left[2..] {
                assert!(aside(c.start, c.end, *corner) > 0);
            }
            for corner in &right[2..] {
                assert!(aside(c.start, c.end, *corner) < 0);
            }
        }
    }
}

#[test]
fn a_line_clear_of_the_polygon_crosses_no_edge() {
    let polygon = vec![pt(0, 0), pt(900, 40), pt(1000, 700), pt(300, 990), pt(-200, 400)];
    let clear = [cut(-300, 0, -300, 1), cut(0, -1, 900, 39), cut(2000, 0, 1000, 2000)];
    for c in &clear {
        let sides: Vec<i128> = polygon.iter().map(|v| aside(c.start, c.end, *v)).collect();
        assert!(sides.iter().all(|s| *s > 0) || sides.iter().all(|s| *s < 0));
        assert_eq!(find_polygon_intersections(&polygon, c.start, c.end), 0);
        assert_eq!(bisect_outer(&polygon, c.start, c.end), vec![polygon.clone()]);
    }
}
