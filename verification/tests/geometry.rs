use cutout::fracture::area::polygon_area;
use cutout::fracture::circle::circumcenter;
use cutout::fracture::exact::{floor_div, round_div};
use cutout::fracture::geometry::{calculate_bounds, grow_rect, rect_contains, Rect};
use cutout::fracture::half_plane::{
    clip_polygon_to_half_plane, clip_to_line, is_measurable, is_measurable_point, Line,
    MAX_COORDINATE,
};
use cutout::fracture::inside::point_in_polygon;
use cutout::fracture::Point;

fn pt(x: i64, y: i64) -> Point {
    Point { x, y }
}

fn rect(x0: i64, y0: i64, x1: i64, y1: i64) -> Vec<Point> {
    vec![pt(x0, y0), pt(x1, y0), pt(x1, y1), pt(x0, y1)]
}

fn bounds(x0: i64, y0: i64, x1: i64, y1: i64) -> Rect {
    Rect { min: pt(x0, y0), max: pt(x1, y1) }
}

#[test]
fn division_rounds_down_or_to_the_nearest() {
    assert_eq!(floor_div(7, 2), 3);
    assert_eq!(floor_div(-7, 2), -4);
    assert_eq!(floor_div(-8, 2), -4);
    assert_eq!(floor_div(0, 5), 0);
    assert_eq!(floor_div(-1, 5), -1);
    assert_eq!(round_div(7, 2), 4);
    assert_eq!(round_div(-7, 2), -3);
    assert_eq!(round_div(5, 3), 2);
    assert_eq!(round_div(4, 3), 1);
    assert_eq!(round_div(-4, 3), -1);
    assert_eq!(round_div(-5, 3), -2);
    assert_eq!(round_div(9, 3), 3);
    assert_eq!(round_div(0, 7), 0);
}

#[test]
fn area_is_doubled_and_signed() {
    // Counter-clockwise where y points up.
    assert_eq!(polygon_area(&rect(0, 0, 10, 5)), 100);
    let clockwise: Vec<Point> = rect(0, 0, 10, 5).into_iter().rev().collect();
    assert_eq!(polygon_area(&clockwise), -100);
    assert_eq!(polygon_area(&vec![pt(0, 0), pt(1, 0), pt(0, 1)]), 1);
    assert_eq!(polygon_area(&vec![pt(0, 0), pt(4, 0)]), 0);
    assert_eq!(polygon_area(&Vec::new()), 0);
    assert_eq!(polygon_area(&vec![pt(0, 0), pt(5, 5), pt(10, 10)]), 0);
    let big = rect(-MAX_COORDINATE, -MAX_COORDINATE, MAX_COORDINATE, MAX_COORDINATE);
    assert_eq!(
        polygon_area(&big),
        8 * (MAX_COORDINATE as i128) * (MAX_COORDINATE as i128)
    );
}

#[test]
fn area_ignores_the_starting_point_and_flips_with_the_winding() {
    let polygon = vec![pt(3, 1), pt(9, -2), pt(12, 7), pt(5, 11), pt(-4, 6)];
    let area = polygon_area(&polygon);
    assert_eq!(area, 221);
    for k in 0..polygon.len() {
        let mut turned = polygon.clone();
        turned.rotate_left(k);
        assert_eq!(polygon_area(&turned), area);
    }
    let back: Vec<Point> = polygon.iter().rev().cloned().collect();
    assert_eq!(polygon_area(&back), -area);
}

#[test]
fn points_inside_and_outside() {
    let square = rect(0, 0, 10, 10);
    assert!(point_in_polygon(pt(5, 5), &square));
    assert!(point_in_polygon(pt(1, 9), &square));
    assert!(!point_in_polygon(pt(11, 5), &square));
    assert!(!point_in_polygon(pt(-1, 5), &square));
    assert!(!point_in_polygon(pt(5, 11), &square));
    assert!(!point_in_polygon(pt(5, -1), &square));
    // Nothing lies inside fewer than three points.
    assert!(!point_in_polygon(pt(0, 0), &vec![pt(0, 0), pt(10, 10)]));
    assert!(!point_in_polygon(pt(0, 0), &Vec::new()));
}

#[test]
fn points_on_the_boundary_follow_the_ray_rule() {
    let square = rect(0, 0, 10, 10);
    // An edge counts from above its lower end up to its upper end, and the
    // ray runs towards larger x and crosses an edge that it starts on.
    assert!(!point_in_polygon(pt(0, 5), &square));
    assert!(point_in_polygon(pt(10, 5), &square));
    assert!(!point_in_polygon(pt(5, 0), &square));
    assert!(point_in_polygon(pt(5, 10), &square));
}

#[test]
fn points_in_a_concave_polygon() {
    // A "U": the notch between the arms is outside.
    let u = vec![
        pt(0, 0),
        pt(30, 0),
        pt(30, 30),
        pt(20, 30),
        pt(20, 10),
        pt(10, 10),
        pt(10, 30),
        pt(0, 30),
    ];
    assert!(point_in_polygon(pt(5, 20), &u));
    assert!(point_in_polygon(pt(25, 20), &u));
    assert!(point_in_polygon(pt(15, 5), &u));
    assert!(!point_in_polygon(pt(15, 20), &u));
    let triangle = vec![pt(0, 0), pt(100, 0), pt(0, 100)];
    assert!(point_in_polygon(pt(49, 50), &triangle));
    assert!(!point_in_polygon(pt(51, 50), &triangle));
}

#[test]
fn measurable_means_inside_the_coordinate_range() {
    assert!(is_measurable_point(pt(MAX_COORDINATE, -MAX_COORDINATE)));
    assert!(!is_measurable_point(pt(MAX_COORDINATE + 1, 0)));
    assert!(!is_measurable_point(pt(0, -MAX_COORDINATE - 1)));
    assert!(is_measurable(&Vec::new()));
    assert!(is_measurable(&rect(0, 0, MAX_COORDINATE, 1)));
    assert!(!is_measurable(&rect(0, 0, MAX_COORDINATE + 1, 1)));
}

#[test]
fn clip_keeps_a_polygon_on_the_kept_side() {
    let polygon = vec![pt(1, 1), pt(9, 2), pt(8, 8), pt(2, 7)];
    // The half plane x >= 0 holds all of it; x >= 1 holds it with a point on
    // the border.
    assert_eq!(clip_polygon_to_half_plane(&polygon, pt(0, 0), pt(1, 0)), polygon);
    assert_eq!(clip_polygon_to_half_plane(&polygon, pt(1, 0), pt(1, 0)), polygon);
    assert_eq!(clip_polygon_to_half_plane(&polygon, pt(0, 100), pt(0, -3)), polygon);
}

#[test]
fn clip_drops_a_polygon_on_the_other_side() {
    let polygon = vec![pt(1, 1), pt(9, 2), pt(8, 8), pt(2, 7)];
    assert!(clip_polygon_to_half_plane(&polygon, pt(10, 0), pt(1, 0)).is_empty());
    assert!(clip_polygon_to_half_plane(&polygon, pt(0, 0), pt(-1, 0)).is_empty());
    assert!(clip_polygon_to_half_plane(&polygon, pt(0, 0), pt(-1, -1)).is_empty());
}

#[test]
fn clip_of_fewer_than_three_points_is_empty() {
    assert!(clip_polygon_to_half_plane(&vec![pt(1, 1), pt(2, 2)], pt(0, 0), pt(1, 0)).is_empty());
    assert!(clip_polygon_to_half_plane(&Vec::new(), pt(0, 0), pt(1, 0)).is_empty());
}

#[test]
fn clip_adds_the_crossing_points() {
    let square = rect(0, 0, 10, 10);
    // Keep x >= 4.
    let kept = clip_polygon_to_half_plane(&square, pt(4, 0), pt(1, 0));
    assert_eq!(kept, vec![pt(4, 0), pt(10, 0), pt(10, 10), pt(4, 10)]);
    // Keep x <= 4.
    let kept = clip_polygon_to_half_plane(&square, pt(4, 0), pt(-1, 0));
    assert_eq!(kept, vec![pt(0, 0), pt(4, 0), pt(4, 10), pt(0, 10)]);
    // Keep y <= x: the border runs through two corners. Both are kept, and
    // both are the crossing point of an edge that leads to the other side.
    let kept = clip_polygon_to_half_plane(&square, pt(0, 0), pt(1, -1));
    assert_eq!(
        kept,
        vec![pt(0, 0), pt(10, 0), pt(10, 10), pt(10, 10), pt(0, 0)]
    );
}

#[test]
fn crossing_points_are_rounded_to_the_nearest() {
    let triangle = vec![pt(0, 0), pt(10, 0), pt(0, 3)];
    // Keep x >= 5: the slanted edge is crossed at (5, 1.5), which goes up.
    let kept = clip_polygon_to_half_plane(&triangle, pt(5, 0), pt(1, 0));
    assert_eq!(kept, vec![pt(5, 0), pt(10, 0), pt(5, 2)]);
    // Keep x >= 7: crossed at (7, 0.9).
    let kept = clip_polygon_to_half_plane(&triangle, pt(7, 0), pt(1, 0));
    assert_eq!(kept, vec![pt(7, 0), pt(10, 0), pt(7, 1)]);
}

#[test]
fn bisector_keeps_the_nearer_side() {
    let square = rect(0, 0, 100, 100);
    let kept = clip_to_line(&square, Line::bisector(pt(25, 50), pt(75, 50)));
    assert_eq!(kept, vec![pt(0, 0), pt(50, 0), pt(50, 100), pt(0, 100)]);
    let kept = clip_to_line(&square, Line::bisector(pt(75, 50), pt(25, 50)));
    assert_eq!(kept, vec![pt(50, 0), pt(100, 0), pt(100, 100), pt(50, 100)]);
    // Between two equal points there is no line, and everything is kept.
    let kept = clip_to_line(&square, Line::bisector(pt(5, 5), pt(5, 5)));
    assert_eq!(kept, square);
    let line = Line::through(pt(3, 4), pt(2, -1));
    assert_eq!(line, Line { a: 2, b: -1, c: 2 });
}

#[test]
fn boxes_grow_and_shrink() {
    let b = bounds(10, 20, 110, 60);
    assert_eq!(grow_rect(b, 5), bounds(5, 15, 115, 65));
    assert_eq!(grow_rect(b, 0), b);
    assert_eq!(grow_rect(b, -10), bounds(20, 30, 100, 50));
    // Shrunk by more than half its height, the box is left without height,
    // at its shifted corner.
    assert_eq!(grow_rect(b, -20), bounds(30, 40, 90, 40));
    assert_eq!(grow_rect(b, -30), bounds(40, 50, 80, 50));
    assert_eq!(grow_rect(b, -60), bounds(70, 80, 70, 80));
    assert!(rect_contains(b, pt(10, 20)));
    assert!(rect_contains(b, pt(110, 60)));
    assert!(rect_contains(b, pt(50, 50)));
    assert!(!rect_contains(b, pt(9, 50)));
    assert!(!rect_contains(b, pt(50, 61)));
    assert_eq!(calculate_bounds(&rect(10, 20, 110, 60)), b);
}

#[test]
fn circle_through_three_points() {
    assert_eq!(circumcenter(pt(0, 0), pt(10, 0), pt(0, 10)), Some(pt(5, 5)));
    // The other way round.
    assert_eq!(circumcenter(pt(0, 0), pt(0, 10), pt(10, 0)), Some(pt(5, 5)));
    assert_eq!(circumcenter(pt(-4, 3), pt(4, 3), pt(0, -5)), Some(pt(0, 0)));
    // A centre at halves goes to the upper whole number.
    assert_eq!(circumcenter(pt(0, 0), pt(3, 0), pt(0, 3)), Some(pt(2, 2)));
    assert_eq!(circumcenter(pt(0, 0), pt(-3, 0), pt(0, -3)), Some(pt(-1, -1)));
}

#[test]
fn points_on_one_line_have_no_circle() {
    assert_eq!(circumcenter(pt(0, 0), pt(5, 5), pt(9, 9)), None);
    assert_eq!(circumcenter(pt(1, 1), pt(1, 1), pt(4, 7)), None);
    assert_eq!(circumcenter(pt(0, 0), pt(0, 0), pt(0, 0)), None);
}
