use cutout::fracture::clip::{
    can_clip, clipper2_difference, clipper2_intersect, is_in_clip_range, subtract_all_holes,
    subtract_hole, MAX_CLIP_COORDINATE, MAX_CLIP_POINTS,
};
use cutout::fracture::{collect_holes, copy_polygons, push_proper, Point};

fn pt(x: i64, y: i64) -> Point {
    Point { x, y }
}

fn square(x: i64, y: i64, side: i64) -> Vec<Point> {
    vec![pt(x, y), pt(x + side, y), pt(x + side, y + side), pt(x, y + side)]
}

/// Twice the signed area, by the shoelace formula.
fn doubled_area(polygon: &[Point]) -> i128 {
    let n = polygon.len();
    let mut sum: i128 = 0;
    for i in 0..n {
        let a = polygon[i];
        let b = polygon[(i + 1) % n];
        sum += a.x as i128 * b.y as i128 - b.x as i128 * a.y as i128;
    }
    sum
}

fn total_doubled_area(pieces: &[Vec<Point>]) -> i128 {
    pieces.iter().map(|p| doubled_area(p)).sum()
}

#[test]
fn intersect_overlapping_squares() {
    let pieces = clipper2_intersect(&square(0, 0, 100), &square(50, 50, 100));
    assert_eq!(
        pieces,
        vec![vec![pt(100, 100), pt(50, 100), pt(50, 50), pt(100, 50)]]
    );
}

#[test]
fn intersect_disjoint_squares_is_empty() {
    let pieces = clipper2_intersect(&square(0, 0, 100), &square(500, 500, 100));
    assert!(pieces.is_empty());
}

#[test]
fn difference_overlapping_squares() {
    let pieces = clipper2_difference(&square(0, 0, 100), &square(50, 50, 100));
    assert_eq!(
        pieces,
        vec![vec![
            pt(100, 50),
            pt(50, 50),
            pt(50, 100),
            pt(0, 100),
            pt(0, 0),
            pt(100, 0),
        ]]
    );
}

#[test]
fn difference_can_split_the_subject() {
    // A bar across the middle cuts the square in two.
    let bar = vec![pt(-50, 40), pt(150, 40), pt(150, 60), pt(-50, 60)];
    let pieces = clipper2_difference(&square(0, 0, 100), &bar);
    assert_eq!(pieces.len(), 2);
    assert_eq!(total_doubled_area(&pieces), 2 * 100 * 80);
}

#[test]
fn out_of_range_polygons_are_not_clipped() {
    let far = vec![
        pt(0, 0),
        pt(MAX_CLIP_COORDINATE + 1, 0),
        pt(MAX_CLIP_COORDINATE + 1, 100),
    ];
    assert!(!is_in_clip_range(&far));
    assert!(is_in_clip_range(&square(-MAX_CLIP_COORDINATE, 0, 10)));
    assert!(!can_clip(&far, &square(0, 0, 10)));
    assert!(!can_clip(&square(0, 0, 10), &far));
    assert!(can_clip(&square(0, 0, 10), &square(5, 5, 10)));
    assert!(clipper2_intersect(&far, &square(0, 0, 10)).is_empty());
    assert_eq!(clipper2_difference(&far, &square(0, 0, 10)), vec![far.clone()]);
    let huge: Vec<Point> = (0..MAX_CLIP_POINTS as i64).map(|i| pt(i, i * i)).collect();
    assert!(!can_clip(&huge, &square(0, 0, 10)));
    assert_eq!(clipper2_difference(&huge, &square(0, 0, 10)), vec![huge.clone()]);
}

#[test]
fn subtract_with_no_holes_returns_the_fragment() {
    let fragment = square(0, 0, 100);
    assert_eq!(subtract_all_holes(&fragment, &Vec::new()), vec![fragment.clone()]);
    // Even one that the clipper would turn round or simplify.
    let odd = vec![pt(0, 0), pt(0, 100), pt(50, 100), pt(100, 100), pt(100, 0)];
    assert_eq!(subtract_all_holes(&odd, &Vec::new()), vec![odd.clone()]);
}

#[test]
fn subtract_degenerate_fragment_returns_nothing() {
    let line = vec![pt(0, 0), pt(100, 0)];
    assert!(subtract_all_holes(&line, &Vec::new()).is_empty());
}

#[test]
fn subtract_hole_equal_to_fragment_leaves_nothing() {
    let fragment = square(0, 0, 100);
    assert!(subtract_all_holes(&fragment, &vec![fragment.clone()]).is_empty());
    let larger = square(-10, -10, 200);
    assert!(subtract_all_holes(&fragment, &vec![larger]).is_empty());
}

#[test]
fn subtract_several_holes_in_turn() {
    let fragment = square(0, 0, 100);
    let left_bite = square(-10, 40, 20);
    let bar = vec![pt(50, -10), pt(60, -10), pt(60, 110), pt(50, 110)];
    let pieces = subtract_all_holes(&fragment, &vec![left_bite.clone(), bar.clone()]);
    assert_eq!(pieces.len(), 2);
    assert!(pieces.iter().all(|p| p.len() >= 3));
    let expected = 100 * 100 - 10 * 20 - 10 * 100;
    assert_eq!(total_doubled_area(&pieces), 2 * expected);
    // One hole after the other gives the same as both at once.
    let after_first = subtract_hole(&vec![fragment.clone()], &left_bite);
    let after_second = subtract_hole(&after_first, &bar);
    assert_eq!(after_second, pieces);
}

#[test]
fn hole_inside_is_kept_as_a_ring() {
    let fragment = square(0, 0, 100);
    let hole = square(40, 40, 20);
    let pieces = subtract_all_holes(&fragment, &vec![hole]);
    // Outline and hole, wound against each other.
    assert_eq!(pieces.len(), 2);
    assert_eq!(total_doubled_area(&pieces), 2 * (100 * 100 - 20 * 20));
}

#[test]
fn holes_are_the_proper_polygons_after_the_first() {
    let list = vec![
        vec![pt(0, 0), pt(1, 0)],
        square(0, 0, 10),
        vec![pt(5, 5), pt(6, 6)],
        Vec::new(),
        square(20, 20, 5),
    ];
    assert_eq!(collect_holes(&list), vec![square(0, 0, 10), square(20, 20, 5)]);
    assert!(collect_holes(&Vec::new()).is_empty());
    assert!(collect_holes(&vec![square(0, 0, 10)]).is_empty());
    assert_eq!(copy_polygons(&list), list);
    let mut kept = vec![square(1, 1, 1)];
    push_proper(&mut kept, &list);
    assert_eq!(
        kept,
        vec![square(1, 1, 1), square(0, 0, 10), square(20, 20, 5)]
    );
}

#[test]
fn degenerate_polygons_are_clipped_without_harm() {
    let square = square(0, 0, 100);
    let empty: Vec<Point> = Vec::new();
    let dot = vec![pt(5, 5)];
    let line = vec![pt(0, 0), pt(50, 50)];
    for odd in [&empty, &dot, &line] {
        assert_eq!(total_doubled_area(&clipper2_intersect(odd, &square)), 0);
        assert!(clipper2_intersect(&square, odd).is_empty());
        let left = clipper2_difference(&square, odd);
        assert_eq!(total_doubled_area(&left).abs(), 2 * 100 * 100);
        assert!(total_doubled_area(&clipper2_difference(odd, &square)) == 0);
    }
    assert!(clipper2_intersect(&empty, &empty).is_empty());
}
