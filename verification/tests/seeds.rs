use cutout::fracture::geometry::Rect;
use cutout::fracture::poisson::{Attempt, PoissonSampler};
use cutout::fracture::scatter::{RandomSampler, ATTEMPTS_PER_SEED};
use cutout::fracture::seeds::{is_far_enough, Rng, SeedSet, MAX_SPACING};
use cutout::fracture::Point;

fn pt(x: i64, y: i64) -> Point {
    Point { x, y }
}

fn square(side: i64) -> Vec<Point> {
    vec![pt(0, 0), pt(side, 0), pt(side, side), pt(0, side)]
}

fn squared_distance(a: Point, b: Point) -> i128 {
    let dx = (a.x - b.x) as i128;
    let dy = (a.y - b.y) as i128;
    dx * dx + dy * dy
}

fn all_spaced(points: &[Point], min_distance: i64) -> bool {
    let least = min_distance as i128 * min_distance as i128;
    (0..points.len())
        .all(|i| (i + 1..points.len()).all(|j| squared_distance(points[i], points[j]) >= least))
}

#[test]
fn far_enough_compares_squared_distances() {
    let existing = vec![pt(0, 0), pt(10, 0)];
    assert!(is_far_enough(pt(5, 5), &existing, 7));
    // (5, 5) is the square root of 50 from both.
    assert!(!is_far_enough(pt(5, 5), &existing, 8));
    assert!(is_far_enough(pt(3, 4), &existing, 5));
    assert!(!is_far_enough(pt(3, 4), &existing, 6));
    assert!(is_far_enough(pt(0, 0), &existing, 0));
    assert!(!is_far_enough(pt(0, 0), &existing, 1));
    assert!(is_far_enough(pt(0, 0), &Vec::new(), MAX_SPACING));
}

#[test]
fn seed_set_accepts_inside_and_apart() {
    let polygon = square(100);
    let mut seeds = SeedSet::new(&polygon, 10);
    assert_eq!(seeds.min_distance(), 10);
    assert!(seeds.offer(pt(50, 50)));
    // Outside the polygon.
    assert!(!seeds.offer(pt(150, 50)));
    // Too near.
    assert!(!seeds.offer(pt(56, 57)));
    // Exactly at the distance.
    assert!(seeds.offer(pt(56, 58)));
    assert!(seeds.offer(pt(10, 10)));
    assert_eq!(seeds.len(), 3);
    assert_eq!(seeds.points(), &vec![pt(50, 50), pt(56, 58), pt(10, 10)]);
    assert_eq!(seeds.get(1), Some(pt(56, 58)));
    assert_eq!(seeds.get(3), None);
    assert!(all_spaced(seeds.points(), 10));
}

#[test]
fn seed_set_refuses_without_a_polygon() {
    let mut seeds = SeedSet::new(&Vec::new(), 0);
    assert!(!seeds.offer(pt(0, 0)));
    let mut seeds = SeedSet::new(&vec![pt(-5, -5), pt(5, 5)], 0);
    assert!(!seeds.offer(pt(0, 0)));
    assert_eq!(seeds.len(), 0);
    // A polygon too far out to compute with accepts nothing.
    let far = vec![pt(0, 0), pt(i64::MAX, 0), pt(0, i64::MAX)];
    let mut seeds = SeedSet::new(&far, 0);
    assert!(!seeds.offer(pt(1, 1)));
    assert_eq!(SeedSet::new(&far, -3).min_distance(), 0);
    assert_eq!(SeedSet::new(&far, i64::MAX).min_distance(), MAX_SPACING);
}

#[test]
fn sampler_starts_with_the_first_candidate() {
    let polygon = square(100);
    let sampler = PoissonSampler::new(5, 10, 3, pt(50, 50), &polygon);
    assert_eq!(sampler.points(), &vec![pt(50, 50)]);
    let outside = PoissonSampler::new(5, 10, 3, pt(500, 50), &polygon);
    assert_eq!(outside.len(), 0);
    // Without a first seed there is no frontier, and sampling is over.
    let mut outside = outside;
    let mut rng = Rng::new(1);
    assert_eq!(outside.next_parent(&mut rng), None);
    assert_eq!(rng.next_u64(), 1082269761);
}

#[test]
fn sampler_round_accepts_or_gives_up() {
    let polygon = square(100);
    let bounds = Rect { min: pt(0, 0), max: pt(100, 100) };
    let mut rng = Rng::new(7);
    let mut sampler = PoissonSampler::new(3, 10, 2, pt(50, 50), &polygon);
    assert_eq!(sampler.offer(pt(70, 50), bounds), Attempt::NoRound);
    assert_eq!(sampler.next_parent(&mut rng), Some(pt(50, 50)));
    // Too near, then accepted.
    assert_eq!(sampler.offer(pt(55, 50), bounds), Attempt::Rejected);
    assert_eq!(sampler.offer(pt(70, 50), bounds), Attempt::Accepted);
    assert_eq!(sampler.offer(pt(90, 50), bounds), Attempt::NoRound);
    assert_eq!(sampler.len(), 2);
    // The next round tries one of the two seeds; both candidates fail.
    let parent = sampler.next_parent(&mut rng).unwrap();
    assert!(parent == pt(50, 50) || parent == pt(70, 50));
    assert_eq!(sampler.offer(pt(50, 51), bounds), Attempt::Rejected);
    assert_eq!(sampler.offer(pt(500, 500), bounds), Attempt::GaveUp);
    // The other seed is all that is left of the frontier.
    let other = sampler.next_parent(&mut rng).unwrap();
    assert!(other != parent);
    // Inside the polygon but not in the bounds.
    let narrow = Rect { min: pt(0, 0), max: pt(60, 60) };
    assert_eq!(sampler.offer(pt(90, 90), narrow), Attempt::Rejected);
    assert_eq!(sampler.offer(pt(90, 90), bounds), Attempt::Accepted);
    // Three seeds were asked for.
    assert_eq!(sampler.len(), 3);
    assert_eq!(sampler.next_parent(&mut rng), None);
}

#[test]
fn sampler_stops_when_the_attempts_are_used_up() {
    let polygon = square(100);
    let bounds = Rect { min: pt(0, 0), max: pt(100, 100) };
    let mut rng = Rng::new(3);
    // Two seeds with one attempt each: two attempts in all.
    let mut sampler = PoissonSampler::new(2, 200, 1, pt(50, 50), &polygon);
    assert_eq!(sampler.next_parent(&mut rng), Some(pt(50, 50)));
    assert_eq!(sampler.offer(pt(60, 60), bounds), Attempt::GaveUp);
    assert_eq!(sampler.next_parent(&mut rng), None);
    // No attempts at all.
    let mut idle = PoissonSampler::new(5, 10, 0, pt(50, 50), &polygon);
    assert_eq!(idle.next_parent(&mut rng), None);
    assert_eq!(idle.len(), 1);
}

#[test]
fn sampled_seeds_keep_their_distance() {
    let polygon = square(1000);
    let bounds = Rect { min: pt(0, 0), max: pt(1000, 1000) };
    for seed in [1i64, 2, 3, 99] {
        let mut rng = Rng::new(seed);
        let mut sampler = PoissonSampler::new(40, 120, 8, pt(500, 500), &polygon);
        let mut rounds = 0;
        while let Some(parent) = sampler.next_parent(&mut rng) {
            rounds += 1;
            loop {
                // A candidate in a square ring round the parent.
                let dx = (rng.rand_fraction() % 481) as i64 - 240;
                let dy = (rng.rand_fraction() % 481) as i64 - 240;
                let candidate = pt(parent.x + dx, parent.y + dy);
                match sampler.offer(candidate, bounds) {
                    Attempt::Rejected => continue,
                    _ => break,
                }
            }
        }
        assert!(rounds > 0);
        assert!(sampler.len() > 1);
        assert!(sampler.len() <= 40);
        assert!(all_spaced(sampler.points(), 120));
    }
}

#[test]
fn sampler_opens_no_round_once_the_target_is_met() {
    let polygon = square(100);
    let bounds = Rect { min: pt(0, 0), max: pt(100, 100) };
    let mut rng = Rng::new(5);
    // One seed asked for, and the first candidate is it.
    let mut single = PoissonSampler::new(1, 10, 4, pt(50, 50), &polygon);
    assert_eq!(single.next_parent(&mut rng), None);
    assert_eq!(single.offer(pt(80, 80), bounds), Attempt::NoRound);
    assert_eq!(single.points(), &vec![pt(50, 50)]);
    // None asked for: not even the first candidate is taken.
    let mut none = PoissonSampler::new(0, 10, 4, pt(50, 50), &polygon);
    assert_eq!(none.next_parent(&mut rng), None);
    assert_eq!(none.offer(pt(80, 80), bounds), Attempt::NoRound);
    assert_eq!(none.len(), 0);
    // The draws were left alone.
    assert_eq!(rng.next_u64(), Rng::new(5).next_u64());
}

#[test]
fn random_placement_stops_at_its_target() {
    let polygon = square(1000);
    let mut sampler = RandomSampler::new(3, 100, &polygon);
    assert!(sampler.wants_candidate());
    assert!(sampler.offer(pt(100, 100)));
    // Too near, and outside.
    assert!(!sampler.offer(pt(150, 150)));
    assert!(!sampler.offer(pt(2000, 100)));
    assert!(sampler.offer(pt(500, 500)));
    assert!(sampler.wants_candidate());
    assert!(sampler.offer(pt(900, 900)));
    assert_eq!(sampler.len(), 3);
    // The run is over: a good candidate changes nothing.
    assert!(!sampler.wants_candidate());
    assert!(!sampler.offer(pt(100, 900)));
    assert_eq!(sampler.points(), &vec![pt(100, 100), pt(500, 500), pt(900, 900)]);
    assert!(all_spaced(sampler.points(), 100));
}

#[test]
fn random_placement_stops_when_the_attempts_are_used_up() {
    let polygon = square(1000);
    let mut sampler = RandomSampler::new(2, 100, &polygon);
    assert!(sampler.offer(pt(500, 500)));
    let mut offered = 1;
    while sampler.wants_candidate() {
        assert!(!sampler.offer(pt(510, 510)));
        offered += 1;
    }
    // Ten attempts for every seed asked for.
    assert_eq!(ATTEMPTS_PER_SEED, 10);
    assert_eq!(offered, 20);
    assert!(!sampler.offer(pt(900, 900)));
    assert_eq!(sampler.points(), &vec![pt(500, 500)]);
    // No seeds asked for: no attempts.
    let mut idle = RandomSampler::new(0, 100, &polygon);
    assert!(!idle.wants_candidate());
    assert!(!idle.offer(pt(500, 500)));
    assert_eq!(idle.len(), 0);
    // A count whose attempts do not fit still starts a run.
    let mut huge = RandomSampler::new(usize::MAX, 100, &polygon);
    assert!(huge.wants_candidate());
    assert!(huge.offer(pt(500, 500)));
}

#[test]
fn random_placement_draws_the_same_seeds_from_the_same_seed() {
    let polygon = vec![pt(0, 0), pt(1000, 0), pt(1000, 1000), pt(500, 300), pt(0, 1000)];
    let run = |seed: i64| -> Vec<Point> {
        let mut rng = Rng::new(seed);
        let mut sampler = RandomSampler::new(12, 90, &polygon);
        while sampler.wants_candidate() {
            let x = (rng.rand_fraction() % 1001) as i64;
            let y = (rng.rand_fraction() % 1001) as i64;
            sampler.offer(pt(x, y));
        }
        sampler.points().clone()
    };
    let first = run(42);
    assert_eq!(first, run(42));
    assert_ne!(first, run(43));
    assert!(!first.is_empty() && first.len() <= 12);
    assert!(all_spaced(&first, 90));
}
