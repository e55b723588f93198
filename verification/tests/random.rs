use cutout::fracture::seeds::{Rng, FRACTION_SCALE};
use cutout::fracture::slice::{SimpleRng, SlicePattern};

#[test]
fn seed_generator_draws_known_numbers() {
    let mut rng = Rng::new(1);
    assert_eq!(rng.next_u64(), 1082269761);
    assert_eq!(rng.next_u64(), 1152992998833853505);
    assert_eq!(rng.next_u64(), 11177516664432764457);
    let mut rng = Rng::new(42);
    assert_eq!(rng.next_u64(), 45454805674);
    assert_eq!(rng.next_u64(), 11532217803599905471);
}

#[test]
fn seed_zero_and_negative_seeds_move() {
    let mut rng = Rng::new(0);
    assert_eq!(rng.next_u64(), 2872271934144653387);
    assert_eq!(rng.next_u64(), 11715614644502221531);
    let mut rng = Rng::new(-1);
    assert_eq!(rng.next_u64(), 1065361344);
    assert_eq!(rng.next_u64(), 1152851127339773951);
    let mut rng = Rng::new(-5);
    assert_eq!(rng.next_u64(), 5327331012);
}

#[test]
fn fractions_are_the_top_bits() {
    let mut rng = Rng::new(0);
    assert_eq!(rng.rand_fraction(), 2612316);
    assert_eq!(rng.rand_fraction(), 10655289);
    assert_eq!(rng.rand_fraction(), 6878619);
    let mut rng = Rng::new(42);
    assert_eq!(rng.rand_fraction(), 0);
    assert_eq!(rng.rand_fraction(), 10488490);
    for _ in 0..1000 {
        assert!((rng.rand_fraction() as u64) < FRACTION_SCALE);
    }
}

#[test]
fn ranged_draws_are_remainders() {
    let mut rng = Rng::new(42);
    assert_eq!(rng.randi_range(7), 5);
    assert_eq!(rng.randi_range(7), 3);
    assert_eq!(rng.randi_range(7), 2);
    for _ in 0..1000 {
        assert!(rng.randi_range(3) < 3);
    }
    assert_eq!(rng.randi_range(1), 0);
}

#[test]
fn same_seed_same_draws() {
    for seed in [-7i64, 0, 1, 123456789] {
        let mut a = Rng::new(seed);
        let mut b = Rng::new(seed);
        let mut c = SimpleRng::new(seed);
        let mut d = SimpleRng::new(seed);
        for _ in 0..100 {
            assert_eq!(a.next_u64(), b.next_u64());
            assert_eq!(c.next_u64(), d.next_u64());
        }
    }
}

#[test]
fn pattern_generator_draws_known_numbers() {
    let mut rng = SimpleRng::new(1);
    assert_eq!(rng.next_u64(), 9490716516683032347);
    assert_eq!(rng.next_u64(), 9011377231533407587);
    assert_eq!(rng.next_u64(), 6431486421938460222);
    let mut rng = SimpleRng::new(42);
    assert_eq!(rng.next_u64(), 18233009466235740121);
    assert_eq!(rng.next_u64(), 17231972588989448460);
}

#[test]
fn pattern_generator_uses_the_magnitude_of_the_seed() {
    let mut zero = SimpleRng::new(0);
    assert_eq!(zero.next_u64(), 9490716516683032347);
    let mut negative = SimpleRng::new(-42);
    assert_eq!(negative.next_u64(), 18233009466235740121);
    let mut least = SimpleRng::new(i64::MIN);
    assert_eq!(least.next_u64(), 12497365389719863842);
    assert_eq!(least.next_u64(), 14917685794363131745);
}

#[test]
fn pattern_numbers() {
    assert_eq!(SlicePattern::from(0), SlicePattern::Radial);
    assert_eq!(SlicePattern::from(1), SlicePattern::Parallel);
    assert_eq!(SlicePattern::from(2), SlicePattern::Grid);
    assert_eq!(SlicePattern::from(3), SlicePattern::Chaotic);
    assert_eq!(SlicePattern::from(4), SlicePattern::Chaotic);
    assert_eq!(SlicePattern::from(-1), SlicePattern::Chaotic);
}
