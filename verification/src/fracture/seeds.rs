//! The seed points of a Voronoi fracture.
//!
//! Seed points are placed with a small random generator of its own, so that
//! a fracture can be repeated: what the generator yields depends on its seed
//! alone. A candidate becomes a seed only if it lies inside the polygon and
//! keeps its distance from every seed before it.

use crate::fracture::half_plane::{
    is_measurable, is_measurable_point, measurable, measurable_point, squared_distance,
};
use crate::fracture::inside::{inside, point_in_polygon};
use crate::fracture::Point;
use vstd::prelude::*;

verus! {

/// The state that stands in for the seed 0, which would never move.
pub const ZERO_SEED_STATE: u64 = 0xDEAD_BEEF_CAFE_BABE;

/// Number of random bits in a random fraction.
pub const FRACTION_BITS: u32 = 24;

/// One more than the largest numerator of a random fraction.
pub const FRACTION_SCALE: u64 = 0x100_0000;

/// One step of the generator: three shifts, each folded back in.
pub open spec fn xorshift(state: u64) -> u64 {
    let a = state ^ (state << 13);
    let b = a ^ (a >> 7);
    b ^ (b << 17)
}

/// The state that a seed stands for: its 64 bits read as a number without
/// sign, or a fixed state for the seed 0.
pub open spec fn seed_state(seed: i64) -> u64 {
    if seed == 0 {
        ZERO_SEED_STATE
    } else if seed < 0 {
        (seed + 0x1_0000_0000_0000_0000) as u64
    } else {
        seed as u64
    }
}

/// The state of a generator `draws` draws after `state`.
pub open spec fn state_after(state: u64, draws: nat) -> u64
    decreases draws,
{
    if draws == 0 {
        state
    } else {
        xorshift(state_after(state, (draws - 1) as nat))
    }
}

/// The numerator of the random fraction that a drawn number stands for: its
/// top 24 bits.
pub open spec fn fraction_of(value: u64) -> u64 {
    value >> 40
}

/// A step never turns a state other than 0 into 0, so a generator never
/// gets stuck.
pub proof fn lemma_xorshift_keeps_going(state: u64)
    requires
        state != 0,
    ensures
        xorshift(state) != 0,
{
    let a = state ^ (state << 13);
    let b = a ^ (a >> 7);
    assert(a != 0) by (bit_vector)
        requires
            state != 0,
            a == state ^ (state << 13),
    ;
    assert(b != 0) by (bit_vector)
        requires
            a != 0,
            b == a ^ (a >> 7),
    ;
    assert((b ^ (b << 17)) != 0) by (bit_vector)
        requires
            b != 0,
    ;
}

/// A random fraction has a numerator below its scale.
pub proof fn lemma_fraction_in_range(value: u64)
    ensures
        fraction_of(value) < FRACTION_SCALE,
{
    assert((value >> 40) < 0x100_0000u64) by (bit_vector);
}

/// Equal seeds give equal generators, and equal generators draw equal
/// numbers for ever.
pub proof fn lemma_same_seed_same_draws(first: i64, second: i64, draws: nat)
    requires
        first == second,
    ensures
        seed_state(first) == seed_state(second),
        state_after(seed_state(first), draws) == state_after(seed_state(second), draws),
{
}

/// The generator behind the seed points.
pub struct Rng {
    state: u64,
}

impl Rng {
    /// The current state.
    pub closed spec fn state(&self) -> u64 {
        self.state
    }

    /// A generator for the given seed.
    pub fn new(seed: i64) -> (rng: Self)
        ensures
            rng.state() == seed_state(seed),
            rng.state() != 0,
    {
        let state: u64 = if seed == 0 {
            ZERO_SEED_STATE
        } else if seed < 0 {
            ((seed + i64::MAX + 1) as u64) + 0x8000_0000_0000_0000
        } else {
            seed as u64
        };
        Rng { state }
    }

    /// Draws the next number: the state after one more step. A generator
    /// that was made for a seed never draws 0.
    pub fn next_u64(&mut self) -> (value: u64)
        ensures
            value == xorshift(old(self).state()),
            final(self).state() == value,
            old(self).state() != 0 ==> value != 0,
    {
        proof {
            if self.state != 0 {
                lemma_xorshift_keeps_going(self.state);
            }
        }
        let a = self.state ^ (self.state << 13);
        let b = a ^ (a >> 7);
        self.state = b ^ (b << 17);
        self.state
    }

    /// Draws the numerator of a random fraction: a number below
    /// `FRACTION_SCALE`, which divided by it gives a fraction from 0 up to,
    /// and without, 1.
    pub fn rand_fraction(&mut self) -> (numerator: u32)
        ensures
            numerator == fraction_of(xorshift(old(self).state())),
            numerator < FRACTION_SCALE,
            final(self).state() == xorshift(old(self).state()),
    {
        let value = self.next_u64();
        proof {
            lemma_fraction_in_range(value);
        }
        (value >> 40) as u32
    }

    /// Draws a number from 0 up to, and without, `max`.
    pub fn randi_range(&mut self, max: usize) -> (value: usize)
        requires
            max > 0,
        ensures
            value == (xorshift(old(self).state()) as usize) % max,
            value < max,
            final(self).state() == xorshift(old(self).state()),
    {
        let drawn = self.next_u64();
        (#[verifier::truncate] (drawn as usize)) % max
    }
}

/// Largest distance that seeds can be asked to keep.
pub const MAX_SPACING: i64 = 0x100_0000_0000;

/// Whether `point` is at least `min_distance` away from each of `existing`.
pub open spec fn far_enough(point: Point, existing: Seq<Point>, min_distance: int) -> bool {
    forall|i: int|
        0 <= i < existing.len() ==> squared_distance(point, #[trigger] existing[i]) >= min_distance
            * min_distance
}

/// Whether any two of the points are at least `min_distance` apart.
pub open spec fn spaced(points: Seq<Point>, min_distance: int) -> bool {
    forall|i: int, j: int|
        0 <= i < j < points.len() ==> squared_distance(#[trigger] points[i], #[trigger] points[j])
            >= min_distance * min_distance
}

/// Tells whether a point is at least `min_distance` away from every
/// existing point. Distances are compared by their squares.
pub fn is_far_enough(point: Point, existing: &Vec<Point>, min_distance: i64) -> (ok: bool)
    requires
        measurable_point(point),
        measurable(existing@),
        0 <= min_distance <= MAX_SPACING,
    ensures
        ok == far_enough(point, existing@, min_distance as int),
{
    let least: i128 = min_distance as i128;
    assert(0 <= least * least <= 0x1_0000_0000_0000_0000_0000) by (nonlinear_arith)
        requires
            0 <= least <= 0x100_0000_0000,
    ;
    let least_squared: i128 = least * least;
    let mut i: usize = 0;
    while i < existing.len()
        invariant
            i <= existing@.len(),
            measurable_point(point),
            measurable(existing@),
            least_squared == min_distance * min_distance,
            far_enough(point, existing@.take(i as int), min_distance as int),
        decreases existing@.len() - i,
    {
        let other = existing[i];
        let dx: i128 = point.x as i128 - other.x as i128;
        let dy: i128 = point.y as i128 - other.y as i128;
        assert(0 <= dx * dx <= 0x4000_0000_0000_0000_0000) by (nonlinear_arith)
            requires
                -0x80_0000_0000 <= dx <= 0x80_0000_0000,
        ;
        assert(0 <= dy * dy <= 0x4000_0000_0000_0000_0000) by (nonlinear_arith)
            requires
                -0x80_0000_0000 <= dy <= 0x80_0000_0000,
        ;
        if dx * dx + dy * dy < least_squared {
            assert(!far_enough(point, existing@, min_distance as int)) by {
                assert(squared_distance(point, existing@[i as int]) < min_distance * min_distance);
            }
            return false;
        }
        assert forall|k: int| 0 <= k < i + 1 implies squared_distance(
            point,
            #[trigger] existing@.take(i + 1)[k],
        ) >= min_distance * min_distance by {
            if k < i {
                assert(existing@.take(i + 1)[k] == existing@.take(i as int)[k]);
            }
        }
        i += 1;
    }
    assert(existing@.take(existing@.len() as int) =~= existing@);
    true
}

/// The distance that seeds keep when asked for `min_distance`: a distance
/// below 0 counts as 0, and one above `MAX_SPACING` as `MAX_SPACING`.
pub open spec fn clamped_spacing(min_distance: i64) -> int {
    if min_distance < 0 {
        0
    } else if min_distance > MAX_SPACING {
        MAX_SPACING as int
    } else {
        min_distance as int
    }
}

/// Seed points inside a polygon that keep their distance from one another.
pub struct SeedSet {
    outline: Vec<Point>,
    usable: bool,
    points: Vec<Point>,
    min_distance: i64,
}

impl SeedSet {
    /// The polygon inside which the seeds lie.
    pub closed spec fn outline(&self) -> Seq<Point> {
        self.outline@
    }

    /// The seeds, in the order in which they were accepted.
    pub closed spec fn seeds(&self) -> Seq<Point> {
        self.points@
    }

    /// The distance that any two seeds keep.
    pub closed spec fn spacing(&self) -> int {
        self.min_distance as int
    }

    /// Whether the set is what it claims to be: geometry can be computed on
    /// every seed, every seed lies inside the polygon, and any two seeds
    /// are at least `spacing` apart.
    pub closed spec fn wf(&self) -> bool {
        &&& 0 <= self.min_distance <= MAX_SPACING
        &&& self.usable == measurable(self.outline@)
        &&& measurable(self.points@)
        &&& spaced(self.points@, self.min_distance as int)
        &&& forall|i: int| 0 <= i < self.points@.len() ==> inside(#[trigger] self.points@[i], self.outline@)
    }

    /// Whether `candidate` would be accepted: geometry can be computed on
    /// it and on the polygon, it lies inside the polygon, and it is far
    /// enough from every seed.
    pub open spec fn accepts(&self, candidate: Point) -> bool {
        &&& measurable_point(candidate)
        &&& measurable(self.outline())
        &&& inside(candidate, self.outline())
        &&& far_enough(candidate, self.seeds(), self.spacing())
    }

    /// An empty set for seeds inside `polygon` that keep `min_distance`.
    pub fn new(polygon: &Vec<Point>, min_distance: i64) -> (set: Self)
        ensures
            set.wf(),
            set.outline() == polygon@,
            set.seeds() == Seq::<Point>::empty(),
            set.spacing() == clamped_spacing(min_distance),
    {
        let min_distance: i64 = if min_distance < 0 {
            0
        } else if min_distance > MAX_SPACING {
            MAX_SPACING
        } else {
            min_distance
        };
        let mut outline: Vec<Point> = Vec::with_capacity(polygon.len());
        let mut i: usize = 0;
        while i < polygon.len()
            invariant
                i <= polygon@.len(),
                outline@ == polygon@.take(i as int),
            decreases polygon@.len() - i,
        {
            outline.push(polygon[i]);
            assert(polygon@.take(i + 1) =~= polygon@.take(i as int).push(polygon@[i as int]));
            i += 1;
        }
        assert(polygon@.take(polygon@.len() as int) =~= polygon@);
        let usable = is_measurable(&outline);
        SeedSet { outline, usable, points: Vec::new(), min_distance }
    }

    /// The number of seeds.
    pub fn len(&self) -> (count: usize)
        ensures
            count == self.seeds().len(),
    {
        self.points.len()
    }

    /// The distance that any two seeds keep.
    pub fn min_distance(&self) -> (distance: i64)
        ensures
            distance == self.spacing(),
    {
        self.min_distance
    }

    /// The seed with the given number.
    pub fn get(&self, index: usize) -> (seed: Option<Point>)
        ensures
            seed == (if index < self.seeds().len() {
                Some(self.seeds()[index as int])
            } else {
                None
            }),
    {
        if index < self.points.len() {
            Some(self.points[index])
        } else {
            None
        }
    }

    /// The seeds, in the order in which they were accepted.
    pub fn points(&self) -> (points: &Vec<Point>)
        ensures
            points@ == self.seeds(),
    {
        &self.points
    }

    /// Offers a candidate. It becomes the next seed if it lies inside the
    /// polygon and is far enough from every seed; else nothing changes.
    pub fn offer(&mut self, candidate: Point) -> (accepted: bool)
        requires
            old(self).wf(),
        ensures
            final(self).wf(),
            final(self).spacing() == old(self).spacing(),
            final(self).outline() == old(self).outline(),
            accepted == old(self).accepts(candidate),
            accepted ==> final(self).seeds() == old(self).seeds().push(candidate),
            !accepted ==> final(self).seeds() == old(self).seeds(),
    {
        if !self.usable || !is_measurable_point(candidate) {
            return false;
        }
        if !point_in_polygon(candidate, &self.outline) {
            return false;
        }
        if !is_far_enough(candidate, &self.points, self.min_distance) {
            return false;
        }
        let ghost before = self.points@;
        self.points.push(candidate);
        proof {
            let d = self.min_distance as int;
            assert forall|i: int, j: int| 0 <= i < j < self.points@.len() implies squared_distance(
                #[trigger] self.points@[i],
                #[trigger] self.points@[j],
            ) >= d * d by {
                if j < before.len() {
                    assert(squared_distance(before[i], before[j]) >= d * d);
                } else {
                    assert(squared_distance(candidate, before[i]) >= d * d);
                    assert(squared_distance(before[i], candidate) == squared_distance(
                        candidate,
                        before[i],
                    )) by (nonlinear_arith);
                }
            }
            assert forall|i: int| 0 <= i < self.points@.len() implies inside(
                #[trigger] self.points@[i],
                self.outline@,
            ) by {
                if i < before.len() {
                    assert(self.points@[i] == before[i]);
                }
            }
        }
        true
    }
}

/// Every seed of a set lies inside the polygon of the set.
pub proof fn lemma_seeds_lie_inside(set: SeedSet, i: int)
    requires
        set.wf(),
        0 <= i < set.seeds().len(),
    ensures
        inside(set.seeds()[i], set.outline()),
{
}

/// No two seeds of a set are closer to one another than the distance that
/// the set was made to keep.
pub proof fn lemma_seeds_keep_their_distance(set: SeedSet, i: int, j: int)
    requires
        set.wf(),
        0 <= i < set.seeds().len(),
        0 <= j < set.seeds().len(),
        i != j,
    ensures
        squared_distance(set.seeds()[i], set.seeds()[j]) >= set.spacing() * set.spacing(),
{
    let p = set.seeds()[i];
    let q = set.seeds()[j];
    if i < j {
        assert(squared_distance(p, q) >= set.spacing() * set.spacing());
    } else {
        assert(squared_distance(q, p) >= set.spacing() * set.spacing());
        assert(squared_distance(p, q) == squared_distance(q, p)) by (nonlinear_arith);
    }
}

} // verus!
