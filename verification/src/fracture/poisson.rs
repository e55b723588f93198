//! Poisson-disk sampling of seed points.
//!
//! New seeds are looked for round the seeds of a frontier. A round picks
//! one seed of the frontier at random and tries a fixed number of
//! candidates near it. The first candidate that is accepted joins the seeds
//! and the frontier; if none is, the seed that was tried leaves the
//! frontier. Sampling ends when the frontier is empty, when there are as
//! many seeds as were asked for, or when the attempts are used up.
//!
//! The caller places the candidates; this module decides what becomes of
//! them.

use crate::fracture::geometry::{in_rect, rect_contains, Rect};
use crate::fracture::half_plane::{measurable, measurable_point};
use crate::fracture::inside::inside;
use crate::fracture::seeds::{clamped_spacing, xorshift, Rng, SeedSet};
use crate::fracture::Point;
use vstd::prelude::*;

verus! {

/// What became of a candidate.
#[derive(Clone, Copy, Debug, PartialEq, Eq, Structural)]
pub enum Attempt {
    /// The candidate is a seed now, and the round is over.
    Accepted,
    /// The candidate was turned down; the round goes on.
    Rejected,
    /// The candidate was turned down as the last of its round: the seed
    /// that was tried has left the frontier.
    GaveUp,
    /// No round was under way, and nothing has changed.
    NoRound,
}

/// Whether the first candidate of a run becomes its first seed: geometry
/// can be computed on it and on the polygon, and it lies inside the polygon.
pub open spec fn first_accepted(first: Point, polygon: Seq<Point>) -> bool {
    measurable_point(first) && measurable(polygon) && inside(first, polygon)
}

/// The state of a sampling run.
pub struct PoissonSampler {
    seeds: SeedSet,
    active: Vec<usize>,
    target: usize,
    attempts_per_point: usize,
    max_total_attempts: usize,
    total_attempts: usize,
    slot: usize,
    tries: usize,
    in_round: bool,
}

/// The product of two numbers, or the largest number where it does not fit.
fn capped_product(a: usize, b: usize) -> (product: usize)
    ensures
        product == (if a * b <= usize::MAX {
            a * b
        } else {
            usize::MAX as int
        }),
{
    match a.checked_mul(b) {
        Some(product) => product,
        None => usize::MAX,
    }
}

impl PoissonSampler {
    /// The seeds found so far.
    pub closed spec fn seeds(&self) -> Seq<Point> {
        self.seeds.seeds()
    }

    /// The distance that any two seeds keep.
    pub closed spec fn spacing(&self) -> int {
        self.seeds.spacing()
    }

    /// The frontier: the numbers of the seeds round which candidates are
    /// still tried.
    pub closed spec fn frontier(&self) -> Seq<usize> {
        self.active@
    }

    /// The number of seeds asked for.
    pub closed spec fn target(&self) -> nat {
        self.target as nat
    }

    /// The number of candidates tried in one round.
    pub closed spec fn attempts_per_point(&self) -> nat {
        self.attempts_per_point as nat
    }

    /// The number of attempts after which no new round starts.
    pub closed spec fn max_total_attempts(&self) -> nat {
        self.max_total_attempts as nat
    }

    /// The number of candidates tried so far.
    pub closed spec fn total_attempts(&self) -> nat {
        self.total_attempts as nat
    }

    /// Whether a round is under way.
    pub closed spec fn in_round(&self) -> bool {
        self.in_round
    }

    /// The place in the frontier of the seed that the round tries.
    pub closed spec fn slot(&self) -> nat {
        self.slot as nat
    }

    /// The number of candidates that the round has tried.
    pub closed spec fn tries(&self) -> nat {
        self.tries as nat
    }

    /// Whether the state is sound: the seeds keep their distance and are no
    /// more than were asked for; the frontier names seeds; and a round is
    /// under way only while seeds are wanting, tries a seed of the frontier
    /// and has candidates left.
    pub closed spec fn wf(&self) -> bool {
        &&& self.seeds.wf()
        &&& self.seeds.seeds().len() <= self.target
        &&& forall|k: int|
            0 <= k < self.active@.len() ==> (#[trigger] self.active@[k]) < self.seeds.seeds().len()
        &&& self.in_round ==> self.seeds.seeds().len() < self.target && self.slot
            < self.active@.len() && self.tries < self.attempts_per_point
    }

    /// Whether no further round starts.
    pub open spec fn exhausted(&self) -> bool {
        ||| self.frontier().len() == 0
        ||| self.seeds().len() >= self.target()
        ||| self.total_attempts() >= self.max_total_attempts()
        ||| self.attempts_per_point() == 0
    }

    /// Starts a run for `target` seeds that keep `min_distance`, with
    /// `attempts_per_point` candidates in every round and `target *
    /// attempts_per_point` attempts in all. `first` is the first candidate:
    /// it becomes the first seed, and the frontier, if a seed is asked for at
    /// all and it lies inside the polygon.
    pub fn new(
        target: usize,
        min_distance: i64,
        attempts_per_point: usize,
        first: Point,
        polygon: &Vec<Point>,
    ) -> (sampler: Self)
        ensures
            sampler.wf(),
            sampler.target() == target,
            sampler.attempts_per_point() == attempts_per_point,
            sampler.max_total_attempts() == (if target * attempts_per_point <= usize::MAX {
                target * attempts_per_point
            } else {
                usize::MAX as int
            }),
            sampler.total_attempts() == 0,
            !sampler.in_round(),
            sampler.spacing() == clamped_spacing(min_distance),
            sampler.outline() == polygon@,
            target > 0 && first_accepted(first, polygon@) ==> sampler.seeds() == seq![first]
                && sampler.frontier() == seq![0usize],
            !(target > 0 && first_accepted(first, polygon@)) ==> sampler.seeds() == Seq::<
                Point,
            >::empty() && sampler.frontier() == Seq::<usize>::empty(),
    {
        let mut seeds = SeedSet::new(polygon, min_distance);
        let mut active: Vec<usize> = Vec::new();
        if target > 0 {
            if seeds.offer(first) {
                active.push(0);
                assert(seeds.seeds() =~= seq![first]);
                assert(active@ =~= seq![0usize]);
            }
        }
        PoissonSampler {
            seeds,
            active,
            target,
            attempts_per_point,
            max_total_attempts: capped_product(target, attempts_per_point),
            total_attempts: 0,
            slot: 0,
            tries: 0,
            in_round: false,
        }
    }

    /// Starts the next round and returns the seed round which to place its
    /// candidates, or `None` when sampling is over. A round that is under
    /// way is given up for the new one, without any change to the
    /// frontier.
    pub fn next_parent(&mut self, rng: &mut Rng) -> (parent: Option<Point>)
        requires
            old(self).wf(),
        ensures
            final(self).wf(),
            final(self).seeds() == old(self).seeds(),
            final(self).spacing() == old(self).spacing(),
            final(self).outline() == old(self).outline(),
            final(self).frontier() == old(self).frontier(),
            final(self).target() == old(self).target(),
            final(self).attempts_per_point() == old(self).attempts_per_point(),
            final(self).max_total_attempts() == old(self).max_total_attempts(),
            final(self).total_attempts() == old(self).total_attempts(),
            parent.is_none() == old(self).exhausted(),
            parent.is_none() ==> !final(self).in_round() && final(rng).state() == old(rng).state(),
            parent.is_some() ==> final(self).in_round() && final(self).tries() == 0 && final(rng).state() == xorshift(old(rng).state()) && final(self).slot() == (xorshift(
                old(rng).state(),
            ) as usize) % (old(self).frontier().len() as usize) && parent == Some(
                final(self).seeds()[final(self).frontier()[final(self).slot() as int] as int],
            ),
    {
        self.in_round = false;
        if self.active.len() == 0 || self.seeds.len() >= self.target || self.total_attempts
            >= self.max_total_attempts || self.attempts_per_point == 0 {
            return None;
        }
        let slot = rng.randi_range(self.active.len());
        self.slot = slot;
        self.tries = 0;
        self.in_round = true;
        self.seeds.get(self.active[slot])
    }

    /// Offers a candidate of the round under way. It is accepted if it lies
    /// in `bounds` and inside the polygon and is far enough from every
    /// seed. An accepted candidate joins the seeds and the frontier and ends
    /// the round. The last candidate of a round ends it too, and if it is
    /// turned down the seed that was tried leaves the frontier: the last
    /// seed of the frontier takes its place.
    pub fn offer(&mut self, candidate: Point, bounds: Rect) -> (attempt: Attempt)
        requires
            old(self).wf(),
        ensures
            final(self).wf(),
            final(self).spacing() == old(self).spacing(),
            final(self).outline() == old(self).outline(),
            final(self).target() == old(self).target(),
            final(self).attempts_per_point() == old(self).attempts_per_point(),
            final(self).max_total_attempts() == old(self).max_total_attempts(),
            attempt == old(self).outcome(candidate, bounds),
            attempt == Attempt::NoRound ==> *final(self) == *old(self),
            attempt != Attempt::NoRound ==> final(self).total_attempts() == (if old(self).total_attempts() < usize::MAX {
                old(self).total_attempts() + 1
            } else {
                old(self).total_attempts()
            }),
            attempt == Attempt::Accepted ==> !final(self).in_round() && final(self).seeds() == old(self).seeds().push(candidate) && final(self).frontier() == old(self).frontier().push(
                old(self).seeds().len() as usize,
            ),
            attempt == Attempt::Rejected ==> final(self).in_round() && final(self).seeds() == old(self).seeds() && final(self).frontier() == old(self).frontier() && final(self).slot()
                == old(self).slot() && final(self).tries() == old(self).tries() + 1,
            attempt == Attempt::GaveUp ==> !final(self).in_round() && final(self).seeds() == old(self).seeds() && final(self).frontier() == old(self).frontier().update(
                old(self).slot() as int,
                old(self).frontier().last(),
            ).drop_last(),
    {
        if !self.in_round {
            return Attempt::NoRound;
        }
        if self.total_attempts < usize::MAX {
            self.total_attempts = self.total_attempts + 1;
        }
        self.tries = self.tries + 1;
        let ghost before = self.seeds.seeds();
        if rect_contains(bounds, candidate) && self.seeds.offer(candidate) {
            let number = self.seeds.len() - 1;
            self.active.push(number);
            self.in_round = false;
            return Attempt::Accepted;
        }
        if self.tries >= self.attempts_per_point {
            self.active.swap_remove(self.slot);
            self.in_round = false;
            return Attempt::GaveUp;
        }
        Attempt::Rejected
    }

    /// What `offer` answers: whether a round is under way, whether the
    /// candidate is accepted, and whether it is the last of its round.
    pub open spec fn outcome(&self, candidate: Point, bounds: Rect) -> Attempt {
        if !self.in_round() {
            Attempt::NoRound
        } else if in_rect(bounds, candidate) && self.accepts(candidate) {
            Attempt::Accepted
        } else if self.tries() + 1 >= self.attempts_per_point() {
            Attempt::GaveUp
        } else {
            Attempt::Rejected
        }
    }

    /// Whether the seeds accept the candidate: it lies inside the polygon
    /// and is far enough from every seed.
    pub closed spec fn accepts(&self, candidate: Point) -> bool {
        self.seeds.accepts(candidate)
    }

    /// The polygon inside which the seeds lie.
    pub closed spec fn outline(&self) -> Seq<Point> {
        self.seeds.outline()
    }

    /// The number of seeds found so far.
    pub fn len(&self) -> (count: usize)
        ensures
            count == self.seeds().len(),
    {
        self.seeds.len()
    }

    /// The seeds found so far, in the order in which they were accepted.
    pub fn points(&self) -> (points: &Vec<Point>)
        ensures
            points@ == self.seeds(),
    {
        self.seeds.points()
    }
}

/// No two seeds of a sampling run are closer to one another than the
/// distance that the run was started with, however far the run has come.
pub proof fn lemma_samples_keep_their_distance(sampler: PoissonSampler, i: int, j: int)
    requires
        sampler.wf(),
        0 <= i < sampler.seeds().len(),
        0 <= j < sampler.seeds().len(),
        i != j,
    ensures
        crate::fracture::half_plane::squared_distance(sampler.seeds()[i], sampler.seeds()[j])
            >= sampler.spacing() * sampler.spacing(),
{
    crate::fracture::seeds::lemma_seeds_keep_their_distance(sampler.seeds, i, j);
}

/// A round is under way only while seeds are wanting, so a sampling run
/// never holds more seeds than were asked for.
pub proof fn lemma_samples_stay_within_target(sampler: PoissonSampler)
    requires
        sampler.wf(),
    ensures
        sampler.in_round() ==> sampler.seeds().len() < sampler.target(),
        sampler.seeds().len() <= sampler.target(),
{
}

/// Every seed of a sampling run lies inside the polygon of the run.
pub proof fn lemma_samples_lie_inside(sampler: PoissonSampler, i: int)
    requires
        sampler.wf(),
        0 <= i < sampler.seeds().len(),
    ensures
        inside(sampler.seeds()[i], sampler.outline()),
{
    crate::fracture::seeds::lemma_seeds_lie_inside(sampler.seeds, i);
}

} // verus!
