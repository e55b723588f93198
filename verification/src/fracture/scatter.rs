//! Random placement of seed points.
//!
//! Candidates are tried one after another until there are as many seeds as
//! were asked for, or until the attempts are used up: ten for every seed
//! asked for.
//!
//! The caller places the candidates; this module decides what becomes of
//! them and when the run is over.

use crate::fracture::half_plane::squared_distance;
use crate::fracture::inside::inside;
use crate::fracture::seeds::{
    clamped_spacing, lemma_seeds_keep_their_distance, lemma_seeds_lie_inside, SeedSet,
};
use crate::fracture::Point;
use vstd::prelude::*;

verus! {

/// The attempts that a run has for every seed asked for.
pub const ATTEMPTS_PER_SEED: usize = 10;

/// The attempts that a run for `target` seeds has in all.
pub open spec fn attempt_budget(target: nat) -> nat {
    if target * ATTEMPTS_PER_SEED <= usize::MAX {
        (target * ATTEMPTS_PER_SEED) as nat
    } else {
        usize::MAX as nat
    }
}

/// The state of a run of random placement.
pub struct RandomSampler {
    seeds: SeedSet,
    target: usize,
    max_attempts: usize,
    attempts: usize,
}

impl RandomSampler {
    /// The seeds found so far.
    pub closed spec fn seeds(&self) -> Seq<Point> {
        self.seeds.seeds()
    }

    /// The distance that any two seeds keep.
    pub closed spec fn spacing(&self) -> int {
        self.seeds.spacing()
    }

    /// The polygon inside which the seeds lie.
    pub closed spec fn outline(&self) -> Seq<Point> {
        self.seeds.outline()
    }

    /// The number of seeds asked for.
    pub closed spec fn target(&self) -> nat {
        self.target as nat
    }

    /// The number of candidates tried so far.
    pub closed spec fn attempts(&self) -> nat {
        self.attempts as nat
    }

    /// Whether the state is sound: the seeds keep their distance, there are
    /// no more of them than were asked for or than candidates were tried,
    /// and no more candidates were tried than the run has attempts.
    pub closed spec fn wf(&self) -> bool {
        &&& self.seeds.wf()
        &&& self.max_attempts == attempt_budget(self.target as nat)
        &&& self.seeds.seeds().len() <= self.target
        &&& self.seeds.seeds().len() <= self.attempts
        &&& self.attempts <= self.max_attempts
    }

    /// Whether the run goes on: seeds are wanting and attempts are left.
    pub open spec fn wants_more(&self) -> bool {
        self.seeds().len() < self.target() && self.attempts() < attempt_budget(self.target())
    }

    /// Whether the seeds accept the candidate: it lies inside the polygon
    /// and is far enough from every seed.
    pub closed spec fn accepts(&self, candidate: Point) -> bool {
        self.seeds.accepts(candidate)
    }

    /// Starts a run for `target` seeds inside `polygon` that keep
    /// `min_distance`.
    pub fn new(target: usize, min_distance: i64, polygon: &Vec<Point>) -> (sampler: Self)
        ensures
            sampler.wf(),
            sampler.target() == target,
            sampler.attempts() == 0,
            sampler.seeds() == Seq::<Point>::empty(),
            sampler.spacing() == clamped_spacing(min_distance),
            sampler.outline() == polygon@,
    {
        let max_attempts: usize = match target.checked_mul(ATTEMPTS_PER_SEED) {
            Some(product) => product,
            None => usize::MAX,
        };
        RandomSampler { seeds: SeedSet::new(polygon, min_distance), target, max_attempts, attempts: 0 }
    }

    /// Tells whether the run goes on and a further candidate is wanted.
    pub fn wants_candidate(&self) -> (wanted: bool)
        requires
            self.wf(),
        ensures
            wanted == self.wants_more(),
    {
        self.seeds.len() < self.target && self.attempts < self.max_attempts
    }

    /// Offers a candidate. While the run goes on the candidate counts as an
    /// attempt, and it becomes the next seed if it lies inside the polygon
    /// and is far enough from every seed. Once the run is over nothing
    /// changes.
    pub fn offer(&mut self, candidate: Point) -> (accepted: bool)
        requires
            old(self).wf(),
        ensures
            final(self).wf(),
            final(self).target() == old(self).target(),
            final(self).spacing() == old(self).spacing(),
            final(self).outline() == old(self).outline(),
            accepted == (old(self).wants_more() && old(self).accepts(candidate)),
            accepted ==> final(self).seeds() == old(self).seeds().push(candidate),
            !accepted ==> final(self).seeds() == old(self).seeds(),
            final(self).attempts() == (if old(self).wants_more() {
                old(self).attempts() + 1
            } else {
                old(self).attempts()
            }),
    {
        if !self.wants_candidate() {
            return false;
        }
        self.attempts = self.attempts + 1;
        self.seeds.offer(candidate)
    }

    /// The number of seeds found so far.
    pub fn len(&self) -> (count: usize)
        ensures
            count == self.seeds().len(),
    {
        self.seeds.len()
    }

    /// The seeds found so far, in the order in which they were accepted.
    pub fn points(&self) -> (points: &Vec<Point>)
        ensures
            points@ == self.seeds(),
    {
        self.seeds.points()
    }
}

/// A run of random placement never holds more seeds than were asked for,
/// and never tries more candidates than ten for every seed asked for.
pub proof fn lemma_run_stays_within_budget(sampler: RandomSampler)
    requires
        sampler.wf(),
    ensures
        sampler.seeds().len() <= sampler.target(),
        sampler.seeds().len() <= sampler.attempts(),
        sampler.attempts() <= attempt_budget(sampler.target()),
        sampler.attempts() <= sampler.target() * ATTEMPTS_PER_SEED,
{
}

/// A run ends: every candidate offered while it goes on uses up one of its
/// attempts, so after as many offers as the run has attempts it is over.
pub proof fn lemma_run_ends(sampler: RandomSampler)
    requires
        sampler.wf(),
        sampler.attempts() >= attempt_budget(sampler.target()),
    ensures
        !sampler.wants_more(),
{
}

/// No two seeds of a run are closer to one another than the distance that
/// the run was started with, however far the run has come.
pub proof fn lemma_scattered_keep_their_distance(sampler: RandomSampler, i: int, j: int)
    requires
        sampler.wf(),
        0 <= i < sampler.seeds().len(),
        0 <= j < sampler.seeds().len(),
        i != j,
    ensures
        squared_distance(sampler.seeds()[i], sampler.seeds()[j]) >= sampler.spacing()
            * sampler.spacing(),
{
    lemma_seeds_keep_their_distance(sampler.seeds, i, j);
}

/// Every seed of a run lies inside the polygon of the run.
pub proof fn lemma_scattered_lie_inside(sampler: RandomSampler, i: int)
    requires
        sampler.wf(),
        0 <= i < sampler.seeds().len(),
    ensures
        inside(sampler.seeds()[i], sampler.outline()),
{
    lemma_seeds_lie_inside(sampler.seeds, i);
}

} // verus!
