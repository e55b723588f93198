//! Slice fracture: cutting a polygon along segments.
//!
//! A cutting segment stands for its whole line. A cut is made with two large
//! rectangles, one on each side of that line: the polygon is clipped to each
//! of them. A line that crosses the boundary of the polygon fewer than twice
//! cuts nothing.

use crate::fracture::clip::{
    clipper2_intersect, intersection, subtract_all_holes, without_holes,
};
use crate::fracture::cover::{
    aside, in_quad, lemma_bounds_are_measurable, lemma_rectangle_keeps_to_its_side,
    lemma_side_rectangles_cover,
};
use crate::fracture::cut::{
    box_reach, build_half_plane_rect, crossings, find_polygon_intersections, line_crosses,
    reach_of, side_rectangle, Cut,
};
use crate::fracture::geometry::{bounds_of, calculate_bounds};
use crate::fracture::half_plane::{
    is_measurable, is_measurable_point, measurable, measurable_point,
};
use crate::fracture::{
    collect_holes, copy_polygon, copy_polygons, holes_in, polygons, proper_polygons, push_proper,
    Point, MIN_POLYGON_POINTS,
};
use vstd::prelude::*;

verus! {

/// Fewest crossings of a line with the boundary of a polygon that cut it.
pub const MIN_CROSSINGS: usize = 2;

/// The layout of a set of cutting lines.
#[derive(Debug, Clone, Copy, PartialEq, Eq, Structural)]
pub enum SlicePattern {
    Radial,
    Parallel,
    Grid,
    Chaotic,
}

impl From<i32> for SlicePattern {
    /// The pattern with the given number; every number without a pattern
    /// of its own gives `Chaotic`.
    fn from(v: i32) -> (pattern: Self) {
        if v == 0 {
            SlicePattern::Radial
        } else if v == 1 {
            SlicePattern::Parallel
        } else if v == 2 {
            SlicePattern::Grid
        } else {
            SlicePattern::Chaotic
        }
    }
}

impl vstd::std_specs::convert::FromSpecImpl<i32> for SlicePattern {
    open spec fn obeys_from_spec() -> bool {
        true
    }

    open spec fn from_spec(v: i32) -> Self {
        if v == 0 {
            SlicePattern::Radial
        } else if v == 1 {
            SlicePattern::Parallel
        } else if v == 2 {
            SlicePattern::Grid
        } else {
            SlicePattern::Chaotic
        }
    }
}

/// One step of the generator: three shifts, each folded back in.
pub open spec fn scramble(state: u64) -> u64 {
    let a = state ^ (state << 13);
    let b = a ^ (a >> 17);
    b ^ (b << 5)
}

/// The state that a seed stands for before warming up: its magnitude, or 1
/// for the seed 0.
pub open spec fn seed_state(seed: i64) -> u64 {
    if seed == 0 {
        1
    } else if seed < 0 {
        (-seed) as u64
    } else {
        seed as u64
    }
}

/// The state of a fresh generator: the seed state after four steps.
pub open spec fn warm_state(seed: i64) -> u64 {
    scramble(scramble(scramble(scramble(seed_state(seed)))))
}

/// The state of a generator `draws` draws after `state`.
pub open spec fn state_after(state: u64, draws: nat) -> u64
    decreases draws,
{
    if draws == 0 {
        state
    } else {
        scramble(state_after(state, (draws - 1) as nat))
    }
}

/// A step never turns a state other than 0 into 0, so a generator never
/// gets stuck.
pub proof fn lemma_scramble_keeps_going(state: u64)
    requires
        state != 0,
    ensures
        scramble(state) != 0,
{
    let a = state ^ (state << 13);
    let b = a ^ (a >> 17);
    assert(a != 0) by (bit_vector)
        requires
            state != 0,
            a == state ^ (state << 13),
    ;
    assert(b != 0) by (bit_vector)
        requires
            a != 0,
            b == a ^ (a >> 17),
    ;
    assert((b ^ (b << 5)) != 0) by (bit_vector)
        requires
            b != 0,
    ;
}

/// The generator behind the slice patterns. What it yields depends on its
/// seed alone.
pub struct SimpleRng {
    state: u64,
}

fn step(state: u64) -> (next: u64)
    ensures
        next == scramble(state),
{
    let a = state ^ (state << 13);
    let b = a ^ (a >> 17);
    b ^ (b << 5)
}

impl SimpleRng {
    /// The current state.
    pub closed spec fn state(&self) -> u64 {
        self.state
    }

    /// A generator for the given seed.
    pub fn new(seed: i64) -> (rng: Self)
        ensures
            rng.state() == warm_state(seed),
            rng.state() != 0,
    {
        let start: u64 = if seed == 0 {
            1
        } else if seed < 0 {
            (-(seed + 1)) as u64 + 1
        } else {
            seed as u64
        };
        assert(start == seed_state(seed));
        proof {
            lemma_scramble_keeps_going(start);
            lemma_scramble_keeps_going(scramble(start));
            lemma_scramble_keeps_going(scramble(scramble(start)));
            lemma_scramble_keeps_going(scramble(scramble(scramble(start))));
        }
        SimpleRng { state: step(step(step(step(start)))) }
    }

    /// Draws the next number: the state after one more step. As a fraction
    /// of the largest 64-bit number it is the next random fraction.
    pub fn next_u64(&mut self) -> (value: u64)
        ensures
            value == scramble(old(self).state()),
            final(self).state() == value,
            old(self).state() != 0 ==> value != 0,
    {
        proof {
            if self.state != 0 {
                lemma_scramble_keeps_going(self.state);
            }
        }
        self.state = step(self.state);
        self.state
    }
}

/// Equal seeds give equal generators, and equal generators draw equal
/// numbers for ever.
pub proof fn lemma_same_seed_same_draws(first: i64, second: i64, draws: nat)
    requires
        first == second,
    ensures
        warm_state(first) == warm_state(second),
        state_after(warm_state(first), draws) == state_after(warm_state(second), draws),
{
}

/// Whether geometry can be computed on the polygon and the cut.
pub open spec fn cuttable(outer: Seq<Point>, cut: Cut) -> bool {
    measurable(outer) && measurable_point(cut.start) && measurable_point(cut.end)
}

/// Whether the cut leaves the polygon whole: its line crosses the boundary
/// fewer than twice, or geometry cannot be computed on the two.
pub open spec fn misses(outer: Seq<Point>, cut: Cut) -> bool {
    !cuttable(outer, cut) || crossings(outer, cut, outer.len()) < MIN_CROSSINGS
}

/// The rectangle that covers the polygon on one side of the cut. It reaches
/// as far as the width and the height, added, of the box that holds the
/// polygon and the start of the cut: no two points of the polygon lie
/// further apart, and none lies further from the start of the cut.
pub open spec fn side_clip(outer: Seq<Point>, cut: Cut, left: bool) -> Seq<Point> {
    side_rectangle(cut, reach_of(bounds_of(outer), cut.start), left)
}

/// What the clipper leaves of the polygon on the left of the cut.
pub open spec fn left_half(outer: Seq<Point>, cut: Cut) -> Seq<Seq<Point>> {
    intersection(outer, side_clip(outer, cut, true))
}

/// What the clipper leaves of the polygon on the right of the cut.
pub open spec fn right_half(outer: Seq<Point>, cut: Cut) -> Seq<Seq<Point>> {
    intersection(outer, side_clip(outer, cut, false))
}

/// The pieces of one polygon cut by one segment: the polygon itself where
/// the cut misses it, else what the two side rectangles leave of it, as far
/// as it has three points.
pub open spec fn bisected(outer: Seq<Point>, cut: Cut) -> Seq<Seq<Point>> {
    if misses(outer, cut) {
        seq![outer]
    } else {
        proper_polygons(left_half(outer, cut) + right_half(outer, cut))
    }
}

/// `proper_polygons` of two lists, one after the other.
pub proof fn lemma_proper_polygons_of_both(a: Seq<Seq<Point>>, b: Seq<Seq<Point>>)
    ensures
        proper_polygons(a + b) == proper_polygons(a) + proper_polygons(b),
    decreases b.len(),
{
    if b.len() == 0 {
        assert(a + b =~= a);
        assert(proper_polygons(a) + proper_polygons(b) =~= proper_polygons(a));
    } else {
        lemma_proper_polygons_of_both(a, b.drop_last());
        assert((a + b).drop_last() =~= a + b.drop_last());
        assert((a + b).last() == b.last());
        if b.last().len() >= MIN_POLYGON_POINTS {
            assert(proper_polygons(a + b) =~= proper_polygons(a) + proper_polygons(b));
        }
    }
}

/// Keeping the polygons of three points and more twice keeps the same as
/// keeping them once.
pub proof fn lemma_proper_polygons_are_proper(list: Seq<Seq<Point>>)
    ensures
        proper_polygons(proper_polygons(list)) == proper_polygons(list),
    decreases list.len(),
{
    if list.len() > 0 {
        lemma_proper_polygons_are_proper(list.drop_last());
        if list.last().len() >= MIN_POLYGON_POINTS {
            let kept = proper_polygons(list.drop_last());
            assert(kept.push(list.last()).drop_last() =~= kept);
        }
    }
}

/// Tells whether the cut leaves the polygon whole.
fn cut_misses(outer: &Vec<Point>, line_start: Point, line_end: Point) -> (miss: bool)
    ensures
        miss == misses(outer@, Cut { start: line_start, end: line_end }),
{
    if !is_measurable(outer) || !is_measurable_point(line_start) || !is_measurable_point(
        line_end,
    ) {
        return true;
    }
    find_polygon_intersections(outer, line_start, line_end) < MIN_CROSSINGS
}

/// What the clipper leaves of the polygon on the two sides of a cut that
/// does not miss it: the left half, then the right half.
fn halves(outer: &Vec<Point>, line_start: Point, line_end: Point) -> (sides: (
    Vec<Vec<Point>>,
    Vec<Vec<Point>>,
))
    requires
        cuttable(outer@, Cut { start: line_start, end: line_end }),
    ensures
        polygons(sides.0@) == left_half(outer@, Cut { start: line_start, end: line_end }),
        polygons(sides.1@) == right_half(outer@, Cut { start: line_start, end: line_end }),
{
    let bounds = calculate_bounds(outer);
    proof {
        lemma_bounds_are_measurable(outer@);
    }
    let extent: i64 = box_reach(bounds, line_start);
    let left_clip = build_half_plane_rect(line_start, line_end, true, extent);
    let right_clip = build_half_plane_rect(line_start, line_end, false, extent);
    (clipper2_intersect(outer, &left_clip), clipper2_intersect(outer, &right_clip))
}

/// Cuts one polygon along a segment, without regard to holes.
pub fn bisect_outer(outer: &Vec<Point>, line_start: Point, line_end: Point) -> (pieces: Vec<
    Vec<Point>,
>)
    ensures
        polygons(pieces@) == bisected(outer@, Cut { start: line_start, end: line_end }),
{
    let mut pieces: Vec<Vec<Point>> = Vec::new();
    if cut_misses(outer, line_start, line_end) {
        pieces.push(copy_polygon(outer));
        assert(polygons(pieces@) =~= seq![outer@]);
        return pieces;
    }
    let (left, right) = halves(outer, line_start, line_end);
    assert(polygons(pieces@) =~= Seq::<Seq<Point>>::empty());
    push_proper(&mut pieces, &left);
    push_proper(&mut pieces, &right);
    proof {
        lemma_proper_polygons_of_both(polygons(left@), polygons(right@));
        assert(Seq::<Seq<Point>>::empty() + proper_polygons(polygons(left@)) =~= proper_polygons(
            polygons(left@),
        ));
    }
    pieces
}

/// What the holes leave of one fragment of a cut, as far as it has three
/// points. A fragment of fewer than three points leaves nothing.
pub open spec fn fragment_pieces(fragment: Seq<Point>, holes: Seq<Seq<Point>>) -> Seq<Seq<Point>> {
    if fragment.len() < MIN_POLYGON_POINTS {
        Seq::empty()
    } else {
        proper_polygons(without_holes(seq![fragment], holes))
    }
}

/// What the holes leave of a list of fragments, fragment after fragment.
pub open spec fn fragments_pieces(fragments: Seq<Seq<Point>>, holes: Seq<Seq<Point>>) -> Seq<
    Seq<Point>,
>
    decreases fragments.len(),
{
    if fragments.len() == 0 {
        Seq::empty()
    } else {
        fragments_pieces(fragments.drop_last(), holes) + fragment_pieces(fragments.last(), holes)
    }
}

/// The result of cutting a polygon with holes along one segment.
///
/// Nothing comes back for an empty list or an outer polygon of fewer than
/// three points. The list itself comes back where the cut misses the outer
/// polygon, and where it leaves no piece. Otherwise the pieces of the left
/// side come back, then those of the right side.
pub open spec fn sliced(list: Seq<Seq<Point>>, cut: Cut) -> Seq<Seq<Point>> {
    if list.len() == 0 || list[0].len() < MIN_POLYGON_POINTS {
        Seq::empty()
    } else if misses(list[0], cut) {
        list
    } else {
        let pieces = fragments_pieces(left_half(list[0], cut), holes_in(list)) + fragments_pieces(
            right_half(list[0], cut),
            holes_in(list),
        );
        if pieces.len() == 0 {
            list
        } else {
            pieces
        }
    }
}

/// Appends what the holes leave of each fragment.
fn push_fragments_pieces(
    into: &mut Vec<Vec<Point>>,
    fragments: &Vec<Vec<Point>>,
    holes: &Vec<Vec<Point>>,
)
    ensures
        polygons(final(into)@) == polygons(old(into)@) + fragments_pieces(
            polygons(fragments@),
            polygons(holes@),
        ),
{
    let ghost start = polygons(into@);
    let ghost all = polygons(fragments@);
    let mut i: usize = 0;
    assert(all.take(0) =~= Seq::<Seq<Point>>::empty());
    assert(start + fragments_pieces(all.take(0), polygons(holes@)) =~= start);
    while i < fragments.len()
        invariant
            i <= fragments@.len(),
            all == polygons(fragments@),
            polygons(into@) == start + fragments_pieces(all.take(i as int), polygons(holes@)),
        decreases fragments@.len() - i,
    {
        let ghost before = polygons(into@);
        if fragments[i].len() >= MIN_POLYGON_POINTS {
            let remaining = subtract_all_holes(&fragments[i], holes);
            push_proper(into, &remaining);
            proof {
                let left = without_holes(seq![fragments@[i as int]@], polygons(holes@));
                lemma_proper_polygons_are_proper(left);
            }
        }
        proof {
            assert(all.take(i + 1).drop_last() =~= all.take(i as int));
            assert(all.take(i + 1).last() == fragments@[i as int]@);
            assert(polygons(into@) =~= before + fragment_pieces(
                fragments@[i as int]@,
                polygons(holes@),
            ));
            assert(polygons(into@) =~= start + fragments_pieces(
                all.take(i + 1),
                polygons(holes@),
            ));
        }
        i += 1;
    }
    assert(all.take(fragments@.len() as int) =~= all);
}

/// Cuts a polygon with holes along one segment.
///
/// `polygons_in` holds the outer boundary first, then the holes. The outer
/// boundary is cut in two along the line of the segment, and the holes are
/// cut out of both halves.
pub fn fracture(polygons_in: &Vec<Vec<Point>>, line_start: Point, line_end: Point) -> (fragments:
    Vec<Vec<Point>>)
    ensures
        polygons(fragments@) == sliced(
            polygons(polygons_in@),
            Cut { start: line_start, end: line_end },
        ),
{
    if polygons_in.len() == 0 || polygons_in[0].len() < MIN_POLYGON_POINTS {
        let nothing: Vec<Vec<Point>> = Vec::new();
        assert(polygons(nothing@) =~= Seq::<Seq<Point>>::empty());
        return nothing;
    }
    let outer = &polygons_in[0];
    assert(polygons(polygons_in@)[0] == outer@);
    if cut_misses(outer, line_start, line_end) {
        return copy_polygons(polygons_in);
    }
    let (left, right) = halves(outer, line_start, line_end);
    let holes = collect_holes(polygons_in);
    let mut fragments: Vec<Vec<Point>> = Vec::new();
    assert(polygons(fragments@) =~= Seq::<Seq<Point>>::empty());
    push_fragments_pieces(&mut fragments, &left, &holes);
    push_fragments_pieces(&mut fragments, &right, &holes);
    assert(polygons(fragments@) =~= fragments_pieces(polygons(left@), polygons(holes@))
        + fragments_pieces(polygons(right@), polygons(holes@)));
    if fragments.len() == 0 {
        return copy_polygons(polygons_in);
    }
    fragments
}

/// A polygon list that the cut misses comes back whole.
pub proof fn lemma_missed_polygon_is_unchanged(list: Seq<Seq<Point>>, cut: Cut)
    requires
        list.len() > 0,
        list[0].len() >= MIN_POLYGON_POINTS,
        misses(list[0], cut),
    ensures
        sliced(list, cut) == list,
{
}

/// What the holes leave of every fragment, fragment after fragment, as far
/// as it has three points.
pub open spec fn hole_free(fragments: Seq<Seq<Point>>, holes: Seq<Seq<Point>>) -> Seq<Seq<Point>>
    decreases fragments.len(),
{
    if fragments.len() == 0 {
        Seq::empty()
    } else {
        hole_free(fragments.drop_last(), holes) + proper_polygons(
            without_holes(seq![fragments.last()], holes),
        )
    }
}

/// The pieces of every fragment cut by one segment, fragment after
/// fragment.
pub open spec fn cut_all(fragments: Seq<Seq<Point>>, cut: Cut) -> Seq<Seq<Point>>
    decreases fragments.len(),
{
    if fragments.len() == 0 {
        Seq::empty()
    } else {
        cut_all(fragments.drop_last(), cut) + bisected(fragments.last(), cut)
    }
}

/// The fragments of a polygon after the first `done` cuts. Every cut is
/// made through every fragment that the cuts before it left; a cut that
/// would leave nothing at all is passed over.
pub open spec fn after_cuts(outer: Seq<Point>, cuts: Seq<Cut>, done: nat) -> Seq<Seq<Point>>
    decreases done,
{
    if done == 0 {
        seq![outer]
    } else {
        let current = after_cuts(outer, cuts, (done - 1) as nat);
        let next = cut_all(current, cuts[done - 1]);
        if next.len() > 0 {
            next
        } else {
            current
        }
    }
}

/// The fragments of a polygon with holes after all cuts: the outer polygon
/// cut by every segment in turn, and then the holes cut out of every
/// fragment once.
pub open spec fn slices_applied(outer: Seq<Point>, holes: Seq<Seq<Point>>, cuts: Seq<Cut>) -> Seq<
    Seq<Point>,
> {
    hole_free(after_cuts(outer, cuts, cuts.len()), holes)
}

/// Cuts every fragment along one segment.
fn bisect_all(fragments: &Vec<Vec<Point>>, cut: Cut) -> (pieces: Vec<Vec<Point>>)
    ensures
        polygons(pieces@) == cut_all(polygons(fragments@), cut),
{
    let ghost all = polygons(fragments@);
    let mut pieces: Vec<Vec<Point>> = Vec::new();
    let mut i: usize = 0;
    assert(all.take(0) =~= Seq::<Seq<Point>>::empty());
    assert(polygons(pieces@) =~= Seq::<Seq<Point>>::empty());
    while i < fragments.len()
        invariant
            i <= fragments@.len(),
            all == polygons(fragments@),
            polygons(pieces@) == cut_all(all.take(i as int), cut),
        decreases fragments@.len() - i,
    {
        let ghost before = pieces@;
        let mut more = bisect_outer(&fragments[i], cut.start, cut.end);
        let ghost added = more@;
        pieces.append(&mut more);
        proof {
            assert(polygons(pieces@) =~= polygons(before) + polygons(added));
            assert(all.take(i + 1).drop_last() =~= all.take(i as int));
            assert(all.take(i + 1).last() == fragments@[i as int]@);
        }
        i += 1;
    }
    assert(all.take(fragments@.len() as int) =~= all);
    pieces
}

/// Cuts the holes out of every fragment and keeps what has three points.
pub fn subtract_holes_from_all(fragments: &Vec<Vec<Point>>, holes: &Vec<Vec<Point>>) -> (result:
    Vec<Vec<Point>>)
    ensures
        polygons(result@) == hole_free(polygons(fragments@), polygons(holes@)),
{
    let ghost all = polygons(fragments@);
    let mut result: Vec<Vec<Point>> = Vec::new();
    let mut i: usize = 0;
    assert(all.take(0) =~= Seq::<Seq<Point>>::empty());
    assert(polygons(result@) =~= Seq::<Seq<Point>>::empty());
    while i < fragments.len()
        invariant
            i <= fragments@.len(),
            all == polygons(fragments@),
            polygons(result@) == hole_free(all.take(i as int), polygons(holes@)),
        decreases fragments@.len() - i,
    {
        let remaining = subtract_all_holes(&fragments[i], holes);
        push_proper(&mut result, &remaining);
        proof {
            lemma_proper_polygons_are_proper(
                without_holes(seq![fragments@[i as int]@], polygons(holes@)),
            );
            assert(all.take(i + 1).drop_last() =~= all.take(i as int));
            assert(all.take(i + 1).last() == fragments@[i as int]@);
        }
        i += 1;
    }
    assert(all.take(fragments@.len() as int) =~= all);
    result
}

/// Cuts a polygon along every segment in turn, and then cuts the holes out
/// of the fragments.
///
/// Holes play no part while the cuts are made: they are cut out once, of the
/// final fragments.
pub fn apply_slices(outer: &Vec<Point>, holes: &Vec<Vec<Point>>, segments: &Vec<Cut>) -> (result:
    Vec<Vec<Point>>)
    ensures
        polygons(result@) == slices_applied(outer@, polygons(holes@), segments@),
{
    let mut current: Vec<Vec<Point>> = Vec::new();
    current.push(copy_polygon(outer));
    assert(polygons(current@) =~= seq![outer@]);
    let mut i: usize = 0;
    while i < segments.len()
        invariant
            i <= segments@.len(),
            polygons(current@) == after_cuts(outer@, segments@, i as nat),
        decreases segments@.len() - i,
    {
        let next = bisect_all(&current, segments[i]);
        if next.len() > 0 {
            current = next;
        }
        i += 1;
    }
    subtract_holes_from_all(&current, holes)
}

/// The result of a fracture: `result`, unless it is empty, in which case it
/// is the polygon list as it was.
pub open spec fn or_unchanged(list: Seq<Seq<Point>>, result: Seq<Seq<Point>>) -> Seq<Seq<Point>> {
    if result.len() == 0 {
        list
    } else {
        result
    }
}

/// Returns `result`, or a copy of the input list where `result` is empty: a
/// fracture never answers valid input with nothing.
pub fn keep_or_unchanged(polygons_in: &Vec<Vec<Point>>, result: Vec<Vec<Point>>) -> (fragments:
    Vec<Vec<Point>>)
    ensures
        polygons(fragments@) == or_unchanged(polygons(polygons_in@), polygons(result@)),
{
    if result.len() == 0 {
        copy_polygons(polygons_in)
    } else {
        result
    }
}

/// The result of cutting a polygon with holes along a pattern of segments.
///
/// Nothing comes back for an empty list or an outer polygon of fewer than
/// three points. The list itself comes back for a pattern without segments,
/// and where the cuts leave nothing.
pub open spec fn pattern_sliced(list: Seq<Seq<Point>>, cuts: Seq<Cut>) -> Seq<Seq<Point>> {
    if list.len() == 0 || list[0].len() < MIN_POLYGON_POINTS {
        Seq::empty()
    } else if cuts.len() == 0 {
        list
    } else {
        or_unchanged(list, slices_applied(list[0], holes_in(list), cuts))
    }
}

/// Cuts a polygon with holes along a pattern of segments.
pub fn fracture_slices(polygons_in: &Vec<Vec<Point>>, segments: &Vec<Cut>) -> (fragments: Vec<
    Vec<Point>,
>)
    ensures
        polygons(fragments@) == pattern_sliced(polygons(polygons_in@), segments@),
{
    if polygons_in.len() == 0 || polygons_in[0].len() < MIN_POLYGON_POINTS {
        let nothing: Vec<Vec<Point>> = Vec::new();
        assert(polygons(nothing@) =~= Seq::<Seq<Point>>::empty());
        return nothing;
    }
    if segments.len() == 0 {
        return copy_polygons(polygons_in);
    }
    let outer = &polygons_in[0];
    assert(polygons(polygons_in@)[0] == outer@);
    let holes = collect_holes(polygons_in);
    let result = apply_slices(outer, &holes, segments);
    keep_or_unchanged(polygons_in, result)
}

/// The cuts that a list of point lists stands for: one from the first to
/// the second point of every list that has two points at least.
pub open spec fn decoded(segments: Seq<Seq<Point>>) -> Seq<Cut>
    decreases segments.len(),
{
    if segments.len() == 0 {
        Seq::empty()
    } else if segments.last().len() >= 2 {
        decoded(segments.drop_last()).push(
            Cut { start: segments.last()[0], end: segments.last()[1] },
        )
    } else {
        decoded(segments.drop_last())
    }
}

/// The result of cutting a polygon with holes along segments given as point
/// lists.
///
/// The list itself comes back where it is empty, where no segments are
/// given, where none of them has two points, and where the cuts leave
/// nothing. Nothing comes back for an outer polygon of fewer than three
/// points.
pub open spec fn manually_sliced(list: Seq<Seq<Point>>, segments: Seq<Seq<Point>>) -> Seq<
    Seq<Point>,
> {
    if list.len() == 0 || segments.len() == 0 {
        list
    } else if list[0].len() < MIN_POLYGON_POINTS {
        Seq::empty()
    } else if decoded(segments).len() == 0 {
        list
    } else {
        or_unchanged(list, slices_applied(list[0], holes_in(list), decoded(segments)))
    }
}

/// Cuts a polygon with holes along segments that the caller lays out, each
/// given by a list of two points.
pub fn fracture_slices_manual(polygons_in: &Vec<Vec<Point>>, segments: &Vec<Vec<Point>>) -> (fragments:
    Vec<Vec<Point>>)
    ensures
        polygons(fragments@) == manually_sliced(polygons(polygons_in@), polygons(segments@)),
{
    if polygons_in.len() == 0 || segments.len() == 0 {
        return copy_polygons(polygons_in);
    }
    if polygons_in[0].len() < MIN_POLYGON_POINTS {
        let nothing: Vec<Vec<Point>> = Vec::new();
        assert(polygons(nothing@) =~= Seq::<Seq<Point>>::empty());
        return nothing;
    }
    let ghost all = polygons(segments@);
    let mut cuts: Vec<Cut> = Vec::new();
    let mut i: usize = 0;
    assert(all.take(0) =~= Seq::<Seq<Point>>::empty());
    while i < segments.len()
        invariant
            i <= segments@.len(),
            all == polygons(segments@),
            cuts@ == decoded(all.take(i as int)),
        decreases segments@.len() - i,
    {
        assert(all.take(i + 1).drop_last() =~= all.take(i as int));
        assert(all.take(i + 1).last() == segments@[i as int]@);
        if segments[i].len() >= 2 {
            cuts.push(Cut { start: segments[i][0], end: segments[i][1] });
        }
        i += 1;
    }
    assert(all.take(segments@.len() as int) =~= all);
    if cuts.len() == 0 {
        return copy_polygons(polygons_in);
    }
    let outer = &polygons_in[0];
    assert(polygons(polygons_in@)[0] == outer@);
    let holes = collect_holes(polygons_in);
    let result = apply_slices(outer, &holes, &cuts);
    keep_or_unchanged(polygons_in, result)
}

/// A slice fracture answers usable input with at least one polygon: the
/// fragments of the cut, or the list that it was given.
pub proof fn lemma_fracture_is_never_empty(list: Seq<Seq<Point>>, cut: Cut)
    requires
        list.len() > 0,
        list[0].len() >= MIN_POLYGON_POINTS,
    ensures
        sliced(list, cut).len() > 0,
{
}

/// A fracture along a pattern of segments answers usable input with at
/// least one polygon.
pub proof fn lemma_pattern_fracture_is_never_empty(list: Seq<Seq<Point>>, cuts: Seq<Cut>)
    requires
        list.len() > 0,
        list[0].len() >= MIN_POLYGON_POINTS,
    ensures
        pattern_sliced(list, cuts).len() > 0,
{
}

/// Cuts that all miss the polygon leave it whole.
pub proof fn lemma_missing_cuts_change_nothing(outer: Seq<Point>, cuts: Seq<Cut>, done: nat)
    requires
        done <= cuts.len(),
        forall|k: int| 0 <= k < done ==> misses(outer, #[trigger] cuts[k]),
    ensures
        after_cuts(outer, cuts, done) == seq![outer],
    decreases done,
{
    if done > 0 {
        lemma_missing_cuts_change_nothing(outer, cuts, (done - 1) as nat);
        let current = seq![outer];
        let cut = cuts[done - 1];
        assert(current.drop_last() =~= Seq::<Seq<Point>>::empty());
        assert(cut_all(current.drop_last(), cut) =~= Seq::<Seq<Point>>::empty());
        assert(cut_all(current, cut) =~= bisected(outer, cut));
    }
}

/// A cut that is counted as crossing crosses an edge, so it has a length.
proof fn lemma_crossing_cut_has_length(polygon: Seq<Point>, cut: Cut, edges: nat)
    requires
        crossings(polygon, cut, edges) > 0,
    ensures
        cut.start != cut.end,
    decreases edges,
{
    let last = edges - 1;
    let b1 = polygon[last];
    let b2 = polygon[(last + 1) % (polygon.len() as int)];
    if line_crosses(cut.start, cut.end, b1, b2) {
        if cut.start == cut.end {
            assert(0 * (b2.y - b1.y) - 0 * (b2.x - b1.x) == 0);
        }
    } else {
        lemma_crossing_cut_has_length(polygon, cut, last as nat);
    }
}

/// The two rectangles that a polygon is clipped to cover it: where the cut
/// does not miss the polygon, every point of the polygon lies in the
/// rectangle on the left of the cut or in the one on its right.
pub proof fn lemma_cut_covers(outer: Seq<Point>, cut: Cut, at: int)
    requires
        !misses(outer, cut),
        0 <= at < outer.len(),
    ensures
        in_quad(side_clip(outer, cut, true), outer[at]) || in_quad(
            side_clip(outer, cut, false),
            outer[at],
        ),
{
    lemma_crossing_cut_has_length(outer, cut, outer.len());
    lemma_side_rectangles_cover(outer, cut, at);
}

/// The two rectangles that a polygon is clipped to part along the line of
/// the cut: a point in the left one lies to the left of the line or on it,
/// and a point in the right one to the right of the line or on it.
pub proof fn lemma_clips_keep_to_their_sides(outer: Seq<Point>, cut: Cut, left: bool, v: Point)
    requires
        !misses(outer, cut),
        in_quad(side_clip(outer, cut, left), v),
    ensures
        left ==> aside(cut, v) >= 0,
        !left ==> aside(cut, v) <= 0,
{
    lemma_crossing_cut_has_length(outer, cut, outer.len());
    assert(outer.len() > 0);
    lemma_side_rectangles_cover(outer, cut, 0);
    lemma_rectangle_keeps_to_its_side(cut, reach_of(bounds_of(outer), cut.start), left, v);
}

/// The two ends of an edge that the line of a cut crosses lie on the two
/// sides of the line, or on it.
pub proof fn lemma_crossed_edge_spans_the_line(cut: Cut, b1: Point, b2: Point)
    requires
        line_crosses(cut.start, cut.end, b1, b2),
    ensures
        (aside(cut, b1) <= 0 && aside(cut, b2) >= 0) || (aside(cut, b1) >= 0 && aside(cut, b2)
            <= 0),
{
    let ax = cut.end.x - cut.start.x;
    let ay = cut.end.y - cut.start.y;
    let bx = b2.x - b1.x;
    let by = b2.y - b1.y;
    let dx = b1.x - cut.start.x;
    let dy = b1.y - cut.start.y;
    let first = aside(cut, b1);
    let second = aside(cut, b2);
    assert(first == ax * dy - ay * dx);
    assert(second == ax * (dy + by) - ay * (dx + bx));
    assert(ax * (dy + by) == ax * dy + ax * by) by (nonlinear_arith);
    assert(ay * (dx + bx) == ay * dx + ay * bx) by (nonlinear_arith);
    assert(dx * ay == ay * dx && dy * ax == ax * dy) by (nonlinear_arith);
    assert(second - first == ax * by - ay * bx);
    assert(dx * ay - dy * ax == -first);
}

/// Whether the polygon lies clear of the line of the cut: all its points
/// lie strictly on one side of it.
pub open spec fn clear_of(outer: Seq<Point>, cut: Cut) -> bool {
    ||| forall|i: int| 0 <= i < outer.len() ==> aside(cut, #[trigger] outer[i]) > 0
    ||| forall|i: int| 0 <= i < outer.len() ==> aside(cut, #[trigger] outer[i]) < 0
}

/// The line of a cut crosses no edge of a polygon that lies clear of it.
proof fn lemma_clear_line_crosses_nothing(outer: Seq<Point>, cut: Cut, edges: nat)
    requires
        clear_of(outer, cut),
        edges <= outer.len(),
    ensures
        crossings(outer, cut, edges) == 0,
    decreases edges,
{
    if edges > 0 {
        let i = edges - 1;
        let next = (i + 1) % (outer.len() as int);
        lemma_clear_line_crosses_nothing(outer, cut, i as nat);
        if line_crosses(cut.start, cut.end, outer[i], outer[next]) {
            lemma_crossed_edge_spans_the_line(cut, outer[i], outer[next]);
        }
    }
}

/// A cut whose line does not touch the polygon changes nothing: where all
/// points of the outer polygon lie strictly on one side of the line, the
/// polygon list comes back as it was given.
pub proof fn lemma_clear_cut_changes_nothing(list: Seq<Seq<Point>>, cut: Cut)
    requires
        list.len() > 0,
        list[0].len() >= MIN_POLYGON_POINTS,
        clear_of(list[0], cut),
    ensures
        misses(list[0], cut),
        bisected(list[0], cut) == seq![list[0]],
        sliced(list, cut) == list,
{
    lemma_clear_line_crosses_nothing(list[0], cut, list[0].len());
}

} // verus!
