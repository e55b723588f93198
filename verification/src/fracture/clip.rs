//! Boolean clipping of polygons, and the subtraction of holes built on it.
//!
//! The clipping itself is the work of the Clipper2 library, under the
//! non-zero fill rule. A clip that cannot be made never stops a caller: an
//! intersection then has no pieces, and a difference leaves its subject as
//! it was.

use crate::fracture::{copy_polygon, polygons, proper_polygons, push_proper, Point};
use vstd::prelude::*;

verus! {

/// Largest coordinate, in either direction, that the clipper works on.
pub const MAX_CLIP_COORDINATE: i64 = 0x1FFF_FFFF_FFFF_FFFF;

/// Most points that subject and clip polygon may have together.
///
/// The clipping library counts the points of every path that it gives back
/// in 32 bits and stops the program where a count does not fit. A point of
/// the result is a point that was put in or a crossing of two edges that
/// were put in, and the edges may cross one another pair by pair, so the
/// points of the result can grow with the square of the points put in. With
/// no more points than this, that square fits the 32 bits.
pub const MAX_CLIP_POINTS: usize = 46_340;

/// The error of the clipping library.
#[verifier::external_type_specification]
#[verifier::external_body]
pub struct ExClipperError(clipper2::ClipperError);

/// What Clipper2 returns as the intersection of two closed paths under the
/// non-zero fill rule; `None` where it reports failure.
pub uninterp spec fn clipper_intersection(subject: Seq<Point>, clip: Seq<Point>) -> Option<
    Seq<Seq<Point>>,
>;

/// What Clipper2 returns as the difference of two closed paths, subject
/// without clip, under the non-zero fill rule; `None` where it reports
/// failure.
pub uninterp spec fn clipper_difference(subject: Seq<Point>, clip: Seq<Point>) -> Option<
    Seq<Seq<Point>>,
>;

/// Whether every coordinate of the polygon lies in the clipper's range.
pub open spec fn in_clip_range(polygon: Seq<Point>) -> bool {
    forall|i: int|
        0 <= i < polygon.len() ==> -MAX_CLIP_COORDINATE <= (#[trigger] polygon[i]).x
            <= MAX_CLIP_COORDINATE && -MAX_CLIP_COORDINATE <= polygon[i].y <= MAX_CLIP_COORDINATE
}

/// Whether the clipper can be asked to combine the two polygons.
pub open spec fn clippable(subject: Seq<Point>, clip: Seq<Point>) -> bool {
    &&& in_clip_range(subject)
    &&& in_clip_range(clip)
    &&& subject.len() + clip.len() <= MAX_CLIP_POINTS
}

/// Calls `clipper2::intersect` on the two polygons as single closed paths of
/// scaled points, with `FillRule::NonZero`.
///
/// Trusted: the result is what the library computes from these two point
/// lists and nothing else. Coordinates are kept inside the range that
/// Clipper2 names for 64-bit paths, and the point count is kept so small
/// that the counts of the result, which the binding converts to `i32`, fit:
/// a result vertex is an input vertex or a crossing of two input edges.
#[verifier::external_body]
fn clipper_intersect(subject: &Vec<Point>, clip: &Vec<Point>) -> (result: Result<
    Vec<Vec<Point>>,
    clipper2::ClipperError,
>)
    requires
        clippable(subject@, clip@),
    ensures
        match result {
            Ok(paths) => clipper_intersection(subject@, clip@) == Some(polygons(paths@)),
            Err(_) => clipper_intersection(subject@, clip@) is None,
        },
{
    let subject: Vec<clipper2::Point<clipper2::Centi>> =
        subject.iter().map(|p| clipper2::Point::from_scaled(p.x, p.y)).collect();
    let clip: Vec<clipper2::Point<clipper2::Centi>> =
        clip.iter().map(|p| clipper2::Point::from_scaled(p.x, p.y)).collect();
    let paths = clipper2::intersect(subject, clip, clipper2::FillRule::NonZero)?;
    Ok(paths.iter().map(|path| path.iter().map(|p| Point { x: p.x_scaled(), y: p.y_scaled() }).collect()).collect())
}

/// Calls `clipper2::difference` on the two polygons as single closed paths
/// of scaled points, with `FillRule::NonZero`.
///
/// Trusted in the same way as the intersection.
#[verifier::external_body]
fn clipper_subtract(subject: &Vec<Point>, clip: &Vec<Point>) -> (result: Result<
    Vec<Vec<Point>>,
    clipper2::ClipperError,
>)
    requires
        clippable(subject@, clip@),
    ensures
        match result {
            Ok(paths) => clipper_difference(subject@, clip@) == Some(polygons(paths@)),
            Err(_) => clipper_difference(subject@, clip@) is None,
        },
{
    let subject: Vec<clipper2::Point<clipper2::Centi>> =
        subject.iter().map(|p| clipper2::Point::from_scaled(p.x, p.y)).collect();
    let clip: Vec<clipper2::Point<clipper2::Centi>> =
        clip.iter().map(|p| clipper2::Point::from_scaled(p.x, p.y)).collect();
    let paths = clipper2::difference(subject, clip, clipper2::FillRule::NonZero)?;
    Ok(paths.iter().map(|path| path.iter().map(|p| Point { x: p.x_scaled(), y: p.y_scaled() }).collect()).collect())
}

/// Tells whether every coordinate of the polygon lies in the clipper's range.
pub fn is_in_clip_range(polygon: &Vec<Point>) -> (ok: bool)
    ensures
        ok == in_clip_range(polygon@),
{
    let mut i: usize = 0;
    while i < polygon.len()
        invariant
            i <= polygon@.len(),
            in_clip_range(polygon@.take(i as int)),
        decreases polygon@.len() - i,
    {
        let p = polygon[i];
        if p.x < -MAX_CLIP_COORDINATE || p.x > MAX_CLIP_COORDINATE || p.y < -MAX_CLIP_COORDINATE
            || p.y > MAX_CLIP_COORDINATE {
            return false;
        }
        assert forall|k: int| 0 <= k < i + 1 implies -MAX_CLIP_COORDINATE <= (
        #[trigger] polygon@.take(i + 1)[k]).x <= MAX_CLIP_COORDINATE && -MAX_CLIP_COORDINATE
            <= polygon@.take(i + 1)[k].y <= MAX_CLIP_COORDINATE by {
            if k < i {
                assert(polygon@.take(i + 1)[k] == polygon@.take(i as int)[k]);
            }
        }
        i += 1;
    }
    assert(polygon@.take(polygon@.len() as int) =~= polygon@);
    true
}

/// Tells whether the clipper can be asked to combine the two polygons.
pub fn can_clip(subject: &Vec<Point>, clip: &Vec<Point>) -> (ok: bool)
    ensures
        ok == clippable(subject@, clip@),
{
    subject.len() <= MAX_CLIP_POINTS && clip.len() <= MAX_CLIP_POINTS - subject.len()
        && is_in_clip_range(subject) && is_in_clip_range(clip)
}

/// The pieces of `subject` inside `clip`. There are none where the two
/// cannot be clipped or the clipper fails.
pub open spec fn intersection(subject: Seq<Point>, clip: Seq<Point>) -> Seq<Seq<Point>> {
    if clippable(subject, clip) {
        match clipper_intersection(subject, clip) {
            Some(pieces) => pieces,
            None => Seq::empty(),
        }
    } else {
        Seq::empty()
    }
}

/// The pieces of `subject` outside `clip`. The subject stays as it is where
/// the two cannot be clipped or the clipper fails.
pub open spec fn difference(subject: Seq<Point>, clip: Seq<Point>) -> Seq<Seq<Point>> {
    if clippable(subject, clip) {
        match clipper_difference(subject, clip) {
            Some(pieces) => pieces,
            None => seq![subject],
        }
    } else {
        seq![subject]
    }
}

/// What is left of each of `pieces`, in order, once `hole` is cut out of it.
pub open spec fn without_hole(pieces: Seq<Seq<Point>>, hole: Seq<Point>) -> Seq<Seq<Point>>
    decreases pieces.len(),
{
    if pieces.len() == 0 {
        Seq::empty()
    } else {
        without_hole(pieces.drop_last(), hole) + difference(pieces.last(), hole)
    }
}

/// What is left of `pieces` once the holes are cut out one after the other.
pub open spec fn without_holes(pieces: Seq<Seq<Point>>, holes: Seq<Seq<Point>>) -> Seq<Seq<Point>>
    decreases holes.len(),
{
    if holes.len() == 0 {
        pieces
    } else {
        without_hole(without_holes(pieces, holes.drop_last()), holes.last())
    }
}

/// Intersects two polygons under the non-zero fill rule.
pub fn clipper2_intersect(subject: &Vec<Point>, clip: &Vec<Point>) -> (pieces: Vec<Vec<Point>>)
    ensures
        polygons(pieces@) == intersection(subject@, clip@),
{
    if !can_clip(subject, clip) {
        let pieces: Vec<Vec<Point>> = Vec::new();
        assert(polygons(pieces@) =~= Seq::<Seq<Point>>::empty());
        return pieces;
    }
    match clipper_intersect(subject, clip) {
        Ok(pieces) => pieces,
        Err(_) => {
            let pieces: Vec<Vec<Point>> = Vec::new();
            assert(polygons(pieces@) =~= Seq::<Seq<Point>>::empty());
            pieces
        },
    }
}

/// A list that holds a copy of `subject` and nothing else.
fn only(subject: &Vec<Point>) -> (list: Vec<Vec<Point>>)
    ensures
        polygons(list@) == seq![subject@],
{
    let mut list: Vec<Vec<Point>> = Vec::new();
    list.push(copy_polygon(subject));
    assert(polygons(list@) =~= seq![subject@]);
    list
}

/// Cuts `clip` out of `subject` under the non-zero fill rule.
pub fn clipper2_difference(subject: &Vec<Point>, clip: &Vec<Point>) -> (pieces: Vec<Vec<Point>>)
    ensures
        polygons(pieces@) == difference(subject@, clip@),
{
    if !can_clip(subject, clip) {
        return only(subject);
    }
    match clipper_subtract(subject, clip) {
        Ok(pieces) => pieces,
        Err(_) => only(subject),
    }
}

/// Cuts `hole` out of every one of `pieces`.
pub fn subtract_hole(pieces: &Vec<Vec<Point>>, hole: &Vec<Point>) -> (remaining: Vec<Vec<Point>>)
    ensures
        polygons(remaining@) == without_hole(polygons(pieces@), hole@),
{
    let ghost all = polygons(pieces@);
    let mut remaining: Vec<Vec<Point>> = Vec::new();
    let mut i: usize = 0;
    assert(all.take(0) =~= Seq::<Seq<Point>>::empty());
    assert(polygons(remaining@) =~= Seq::<Seq<Point>>::empty());
    while i < pieces.len()
        invariant
            i <= pieces@.len(),
            all == polygons(pieces@),
            polygons(remaining@) == without_hole(all.take(i as int), hole@),
        decreases pieces@.len() - i,
    {
        let ghost before = remaining@;
        let mut after = clipper2_difference(&pieces[i], hole);
        let ghost added = after@;
        remaining.append(&mut after);
        proof {
            assert(remaining@ == before + added);
            assert(polygons(remaining@) =~= polygons(before) + polygons(added));
            assert(all.take(i + 1).drop_last() =~= all.take(i as int));
            assert(all.take(i + 1).last() == pieces@[i as int]@);
        }
        i += 1;
    }
    assert(all.take(pieces@.len() as int) =~= all);
    remaining
}

/// Cuts every hole out of a fragment, one hole after the other. A cut may
/// split a piece in several; what is returned are the pieces left at the end
/// that have at least three points.
pub fn subtract_all_holes(fragment: &Vec<Point>, holes: &Vec<Vec<Point>>) -> (remaining: Vec<
    Vec<Point>,
>)
    ensures
        polygons(remaining@) == proper_polygons(
            without_holes(seq![fragment@], polygons(holes@)),
        ),
{
    let ghost all = polygons(holes@);
    let mut pieces = only(fragment);
    let mut i: usize = 0;
    assert(all.take(0) =~= Seq::<Seq<Point>>::empty());
    while i < holes.len()
        invariant
            i <= holes@.len(),
            all == polygons(holes@),
            polygons(pieces@) == without_holes(seq![fragment@], all.take(i as int)),
        decreases holes@.len() - i,
    {
        pieces = subtract_hole(&pieces, &holes[i]);
        proof {
            assert(all.take(i + 1).drop_last() =~= all.take(i as int));
            assert(all.take(i + 1).last() == holes@[i as int]@);
        }
        i += 1;
    }
    assert(all.take(holes@.len() as int) =~= all);
    let mut remaining: Vec<Vec<Point>> = Vec::new();
    assert(polygons(remaining@) =~= Seq::<Seq<Point>>::empty());
    push_proper(&mut remaining, &pieces);
    assert(Seq::<Seq<Point>>::empty() + proper_polygons(polygons(pieces@)) =~= proper_polygons(
        polygons(pieces@),
    ));
    remaining
}

/// With no hole to cut out, a fragment of at least three points comes back
/// as it was, alone.
pub proof fn lemma_no_holes_no_change(fragment: Seq<Point>)
    requires
        fragment.len() >= 3,
    ensures
        proper_polygons(without_holes(seq![fragment], Seq::empty())) == seq![fragment],
{
    let list = seq![fragment];
    assert(list.drop_last() =~= Seq::<Seq<Point>>::empty());
    assert(proper_polygons(list.drop_last()) =~= Seq::<Seq<Point>>::empty());
    assert(proper_polygons(list) =~= list);
}

/// A hole that the clipper removes the whole fragment for leaves no piece.
pub proof fn lemma_hole_that_covers(fragment: Seq<Point>, hole: Seq<Point>)
    requires
        difference(fragment, hole) == Seq::<Seq<Point>>::empty(),
    ensures
        proper_polygons(without_holes(seq![fragment], seq![hole])) == Seq::<Seq<Point>>::empty(),
{
    let list = seq![fragment];
    let holes = seq![hole];
    assert(holes.drop_last() =~= Seq::<Seq<Point>>::empty());
    assert(without_holes(list, holes.drop_last()) == list);
    assert(list.drop_last() =~= Seq::<Seq<Point>>::empty());
    assert(without_hole(list.drop_last(), hole) =~= Seq::<Seq<Point>>::empty());
    assert(without_hole(list, hole) =~= difference(fragment, hole));
}

} // verus!
