//! Ordering contours by falling point count.
//!
//! The longest contour comes first: it is most likely the outline of the
//! solid region, and the shorter ones the holes in it. Contours of equal
//! length keep the order in which they came.

use crate::contour::{polygons_of, GridPoint};
use vstd::multiset::Multiset;
use vstd::prelude::*;
use vstd::seq_lib::lemma_multiset_commutative;

verus! {

/// The polygons of `len` points, in the order in which they come.
pub open spec fn of_length(polygons: Seq<Seq<GridPoint>>, len: nat) -> Seq<Seq<GridPoint>>
    decreases polygons.len(),
{
    if polygons.len() == 0 {
        Seq::empty()
    } else if polygons.first().len() == len {
        seq![polygons.first()] + of_length(polygons.drop_first(), len)
    } else {
        of_length(polygons.drop_first(), len)
    }
}

/// The number of points of the longest polygon; 0 where there is none.
pub open spec fn longest(polygons: Seq<Seq<GridPoint>>) -> nat
    decreases polygons.len(),
{
    if polygons.len() == 0 {
        0
    } else if polygons.last().len() > longest(polygons.drop_last()) {
        polygons.last().len()
    } else {
        longest(polygons.drop_last())
    }
}

/// The polygons of at most `top` points: those of `top` points, then those
/// of one point fewer, and so on.
pub open spec fn from_length_down(polygons: Seq<Seq<GridPoint>>, top: nat) -> Seq<Seq<GridPoint>>
    decreases top,
{
    if top == 0 {
        of_length(polygons, 0)
    } else {
        of_length(polygons, top) + from_length_down(polygons, (top - 1) as nat)
    }
}

/// The polygons ordered by falling length, those of equal length in the
/// order in which they came.
pub open spec fn longest_first(polygons: Seq<Seq<GridPoint>>) -> Seq<Seq<GridPoint>> {
    from_length_down(polygons, longest(polygons))
}

/// Whether no polygon is followed by a longer one.
pub open spec fn falls_in_length(polygons: Seq<Seq<GridPoint>>) -> bool {
    forall|i: int, j: int|
        0 <= i < j < polygons.len() ==> (#[trigger] polygons[i]).len() >= (
        #[trigger] polygons[j]).len()
}

/// No polygon is longer than the longest.
pub proof fn lemma_longest_bounds(polygons: Seq<Seq<GridPoint>>, k: int)
    requires
        0 <= k < polygons.len(),
    ensures
        polygons[k].len() <= longest(polygons),
    decreases polygons.len(),
{
    if k < polygons.len() - 1 {
        lemma_longest_bounds(polygons.drop_last(), k);
        assert(polygons.drop_last()[k] == polygons[k]);
    }
}

/// The polygons of one length all have that length.
proof fn lemma_of_length_lengths(polygons: Seq<Seq<GridPoint>>, len: nat, k: int)
    requires
        0 <= k < of_length(polygons, len).len(),
    ensures
        of_length(polygons, len)[k].len() == len,
    decreases polygons.len(),
{
    let rest = polygons.drop_first();
    if polygons.first().len() == len {
        if k > 0 {
            lemma_of_length_lengths(rest, len, k - 1);
            assert(of_length(polygons, len)[k] == of_length(rest, len)[k - 1]);
        }
    } else {
        lemma_of_length_lengths(rest, len, k);
    }
}

/// The polygons of at most `top` points have at most `top` points.
proof fn lemma_from_length_down_lengths(polygons: Seq<Seq<GridPoint>>, top: nat, k: int)
    requires
        0 <= k < from_length_down(polygons, top).len(),
    ensures
        from_length_down(polygons, top)[k].len() <= top,
    decreases top,
{
    let class = of_length(polygons, top);
    if k < class.len() {
        lemma_of_length_lengths(polygons, top, k);
        if top > 0 {
            assert(from_length_down(polygons, top)[k] == class[k]);
        }
    } else {
        let lower = from_length_down(polygons, (top - 1) as nat);
        lemma_from_length_down_lengths(polygons, (top - 1) as nat, k - class.len());
        assert(from_length_down(polygons, top)[k] == lower[k - class.len()]);
    }
}

/// The polygons of at most `top` points fall in length.
proof fn lemma_from_length_down_falls(polygons: Seq<Seq<GridPoint>>, top: nat)
    ensures
        falls_in_length(from_length_down(polygons, top)),
    decreases top,
{
    let all = from_length_down(polygons, top);
    let class = of_length(polygons, top);
    assert forall|i: int, j: int| 0 <= i < j < all.len() implies (#[trigger] all[i]).len() >= (
    #[trigger] all[j]).len() by {
        if top == 0 {
            lemma_of_length_lengths(polygons, 0, i);
            lemma_of_length_lengths(polygons, 0, j);
        } else {
            let lower = from_length_down(polygons, (top - 1) as nat);
            lemma_from_length_down_falls(polygons, (top - 1) as nat);
            if j < class.len() {
                lemma_of_length_lengths(polygons, top, i);
                lemma_of_length_lengths(polygons, top, j);
                assert(all[i] == class[i] && all[j] == class[j]);
            } else if i < class.len() {
                lemma_of_length_lengths(polygons, top, i);
                lemma_from_length_down_lengths(polygons, (top - 1) as nat, j - class.len());
                assert(all[i] == class[i] && all[j] == lower[j - class.len()]);
            } else {
                assert(all[i] == lower[i - class.len()] && all[j] == lower[j - class.len()]);
            }
        }
    }
}

/// A first polygon that is longer than `top` is not among the polygons of
/// at most `top` points.
proof fn lemma_longer_is_left_out(polygons: Seq<Seq<GridPoint>>, top: nat)
    requires
        polygons.len() > 0,
        polygons.first().len() > top,
    ensures
        from_length_down(polygons, top) == from_length_down(polygons.drop_first(), top),
    decreases top,
{
    if top > 0 {
        lemma_longer_is_left_out(polygons, (top - 1) as nat);
    }
}

/// A first polygon of at most `top` points is one more among the polygons
/// of at most `top` points.
proof fn lemma_first_is_one_more(polygons: Seq<Seq<GridPoint>>, top: nat)
    requires
        polygons.len() > 0,
        polygons.first().len() <= top,
    ensures
        from_length_down(polygons, top).to_multiset() == from_length_down(
            polygons.drop_first(),
            top,
        ).to_multiset().insert(polygons.first()),
    decreases top,
{
    broadcast use vstd::seq_lib::group_to_multiset_ensures;

    let first = polygons.first();
    let rest = polygons.drop_first();
    let class = of_length(polygons, top);
    let class_rest = of_length(rest, top);
    if top == 0 {
        assert(class == seq![first] + class_rest);
        lemma_multiset_commutative(seq![first], class_rest);
        assert(seq![first].to_multiset() =~= Multiset::empty().insert(first)) by {
            assert(seq![first] =~= Seq::<Seq<GridPoint>>::empty().push(first));
        }
    } else {
        let lower = from_length_down(polygons, (top - 1) as nat);
        let lower_rest = from_length_down(rest, (top - 1) as nat);
        lemma_multiset_commutative(class, lower);
        lemma_multiset_commutative(class_rest, lower_rest);
        if first.len() == top {
            lemma_longer_is_left_out(polygons, (top - 1) as nat);
            assert(class == seq![first] + class_rest);
            lemma_multiset_commutative(seq![first], class_rest);
            assert(seq![first].to_multiset() =~= Multiset::empty().insert(first)) by {
                assert(seq![first] =~= Seq::<Seq<GridPoint>>::empty().push(first));
            }
            assert(from_length_down(polygons, top).to_multiset() =~= from_length_down(
                rest,
                top,
            ).to_multiset().insert(first));
        } else {
            lemma_first_is_one_more(polygons, (top - 1) as nat);
            assert(from_length_down(polygons, top).to_multiset() =~= from_length_down(
                rest,
                top,
            ).to_multiset().insert(first));
        }
    }
}

/// The polygons of at most `top` points are all the polygons, where none is
/// longer than `top`.
proof fn lemma_from_length_down_keeps(polygons: Seq<Seq<GridPoint>>, top: nat)
    requires
        forall|k: int| 0 <= k < polygons.len() ==> (#[trigger] polygons[k]).len() <= top,
    ensures
        from_length_down(polygons, top).to_multiset() == polygons.to_multiset(),
    decreases polygons.len(),
{
    broadcast use vstd::seq_lib::group_to_multiset_ensures;

    if polygons.len() == 0 {
        lemma_nothing_to_order(top);
        assert(polygons =~= Seq::empty());
    } else {
        let first = polygons.first();
        let rest = polygons.drop_first();
        assert(polygons[0].len() <= top);
        assert forall|k: int| 0 <= k < rest.len() implies (#[trigger] rest[k]).len() <= top by {
            assert(rest[k] == polygons[k + 1]);
        }
        lemma_from_length_down_keeps(rest, top);
        lemma_first_is_one_more(polygons, top);
        assert(polygons =~= seq![first] + rest);
        lemma_multiset_commutative(seq![first], rest);
        assert(seq![first].to_multiset() =~= Multiset::empty().insert(first)) by {
            assert(seq![first] =~= Seq::<Seq<GridPoint>>::empty().push(first));
        }
        assert(polygons.to_multiset() =~= rest.to_multiset().insert(first));
    }
}

/// Of no polygons there is nothing to order.
proof fn lemma_nothing_to_order(top: nat)
    ensures
        from_length_down(Seq::empty(), top) == Seq::<Seq<GridPoint>>::empty(),
    decreases top,
{
    if top > 0 {
        lemma_nothing_to_order((top - 1) as nat);
        assert(from_length_down(Seq::empty(), top) =~= Seq::<Seq<GridPoint>>::empty());
    }
}

/// Ordering changes neither the number of polygons nor which ones there are,
/// and leaves no polygon in front of a longer one.
pub proof fn lemma_longest_first(polygons: Seq<Seq<GridPoint>>)
    ensures
        longest_first(polygons).len() == polygons.len(),
        longest_first(polygons).to_multiset() == polygons.to_multiset(),
        falls_in_length(longest_first(polygons)),
{
    broadcast use vstd::seq_lib::group_to_multiset_ensures;

    assert forall|k: int| 0 <= k < polygons.len() implies (#[trigger] polygons[k]).len()
        <= longest(polygons) by {
        lemma_longest_bounds(polygons, k);
    }
    lemma_from_length_down_keeps(polygons, longest(polygons));
    lemma_from_length_down_falls(polygons, longest(polygons));
    assert(longest_first(polygons).to_multiset().len() == polygons.to_multiset().len());
}

/// Every polygon of the ordered list is one of the list that was ordered.
pub proof fn lemma_longest_first_members(polygons: Seq<Seq<GridPoint>>, i: int)
    requires
        0 <= i < longest_first(polygons).len(),
    ensures
        polygons.contains(longest_first(polygons)[i]),
{
    broadcast use vstd::seq_lib::group_to_multiset_ensures;

    lemma_longest_first(polygons);
    let sorted = longest_first(polygons);
    assert(sorted.contains(sorted[i]));
    assert(sorted.to_multiset().count(sorted[i]) > 0);
}

/// A single polygon is in order.
pub proof fn lemma_longest_first_of_one(polygon: Seq<GridPoint>)
    ensures
        longest_first(seq![polygon]) == seq![polygon],
{
    let one = seq![polygon];
    let none = Seq::<Seq<GridPoint>>::empty();
    assert(one.drop_last() =~= none);
    assert(one.last() == polygon);
    assert(longest(none) == 0);
    assert(longest(one) == polygon.len());
    assert(one.drop_first() =~= none);
    assert(one.first() == polygon);
    assert(of_length(none, polygon.len()) =~= none);
    assert(of_length(one, polygon.len()) =~= one);
    if polygon.len() > 0 {
        lemma_longer_is_left_out(one, (polygon.len() - 1) as nat);
        lemma_nothing_to_order((polygon.len() - 1) as nat);
        assert(longest_first(one) =~= one);
    }
}

/// The first of a list that starts with a polygon of the length asked for.
proof fn lemma_of_length_step(polygons: Seq<Seq<GridPoint>>, at: int, len: nat)
    requires
        0 <= at < polygons.len(),
    ensures
        of_length(polygons.skip(at), len) == (if polygons[at].len() == len {
            seq![polygons[at]] + of_length(polygons.skip(at + 1), len)
        } else {
            of_length(polygons.skip(at + 1), len)
        }),
{
    assert(polygons.skip(at).first() == polygons[at]);
    assert(polygons.skip(at).drop_first() =~= polygons.skip(at + 1));
}

/// The bucket that holds the contours of `len` points, where `len` is not
/// 0: contours without points have a bucket of their own.
spec fn bucket_of(buckets: Seq<Vec<Vec<GridPoint>>>, len: int) -> Seq<Seq<GridPoint>> {
    polygons_of(buckets[len - 1]@)
}

/// Puts a contour at the end of the bucket for its length.
fn put(buckets: &mut Vec<Vec<Vec<GridPoint>>>, short: &mut Vec<Vec<GridPoint>>, contour: Vec<GridPoint>)
    requires
        contour@.len() <= old(buckets)@.len(),
    ensures
        final(buckets)@.len() == old(buckets)@.len(),
        contour@.len() == 0 ==> polygons_of(final(short)@) == polygons_of(old(short)@).push(
            contour@,
        ) && final(buckets)@ == old(buckets)@,
        contour@.len() > 0 ==> final(short)@ == old(short)@ && bucket_of(
            final(buckets)@,
            contour@.len() as int,
        ) == bucket_of(old(buckets)@, contour@.len() as int).push(contour@),
        forall|l: int|
            1 <= l <= old(buckets)@.len() && l != contour@.len() ==> #[trigger] bucket_of(
                final(buckets)@,
                l,
            ) == bucket_of(old(buckets)@, l),
{
    let len = contour.len();
    let ghost points = contour@;
    if len == 0 {
        let ghost before = short@;
        short.push(contour);
        assert(polygons_of(short@) =~= polygons_of(before).push(points));
    } else {
        let ghost before = buckets@;
        let ghost held = buckets@[len - 1]@;
        buckets[len - 1].push(contour);
        assert(buckets@[len - 1]@ == held.push(contour));
        assert(bucket_of(buckets@, len as int) =~= bucket_of(before, len as int).push(points));
        assert forall|l: int| 1 <= l <= before.len() && l != len implies #[trigger] bucket_of(
            buckets@,
            l,
        ) == bucket_of(before, l) by {
            assert(buckets@[l - 1] == before[l - 1]);
        }
    }
}

/// Moves the contours of a bucket to the end of `into`, the last of the
/// bucket first.
fn pour(bucket: &mut Vec<Vec<GridPoint>>, into: &mut Vec<Vec<GridPoint>>)
    ensures
        final(bucket)@.len() == 0,
        polygons_of(final(into)@) == polygons_of(old(into)@) + polygons_of(old(bucket)@).reverse(),
{
    let ghost held = polygons_of(bucket@);
    let ghost turned = held.reverse();
    let ghost start = polygons_of(into@);
    assert(start + turned.take(0) =~= start);
    while bucket.len() > 0
        invariant
            bucket@.len() <= held.len(),
            turned == held.reverse(),
            polygons_of(bucket@) == held.take(bucket@.len() as int),
            polygons_of(into@) == start + turned.take(held.len() - bucket@.len()),
        decreases bucket@.len(),
    {
        let ghost before = bucket@;
        let ghost filled = into@;
        let ghost left = bucket@.len() as int;
        let contour = bucket.pop().unwrap();
        into.push(contour);
        proof {
            let taken = held.len() - left;
            assert(contour@ == held[left - 1]) by {
                assert(polygons_of(before)[left - 1] == before[left - 1]@);
            }
            assert(turned[taken] == held[left - 1]);
            assert(polygons_of(bucket@) =~= held.take(left - 1)) by {
                assert forall|k: int| 0 <= k < left - 1 implies polygons_of(bucket@)[k] == held[k] by {
                    assert(polygons_of(before)[k] == before[k]@);
                }
            }
            assert(polygons_of(into@) =~= polygons_of(filled).push(contour@));
            assert(turned.take(taken).push(turned[taken]) =~= turned.take(taken + 1));
            assert(polygons_of(into@) =~= start + turned.take(taken + 1));
        }
    }
    assert(turned.take(held.len() as int) =~= turned);
}

/// Moves the contours of `len` points to the end of `into`.
fn pour_bucket(buckets: &mut Vec<Vec<Vec<GridPoint>>>, len: usize, into: &mut Vec<Vec<GridPoint>>)
    requires
        1 <= len <= old(buckets)@.len(),
    ensures
        final(buckets)@.len() == old(buckets)@.len(),
        polygons_of(final(into)@) == polygons_of(old(into)@) + bucket_of(
            old(buckets)@,
            len as int,
        ).reverse(),
        forall|l: int|
            1 <= l <= old(buckets)@.len() && l != len ==> #[trigger] bucket_of(final(buckets)@, l)
                == bucket_of(old(buckets)@, l),
{
    let ghost before = buckets@;
    pour(&mut buckets[len - 1], into);
    assert forall|l: int| 1 <= l <= before.len() && l != len implies #[trigger] bucket_of(
        buckets@,
        l,
    ) == bucket_of(before, l) by {
        assert(buckets@[l - 1] == before[l - 1]);
    }
}

/// Orders contours by falling point count, keeping the order of those with
/// equally many points.
///
/// The contours are dealt into one bucket for every length and gathered
/// from the longest down, so the work grows with the number of contours
/// and the length of the longest, not with the square of their number.
pub fn sort_longest_first(contours: Vec<Vec<GridPoint>>) -> (sorted: Vec<Vec<GridPoint>>)
    ensures
        polygons_of(sorted@) == longest_first(polygons_of(contours@)),
{
    let ghost all = polygons_of(contours@);
    let count: usize = contours.len();
    // The length of the longest contour.
    let mut top: usize = 0;
    let mut i: usize = 0;
    assert(all.take(0) =~= Seq::<Seq<GridPoint>>::empty());
    while i < count
        invariant
            i <= count,
            count == contours@.len(),
            all == polygons_of(contours@),
            top == longest(all.take(i as int)),
        decreases count - i,
    {
        assert(all.take(i + 1).drop_last() =~= all.take(i as int));
        assert(all.take(i + 1).last() == contours@[i as int]@);
        if contours[i].len() > top {
            top = contours[i].len();
        }
        i += 1;
    }
    assert(all.take(count as int) =~= all);
    proof {
        assert forall|k: int| 0 <= k < all.len() implies (#[trigger] all[k]).len() <= top by {
            lemma_longest_bounds(all, k);
        }
    }
    // One empty bucket for every length from 1 up to the longest, and one
    // for the contours without points.
    let mut short: Vec<Vec<GridPoint>> = Vec::new();
    let mut buckets: Vec<Vec<Vec<GridPoint>>> = Vec::new();
    let mut made: usize = 0;
    while made < top
        invariant
            made <= top,
            buckets@.len() == made,
            forall|l: int| 0 <= l < made ==> (#[trigger] buckets@[l])@.len() == 0,
        decreases top - made,
    {
        buckets.push(Vec::new());
        made += 1;
    }
    // Deal the contours out from the last to the first, so that every
    // bucket holds its contours last first.
    let mut pending = contours;
    proof {
        let none = Seq::<Seq<GridPoint>>::empty();
        assert(all.skip(count as int) =~= none);
        assert(none.reverse() =~= none);
        assert(polygons_of(short@) =~= none);
        assert forall|l: int| 1 <= l <= top implies #[trigger] bucket_of(buckets@, l) == of_length(
            all.skip(count as int),
            l as nat,
        ).reverse() by {
            assert(bucket_of(buckets@, l) =~= none);
        }
    }
    while pending.len() > 0
        invariant
            pending@.len() <= all.len(),
            polygons_of(pending@) == all.take(pending@.len() as int),
            buckets@.len() == top,
            forall|k: int| 0 <= k < all.len() ==> (#[trigger] all[k]).len() <= top,
            polygons_of(short@) == of_length(all.skip(pending@.len() as int), 0).reverse(),
            forall|l: int|
                1 <= l <= top ==> #[trigger] bucket_of(buckets@, l) == of_length(
                    all.skip(pending@.len() as int),
                    l as nat,
                ).reverse(),
        decreases pending@.len(),
    {
        let ghost before = pending@;
        let ghost held = buckets@;
        let ghost held_short = polygons_of(short@);
        let contour = pending.pop().unwrap();
        let ghost at = pending@.len() as int;
        proof {
            assert(contour@ == all[at]) by {
                assert(polygons_of(before)[at] == before[at]@);
            }
            assert(polygons_of(pending@) =~= all.take(at)) by {
                assert forall|k: int| 0 <= k < at implies polygons_of(pending@)[k] == all[k] by {
                    assert(polygons_of(before)[k] == before[k]@);
                }
            }
            assert(all[at].len() <= top);
        }
        put(&mut buckets, &mut short, contour);
        proof {
            lemma_of_length_step(all, at, 0);
            let later_short = of_length(all.skip(at + 1), 0);
            if all[at].len() == 0 {
                assert((seq![all[at]] + later_short).reverse() =~= later_short.reverse().push(
                    all[at],
                ));
            }
            assert forall|l: int| 1 <= l <= top implies #[trigger] bucket_of(buckets@, l)
                == of_length(all.skip(at), l as nat).reverse() by {
                lemma_of_length_step(all, at, l as nat);
                let later = of_length(all.skip(at + 1), l as nat);
                assert(bucket_of(held, l) == later.reverse());
                if l == all[at].len() {
                    assert((seq![all[at]] + later).reverse() =~= later.reverse().push(all[at]));
                }
            }
        }
    }
    assert(all.skip(0) =~= all);
    // Gather the buckets from the longest down.
    let mut sorted: Vec<Vec<GridPoint>> = Vec::new();
    let mut l: usize = top;
    assert(polygons_of(sorted@) + from_length_down(all, l as nat) =~= longest_first(all));
    while l > 0
        invariant
            l <= top,
            buckets@.len() == top,
            polygons_of(sorted@) + from_length_down(all, l as nat) == longest_first(all),
            polygons_of(short@) == of_length(all, 0).reverse(),
            forall|lower: int|
                1 <= lower <= l ==> #[trigger] bucket_of(buckets@, lower) == of_length(
                    all,
                    lower as nat,
                ).reverse(),
        decreases l,
    {
        let ghost class = of_length(all, l as nat);
        let ghost done = polygons_of(sorted@);
        assert(bucket_of(buckets@, l as int) == class.reverse());
        pour_bucket(&mut buckets, l, &mut sorted);
        proof {
            assert(class.reverse().reverse() =~= class);
            assert((done + class) + from_length_down(all, (l - 1) as nat) =~= done + (class
                + from_length_down(all, (l - 1) as nat)));
        }
        l -= 1;
    }
    pour(&mut short, &mut sorted);
    assert(of_length(all, 0).reverse().reverse() =~= of_length(all, 0));
    sorted
}

} // verus!
