//! Closed contours.
//!
//! Where every endpoint of the segments has exactly two neighbours, the
//! segments fall into closed loops, and every contour that tracing finds is
//! one of them, walked all the way round: its last point is joined to its
//! first.

use crate::contour::chain::{
    endpoints, first_unvisited, joined, lemma_joined_is_neighbour, lemma_neighbour_is_joined,
    lemma_none_unvisited, lemma_only_unvisited, lemma_walk_is_a_path, neighbours, trace_from,
    walk,
};
use crate::contour::{GridPoint, Segment};
use vstd::prelude::*;
use vstd::set_lib::{lemma_int_range, lemma_len_subset, set_int_range};

verus! {

/// Whether the segments meet two by two: none leads from a point to itself,
/// and every point has either no neighbour or two, which are different.
pub open spec fn regular(segments: Seq<Segment>) -> bool {
    &&& forall|j: int| 0 <= j < segments.len() ==> (#[trigger] segments[j]).start != segments[j].end
    &&& forall|p: GridPoint|
        (#[trigger] neighbours(segments, p)).len() == 0 || (neighbours(segments, p).len() == 2
            && neighbours(segments, p)[0] != neighbours(segments, p)[1])
}

/// Whether the set holds, with every point, the neighbours of that point.
pub open spec fn closed_under(segments: Seq<Segment>, points: Set<GridPoint>) -> bool {
    forall|p: GridPoint, k: int|
        points.contains(p) && 0 <= k < neighbours(segments, p).len() ==> points.contains(
            #[trigger] neighbours(segments, p)[k],
        )
}

/// Whether the path is closed: its last point is joined to its first.
pub open spec fn is_closed(segments: Seq<Segment>, path: Seq<GridPoint>) -> bool {
    path.len() >= 3 && joined(segments, path.last(), path.first())
}

/// The points of `visited` together with those of `path`.
pub open spec fn with_path(visited: Set<GridPoint>, path: Seq<GridPoint>) -> Set<GridPoint> {
    Set::new(|p: GridPoint| visited.contains(p) || path.contains(p))
}

/// Being neighbours is mutual.
pub proof fn lemma_neighbours_are_mutual(segments: Seq<Segment>, p: GridPoint, q: GridPoint)
    requires
        neighbours(segments, p).contains(q),
    ensures
        neighbours(segments, q).contains(p),
        joined(segments, p, q),
{
    let k = choose|k: int| 0 <= k < neighbours(segments, p).len() && neighbours(segments, p)[k] == q;
    lemma_neighbour_is_joined(segments, p, k);
    let j = choose|j: int|
        0 <= j < segments.len() && ((#[trigger] segments[j]).start == p && segments[j].end == q
            || segments[j].end == p && segments[j].start == q);
    lemma_joined_is_neighbour(segments, q, j);
}

/// No point of a regular list of segments is its own neighbour.
proof fn lemma_no_point_is_its_neighbour(segments: Seq<Segment>, p: GridPoint)
    requires
        regular(segments),
    ensures
        !neighbours(segments, p).contains(p),
{
    if neighbours(segments, p).contains(p) {
        lemma_neighbours_are_mutual(segments, p, p);
    }
}

/// Where two different points are neighbours of a point with two
/// neighbours, it has no other.
proof fn lemma_both_neighbours(segments: Seq<Segment>, p: GridPoint, a: GridPoint, b: GridPoint)
    requires
        regular(segments),
        neighbours(segments, p).contains(a),
        neighbours(segments, p).contains(b),
        a != b,
    ensures
        neighbours(segments, p).len() == 2,
        forall|k: int|
            0 <= k < 2 ==> (#[trigger] neighbours(segments, p)[k]) == a || neighbours(
                segments,
                p,
            )[k] == b,
{
    let around = neighbours(segments, p);
    let i = choose|i: int| 0 <= i < around.len() && around[i] == a;
    let j = choose|j: int| 0 <= j < around.len() && around[j] == b;
    assert(i != j);
}

/// No more different places than there are places.
proof fn lemma_places_fit(places: Seq<int>, count: int)
    requires
        places.no_duplicates(),
        forall|k: int| 0 <= k < places.len() ==> 0 <= #[trigger] places[k] < count,
        count >= 0,
    ensures
        places.len() <= count,
{
    places.unique_seq_to_set();
    lemma_int_range(0, count);
    assert(places.to_set().subset_of(set_int_range(0, count))) by {
        assert forall|v: int| places.to_set().contains(v) implies set_int_range(0, count).contains(
            v,
        ) by {
            let k = choose|k: int| 0 <= k < places.len() && places[k] == v;
            assert(0 <= places[k] < count);
        }
    }
    lemma_len_subset(places.to_set(), set_int_range(0, count));
}

/// Whether `path` is a walk under way: it started at an endpoint outside
/// `visited`, every point of it is new, every step follows a segment, and
/// `used` names a different segment for every step.
pub open spec fn is_walk(
    segments: Seq<Segment>,
    visited: Set<GridPoint>,
    path: Seq<GridPoint>,
    used: Seq<int>,
) -> bool {
    &&& path.len() >= 1
    &&& used.len() == path.len() - 1
    &&& path.no_duplicates()
    &&& used.no_duplicates()
    &&& neighbours(segments, path[0]).len() == 2
    &&& forall|j: int| 0 <= j < path.len() ==> !visited.contains(#[trigger] path[j])
    &&& forall|j: int|
        0 <= j < path.len() - 1 ==> neighbours(segments, #[trigger] path[j]).contains(path[j + 1])
    &&& forall|j: int|
        0 <= j < used.len() ==> 0 <= #[trigger] used[j] < segments.len() && (segments[used[j]].start
            == path[j] && segments[used[j]].end == path[j + 1] || segments[used[j]].end == path[j]
            && segments[used[j]].start == path[j + 1])
}

/// A walk under way on a regular list of segments goes on until it is back
/// next to its start: the contour that it leaves is closed, and the points
/// visited by then hold all their neighbours again.
pub proof fn lemma_walk_closes(
    segments: Seq<Segment>,
    visited: Set<GridPoint>,
    path: Seq<GridPoint>,
    used: Seq<int>,
)
    requires
        regular(segments),
        closed_under(segments, visited),
        is_walk(segments, visited, path, used),
    ensures
        path.len() <= segments.len(),
        ({
            let steps = walk(
                segments,
                path.last(),
                with_path(visited, path.drop_last()),
                (segments.len() - (path.len() - 1)) as nat,
            );
            &&& is_closed(segments, path + steps.0)
            &&& (path + steps.0).first() == path.first()
            &&& steps.1 == with_path(visited, path + steps.0)
            &&& closed_under(segments, steps.1)
        }),
    decreases segments.len() - used.len(),
{
    let n = segments.len() as int;
    let k = path.len() - 1;
    let here = path[k];
    let start = path[0];
    let around = neighbours(segments, here);
    let before = with_path(visited, path.drop_last());
    let seen = before.insert(here);
    assert(seen =~= with_path(visited, path)) by {
        assert forall|q: GridPoint| seen.contains(q) == with_path(visited, path).contains(q) by {
            if path.contains(q) {
                let i = choose|i: int| 0 <= i < path.len() && path[i] == q;
                if i < k {
                    assert(path.drop_last()[i] == q);
                }
            }
            if path.drop_last().contains(q) {
                let i = choose|i: int| 0 <= i < path.len() - 1 && path.drop_last()[i] == q;
                assert(path[i] == q);
            }
            if q == here {
                assert(path[k] == q);
            }
        }
    }
    // The point has two neighbours.
    if k > 0 {
        lemma_neighbours_are_mutual(segments, path[k - 1], here);
    }
    assert(around.len() == 2);
    lemma_no_point_is_its_neighbour(segments, here);
    // No neighbour of a new point was visited before the walk.
    assert forall|i: int| 0 <= i < 2 implies !visited.contains(#[trigger] around[i]) by {
        if visited.contains(around[i]) {
            lemma_neighbours_are_mutual(segments, here, around[i]);
            let at = choose|at: int|
                0 <= at < neighbours(segments, around[i]).len() && neighbours(
                    segments,
                    around[i],
                )[at] == here;
            assert(visited.contains(neighbours(segments, around[i])[at]));
        }
    }
    // The neighbour to go on to: the one that the walk did not come from.
    let onward = if k > 0 && around[0] == path[k - 1] {
        around[1]
    } else {
        around[0]
    };
    let onward_at = if k > 0 && around[0] == path[k - 1] {
        1int
    } else {
        0int
    };
    assert(around[onward_at] == onward);
    if k > 0 {
        assert(around.contains(path[k - 1]));
        assert(onward != path[k - 1]);
    }
    // The segment to it was not used, so the walk has a step left.
    lemma_neighbour_is_joined(segments, here, onward_at);
    let x = choose|x: int|
        0 <= x < segments.len() && ((#[trigger] segments[x]).start == here && segments[x].end
            == onward || segments[x].end == here && segments[x].start == onward);
    assert forall|j: int| 0 <= j < used.len() implies used[j] != x by {
        if used[j] == x {
            assert(path[j] == here || path[j + 1] == here);
            assert(j + 1 == k);
        }
    }
    let more = used.push(x);
    assert(more.no_duplicates());
    lemma_places_fit(more, n);
    assert(k < n);
    if !seen.contains(onward) {
        // The walk moves on.
        if k > 0 {
            assert forall|i: int| 0 <= i < around.len() implies seen.contains(
                #[trigger] around[i],
            ) || around[i] == onward by {
                if around[i] != onward {
                    assert(around[i] == path[k - 1]);
                    assert(path.contains(path[k - 1]));
                }
            }
            assert(around.contains(onward));
            lemma_only_unvisited(around, seen, onward);
        } else {
            assert(!seen.contains(around[0]));
            assert(first_unvisited(around, seen) == Some(onward));
        }
        let longer = path.push(onward);
        assert(longer.drop_last() =~= path);
        assert(is_walk(segments, visited, longer, more)) by {
            assert forall|i: int, j: int|
                0 <= i < longer.len() && 0 <= j < longer.len() && i != j implies longer[i]
                != longer[j] by {
                if i == k + 1 {
                    assert(path.contains(path[j]));
                }
                if j == k + 1 {
                    assert(path.contains(path[i]));
                }
            }
            assert forall|j: int| 0 <= j < longer.len() implies !visited.contains(
                #[trigger] longer[j],
            ) by {}
            assert forall|j: int| 0 <= j < longer.len() - 1 implies neighbours(
                segments,
                #[trigger] longer[j],
            ).contains(longer[j + 1]) by {
                if j == k {
                    assert(around.contains(onward));
                } else {
                    assert(longer[j] == path[j] && longer[j + 1] == path[j + 1]);
                }
            }
            assert forall|j: int| 0 <= j < more.len() implies 0 <= #[trigger] more[j]
                < segments.len() && (segments[more[j]].start == longer[j] && segments[more[j]].end
                == longer[j + 1] || segments[more[j]].end == longer[j] && segments[more[j]].start
                == longer[j + 1]) by {
                if j < k {
                    assert(more[j] == used[j]);
                    assert(longer[j] == path[j] && longer[j + 1] == path[j + 1]);
                }
            }
        }
        lemma_walk_closes(segments, visited, longer, more);
        let rest = walk(segments, onward, seen, (n - k - 1) as nat);
        assert(longer + rest.0 =~= path + (seq![onward] + rest.0));
    } else {
        // The walk is back next to its start.
        assert(k > 0) by {
            if k == 0 {
                assert(!visited.contains(around[0]));
                assert(path.contains(around[0]));
            }
        }
        assert forall|i: int| 0 <= i < around.len() implies seen.contains(#[trigger] around[i]) by {
            if around[i] != onward {
                assert(around[i] == path[k - 1]);
                assert(path.contains(path[k - 1]));
            }
        }
        lemma_none_unvisited(around, seen);
        assert(path + Seq::<GridPoint>::empty() =~= path);
        assert(!visited.contains(around[onward_at]));
        assert(path.contains(onward));
        let j = choose|j: int| 0 <= j < path.len() && path[j] == onward;
        assert(j != k);
        assert(j != k - 1);
        assert(j == 0) by {
            if j > 0 {
                // A point inside the path has its neighbours on the path,
                // and the point that the walk stands on is neither.
                lemma_neighbours_are_mutual(segments, path[j - 1], path[j]);
                lemma_neighbours_are_mutual(segments, here, onward);
                lemma_both_neighbours(segments, path[j], path[j - 1], path[j + 1]);
                let at = choose|at: int|
                    0 <= at < neighbours(segments, path[j]).len() && neighbours(
                        segments,
                        path[j],
                    )[at] == here;
                assert(here == path[j - 1] || here == path[j + 1]);
            }
        }
        assert(onward == start);
        assert(joined(segments, here, start));
        assert(k >= 2);
        assert forall|p: GridPoint, i: int|
            seen.contains(p) && 0 <= i < neighbours(segments, p).len() implies seen.contains(
            #[trigger] neighbours(segments, p)[i],
        ) by {
            if !visited.contains(p) {
                let m = choose|m: int| 0 <= m < path.len() && path[m] == p;
                let after = if m < k {
                    path[m + 1]
                } else {
                    start
                };
                let ahead = if m > 0 {
                    path[m - 1]
                } else {
                    here
                };
                if m < k {
                    assert(neighbours(segments, p).contains(after));
                } else {
                    assert(around[onward_at] == start);
                }
                if m > 0 {
                    lemma_neighbours_are_mutual(segments, path[m - 1], path[m]);
                } else {
                    lemma_neighbours_are_mutual(segments, here, start);
                }
                assert(after != ahead);
                lemma_both_neighbours(segments, p, ahead, after);
                assert(path.contains(after));
                assert(path.contains(ahead));
            }
        }
    }
}

/// On a regular list of segments every contour that tracing finds is
/// closed.
pub proof fn lemma_trace_closes(
    segments: Seq<Segment>,
    starts: Seq<GridPoint>,
    visited: Set<GridPoint>,
    i: int,
)
    requires
        regular(segments),
        closed_under(segments, visited),
        forall|k: int| 0 <= k < starts.len() ==> neighbours(segments, #[trigger] starts[k]).len() == 2,
        0 <= i < trace_from(segments, starts, visited).len(),
    ensures
        is_closed(segments, trace_from(segments, starts, visited)[i]),
    decreases starts.len(),
{
    let start = starts.first();
    let later = starts.drop_first();
    assert forall|k: int| 0 <= k < later.len() implies neighbours(segments, #[trigger] later[k]).len()
        == 2 by {
        assert(later[k] == starts[k + 1]);
    }
    assert(starts[0] == start);
    if visited.contains(start) {
        lemma_trace_closes(segments, later, visited, i);
    } else {
        let path = seq![start];
        assert(path.drop_last() =~= Seq::<GridPoint>::empty());
        assert(with_path(visited, path.drop_last()) =~= visited);
        lemma_walk_closes(segments, visited, path, Seq::empty());
        let steps = walk(segments, start, visited, segments.len());
        if i > 0 {
            lemma_trace_closes(segments, later, steps.1, i - 1);
        }
    }
}

/// Every endpoint of a segment has a neighbour.
pub proof fn lemma_endpoints_have_neighbours(segments: Seq<Segment>, k: int)
    requires
        0 <= k < endpoints(segments).len(),
    ensures
        neighbours(segments, endpoints(segments)[k]).len() > 0,
{
    lemma_joined_is_neighbour(segments, endpoints(segments)[k], k / 2);
}

/// Whether two paths have no point in common.
pub open spec fn apart(a: Seq<GridPoint>, b: Seq<GridPoint>) -> bool {
    forall|i: int, j: int| 0 <= i < a.len() && 0 <= j < b.len() ==> #[trigger] a[i] != #[trigger] b[j]
}

/// On a regular list of segments the contours that tracing finds are new
/// ground: none passes a point that was visited before, no two of them have
/// a point in common, and every start that was not visited before lies on
/// one of them.
pub proof fn lemma_trace_covers(
    segments: Seq<Segment>,
    starts: Seq<GridPoint>,
    visited: Set<GridPoint>,
)
    requires
        regular(segments),
        closed_under(segments, visited),
        forall|k: int| 0 <= k < starts.len() ==> neighbours(segments, #[trigger] starts[k]).len() == 2,
    ensures
        forall|i: int, k: int|
            0 <= i < trace_from(segments, starts, visited).len() && 0 <= k < trace_from(
                segments,
                starts,
                visited,
            )[i].len() ==> !visited.contains(
                #[trigger] trace_from(segments, starts, visited)[i][k],
            ),
        forall|i: int, j: int|
            0 <= i < j < trace_from(segments, starts, visited).len() ==> apart(
                #[trigger] trace_from(segments, starts, visited)[i],
                #[trigger] trace_from(segments, starts, visited)[j],
            ),
        forall|k: int|
            0 <= k < starts.len() ==> visited.contains(#[trigger] starts[k]) || exists|i: int|
                0 <= i < trace_from(segments, starts, visited).len() && (#[trigger] trace_from(
                    segments,
                    starts,
                    visited,
                )[i]).contains(starts[k]),
    decreases starts.len(),
{
    let found = trace_from(segments, starts, visited);
    if starts.len() == 0 {
        assert(found.len() == 0);
    } else {
        let start = starts.first();
        let later = starts.drop_first();
        assert forall|k: int| 0 <= k < later.len() implies neighbours(
            segments,
            #[trigger] later[k],
        ).len() == 2 by {
            assert(later[k] == starts[k + 1]);
        }
        assert(starts[0] == start);
        if visited.contains(start) {
            lemma_trace_covers(segments, later, visited);
            assert(found == trace_from(segments, later, visited));
            assert forall|k: int| 0 <= k < starts.len() implies visited.contains(
                #[trigger] starts[k],
            ) || exists|i: int| 0 <= i < found.len() && (#[trigger] found[i]).contains(starts[k]) by {
                if k > 0 {
                    assert(later[k - 1] == starts[k]);
                }
            }
        } else {
            let path = seq![start];
            assert(path.drop_last() =~= Seq::<GridPoint>::empty());
            assert(with_path(visited, path.drop_last()) =~= visited);
            lemma_walk_closes(segments, visited, path, Seq::empty());
            lemma_walk_is_a_path(segments, start, visited, segments.len());
            let steps = walk(segments, start, visited, segments.len());
            let contour = path + steps.0;
            let rest = trace_from(segments, later, steps.1);
            lemma_trace_covers(segments, later, steps.1);
            assert(found =~= seq![contour] + rest);
            assert(contour[0] == start);
            assert forall|i: int, k: int|
                0 <= i < found.len() && 0 <= k < found[i].len() implies !visited.contains(
                #[trigger] found[i][k],
            ) by {
                if i == 0 {
                    if k > 0 {
                        assert(contour[k] == steps.0[k - 1]);
                    }
                } else {
                    assert(found[i] == rest[i - 1]);
                    assert(!steps.1.contains(rest[i - 1][k]));
                }
            }
            assert forall|i: int, j: int| 0 <= i < j < found.len() implies apart(
                #[trigger] found[i],
                #[trigger] found[j],
            ) by {
                assert(found[j] == rest[j - 1]);
                if i == 0 {
                    assert forall|a: int, b: int|
                        0 <= a < found[i].len() && 0 <= b < found[j].len() implies #[trigger] found[i][a]
                        != #[trigger] found[j][b] by {
                        assert(!steps.1.contains(rest[j - 1][b]));
                        assert(contour.contains(contour[a]));
                    }
                } else {
                    assert(found[i] == rest[i - 1]);
                    assert(apart(rest[i - 1], rest[j - 1]));
                }
            }
            assert forall|k: int| 0 <= k < starts.len() implies visited.contains(
                #[trigger] starts[k],
            ) || exists|i: int| 0 <= i < found.len() && (#[trigger] found[i]).contains(starts[k]) by {
                if k == 0 {
                    assert(found[0].contains(start));
                } else {
                    assert(later[k - 1] == starts[k]);
                    if steps.1.contains(starts[k]) {
                        if !visited.contains(starts[k]) {
                            assert(contour.contains(starts[k]));
                            assert(found[0].contains(starts[k]));
                        }
                    } else {
                        let i = choose|i: int|
                            0 <= i < rest.len() && (#[trigger] rest[i]).contains(later[k - 1]);
                        assert(found[i + 1] == rest[i]);
                    }
                }
            }
        }
    }
}

} // verus!
