//! Chaining boundary segments into contours.
//!
//! The segments form a graph on their endpoints. Each contour is one walk
//! through that graph: start at an endpoint that no earlier walk has visited,
//! keep moving to the first neighbour not yet visited, and stop when there is
//! none left or when as many steps were taken as there are segments.

use crate::contour::{polygons_of, GridPoint, Segment};
use std::collections::HashMap;
use vstd::arithmetic::div_mod::{lemma_mod_self_0, lemma_small_mod};
use vstd::prelude::*;

verus! {

broadcast use vstd::std_specs::hash::group_hash_axioms;

/// The points joined to `p` by a segment, in the order in which the segments
/// list them. A segment from `p` lists its end, a segment to `p` its start.
pub open spec fn neighbours(segments: Seq<Segment>, p: GridPoint) -> Seq<GridPoint>
    decreases segments.len(),
{
    if segments.len() == 0 {
        Seq::empty()
    } else {
        let last = segments.last();
        let earlier = neighbours(segments.drop_last(), p);
        let forward = if last.start == p {
            earlier.push(last.end)
        } else {
            earlier
        };
        if last.end == p {
            forward.push(last.start)
        } else {
            forward
        }
    }
}

/// The first of `candidates` that is not in `visited`.
pub open spec fn first_unvisited(candidates: Seq<GridPoint>, visited: Set<GridPoint>) -> Option<
    GridPoint,
>
    decreases candidates.len(),
{
    if candidates.len() == 0 {
        None
    } else if !visited.contains(candidates.first()) {
        Some(candidates.first())
    } else {
        first_unvisited(candidates.drop_first(), visited)
    }
}

/// One walk from `current` with at most `budget` steps: the points it moves
/// to, in order, and the set of visited points it leaves behind. A step marks
/// the point it stands on and moves to its first unvisited neighbour.
pub open spec fn walk(
    segments: Seq<Segment>,
    current: GridPoint,
    visited: Set<GridPoint>,
    budget: nat,
) -> (Seq<GridPoint>, Set<GridPoint>)
    decreases budget,
{
    if budget == 0 {
        (Seq::empty(), visited)
    } else {
        let seen = visited.insert(current);
        match first_unvisited(neighbours(segments, current), seen) {
            Some(next) => {
                let rest = walk(segments, next, seen, (budget - 1) as nat);
                (seq![next] + rest.0, rest.1)
            },
            None => (Seq::empty(), seen),
        }
    }
}

/// The endpoints of the segments in listing order: start, then end, of each.
pub open spec fn endpoints(segments: Seq<Segment>) -> Seq<GridPoint> {
    Seq::new(
        2 * segments.len(),
        |k: int|
            if k % 2 == 0 {
                segments[k / 2].start
            } else {
                segments[k / 2].end
            },
    )
}

/// The contours found by walking from each of `starts` in turn, skipping
/// those already visited. A walk that gathers fewer than three points is
/// dropped, but the points it visited stay visited.
pub open spec fn trace_from(
    segments: Seq<Segment>,
    starts: Seq<GridPoint>,
    visited: Set<GridPoint>,
) -> Seq<Seq<GridPoint>>
    decreases starts.len(),
{
    if starts.len() == 0 {
        Seq::empty()
    } else if visited.contains(starts.first()) {
        trace_from(segments, starts.drop_first(), visited)
    } else {
        let steps = walk(segments, starts.first(), visited, segments.len());
        let contour = seq![starts.first()] + steps.0;
        let rest = trace_from(segments, starts.drop_first(), steps.1);
        if contour.len() > 2 {
            seq![contour] + rest
        } else {
            rest
        }
    }
}

/// The contours of a list of segments.
pub open spec fn chain(segments: Seq<Segment>) -> Seq<Seq<GridPoint>> {
    trace_from(segments, endpoints(segments), Set::empty())
}

/// The number that stands for a point in the endpoint index. Distinct points
/// have distinct keys.
pub open spec fn point_key(p: GridPoint) -> u64 {
    ((p.x + 0x8000_0000) * 0x1_0000_0000 + (p.y + 0x8000_0000)) as u64
}

fn key_of(p: GridPoint) -> (key: u64)
    ensures
        key == point_key(p),
{
    let column: u64 = (p.x as i64 + 0x8000_0000) as u64;
    let row: u64 = (p.y as i64 + 0x8000_0000) as u64;
    column * 0x1_0000_0000 + row
}

proof fn lemma_point_key_injective(p: GridPoint, q: GridPoint)
    requires
        point_key(p) == point_key(q),
    ensures
        p == q,
{
}

/// The points that a list of endpoint numbers stands for.
spec fn points_at(ids: Seq<usize>, points: Seq<GridPoint>) -> Seq<GridPoint> {
    Seq::new(ids.len(), |k: int| points[ids[k] as int])
}

pub proof fn lemma_neighbours_push(segments: Seq<Segment>, s: Segment, p: GridPoint)
    ensures
        neighbours(segments.push(s), p) == {
            let earlier = neighbours(segments, p);
            let forward = if s.start == p {
                earlier.push(s.end)
            } else {
                earlier
            };
            if s.end == p {
                forward.push(s.start)
            } else {
                forward
            }
        },
{
    assert(segments.push(s).drop_last() =~= segments);
}

/// The endpoint graph of a list of segments: every endpoint has a number,
/// and lists the numbers of its neighbours.
struct EndpointGraph {
    index: HashMap<u64, usize>,
    points: Vec<GridPoint>,
    adjacency: Vec<Vec<usize>>,
    starts: Vec<usize>,
}

impl EndpointGraph {
    spec fn numbered(&self, p: GridPoint) -> bool {
        self.index@.contains_key(point_key(p))
    }

    /// The graph describes exactly the segments `listed`.
    spec fn describes(&self, listed: Seq<Segment>) -> bool {
        &&& self.adjacency@.len() == self.points@.len()
        &&& self.starts@.len() == 2 * listed.len()
        &&& forall|id: int|
            0 <= id < self.points@.len() ==> self.index@.contains_key(
                #[trigger] point_key(self.points@[id]),
            ) && self.index@[point_key(self.points@[id])] == id
        &&& forall|key: u64| #[trigger]
            self.index@.contains_key(key) ==> self.index@[key] < self.points@.len() && point_key(
                self.points@[self.index@[key] as int],
            ) == key
        &&& forall|id: int, k: int|
            0 <= id < self.adjacency@.len() && 0 <= k < self.adjacency@[id]@.len() ==> (
            #[trigger] self.adjacency@[id]@[k]) < self.points@.len()
        &&& forall|id: int|
            0 <= id < self.adjacency@.len() ==> points_at(
                (#[trigger] self.adjacency@[id])@,
                self.points@,
            ) == neighbours(listed, self.points@[id])
        &&& forall|p: GridPoint|
            !self.numbered(p) ==> (#[trigger] neighbours(listed, p)).len() == 0
        &&& forall|k: int|
            0 <= k < self.starts@.len() ==> (#[trigger] self.starts@[k]) < self.points@.len()
                && self.points@[self.starts@[k] as int] == endpoints(listed)[k]
    }

    fn new() -> (graph: Self)
        ensures
            graph.describes(Seq::empty()),
            graph.points@.len() == 0,
    {
        let graph = EndpointGraph {
            index: HashMap::new(),
            points: Vec::new(),
            adjacency: Vec::new(),
            starts: Vec::new(),
        };
        assert forall|p: GridPoint| !graph.numbered(p) implies (#[trigger] neighbours(
            Seq::<Segment>::empty(),
            p,
        )).len() == 0 by {}
        graph
    }

    /// The number of `p`, which gets the next free one if it had none.
    fn number_of(&mut self, p: GridPoint, Ghost(listed): Ghost<Seq<Segment>>) -> (id: usize)
        requires
            old(self).describes(listed),
        ensures
            final(self).describes(listed),
            id < final(self).points@.len(),
            final(self).points@[id as int] == p,
            final(self).starts@ == old(self).starts@,
            final(self).points@.len() >= old(self).points@.len(),
            forall|i: int|
                0 <= i < old(self).points@.len() ==> final(self).points@[i] == old(
                    self,
                ).points@[i],
    {
        let key = key_of(p);
        let known: Option<usize> = match self.index.get(&key) {
            Some(id) => Some(*id),
            None => None,
        };
        match known {
            Some(id) => {
                proof {
                    lemma_point_key_injective(self.points@[id as int], p);
                }
                id
            },
            None => {
                let id = self.points.len();
                self.index.insert(key, id);
                self.points.push(p);
                self.adjacency.push(Vec::new());
                proof {
                    let old_points = old(self).points@;
                    assert forall|i: int| 0 <= i < self.points@.len() implies self.index@.contains_key(
                        #[trigger] point_key(self.points@[i]),
                    ) && self.index@[point_key(self.points@[i])] == i by {
                        if i < id {
                            assert(old(self).index@.contains_key(point_key(old_points[i])));
                        }
                    }
                    assert forall|k: u64| #[trigger] self.index@.contains_key(k) implies self.index@[k]
                        < self.points@.len() && point_key(self.points@[self.index@[k] as int])
                        == k by {
                        if k != key {
                            assert(old(self).index@.contains_key(k));
                        }
                    }
                    assert forall|i: int| 0 <= i < self.adjacency@.len() implies points_at(
                        (#[trigger] self.adjacency@[i])@,
                        self.points@,
                    ) == neighbours(listed, self.points@[i]) by {
                        if i < id {
                            assert(points_at(old(self).adjacency@[i]@, old_points) == neighbours(
                                listed,
                                old_points[i],
                            ));
                            assert(points_at(self.adjacency@[i]@, self.points@) =~= points_at(
                                old(self).adjacency@[i]@,
                                old_points,
                            ));
                        } else {
                            assert(!old(self).numbered(p));
                            assert(points_at(self.adjacency@[i]@, self.points@) =~= neighbours(
                                listed,
                                p,
                            ));
                        }
                    }
                    assert forall|q: GridPoint| !self.numbered(q) implies (#[trigger] neighbours(
                        listed,
                        q,
                    )).len() == 0 by {
                        assert(!old(self).numbered(q));
                    }
                }
                id
            },
        }
    }

    /// Adds one segment to the graph.
    fn add_segment(&mut self, s: Segment, Ghost(listed): Ghost<Seq<Segment>>)
        requires
            old(self).describes(listed),
        ensures
            final(self).describes(listed.push(s)),
    {
        let from = self.number_of(s.start, Ghost(listed));
        let to = self.number_of(s.end, Ghost(listed));
        let ghost before = *self;
        self.adjacency[from].push(to);
        let ghost between = *self;
        self.adjacency[to].push(from);
        self.starts.push(from);
        self.starts.push(to);
        proof {
            let after = listed.push(s);
            assert(self.points@ == before.points@);
            assert(self.index@ == before.index@);
            assert(between.adjacency@ == before.adjacency@.update(
                from as int,
                between.adjacency@[from as int],
            ));
            assert(between.adjacency@[from as int]@ == before.adjacency@[from as int]@.push(to));
            assert(self.adjacency@ == between.adjacency@.update(
                to as int,
                self.adjacency@[to as int],
            ));
            assert(self.adjacency@[to as int]@ == between.adjacency@[to as int]@.push(from));
            assert forall|id: int| 0 <= id < self.adjacency@.len() implies points_at(
                (#[trigger] self.adjacency@[id])@,
                self.points@,
            ) == neighbours(after, self.points@[id]) by {
                lemma_neighbours_push(listed, s, self.points@[id]);
                assert(points_at(before.adjacency@[id]@, before.points@) == neighbours(
                    listed,
                    before.points@[id],
                ));
                if self.points@[id] == s.start {
                    lemma_point_key_injective(self.points@[id], self.points@[from as int]);
                    assert(id == from);
                } else {
                    assert(id != from);
                }
                if self.points@[id] == s.end {
                    lemma_point_key_injective(self.points@[id], self.points@[to as int]);
                    assert(id == to);
                } else {
                    assert(id != to);
                }
                assert(points_at(self.adjacency@[id]@, self.points@) =~= neighbours(
                    after,
                    self.points@[id],
                ));
            }
            assert forall|p: GridPoint| !self.numbered(p) implies (#[trigger] neighbours(
                after,
                p,
            )).len() == 0 by {
                lemma_neighbours_push(listed, s, p);
                assert(!before.numbered(p));
            }
            assert forall|k: int| 0 <= k < self.starts@.len() implies (#[trigger] self.starts@[k])
                < self.points@.len() && self.points@[self.starts@[k] as int] == endpoints(
                after,
            )[k] by {
                if k < 2 * listed.len() {
                    assert(self.starts@[k] == before.starts@[k]);
                    assert(endpoints(after)[k] == endpoints(listed)[k]);
                }
            }
        }
    }
}

/// Whether the flags mark exactly those numbered points that are in `seen`.
spec fn marks(visited: Seq<bool>, points: Seq<GridPoint>, seen: Set<GridPoint>) -> bool {
    &&& visited.len() == points.len()
    &&& forall|id: int| 0 <= id < points.len() ==> #[trigger] visited[id] == seen.contains(points[id])
}

impl EndpointGraph {
    /// The first neighbour of `current` that is not marked.
    fn first_unvisited_of(
        &self,
        visited: &Vec<bool>,
        current: usize,
        Ghost(segments): Ghost<Seq<Segment>>,
        Ghost(seen): Ghost<Set<GridPoint>>,
    ) -> (next: Option<usize>)
        requires
            self.describes(segments),
            marks(visited@, self.points@, seen),
            current < self.points@.len(),
        ensures
            match next {
                Some(id) => id < self.points@.len() && first_unvisited(
                    neighbours(segments, self.points@[current as int]),
                    seen,
                ) == Some(self.points@[id as int]),
                None => first_unvisited(neighbours(segments, self.points@[current as int]), seen)
                    is None,
            },
    {
        let ids = &self.adjacency[current];
        let ghost candidates = neighbours(segments, self.points@[current as int]);
        assert(candidates == points_at(ids@, self.points@));
        assert(candidates.skip(0) =~= candidates);
        let mut j: usize = 0;
        while j < ids.len()
            invariant
                j <= ids@.len(),
                self.describes(segments),
                marks(visited@, self.points@, seen),
                current < self.points@.len(),
                ids == self.adjacency@[current as int],
                candidates == points_at(ids@, self.points@),
                first_unvisited(candidates, seen) == first_unvisited(candidates.skip(j as int), seen),
            decreases ids@.len() - j,
        {
            let id = ids[j];
            assert(candidates.skip(j as int).first() == self.points@[id as int]);
            assert(candidates.skip(j as int).drop_first() =~= candidates.skip(j + 1));
            if !visited[id] {
                return Some(id);
            }
            j += 1;
        }
        None
    }

    /// Walks from the endpoint numbered `start`, marking what it visits, and
    /// returns the contour: the start and every point moved to.
    fn walk_from(
        &self,
        visited: &mut Vec<bool>,
        start: usize,
        budget: usize,
        Ghost(segments): Ghost<Seq<Segment>>,
        Ghost(seen): Ghost<Set<GridPoint>>,
    ) -> (contour: Vec<GridPoint>)
        requires
            self.describes(segments),
            marks(old(visited)@, self.points@, seen),
            start < self.points@.len(),
        ensures
            contour@ == seq![self.points@[start as int]] + walk(
                segments,
                self.points@[start as int],
                seen,
                budget as nat,
            ).0,
            marks(
                final(visited)@,
                self.points@,
                walk(segments, self.points@[start as int], seen, budget as nat).1,
            ),
    {
        let ghost origin = self.points@[start as int];
        let ghost whole = walk(segments, origin, seen, budget as nat);
        let ghost mut now = seen;
        let mut contour: Vec<GridPoint> = Vec::new();
        contour.push(self.points[start]);
        let mut current: usize = start;
        let mut steps: usize = 0;
        let mut done: bool = false;
        assert(contour@ + whole.0 =~= seq![origin] + whole.0);
        while steps < budget && !done
            invariant
                steps <= budget,
                self.describes(segments),
                current < self.points@.len(),
                marks(visited@, self.points@, now),
                origin == self.points@[start as int],
                whole == walk(segments, origin, seen, budget as nat),
                done ==> seq![origin] + whole.0 == contour@ && whole.1 == now,
                !done ==> seq![origin] + whole.0 == contour@ + walk(
                    segments,
                    self.points@[current as int],
                    now,
                    (budget - steps) as nat,
                ).0 && whole.1 == walk(
                    segments,
                    self.points@[current as int],
                    now,
                    (budget - steps) as nat,
                ).1,
            decreases
                    if done {
                        0
                    } else {
                        budget - steps + 1
                    },
        {
            let ghost here = self.points@[current as int];
            let ghost remaining = walk(segments, here, now, (budget - steps) as nat);
            visited.set(current, true);
            proof {
                assert forall|id: int| 0 <= id < self.points@.len() implies #[trigger] visited@[id]
                    == now.insert(here).contains(self.points@[id]) by {
                    if self.points@[id] == here {
                        lemma_point_key_injective(self.points@[id], here);
                    }
                }
                now = now.insert(here);
            }
            match self.first_unvisited_of(visited, current, Ghost(segments), Ghost(now)) {
                Some(next) => {
                    contour.push(self.points[next]);
                    proof {
                        let after = walk(
                            segments,
                            self.points@[next as int],
                            now,
                            (budget - steps - 1) as nat,
                        );
                        assert(remaining.0 == seq![self.points@[next as int]] + after.0);
                        assert(contour@ + after.0 =~= seq![origin] + whole.0);
                    }
                    current = next;
                    steps += 1;
                },
                None => {
                    proof {
                        assert(remaining.0 =~= Seq::<GridPoint>::empty());
                        assert(contour@ =~= seq![origin] + whole.0);
                    }
                    done = true;
                },
            }
        }
        proof {
            if !done {
                assert(contour@ =~= seq![origin] + whole.0);
            }
        }
        contour
    }
}

/// Chains boundary segments into contours.
///
/// Walks start at the endpoints in listing order: the start of the first
/// segment, its end, the start of the second, and so on. Each walk visits at
/// most as many points beyond its start as there are segments. Contours with
/// fewer than three points are dropped.
pub fn chain_segments(segments: &Vec<Segment>) -> (contours: Vec<Vec<GridPoint>>)
    ensures
        polygons_of(contours@) == chain(segments@),
{
    let budget: usize = segments.len();
    let mut graph = EndpointGraph::new();
    let mut i: usize = 0;
    assert(segments@.take(0) =~= Seq::<Segment>::empty());
    while i < budget
        invariant
            i <= budget,
            budget == segments@.len(),
            graph.describes(segments@.take(i as int)),
        decreases budget - i,
    {
        graph.add_segment(segments[i], Ghost(segments@.take(i as int)));
        assert(segments@.take(i + 1) =~= segments@.take(i as int).push(segments@[i as int]));
        i += 1;
    }
    assert(segments@.take(budget as int) =~= segments@);
    let count: usize = graph.points.len();
    let mut visited: Vec<bool> = Vec::with_capacity(count);
    let mut filled: usize = 0;
    while filled < count
        invariant
            filled <= count,
            visited@.len() == filled,
            forall|id: int| 0 <= id < filled ==> !visited@[id],
        decreases count - filled,
    {
        visited.push(false);
        filled += 1;
    }
    let ghost mut seen: Set<GridPoint> = Set::empty();
    let mut contours: Vec<Vec<GridPoint>> = Vec::new();
    let mut k: usize = 0;
    let total: usize = graph.starts.len();
    assert(endpoints(segments@).skip(0) =~= endpoints(segments@));
    assert(polygons_of(contours@) + chain(segments@) =~= chain(segments@));
    while k < total
        invariant
            k <= total,
            total == graph.starts@.len(),
            budget == segments@.len(),
            graph.describes(segments@),
            marks(visited@, graph.points@, seen),
            chain(segments@) == polygons_of(contours@) + trace_from(
                segments@,
                endpoints(segments@).skip(k as int),
                seen,
            ),
        decreases total - k,
    {
        let start: usize = graph.starts[k];
        let ghost pending = endpoints(segments@).skip(k as int);
        assert(pending.first() == graph.points@[start as int]);
        assert(pending.drop_first() =~= endpoints(segments@).skip(k + 1));
        if !visited[start] {
            let ghost steps = walk(segments@, graph.points@[start as int], seen, budget as nat);
            let ghost before = contours@;
            let contour = graph.walk_from(
                &mut visited,
                start,
                budget,
                Ghost(segments@),
                Ghost(seen),
            );
            proof {
                seen = steps.1;
            }
            if contour.len() > 2 {
                contours.push(contour);
                proof {
                    let rest = trace_from(segments@, endpoints(segments@).skip(k + 1), seen);
                    assert(polygons_of(contours@) =~= polygons_of(before).push(contour@));
                    assert(polygons_of(contours@) + rest =~= polygons_of(before) + (seq![
                        contour@,
                    ] + rest));
                }
            }
        }
        k += 1;
    }
    assert(endpoints(segments@).skip(total as int) =~= Seq::<GridPoint>::empty());
    assert(polygons_of(contours@) + Seq::<Seq<GridPoint>>::empty() =~= polygons_of(contours@));
    contours
}

/// Every contour that tracing keeps has at least three points.
pub proof fn lemma_trace_keeps_polygons(
    segments: Seq<Segment>,
    starts: Seq<GridPoint>,
    visited: Set<GridPoint>,
)
    ensures
        forall|i: int|
            0 <= i < trace_from(segments, starts, visited).len() ==> (#[trigger] trace_from(
                segments,
                starts,
                visited,
            )[i]).len() >= 3,
    decreases starts.len(),
{
    if starts.len() == 0 {
        assert(trace_from(segments, starts, visited).len() == 0);
    } else if visited.contains(starts.first()) {
        lemma_trace_keeps_polygons(segments, starts.drop_first(), visited);
        assert(trace_from(segments, starts, visited) == trace_from(
            segments,
            starts.drop_first(),
            visited,
        ));
    } else {
        let steps = walk(segments, starts.first(), visited, segments.len());
        let contour = seq![starts.first()] + steps.0;
        let rest = trace_from(segments, starts.drop_first(), steps.1);
        let all = trace_from(segments, starts, visited);
        lemma_trace_keeps_polygons(segments, starts.drop_first(), steps.1);
        assert forall|i: int| 0 <= i < all.len() implies (#[trigger] all[i]).len() >= 3 by {
            if contour.len() > 2 {
                if i > 0 {
                    assert(all[i] == rest[i - 1]);
                }
            } else {
                assert(all[i] == rest[i]);
            }
        }
    }
}

/// Without segments there are no contours.
pub proof fn lemma_chain_of_nothing()
    ensures
        chain(Seq::empty()) == Seq::<Seq<GridPoint>>::empty(),
{
    assert(endpoints(Seq::empty()) =~= Seq::<GridPoint>::empty());
}

/// Starts that were all visited before give no contour.
pub proof fn lemma_trace_of_visited(
    segments: Seq<Segment>,
    starts: Seq<GridPoint>,
    visited: Set<GridPoint>,
)
    requires
        forall|i: int| 0 <= i < starts.len() ==> visited.contains(#[trigger] starts[i]),
    ensures
        trace_from(segments, starts, visited) == Seq::<Seq<GridPoint>>::empty(),
    decreases starts.len(),
{
    if starts.len() > 0 {
        assert(visited.contains(starts[0]));
        assert forall|i: int| 0 <= i < starts.drop_first().len() implies visited.contains(
            #[trigger] starts.drop_first()[i],
        ) by {
            assert(starts.drop_first()[i] == starts[i + 1]);
        }
        lemma_trace_of_visited(segments, starts.drop_first(), visited);
    }
}

/// The segment from the point numbered `i` of a closed loop to the next; the
/// last point is followed by the first.
pub open spec fn loop_edge(cycle: Seq<GridPoint>, i: int) -> Segment {
    Segment { start: cycle[i], end: cycle[(i + 1) % (cycle.len() as int)] }
}

/// Whether the segments are the edges of one closed loop through the
/// points of `cycle`, none of which occurs twice.
///
/// The segments may be listed in any order, but for the first, which leads
/// from the first point of the loop to the second. `edge_of` gives for
/// every segment the point of the loop that it starts at, and `listed_at`
/// for every point of the loop the place of the segment that starts there.
pub open spec fn is_loop(
    segments: Seq<Segment>,
    cycle: Seq<GridPoint>,
    edge_of: Seq<int>,
    listed_at: Seq<int>,
) -> bool {
    &&& cycle.len() >= 3
    &&& segments.len() == cycle.len()
    &&& edge_of.len() == cycle.len()
    &&& listed_at.len() == cycle.len()
    &&& cycle.no_duplicates()
    &&& edge_of[0] == 0
    &&& forall|j: int|
        0 <= j < segments.len() ==> 0 <= #[trigger] edge_of[j] < cycle.len() && segments[j]
            == loop_edge(cycle, edge_of[j])
    &&& forall|i: int|
        0 <= i < cycle.len() ==> 0 <= #[trigger] listed_at[i] < segments.len()
            && segments[listed_at[i]] == loop_edge(cycle, i)
}

proof fn lemma_loop_index(i: int, n: int)
    requires
        0 <= i < n,
    ensures
        0 <= (i + 1) % n < n,
        i + 1 < n ==> (i + 1) % n == i + 1,
        i + 1 == n ==> (i + 1) % n == 0,
{
    if i + 1 < n {
        lemma_small_mod((i + 1) as nat, n as nat);
    } else {
        lemma_mod_self_0(n);
    }
}

/// Every neighbour of a point is joined to it by one of the segments.
pub proof fn lemma_neighbour_is_joined(segments: Seq<Segment>, p: GridPoint, k: int)
    requires
        0 <= k < neighbours(segments, p).len(),
    ensures
        exists|j: int|
            0 <= j < segments.len() && ((#[trigger] segments[j]).start == p && segments[j].end
                == neighbours(segments, p)[k] || segments[j].end == p && segments[j].start
                == neighbours(segments, p)[k]),
    decreases segments.len(),
{
    let q = neighbours(segments, p)[k];
    let last = segments.last();
    let shorter = segments.drop_last();
    let earlier = neighbours(shorter, p);
    let at = segments.len() - 1;
    if k < earlier.len() {
        lemma_neighbour_is_joined(shorter, p, k);
        let j = choose|j: int|
            0 <= j < shorter.len() && ((#[trigger] shorter[j]).start == p && shorter[j].end
                == earlier[k] || shorter[j].end == p && shorter[j].start == earlier[k]);
        assert(segments[j] == shorter[j]);
        assert(earlier[k] == q);
    } else {
        assert(segments[at] == last);
        if last.start == p && k == earlier.len() {
            assert(q == last.end);
        } else {
            assert(last.end == p);
            assert(q == last.start);
        }
    }
}

/// Every point that a segment joins to `p` is a neighbour of `p`.
pub proof fn lemma_joined_is_neighbour(segments: Seq<Segment>, p: GridPoint, j: int)
    requires
        0 <= j < segments.len(),
    ensures
        segments[j].start == p ==> neighbours(segments, p).contains(segments[j].end),
        segments[j].end == p ==> neighbours(segments, p).contains(segments[j].start),
    decreases segments.len(),
{
    let last = segments.last();
    let shorter = segments.drop_last();
    let earlier = neighbours(shorter, p);
    let all = neighbours(segments, p);
    assert forall|k: int| 0 <= k < earlier.len() implies all[k] == earlier[k] by {}
    if j < shorter.len() {
        lemma_joined_is_neighbour(shorter, p, j);
        assert(shorter[j] == segments[j]);
        if segments[j].start == p {
            let k = choose|k: int| 0 <= k < earlier.len() && earlier[k] == segments[j].end;
            assert(all[k] == segments[j].end);
        }
        if segments[j].end == p {
            let k = choose|k: int| 0 <= k < earlier.len() && earlier[k] == segments[j].start;
            assert(all[k] == segments[j].start);
        }
    } else {
        if last.start == p {
            assert(all[earlier.len() as int] == last.end);
        }
        if last.end == p {
            assert(all[all.len() - 1] == last.start);
        }
    }
}

/// The first neighbour of the start of the first segment is its end.
proof fn lemma_first_neighbour(segments: Seq<Segment>)
    requires
        segments.len() > 0,
    ensures
        neighbours(segments, segments[0].start).len() > 0,
        neighbours(segments, segments[0].start)[0] == segments[0].end,
    decreases segments.len(),
{
    let p = segments[0].start;
    if segments.len() == 1 {
        assert(segments.drop_last() =~= Seq::<Segment>::empty());
        assert(neighbours(segments.drop_last(), p) =~= Seq::<GridPoint>::empty());
    } else {
        lemma_first_neighbour(segments.drop_last());
        assert(segments.drop_last()[0] == segments[0]);
    }
}

/// Where all candidates but `x` were visited, `x` is the first that was not.
pub proof fn lemma_only_unvisited(candidates: Seq<GridPoint>, visited: Set<GridPoint>, x: GridPoint)
    requires
        candidates.contains(x),
        !visited.contains(x),
        forall|k: int|
            0 <= k < candidates.len() ==> visited.contains(#[trigger] candidates[k])
                || candidates[k] == x,
    ensures
        first_unvisited(candidates, visited) == Some(x),
    decreases candidates.len(),
{
    if candidates.first() != x {
        let rest = candidates.drop_first();
        let at = choose|k: int| 0 <= k < candidates.len() && candidates[k] == x;
        assert(rest[at - 1] == x);
        assert forall|k: int| 0 <= k < rest.len() implies visited.contains(#[trigger] rest[k])
            || rest[k] == x by {
            assert(rest[k] == candidates[k + 1]);
        }
        lemma_only_unvisited(rest, visited, x);
    }
}

/// Where all candidates were visited, none is left.
pub proof fn lemma_none_unvisited(candidates: Seq<GridPoint>, visited: Set<GridPoint>)
    requires
        forall|k: int| 0 <= k < candidates.len() ==> visited.contains(#[trigger] candidates[k]),
    ensures
        first_unvisited(candidates, visited) is None,
    decreases candidates.len(),
{
    if candidates.len() > 0 {
        let rest = candidates.drop_first();
        assert(visited.contains(candidates[0]));
        assert forall|k: int| 0 <= k < rest.len() implies visited.contains(#[trigger] rest[k]) by {
            assert(rest[k] == candidates[k + 1]);
        }
        lemma_none_unvisited(rest, visited);
    }
}

/// The first `count` points of a loop, as a set.
spec fn walked(cycle: Seq<GridPoint>, count: int) -> Set<GridPoint> {
    Set::new(|p: GridPoint| exists|i: int| 0 <= i < count && i < cycle.len() && cycle[i] == p)
}

/// On a closed loop every neighbour of a point is the point before it or the
/// point after it, and the point after it is among them.
proof fn lemma_loop_neighbours(
    segments: Seq<Segment>,
    cycle: Seq<GridPoint>,
    edge_of: Seq<int>,
    listed_at: Seq<int>,
    i: int,
)
    requires
        is_loop(segments, cycle, edge_of, listed_at),
        0 <= i < cycle.len(),
    ensures
        neighbours(segments, cycle[i]).contains(cycle[(i + 1) % (cycle.len() as int)]),
        forall|k: int|
            0 <= k < neighbours(segments, cycle[i]).len() ==> (#[trigger] neighbours(
                segments,
                cycle[i],
            )[k]) == cycle[(i + 1) % (cycle.len() as int)] || (exists|b: int|
                0 <= b < cycle.len() && (b + 1) % (cycle.len() as int) == i && neighbours(
                    segments,
                    cycle[i],
                )[k] == cycle[b]),
{
    let n = cycle.len() as int;
    let p = cycle[i];
    let around = neighbours(segments, p);
    lemma_loop_index(i, n);
    lemma_joined_is_neighbour(segments, p, listed_at[i]);
    assert(segments[listed_at[i]] == loop_edge(cycle, i));
    assert forall|k: int| 0 <= k < around.len() implies (#[trigger] around[k]) == cycle[(i + 1)
        % n] || (exists|b: int| 0 <= b < n && (b + 1) % n == i && around[k] == cycle[b]) by {
        lemma_neighbour_is_joined(segments, p, k);
        let j = choose|j: int|
            0 <= j < segments.len() && ((#[trigger] segments[j]).start == p && segments[j].end
                == around[k] || segments[j].end == p && segments[j].start == around[k]);
        let m = edge_of[j];
        assert(segments[j] == loop_edge(cycle, m));
        lemma_loop_index(m, n);
        if segments[j].start == p && segments[j].end == around[k] {
            assert(cycle[m] == cycle[i]);
            assert(m == i);
        } else {
            assert(cycle[(m + 1) % n] == cycle[i]);
            assert((m + 1) % n == i);
            assert(around[k] == cycle[m]);
        }
    }
}

/// From the point numbered `k` of a closed loop, with the points before it
/// visited, the walk goes on round the loop to its last point.
proof fn lemma_walk_round_loop(
    segments: Seq<Segment>,
    cycle: Seq<GridPoint>,
    edge_of: Seq<int>,
    listed_at: Seq<int>,
    k: int,
)
    requires
        is_loop(segments, cycle, edge_of, listed_at),
        0 <= k < cycle.len(),
    ensures
        walk(segments, cycle[k], walked(cycle, k), (cycle.len() - k) as nat) == (
            cycle.subrange(k + 1, cycle.len() as int),
            walked(cycle, cycle.len() as int),
        ),
    decreases cycle.len() - k,
{
    let n = cycle.len() as int;
    let p = cycle[k];
    let before = walked(cycle, k);
    let seen = before.insert(p);
    let around = neighbours(segments, p);
    assert(seen =~= walked(cycle, k + 1)) by {
        assert forall|q: GridPoint| seen.contains(q) == walked(cycle, k + 1).contains(q) by {
            if walked(cycle, k + 1).contains(q) {
                let i = choose|i: int| 0 <= i < k + 1 && i < n && cycle[i] == q;
                if i < k {
                    assert(before.contains(q));
                }
            }
            if before.contains(q) {
                let i = choose|i: int| 0 <= i < k && i < n && cycle[i] == q;
                assert(0 <= i < k + 1 && cycle[i] == q);
            }
            if q == p {
                assert(0 <= k < k + 1 && cycle[k] == q);
            }
        }
    }
    lemma_loop_neighbours(segments, cycle, edge_of, listed_at, k);
    lemma_loop_index(k, n);
    let after = cycle[(k + 1) % n];
    if k == n - 1 {
        // Back at the start: both neighbours were visited.
        assert forall|i: int| 0 <= i < around.len() implies seen.contains(#[trigger] around[i]) by {
            if around[i] == after {
                assert(0 <= 0 < k + 1 && cycle[0] == after);
            } else {
                let b = choose|b: int| 0 <= b < n && (b + 1) % n == k && around[i] == cycle[b];
                assert(0 <= b < k + 1 && cycle[b] == around[i]);
            }
        }
        lemma_none_unvisited(around, seen);
        assert(cycle.subrange(k + 1, n) =~= Seq::<GridPoint>::empty());
    } else {
        assert(after == cycle[k + 1]);
        assert(!seen.contains(after)) by {
            if seen.contains(after) {
                let i = choose|i: int| 0 <= i < k + 1 && i < n && cycle[i] == after;
                assert(cycle[i] == cycle[k + 1]);
            }
        }
        if k == 0 {
            // At the start both neighbours are new; the first one listed is
            // the end of the first segment.
            lemma_first_neighbour(segments);
            assert(segments[0] == loop_edge(cycle, 0));
            assert(around[0] == after);
            assert(first_unvisited(around, seen) == Some(after));
        } else {
            assert forall|i: int| 0 <= i < around.len() implies seen.contains(
                #[trigger] around[i],
            ) || around[i] == after by {
                if around[i] != after {
                    let b = choose|b: int| 0 <= b < n && (b + 1) % n == k && around[i] == cycle[b];
                    lemma_loop_index(b, n);
                    assert(b == k - 1);
                    assert(0 <= b < k + 1 && cycle[b] == around[i]);
                }
            }
            lemma_only_unvisited(around, seen, after);
        }
        lemma_walk_round_loop(segments, cycle, edge_of, listed_at, k + 1);
        assert(seq![after] + cycle.subrange(k + 2, n) =~= cycle.subrange(k + 1, n));
    }
}

/// Segments that are the edges of one closed loop chain into that loop, and
/// nothing else: the contour starts where the first segment starts and
/// follows the loop in the direction of that segment.
pub proof fn lemma_chain_of_loop(
    segments: Seq<Segment>,
    cycle: Seq<GridPoint>,
    edge_of: Seq<int>,
    listed_at: Seq<int>,
)
    requires
        is_loop(segments, cycle, edge_of, listed_at),
    ensures
        chain(segments) == seq![cycle],
{
    let n = cycle.len() as int;
    let starts = endpoints(segments);
    let all = walked(cycle, n);
    assert(walked(cycle, 0) =~= Set::<GridPoint>::empty());
    lemma_walk_round_loop(segments, cycle, edge_of, listed_at, 0);
    assert(segments[0] == loop_edge(cycle, 0));
    assert(starts.first() == cycle[0]);
    assert(seq![cycle[0]] + cycle.subrange(1, n) =~= cycle);
    assert forall|i: int| 0 <= i < starts.drop_first().len() implies all.contains(
        #[trigger] starts.drop_first()[i],
    ) by {
        let k = i + 1;
        let j = k / 2;
        assert(starts.drop_first()[i] == starts[k]);
        let m = edge_of[j];
        assert(segments[j] == loop_edge(cycle, m));
        lemma_loop_index(m, n);
        if k % 2 == 0 {
            assert(0 <= m < n && cycle[m] == starts[k]);
        } else {
            let next = (m + 1) % n;
            assert(0 <= next < n && cycle[next] == starts[k]);
        }
    }
    lemma_trace_of_visited(segments, starts.drop_first(), all);
    assert(seq![cycle] + Seq::<Seq<GridPoint>>::empty() =~= seq![cycle]);
}

/// Whether one of the segments joins `p` and `q`, in either direction.
pub open spec fn joined(segments: Seq<Segment>, p: GridPoint, q: GridPoint) -> bool {
    exists|j: int|
        0 <= j < segments.len() && ((#[trigger] segments[j]).start == p && segments[j].end == q
            || segments[j].end == p && segments[j].start == q)
}

/// Whether every step of the path, from each point to the next, follows a
/// segment.
pub open spec fn follows_segments(segments: Seq<Segment>, path: Seq<GridPoint>) -> bool {
    forall|k: int|
        0 <= k < path.len() - 1 ==> joined(segments, #[trigger] path[k], path[k + 1])
}

/// The first unvisited candidate is a candidate that was not visited.
pub proof fn lemma_first_unvisited_is_one(candidates: Seq<GridPoint>, visited: Set<GridPoint>)
    ensures
        first_unvisited(candidates, visited) matches Some(x) ==> candidates.contains(x)
            && !visited.contains(x),
    decreases candidates.len(),
{
    if candidates.len() > 0 && visited.contains(candidates.first()) {
        let rest = candidates.drop_first();
        lemma_first_unvisited_is_one(rest, visited);
        if let Some(x) = first_unvisited(rest, visited) {
            let k = choose|k: int| 0 <= k < rest.len() && rest[k] == x;
            assert(candidates[k + 1] == x);
        }
    } else if candidates.len() > 0 {
        assert(candidates[0] == candidates.first());
    }
}

/// A walk moves along segments, to points that were not visited before,
/// and to none twice.
pub proof fn lemma_walk_is_a_path(
    segments: Seq<Segment>,
    current: GridPoint,
    visited: Set<GridPoint>,
    budget: nat,
)
    ensures
        follows_segments(segments, seq![current] + walk(segments, current, visited, budget).0),
        (seq![current] + walk(segments, current, visited, budget).0).no_duplicates(),
        forall|k: int|
            0 <= k < walk(segments, current, visited, budget).0.len() ==> !visited.contains(
                #[trigger] walk(segments, current, visited, budget).0[k],
            ),
    decreases budget,
{
    let steps = walk(segments, current, visited, budget).0;
    let whole = seq![current] + steps;
    if budget > 0 {
        let seen = visited.insert(current);
        let around = neighbours(segments, current);
        lemma_first_unvisited_is_one(around, seen);
        if let Some(next) = first_unvisited(around, seen) {
            let rest = walk(segments, next, seen, (budget - 1) as nat).0;
            lemma_walk_is_a_path(segments, next, seen, (budget - 1) as nat);
            let tail = seq![next] + rest;
            assert(steps =~= tail);
            let at = choose|k: int| 0 <= k < around.len() && around[k] == next;
            lemma_neighbour_is_joined(segments, current, at);
            assert(joined(segments, current, next));
            assert forall|k: int| 0 <= k < whole.len() - 1 implies joined(
                segments,
                #[trigger] whole[k],
                whole[k + 1],
            ) by {
                if k > 0 {
                    assert(whole[k] == tail[k - 1]);
                    assert(whole[k + 1] == tail[k]);
                    assert(joined(segments, tail[k - 1], tail[k]));
                } else {
                    assert(whole[1] == next);
                }
            }
            assert forall|k: int| 0 <= k < steps.len() implies !visited.contains(
                #[trigger] steps[k],
            ) by {
                if k > 0 {
                    assert(steps[k] == rest[k - 1]);
                    assert(!seen.contains(rest[k - 1]));
                }
            }
            assert forall|i: int, j: int| 0 <= i < whole.len() && 0 <= j < whole.len() && i
                != j implies whole[i] != whole[j] by {
                if i == 0 {
                    assert(whole[j] == steps[j - 1]);
                    if j > 1 {
                        assert(steps[j - 1] == rest[j - 2]);
                        assert(!seen.contains(rest[j - 2]));
                    }
                } else if j == 0 {
                    assert(whole[i] == steps[i - 1]);
                    if i > 1 {
                        assert(steps[i - 1] == rest[i - 2]);
                        assert(!seen.contains(rest[i - 2]));
                    }
                } else {
                    assert(whole[i] == tail[i - 1]);
                    assert(whole[j] == tail[j - 1]);
                }
            }
        } else {
            assert(whole =~= seq![current]);
        }
    } else {
        assert(whole =~= seq![current]);
    }
}

/// Every contour that tracing finds is a path along the segments that
/// passes no point twice.
pub proof fn lemma_traced_contours_are_paths(
    segments: Seq<Segment>,
    starts: Seq<GridPoint>,
    visited: Set<GridPoint>,
    i: int,
)
    requires
        0 <= i < trace_from(segments, starts, visited).len(),
    ensures
        follows_segments(segments, trace_from(segments, starts, visited)[i]),
        trace_from(segments, starts, visited)[i].no_duplicates(),
    decreases starts.len(),
{
    if visited.contains(starts.first()) {
        lemma_traced_contours_are_paths(segments, starts.drop_first(), visited, i);
    } else {
        let steps = walk(segments, starts.first(), visited, segments.len());
        let contour = seq![starts.first()] + steps.0;
        lemma_walk_is_a_path(segments, starts.first(), visited, segments.len());
        if contour.len() > 2 {
            if i > 0 {
                lemma_traced_contours_are_paths(segments, starts.drop_first(), steps.1, i - 1);
            }
        } else {
            lemma_traced_contours_are_paths(segments, starts.drop_first(), steps.1, i);
        }
    }
}

} // verus!
