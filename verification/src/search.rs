//! The shortest-path query: a single-source search that settles nodes in
//! order of distance and stops as soon as the destination is settled.

use crate::consistency::{
    candidates, consistent, lemma_arrived, lemma_discard, lemma_exhausted, lemma_finish,
    lemma_first_entry, lemma_improve, lemma_initial, lemma_keep, lemma_least_is_minimal,
    lemma_measure, lemma_relaxing_facts, lemma_settle, lemma_step_back, relaxing, undercuts_all,
};
use crate::geometry::segment_length_of;
use crate::graph::{GraphView, RoadGraph};
use crate::model::{
    discard, improve, initial, lemma_relax_stays_failed, lemma_run_one_more, relax_edge,
    relax_upto, run, search_yields, settle, step, Answer, PathError, Progress, Search,
};
use crate::queue::{MinQueue, NodeWithDistance};
use std::collections::{HashMap, HashSet};
use vstd::prelude::*;

verus! {

broadcast use vstd::std_specs::hash::group_hash_axioms;

/// Follows the predecessors from `end` back to `start` and returns the
/// nodes passed, in the order from `start` to `end`.
fn trace(
    prev: &HashMap<i64, i64>,
    start: i64,
    end: i64,
    Ghost(g): Ghost<GraphView>,
    Ghost(s): Ghost<Search>,
) -> (path: Vec<i64>)
    requires
        prev@ == s.prev,
        consistent(g, start, end, s, None),
        s.distances.contains_key(end),
    ensures
        path@ == s.routes[end],
{
    let ghost route = s.routes[end];
    let mut reversed: Vec<i64> = Vec::new();
    let mut current: i64 = end;
    proof {
        lemma_step_back(g, start, end, s, end);
    }
    while current != start
        invariant
            prev@ == s.prev,
            consistent(g, start, end, s, None),
            route == s.routes[end],
            s.distances.contains_key(current),
            s.routes[current].len() > 0,
            s.routes[current].len() + reversed.len() == route.len(),
            s.routes[current] =~= route.subrange(0, s.routes[current].len() as int),
            forall|j: int|
                0 <= j < reversed.len() ==> #[trigger] reversed@[j] == route[route.len() - 1 - j],
        decreases s.routes[current].len(),
    {
        proof {
            lemma_step_back(g, start, end, s, current);
            lemma_step_back(g, start, end, s, s.prev[current]);
            assert(s.routes[s.prev[current]] =~= route.subrange(
                0,
                s.routes[s.prev[current]].len() as int,
            ));
            assert(route.subrange(0, s.routes[current].len() as int).last() == current);
        }
        reversed.push(current);
        match prev.get(&current) {
            Some(before) => {
                current = *before;
            },
            None => {
                return reversed;
            },
        }
    }
    proof {
        lemma_step_back(g, start, end, s, start);
        assert(route.subrange(0, 1)[0] == start);
    }
    reversed.push(start);
    let mut path: Vec<i64> = Vec::new();
    let mut left: usize = reversed.len();
    while left > 0
        invariant
            reversed.len() == route.len(),
            left <= reversed.len(),
            path.len() + left == reversed.len(),
            forall|j: int|
                0 <= j < reversed.len() ==> #[trigger] reversed@[j] == route[route.len() - 1 - j],
            forall|j: int| 0 <= j < path.len() ==> #[trigger] path@[j] == route[j],
        decreases left,
    {
        left -= 1;
        path.push(reversed[left]);
    }
    assert(path@ =~= route);
    path
}

/// The answer that a query's result stands for.
pub open spec fn answer_of(result: Result<Option<Vec<i64>>, PathError>) -> Answer {
    match result {
        Ok(Some(path)) => Ok(Some(path@)),
        Ok(None) => Ok(None),
        Err(e) => Err(e),
    }
}

/// What the step from `s` is, given the first entry of its queue.
proof fn lemma_step_takes(g: GraphView, end: i64, s: Search, m: NodeWithDistance)
    requires
        s.queue.len() > 0,
        m == s.queue[0],
    ensures
        s.visited.contains(m.node) ==> step(g, end, s) == Progress::Running(discard(s)),
        !s.visited.contains(m.node) && m.node == end ==> step(g, end, s) == Progress::Done(
            Ok(Some(s.routes[end])),
        ),
        !s.visited.contains(m.node) && m.node != end ==> step(g, end, s) == after_relaxing(
            relax_upto(g, settle(s), m.node, m.distance, g.edges.len()),
        ),
{
}

/// Where the search stands once the edges of a node have been relaxed.
spec fn after_relaxing(relaxed: Option<Search>) -> Progress {
    match relaxed {
        Some(t) => Progress::Running(t),
        None => Progress::Done(Err(PathError::DanglingEdgeReference)),
    }
}

/// A dangling edge among the first `upto` edges ends the search with a
/// failure.
proof fn lemma_step_fails(g: GraphView, base: Search, t: Search, u: i64, d: u128, i: int)
    requires
        0 <= i < g.edges.len(),
        relax_upto(g, base, u, d, i as nat) == Some(t),
        g.edges[i].0 == u,
        !(g.nodes.contains_key(u) && g.nodes.contains_key(g.edges[i].1)),
    ensures
        after_relaxing(relax_upto(g, base, u, d, g.edges.len())) == Progress::Done(
            Err(PathError::DanglingEdgeReference),
        ),
        g.is_broken_at(u),
{
    assert(relax_edge(g, t, u, d, i) is None);
    assert(relax_upto(g, base, u, d, (i + 1) as nat) is None);
    lemma_relax_stays_failed(g, base, u, d, (i + 1) as nat, g.edges.len());
    assert(g.edges.contains((u, g.edges[i].1)));
    assert(g.has_dangling_edge(u, g.edges[i].1));
}

/// Where no route leads and no dangling edge is in reach, no walk leads
/// either, and nothing breaks.
proof fn lemma_unconnected(g: GraphView, start: i64, end: i64)
    requires
        !g.reaches(start, end),
        g.is_sound_from(start),
    ensures
        !g.connects(start, end),
        !g.breaks_short_of(start, end),
        !g.breaks_before(start, end),
{
    if g.connects(start, end) {
        let p = choose|p: Seq<i64>|
            #[trigger] g.is_walk(p) && p.first() == start && p.last() == end;
        g.lemma_sound_walk_is_route(start, p);
        assert(g.is_route_between(p, start, end));
    }
}

/// Where a shortest route has been found and nothing dangles nearer than
/// its end, the two nodes are connected and nothing breaks short of the end.
proof fn lemma_found(g: GraphView, start: i64, end: i64, path: Seq<i64>)
    requires
        g.is_shortest_route(path, start, end),
        g.is_sound_below(start, g.cost(path)),
    ensures
        g.connects(start, end),
        !g.breaks_short_of(start, end),
{
    g.lemma_route_is_walk(path);
    assert(g.is_route_between(path, start, end));
}

/// A dangling edge at a node that is no farther than the destination breaks
/// the search; then there is no saying that nothing is in reach.
proof fn lemma_broken(g: GraphView, start: i64, end: i64, q: Seq<i64>, u: i64)
    requires
        g.is_route_between(q, start, u),
        g.is_broken_at(u),
        undercuts_all(g, start, end, g.cost(q) as int),
    ensures
        g.breaks_before(start, end),
        !g.is_sound_from(start),
{
}

impl RoadGraph {
    /// The length of the segment between the positions of two nodes, or the
    /// error if one of them has no position.
    pub fn distance(&self, node1: i64, node2: i64) -> (result: Result<u64, PathError>)
        ensures
            match result {
                Ok(length) => {
                    &&& self@.nodes.contains_key(node1)
                    &&& self@.nodes.contains_key(node2)
                    &&& length == self@.weight(node1, node2)
                },
                Err(_) => !(self@.nodes.contains_key(node1) && self@.nodes.contains_key(node2)),
            },
    {
        let here = match self.position(node1) {
            Some(here) => here,
            None => {
                return Err(PathError::DanglingEdgeReference);
            },
        };
        let there = match self.position(node2) {
            Some(there) => there,
            None => {
                return Err(PathError::DanglingEdgeReference);
            },
        };
        Ok(segment_length_of(here, there))
    }

    /// Finds a shortest route from `start` to `end`.
    ///
    /// The search settles nodes in order of their distance from `start` and
    /// stops as soon as `end` is settled. The answer is
    ///
    /// * `Ok(Some(path))` with a route of least cost that passes no node
    ///   twice, when none of the nodes nearer than `end` has a dangling edge;
    /// * `Ok(None)` when no route leads to `end` and no node in reach of
    ///   `start` has a dangling edge;
    /// * `Err(DanglingEdgeReference)` when the search came to a dangling
    ///   edge, which leaves a node no farther from `start` than `end` is.
    ///
    /// Which of several shortest routes is returned, and whether a dangling
    /// edge at a node exactly as far as `end` is found, follows from the
    /// order of the edge list and of the queue: the answer is the one that
    /// the steps of [`crate::model`] end with.
    pub fn shortest_path(&self, start: i64, end: i64) -> (result: Result<
        Option<Vec<i64>>,
        PathError,
    >)
        ensures
            start == end ==> (result matches Ok(Some(path)) && path@ == seq![start]),
            match result {
                Ok(Some(path)) => {
                    &&& self@.is_shortest_route(path@, start, end)
                    &&& path@.no_duplicates()
                    &&& self@.is_sound_below(start, self@.cost(path@))
                },
                Ok(None) => {
                    &&& !self@.connects(start, end)
                    &&& self@.is_sound_from(start)
                },
                Err(_) => self@.breaks_before(start, end),
            },
            self@.breaks_short_of(start, end) ==> result is Err,
            !self@.breaks_before(start, end) ==> result is Ok,
            self@.reaches(start, end) && !self@.breaks_before(start, end) ==> result matches Ok(
                Some(_),
            ),
            !self@.connects(start, end) && self@.is_sound_from(start) ==> result == Ok::<
                Option<Vec<i64>>,
                PathError,
            >(None),
            search_yields(self@, start, end, answer_of(result)),
    {
        let ghost g = self@;
        let edges = self.edges();
        let mut distances: HashMap<i64, u128> = HashMap::new();
        let mut visited: HashSet<i64> = HashSet::new();
        let mut prev: HashMap<i64, i64> = HashMap::new();
        let mut queue = MinQueue::new();
        distances.insert(start, 0);
        queue.push(NodeWithDistance { node: start, distance: 0 });
        let ghost mut s = initial(start);
        let ghost mut steps: nat = 0;
        proof {
            lemma_initial(g, start, end);
            lemma_first_entry(start);
        }
        loop
            invariant
                g == self@,
                edges@ == g.edges,
                distances@ == s.distances,
                prev@ == s.prev,
                visited@ == s.visited,
                queue@ == s.queue,
                queue.well_formed(),
                consistent(g, start, end, s, None),
                start == end ==> s == initial(start),
                run(g, end, initial(start), steps) == Progress::Running(s),
            decreases candidates(g, start).len() - s.visited.len(), s.queue.len(),
        {
            proof {
                lemma_measure(g, start, end, s);
                lemma_run_one_more(g, end, initial(start), steps, s);
            }
            let least = match queue.pop() {
                Some(least) => least,
                None => {
                    proof {
                        lemma_exhausted(g, start, end, s);
                        assert(g.is_route_between(seq![start], start, start));
                        lemma_unconnected(g, start, end);
                    }
                    return Ok(None);
                },
            };
            let node: i64 = least.node;
            let distance: u128 = least.distance;
            proof {
                lemma_step_takes(g, end, s, least);
            }
            if visited.contains(&node) {
                proof {
                    lemma_discard(g, start, end, s, least);
                    s = discard(s);
                    steps = steps + 1;
                }
            } else {
                proof {
                    lemma_least_is_minimal(g, start, end, s, least);
                }
                if node == end {
                    proof {
                        lemma_arrived(g, start, end, s, least);
                    }
                    let path = trace(&prev, start, end, Ghost(g), Ghost(s));
                    proof {
                        lemma_found(g, start, end, path@);
                    }
                    return Ok(Some(path));
                }
                visited.insert(node);
                let ghost base = settle(s);
                proof {
                    lemma_settle(g, start, end, s, least);
                    s = base;
                }
                let mut i: usize = 0;
                while i < edges.len()
                    invariant
                        g == self@,
                        edges@ == g.edges,
                        distances@ == s.distances,
                        prev@ == s.prev,
                        visited@ == s.visited,
                        queue@ == s.queue,
                queue.well_formed(),
                        0 <= i <= edges.len(),
                        start != end,
                        s.visited == base.visited,
                        relaxing(g, start, end, s, node, distance, i as int),
                        relax_upto(g, base, node, distance, i as nat) == Some(s),
                        run(g, end, initial(start), steps + 1) == after_relaxing(
                            relax_upto(g, base, node, distance, g.edges.len()),
                        ),
                        undercuts_all(g, start, end, distance as int),
                    decreases edges.len() - i,
                {
                    let from: i64 = edges[i].0;
                    let to: i64 = edges[i].1;
                    if from == node {
                        proof {
                            lemma_relaxing_facts(g, start, end, s, node, distance, i as int);
                        }
                        let length: u64 = match self.distance(from, to) {
                            Ok(length) => length,
                            Err(e) => {
                                proof {
                                    lemma_step_fails(g, base, s, node, distance, i as int);
                                    lemma_broken(g, start, end, s.routes[node], node);
                                }
                                return Err(e);
                            },
                        };
                        let new_distance: u128 = distance + length as u128;
                        let better = match distances.get(&to) {
                            Some(known) => new_distance < *known,
                            None => true,
                        };
                        if better {
                            distances.insert(to, new_distance);
                            prev.insert(to, node);
                            queue.push(NodeWithDistance { node: to, distance: new_distance });
                            proof {
                                lemma_improve(
                                    g,
                                    start,
                                    end,
                                    s,
                                    node,
                                    distance,
                                    i as int,
                                    new_distance,
                                );
                                assert(relax_edge(g, s, node, distance, i as int) == Some(
                                    improve(s, node, to, new_distance),
                                ));
                                s = improve(s, node, to, new_distance);
                            }
                        } else {
                            proof {
                                lemma_keep(g, start, end, s, node, distance, i as int);
                                assert(relax_edge(g, s, node, distance, i as int) == Some(s));
                            }
                        }
                    } else {
                        proof {
                            lemma_keep(g, start, end, s, node, distance, i as int);
                            assert(relax_edge(g, s, node, distance, i as int) == Some(s));
                        }
                    }
                    proof {
                        assert(relax_upto(g, base, node, distance, (i + 1) as nat) == Some(s));
                    }
                    i += 1;
                }
                proof {
                    lemma_finish(g, start, end, s, node, distance);
                    steps = steps + 1;
                }
            }
        }
    }
}

} // verus!
