//! The road graph: a coordinate store keyed by node id and an ordered list of
//! directed edges, together with the vocabulary in which routes are described.

use crate::geometry::{segment_length, LatLon};
use std::collections::HashMap;
use vstd::prelude::*;

verus! {

broadcast use vstd::std_specs::hash::group_hash_axioms;

/// What a [`RoadGraph`] holds, as mathematical values.
pub struct GraphView {
    /// The coordinate store: the position of every node that has one.
    pub nodes: Map<i64, LatLon>,
    /// The directed edges, in insertion order; duplicates are kept.
    pub edges: Seq<(i64, i64)>,
}

impl GraphView {
    /// The edge list holds an edge from `u` to `v`.
    pub open spec fn has_edge(self, u: i64, v: i64) -> bool {
        self.edges.contains((u, v))
    }

    /// An edge from `u` to `v` whose two ends both have a position, so that
    /// it has a length.
    pub open spec fn has_road(self, u: i64, v: i64) -> bool {
        &&& self.has_edge(u, v)
        &&& self.nodes.contains_key(u)
        &&& self.nodes.contains_key(v)
    }

    /// An edge from `u` to `v` of which at least one end has no position.
    pub open spec fn has_dangling_edge(self, u: i64, v: i64) -> bool {
        &&& self.has_edge(u, v)
        &&& !(self.nodes.contains_key(u) && self.nodes.contains_key(v))
    }

    /// The length of the segment between the positions of `u` and `v`.
    pub open spec fn weight(self, u: i64, v: i64) -> nat {
        segment_length(self.nodes[u], self.nodes[v])
    }

    /// An edge joins node `i` of `p` to the next.
    pub open spec fn edge_at(self, p: Seq<i64>, i: int) -> bool {
        self.has_edge(p[i], p[i + 1])
    }

    /// `p` is a non-empty sequence of nodes in which every node is joined to
    /// the next by an edge, with or without a length.
    pub open spec fn is_walk(self, p: Seq<i64>) -> bool {
        &&& p.len() > 0
        &&& forall|i: int| 0 <= i < p.len() - 1 ==> #[trigger] self.edge_at(p, i)
    }

    /// Some walk along the edges leads from `from` to `to`.
    pub open spec fn connects(self, from: i64, to: i64) -> bool {
        exists|p: Seq<i64>| #[trigger] self.is_walk(p) && p.first() == from && p.last() == to
    }

    /// An edge that has a length joins node `i` of `p` to the next.
    pub open spec fn road_at(self, p: Seq<i64>, i: int) -> bool {
        self.has_road(p[i], p[i + 1])
    }

    /// `p` is a non-empty sequence of nodes in which every node is joined to
    /// the next by an edge that has a length.
    pub open spec fn is_route(self, p: Seq<i64>) -> bool {
        &&& p.len() > 0
        &&& forall|i: int| 0 <= i < p.len() - 1 ==> #[trigger] self.road_at(p, i)
    }

    /// `p` is a route that starts at `from` and ends at `to`.
    pub open spec fn is_route_between(self, p: Seq<i64>, from: i64, to: i64) -> bool {
        &&& self.is_route(p)
        &&& p.first() == from
        &&& p.last() == to
    }

    /// The sum of the lengths of the consecutive edges of `p`.
    pub open spec fn cost(self, p: Seq<i64>) -> nat
        decreases p.len(),
    {
        if p.len() <= 1 {
            0
        } else {
            self.cost(p.drop_last()) + self.weight(p[p.len() - 2], p.last())
        }
    }

    /// Some route leads from `from` to `to`.
    pub open spec fn reaches(self, from: i64, to: i64) -> bool {
        exists|p: Seq<i64>| self.is_route_between(p, from, to)
    }

    /// `p` is a route from `from` to `to`, and no route between the two
    /// costs less.
    pub open spec fn is_shortest_route(self, p: Seq<i64>, from: i64, to: i64) -> bool {
        &&& self.is_route_between(p, from, to)
        &&& forall|q: Seq<i64>| #[trigger]
            self.is_route_between(q, from, to) ==> self.cost(p) <= self.cost(q)
    }

    /// A dangling edge leaves `u`.
    pub open spec fn is_broken_at(self, u: i64) -> bool {
        exists|v: i64| self.has_dangling_edge(u, v)
    }

    /// No dangling edge leaves a node that a route from `from` reaches at a
    /// cost below `bound`.
    pub open spec fn is_sound_below(self, from: i64, bound: nat) -> bool {
        forall|q: Seq<i64>, u: i64| #[trigger]
            self.is_route_between(q, from, u) && self.cost(q) < bound ==> !self.is_broken_at(u)
    }

    /// No dangling edge leaves any node that a route from `from` reaches.
    pub open spec fn is_sound_from(self, from: i64) -> bool {
        forall|q: Seq<i64>, u: i64| #[trigger]
            self.is_route_between(q, from, u) ==> !self.is_broken_at(u)
    }

    /// A dangling edge leaves a node that a route from `from` reaches at a
    /// cost below that of every route from `from` to `to`.
    pub open spec fn breaks_short_of(self, from: i64, to: i64) -> bool {
        exists|q: Seq<i64>, u: i64|
            {
                &&& #[trigger] self.is_route_between(q, from, u)
                &&& self.is_broken_at(u)
                &&& forall|r: Seq<i64>| #[trigger]
                    self.is_route_between(r, from, to) ==> self.cost(q) < self.cost(r)
            }
    }

    /// A dangling edge leaves a node that a route from `from` reaches at a
    /// cost that no route from `from` to `to` undercuts.
    pub open spec fn breaks_before(self, from: i64, to: i64) -> bool {
        exists|q: Seq<i64>, u: i64|
            {
                &&& #[trigger] self.is_route_between(q, from, u)
                &&& self.is_broken_at(u)
                &&& forall|r: Seq<i64>| #[trigger]
                    self.is_route_between(r, from, to) ==> self.cost(q) <= self.cost(r)
            }
    }

    /// Every route is a walk.
    pub proof fn lemma_route_is_walk(self, p: Seq<i64>)
        requires
            self.is_route(p),
        ensures
            self.is_walk(p),
    {
        assert forall|i: int| 0 <= i < p.len() - 1 implies #[trigger] self.edge_at(p, i) by {
            assert(self.road_at(p, i));
        }
    }

    /// Where no dangling edge is in reach of `from`, every walk from `from`
    /// is a route.
    pub proof fn lemma_sound_walk_is_route(self, from: i64, p: Seq<i64>)
        requires
            self.is_sound_from(from),
            self.is_walk(p),
            p.first() == from,
        ensures
            self.is_route(p),
        decreases p.len(),
    {
        if p.len() > 1 {
            let d = p.drop_last();
            assert forall|i: int| 0 <= i < d.len() - 1 implies #[trigger] self.edge_at(d, i) by {
                assert(self.edge_at(p, i));
            }
            self.lemma_sound_walk_is_route(from, d);
            let u = d.last();
            let v = p.last();
            assert(self.is_route_between(d, from, u));
            assert(self.edge_at(p, p.len() - 2));
            if !self.has_road(u, v) {
                assert(self.has_dangling_edge(u, v));
                assert(self.is_broken_at(u));
            }
            assert forall|i: int| 0 <= i < p.len() - 1 implies #[trigger] self.road_at(p, i) by {
                if i < d.len() - 1 {
                    assert(self.road_at(d, i));
                }
            }
        }
    }

    /// A route stays a route, and gains the length of the new edge, when it
    /// is extended along an edge that has a length.
    pub proof fn lemma_route_extend(self, p: Seq<i64>, v: i64)
        requires
            self.is_route(p),
            self.has_road(p.last(), v),
        ensures
            self.is_route(p.push(v)),
            self.cost(p.push(v)) == self.cost(p) + self.weight(p.last(), v),
            p.push(v).first() == p.first(),
            p.push(v).last() == v,
    {
        let e = p.push(v);
        assert(e.drop_last() =~= p);
        assert forall|i: int| 0 <= i < e.len() - 1 implies #[trigger] self.road_at(e, i) by {
            if i < p.len() - 1 {
                assert(self.road_at(p, i));
            }
        }
    }

    /// A route of more than one node is a shorter route followed by one edge.
    pub proof fn lemma_route_split(self, p: Seq<i64>)
        requires
            self.is_route(p),
            p.len() > 1,
        ensures
            self.is_route(p.drop_last()),
            p.drop_last().first() == p.first(),
            p.drop_last().last() == p[p.len() - 2],
            self.has_road(p[p.len() - 2], p.last()),
            self.cost(p) == self.cost(p.drop_last()) + self.weight(p[p.len() - 2], p.last()),
    {
        let d = p.drop_last();
        assert forall|i: int| 0 <= i < d.len() - 1 implies #[trigger] self.road_at(d, i) by {
            assert(self.road_at(p, i));
        }
        assert(self.road_at(p, p.len() - 2));
    }
}

/// A directed road network.
pub struct RoadGraph {
    nodes: HashMap<i64, LatLon>,
    edges: Vec<(i64, i64)>,
}

impl View for RoadGraph {
    type V = GraphView;

    closed spec fn view(&self) -> GraphView {
        GraphView { nodes: self.nodes@, edges: self.edges@ }
    }
}

impl RoadGraph {
    /// An empty graph: no positions and no edges.
    pub fn new() -> (graph: RoadGraph)
        ensures
            graph@.nodes == Map::<i64, LatLon>::empty(),
            graph@.edges == Seq::<(i64, i64)>::empty(),
    {
        RoadGraph { nodes: HashMap::new(), edges: Vec::new() }
    }

    /// Records the position of node `id`, replacing any earlier one.
    pub fn add_node(&mut self, id: i64, lat: i32, lon: i32)
        ensures
            final(self)@.nodes == old(self)@.nodes.insert(id, (LatLon { lat, lon })),
            final(self)@.edges == old(self)@.edges,
    {
        self.nodes.insert(id, LatLon { lat, lon });
    }

    /// Appends the directed edge from `id1` to `id2`. Neither end needs a
    /// position yet.
    pub fn add_edge(&mut self, id1: i64, id2: i64)
        ensures
            final(self)@.nodes == old(self)@.nodes,
            final(self)@.edges == old(self)@.edges.push((id1, id2)),
    {
        self.edges.push((id1, id2));
    }

    /// A graph whose positions and edges are those of `view` has that view.
    pub(crate) proof fn lemma_view_is(&self, view: GraphView)
        requires
            self@.nodes == view.nodes,
            self@.edges == view.edges,
        ensures
            self@ == view,
    {
    }

    /// The position of node `id`, if it has one.
    pub fn position(&self, id: i64) -> (found: Option<LatLon>)
        ensures
            found == if self@.nodes.contains_key(id) {
                Some(self@.nodes[id])
            } else {
                None
            },
    {
        match self.nodes.get(&id) {
            Some(p) => Some(*p),
            None => None,
        }
    }

    /// The coordinate store.
    pub fn nodes(&self) -> (nodes: &HashMap<i64, LatLon>)
        ensures
            nodes@ == self@.nodes,
    {
        &self.nodes
    }

    /// The edge list, in insertion order.
    pub fn edges(&self) -> (edges: &Vec<(i64, i64)>)
        ensures
            edges@ == self@.edges,
    {
        &self.edges
    }
}

} // verus!
