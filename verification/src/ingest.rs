//! Building a graph from the entities of a map extract: nodes, which carry a
//! position, and ways, which list the nodes they pass.

use crate::geometry::LatLon;
use crate::graph::{GraphView, RoadGraph};
use vstd::prelude::*;
use vstd::string::StringExecFns;

verus! {

/// One entity of a map extract.
pub enum Element {
    /// A node stored on its own.
    Node { id: i64, lat: i32, lon: i32 },
    /// A node stored in a packed block.
    DenseNode { id: i64, lat: i32, lon: i32 },
    /// A way: its tags as pairs of key and value, and the nodes it passes,
    /// in order.
    Way { tags: Vec<(String, String)>, refs: Vec<i64> },
    /// A relation. It adds nothing to a graph.
    Relation,
}

/// One of the tags has the key `highway`.
pub open spec fn has_highway_key(tags: Seq<(String, String)>) -> bool {
    exists|i: int| 0 <= i < tags.len() && (#[trigger] tags[i]).0@ == "highway"@
}

/// The pairs of neighbours in `refs`, in order: none for fewer than two
/// nodes.
pub open spec fn consecutive_pairs(refs: Seq<i64>) -> Seq<(i64, i64)> {
    Seq::new(
        if refs.len() == 0 {
            0
        } else {
            (refs.len() - 1) as nat
        },
        |i: int| (refs[i], refs[i + 1]),
    )
}

/// The entity is one that a graph is built from: any node, and a way if it
/// is a road.
pub open spec fn is_selected(element: Element) -> bool {
    match element {
        Element::Way { tags, .. } => has_highway_key(tags@),
        _ => true,
    }
}

/// The graph `g` after `element` has been added to it: a node sets its
/// position, a way appends an edge from each of its nodes to the next, and a
/// relation changes nothing.
pub open spec fn with_element(g: GraphView, element: Element) -> GraphView {
    match element {
        Element::Node { id, lat, lon } => GraphView {
            nodes: g.nodes.insert(id, LatLon { lat, lon }),
            edges: g.edges,
        },
        Element::DenseNode { id, lat, lon } => GraphView {
            nodes: g.nodes.insert(id, LatLon { lat, lon }),
            edges: g.edges,
        },
        Element::Way { refs, .. } => GraphView {
            nodes: g.nodes,
            edges: g.edges + consecutive_pairs(refs@),
        },
        Element::Relation => g,
    }
}

/// The graph built from the first `upto` of `elements`: the selected ones
/// are added in order, the others are passed over.
pub open spec fn built_from(elements: Seq<Element>, upto: nat) -> GraphView
    decreases upto,
{
    if upto == 0 {
        GraphView { nodes: Map::empty(), edges: Seq::empty() }
    } else {
        let before = built_from(elements, (upto - 1) as nat);
        if is_selected(elements[upto - 1]) {
            with_element(before, elements[upto - 1])
        } else {
            before
        }
    }
}

/// Decides whether a way with these tags is a road: whether one of the tags
/// has the key `highway`.
pub fn is_highway(tags: &Vec<(String, String)>) -> (found: bool)
    ensures
        found == has_highway_key(tags@),
{
    let key = String::from_str("highway");
    let mut i: usize = 0;
    while i < tags.len()
        invariant
            0 <= i <= tags.len(),
            key@ == "highway"@,
            forall|j: int| 0 <= j < i ==> (#[trigger] tags@[j]).0@ != "highway"@,
        decreases tags.len() - i,
    {
        if tags[i].0 == key {
            return true;
        }
        i += 1;
    }
    false
}

impl RoadGraph {
    /// Adds the edges of a way: one from each node of `refs` to the next.
    pub fn add_way(&mut self, refs: &Vec<i64>)
        ensures
            final(self)@.nodes == old(self)@.nodes,
            final(self)@.edges == old(self)@.edges + consecutive_pairs(refs@),
    {
        let ghost before = self@;
        let ghost pairs = consecutive_pairs(refs@);
        let mut i: usize = 1;
        while i < refs.len()
            invariant
                1 <= i,
                i <= refs.len() || i == 1,
                pairs == consecutive_pairs(refs@),
                self@.nodes == before.nodes,
                self@.edges == before.edges + pairs.subrange(0, i - 1),
            decreases refs.len() - i,
        {
            self.add_edge(refs[i - 1], refs[i]);
            proof {
                assert(pairs.subrange(0, i - 1).push(pairs[i - 1]) =~= pairs.subrange(0, i as int));
                assert(self@.edges =~= before.edges + pairs.subrange(0, i as int));
            }
            i += 1;
        }
        proof {
            assert(pairs.subrange(0, i - 1) =~= pairs);
            assert(self@.edges =~= before.edges + pairs);
        }
    }

    /// Adds one entity: a node sets its position, a way appends its edges,
    /// and a relation is ignored.
    pub fn add_element(&mut self, element: &Element)
        ensures
            final(self)@ == with_element(old(self)@, *element),
    {
        let ghost before = self@;
        match element {
            Element::Node { id, lat, lon } => {
                self.add_node(*id, *lat, *lon);
            },
            Element::DenseNode { id, lat, lon } => {
                self.add_node(*id, *lat, *lon);
            },
            Element::Way { tags: _, refs } => {
                self.add_way(refs);
            },
            Element::Relation => {},
        }
        proof {
            let after = with_element(before, *element);
            assert(self@.nodes =~= after.nodes);
            assert(self@.edges =~= after.edges);
            self.lemma_view_is(after);
        }
    }

    /// Builds a graph from a sequence of entities, as a reader that filters
    /// ways would feed them: a way that is not a road is passed over, and
    /// every other entity is added in order.
    pub fn from_elements(elements: &Vec<Element>) -> (graph: RoadGraph)
        ensures
            graph@ == built_from(elements@, elements@.len()),
    {
        let mut graph = RoadGraph::new();
        proof {
            graph.lemma_view_is(built_from(elements@, 0));
        }
        let mut i: usize = 0;
        while i < elements.len()
            invariant
                0 <= i <= elements.len(),
                graph@ == built_from(elements@, i as nat),
            decreases elements.len() - i,
        {
            let selected = match &elements[i] {
                Element::Way { tags, refs: _ } => is_highway(tags),
                _ => true,
            };
            if selected {
                graph.add_element(&elements[i]);
            }
            i += 1;
        }
        graph
    }
}

} // verus!
