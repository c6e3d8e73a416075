//! A road network as a directed graph, and shortest-path queries over it.
//!
//! A [`RoadGraph`] holds a position for each node and an ordered list of
//! directed edges. Positions are whole steps on a grid, and the weight of an
//! edge is the Euclidean distance between its ends in fixed point, so that
//! the cost of a route is an exact integer.
//! [`RoadGraph::shortest_path`] returns a route of least cost, and is proved
//! to: the search in [`search`] is verified against the invariants of a
//! single-source search, and its answer is the one that the steps in
//! [`model`] lead to.
//!
//! [`ingest`] builds a graph from the nodes and ways of a map extract, and
//! [`queue`] is the priority queue that the search draws from.

mod consistency;
pub mod geometry;
pub mod graph;
pub mod ingest;
pub mod model;
pub mod queue;
pub mod search;

pub use crate::geometry::LatLon;
pub use crate::graph::RoadGraph;
pub use crate::ingest::{is_highway, Element};
pub use crate::model::PathError;
