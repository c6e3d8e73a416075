//! The search as a sequence of steps on mathematical values.
//!
//! Costs alone do not say which of several shortest routes a query returns,
//! nor whether a dangling edge at the very distance of the destination is
//! found. The steps below do. The queue is held as the sequence of its
//! entries in the heap, so that it is settled which of several entries at the
//! same distance leaves first; each step is then a function of the state
//! before it, and the answer of a query is a function of the graph and the
//! two nodes.

use crate::graph::GraphView;
use crate::queue::{with_entry, without_first, NodeWithDistance};
use vstd::prelude::*;

verus! {

/// Why a query could not be answered.
#[derive(Clone, Copy, Debug, PartialEq, Eq, Structural)]
pub enum PathError {
    /// The search came to an edge of which one end has no position.
    DanglingEdgeReference,
}

/// The answer of a query: a route, the absence of one, or a failure.
pub type Answer = Result<Option<Seq<i64>>, PathError>;

/// What the search knows at one moment.
pub struct Search {
    /// The least cost found so far of a route from the start to each node.
    pub distances: Map<i64, u128>,
    /// The node before each node on the route that gave that cost.
    pub prev: Map<i64, i64>,
    /// The nodes whose cost is final.
    pub visited: Set<i64>,
    /// The entries waiting in the queue, as its heap holds them.
    pub queue: Seq<NodeWithDistance>,
    /// The route that gave each node its cost.
    pub routes: Map<i64, Seq<i64>>,
}

/// Where the search stands after some steps.
pub enum Progress {
    /// The search goes on from this state.
    Running(Search),
    /// The search has ended with this answer.
    Done(Answer),
}

/// The search before its first step: only the start is known, at cost zero.
pub open spec fn initial(start: i64) -> Search {
    Search {
        distances: Map::<i64, u128>::empty().insert(start, 0),
        prev: Map::<i64, i64>::empty(),
        visited: Set::<i64>::empty(),
        queue: with_entry(
            Seq::<NodeWithDistance>::empty(),
            NodeWithDistance { node: start, distance: 0 },
        ),
        routes: Map::<i64, Seq<i64>>::empty().insert(start, seq![start]),
    }
}

/// The search after the first entry has left the queue and its node has
/// been settled.
pub open spec fn settle(s: Search) -> Search {
    Search { visited: s.visited.insert(s.queue[0].node), queue: without_first(s.queue), ..s }
}

/// The search after the first entry has left the queue unused.
pub open spec fn discard(s: Search) -> Search {
    Search { queue: without_first(s.queue), ..s }
}

/// The search after the cost `d` has been found for `v` on a route through
/// `u`.
pub open spec fn improve(s: Search, u: i64, v: i64, d: u128) -> Search {
    Search {
        distances: s.distances.insert(v, d),
        prev: s.prev.insert(v, u),
        queue: with_entry(s.queue, NodeWithDistance { node: v, distance: d }),
        routes: s.routes.insert(v, s.routes[u].push(v)),
        ..s
    }
}

/// The search after edge `i` of the list has been looked at while the edges
/// of `u`, settled at cost `d`, are relaxed; `None` if the edge leaves `u`
/// and dangles.
pub open spec fn relax_edge(g: GraphView, s: Search, u: i64, d: u128, i: int) -> Option<Search> {
    let to = g.edges[i].1;
    if g.edges[i].0 != u {
        Some(s)
    } else if !(g.nodes.contains_key(u) && g.nodes.contains_key(to)) {
        None
    } else if s.distances.contains_key(to) && s.distances[to] <= d + g.weight(u, to) {
        Some(s)
    } else {
        Some(improve(s, u, to, (d + g.weight(u, to)) as u128))
    }
}

/// The search after the first `upto` edges of the list have been looked at,
/// in order; `None` if one of them left `u` and dangled.
pub open spec fn relax_upto(g: GraphView, s: Search, u: i64, d: u128, upto: nat) -> Option<Search>
    decreases upto,
{
    if upto == 0 {
        Some(s)
    } else {
        match relax_upto(g, s, u, d, (upto - 1) as nat) {
            Some(t) => relax_edge(g, t, u, d, upto - 1),
            None => None,
        }
    }
}

/// One step of the search: the first entry leaves the queue. If the queue
/// is empty there is no route. If the node of the entry is settled already
/// the entry is dropped. If it is the destination, its route is the answer.
/// Otherwise the node is settled and its edges are relaxed, which fails on a
/// dangling edge.
pub open spec fn step(g: GraphView, end: i64, s: Search) -> Progress {
    let m = s.queue[0];
    if s.queue.len() == 0 {
        Progress::Done(Ok(None))
    } else if s.visited.contains(m.node) {
        Progress::Running(discard(s))
    } else if m.node == end {
        Progress::Done(Ok(Some(s.routes[end])))
    } else {
        match relax_upto(g, settle(s), m.node, m.distance, g.edges.len()) {
            Some(t) => Progress::Running(t),
            None => Progress::Done(Err(PathError::DanglingEdgeReference)),
        }
    }
}

/// Where the search stands after at most `steps` steps from `s`.
pub open spec fn run(g: GraphView, end: i64, s: Search, steps: nat) -> Progress
    decreases steps,
{
    if steps == 0 {
        Progress::Running(s)
    } else {
        match step(g, end, s) {
            Progress::Running(t) => run(g, end, t, (steps - 1) as nat),
            Progress::Done(answer) => Progress::Done(answer),
        }
    }
}

/// The search from `start` for `end` ends, after some number of steps, with
/// `answer`.
pub open spec fn search_yields(g: GraphView, start: i64, end: i64, answer: Answer) -> bool {
    exists|steps: nat| run(g, end, initial(start), steps) == Progress::Done(answer)
}

/// A search that has ended stays ended, with the same answer, however many
/// more steps it is given.
pub proof fn lemma_run_stays_done(
    g: GraphView,
    end: i64,
    s: Search,
    steps: nat,
    more: nat,
    answer: Answer,
)
    requires
        run(g, end, s, steps) == Progress::Done(answer),
        steps <= more,
    ensures
        run(g, end, s, more) == Progress::Done(answer),
    decreases steps,
{
    if steps > 0 {
        match step(g, end, s) {
            Progress::Running(t) => {
                lemma_run_stays_done(g, end, t, (steps - 1) as nat, (more - 1) as nat, answer);
            },
            Progress::Done(_) => {},
        }
    }
}

/// One more step from where the search stands after `steps` steps is the
/// step of the state reached.
pub proof fn lemma_run_one_more(g: GraphView, end: i64, s: Search, steps: nat, reached: Search)
    requires
        run(g, end, s, steps) == Progress::Running(reached),
    ensures
        run(g, end, s, steps + 1) == step(g, end, reached),
    decreases steps,
{
    reveal_with_fuel(run, 2);
    if steps > 0 {
        match step(g, end, s) {
            Progress::Running(t) => {
                lemma_run_one_more(g, end, t, (steps - 1) as nat, reached);
            },
            Progress::Done(_) => {},
        }
    }
}

/// Once an edge has dangled, looking at further edges does not mend it.
pub proof fn lemma_relax_stays_failed(
    g: GraphView,
    s: Search,
    u: i64,
    d: u128,
    upto: nat,
    more: nat,
)
    requires
        relax_upto(g, s, u, d, upto) is None,
        upto <= more,
    ensures
        relax_upto(g, s, u, d, more) is None,
    decreases more,
{
    if upto < more {
        lemma_relax_stays_failed(g, s, u, d, upto, (more - 1) as nat);
    }
}

/// A query has one answer: two searches on the same graph, from the same
/// start and for the same destination, end alike.
pub proof fn lemma_answer_is_unique(g: GraphView, start: i64, end: i64, a: Answer, b: Answer)
    requires
        search_yields(g, start, end, a),
        search_yields(g, start, end, b),
    ensures
        a == b,
{
    let n = choose|n: nat| run(g, end, initial(start), n) == Progress::Done(a);
    let m = choose|m: nat| run(g, end, initial(start), m) == Progress::Done(b);
    if n <= m {
        lemma_run_stays_done(g, end, initial(start), n, m, a);
    } else {
        lemma_run_stays_done(g, end, initial(start), m, n, b);
    }
}

} // verus!
