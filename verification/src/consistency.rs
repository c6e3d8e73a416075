//! What holds of the search between its steps, and why each step keeps it.

use crate::graph::GraphView;
use crate::model::{discard, improve, initial, settle, Search};
use crate::queue::{is_least, precedes, risen, NodeWithDistance};
use vstd::multiset::Multiset;
use vstd::prelude::*;

verus! {

/// No length exceeds this.
pub(crate) open spec fn length_bound() -> int {
    0x1_0000_0000_0000_0000
}

/// Every node that the search can come to: the start and the far end of
/// every edge.
#[verifier::opaque]
pub(crate) open spec fn candidates(g: GraphView, start: i64) -> Set<i64> {
    g.edges.map_values(|e: (i64, i64)| e.1).to_set().insert(start)
}

/// The entries waiting in the queue, whatever their places.
pub(crate) open spec fn waiting(s: Search) -> Multiset<NodeWithDistance> {
    s.queue.to_multiset()
}

/// No route from `from` to `to` costs less than `d`.
pub(crate) open spec fn undercuts_all(g: GraphView, from: i64, to: i64, d: int) -> bool {
    forall|q: Seq<i64>| #[trigger] g.is_route_between(q, from, to) ==> d <= g.cost(q)
}

/// The first `upto` edges of the list that leave `x` have a length, and the
/// cost known for their far end is no more than the cost of `x` plus that
/// length.
pub(crate) open spec fn relaxed(g: GraphView, s: Search, x: i64, upto: int) -> bool {
    forall|i: int|
        0 <= i < upto && (#[trigger] g.edges[i]).0 == x ==> {
            &&& g.nodes.contains_key(x)
            &&& g.nodes.contains_key(g.edges[i].1)
            &&& s.distances.contains_key(g.edges[i].1)
            &&& s.distances[g.edges[i].1] <= s.distances[x] + g.weight(x, g.edges[i].1)
        }
}

/// Every known cost is the cost of the route recorded for the node, which
/// leads from the start to it.
pub(crate) open spec fn routes_agree(g: GraphView, start: i64, s: Search) -> bool {
    &&& s.distances.dom() =~= s.routes.dom()
    &&& s.distances.contains_key(start)
    &&& s.distances[start] == 0
    &&& s.routes[start] =~= seq![start]
    &&& !s.prev.contains_key(start)
    &&& forall|v: i64| #[trigger]
        s.distances.contains_key(v) ==> {
            &&& g.is_route_between(s.routes[v], start, v)
            &&& g.cost(s.routes[v]) == s.distances[v]
        }
    &&& forall|v: i64| s.distances.contains_key(v) ==> #[trigger] candidates(g, start).contains(v)
}

/// The route recorded for a node is the route of its predecessor, which is
/// settled, followed by the node.
pub(crate) open spec fn prev_agrees(start: i64, s: Search) -> bool {
    forall|v: i64|
        s.distances.contains_key(v) && v != start ==> {
            &&& #[trigger] s.prev.contains_key(v)
            &&& s.visited.contains(s.prev[v])
            &&& s.routes[v] =~= s.routes[s.prev[v]].push(v)
        }
}

/// The cost of a settled node is minimal, and its edges are relaxed; those
/// of `current` may still be in progress.
pub(crate) open spec fn settled_agree(
    g: GraphView,
    start: i64,
    s: Search,
    current: Option<i64>,
) -> bool {
    &&& forall|x: i64| #[trigger]
        s.visited.contains(x) ==> {
            &&& s.distances.contains_key(x)
            &&& undercuts_all(g, start, x, s.distances[x] as int)
        }
    &&& forall|x: i64| #[trigger]
        s.visited.contains(x) && current != Some(x) ==> relaxed(g, s, x, g.edges.len() as int)
}

/// Every unsettled node with a known cost waits in the queue at that cost,
/// and no entry of the queue promises less than the known cost of its node.
pub(crate) open spec fn queue_agrees(s: Search) -> bool {
    &&& forall|v: i64| #[trigger]
        s.distances.contains_key(v) && !s.visited.contains(v) ==> waiting(s).contains(
            NodeWithDistance { node: v, distance: s.distances[v] },
        )
    &&& forall|e: NodeWithDistance| #[trigger]
        waiting(s).contains(e) ==> s.distances.contains_key(e.node) && s.distances[e.node]
            <= e.distance
}

/// No known cost exceeds what as many edges as there are settled nodes can
/// add up to.
pub(crate) open spec fn costs_bounded(s: Search) -> bool {
    &&& s.visited.finite()
    &&& forall|v: i64| #[trigger]
        s.distances.contains_key(v) ==> s.distances[v] <= s.visited.len() * length_bound()
}

/// What holds of the search between two steps.
pub(crate) closed spec fn consistent(
    g: GraphView,
    start: i64,
    end: i64,
    s: Search,
    current: Option<i64>,
) -> bool {
    &&& routes_agree(g, start, s)
    &&& prev_agrees(start, s)
    &&& settled_agree(g, start, s, current)
    &&& queue_agrees(s)
    &&& costs_bounded(s)
    &&& !s.visited.contains(end)
}

/// A route from the start either ends at a settled node or costs at least as
/// much as some entry of the queue promises.
pub(crate) proof fn lemma_frontier(g: GraphView, start: i64, end: i64, s: Search, q: Seq<i64>)
    requires
        consistent(g, start, end, s, None),
        g.is_route(q),
        q.first() == start,
    ensures
        s.visited.contains(q.last()) || exists|e: NodeWithDistance|
            waiting(s).contains(e) && e.distance <= g.cost(q),
    decreases q.len(),
{
    let z = q.last();
    if s.visited.contains(z) {
    } else if q.len() == 1 {
        let e = NodeWithDistance { node: start, distance: s.distances[start] };
        assert(s.distances.contains_key(start));
        assert(waiting(s).contains(e));
    } else {
        let before = q.drop_last();
        let x = before.last();
        g.lemma_route_split(q);
        lemma_frontier(g, start, end, s, before);
        if s.visited.contains(x) {
            assert(g.is_route_between(before, start, x));
            assert(s.distances[x] <= g.cost(before));
            assert(g.has_road(x, z));
            let i = choose|i: int| 0 <= i < g.edges.len() && g.edges[i] == (x, z);
            assert(relaxed(g, s, x, g.edges.len() as int));
            assert(g.edges[i].0 == x);
            assert(s.distances.contains_key(z));
            let e = NodeWithDistance { node: z, distance: s.distances[z] };
            assert(waiting(s).contains(e));
            assert(e.distance <= g.cost(q));
        } else {
            let e = choose|e: NodeWithDistance|
                waiting(s).contains(e) && e.distance <= g.cost(before);
            assert(waiting(s).contains(e) && e.distance <= g.cost(q));
        }
    }
}

/// An entry of the queue that is no farther than any other, if its node is
/// not settled, carries the minimal cost of its node, and no route to the
/// destination costs less.
pub(crate) proof fn lemma_least_is_minimal(
    g: GraphView,
    start: i64,
    end: i64,
    s: Search,
    m: NodeWithDistance,
)
    requires
        consistent(g, start, end, s, None),
        is_least(waiting(s), m),
        !s.visited.contains(m.node),
    ensures
        s.distances.contains_key(m.node),
        s.distances[m.node] == m.distance,
        undercuts_all(g, start, m.node, m.distance as int),
        undercuts_all(g, start, end, m.distance as int),
{
    let own = NodeWithDistance { node: m.node, distance: s.distances[m.node] };
    assert(s.distances.contains_key(m.node));
    assert(waiting(s).contains(own));
    assert(precedes(m, own));
    assert forall|q: Seq<i64>| #[trigger] g.is_route_between(q, start, m.node) implies m.distance
        <= g.cost(q) by {
        lemma_frontier(g, start, end, s, q);
        let e = choose|e: NodeWithDistance| waiting(s).contains(e) && e.distance <= g.cost(q);
        assert(precedes(m, e));
    }
    assert forall|q: Seq<i64>| #[trigger] g.is_route_between(q, start, end) implies m.distance
        <= g.cost(q) by {
        lemma_frontier(g, start, end, s, q);
        let e = choose|e: NodeWithDistance| waiting(s).contains(e) && e.distance <= g.cost(q);
        assert(precedes(m, e));
    }
}

/// What holds while the edges of the settled node `u`, of cost `d`, are
/// relaxed and the first `upto` edges of the list have been looked at.
pub(crate) closed spec fn relaxing(
    g: GraphView,
    start: i64,
    end: i64,
    s: Search,
    u: i64,
    d: u128,
    upto: int,
) -> bool {
    &&& consistent(g, start, end, s, Some(u))
    &&& s.visited.contains(u)
    &&& s.distances[u] == d
    &&& relaxed(g, s, u, upto)
    &&& d <= (s.visited.len() - 1) * length_bound()
}

/// The nodes that the search can come to are finitely many, no more than
/// the edges and one.
pub(crate) proof fn lemma_candidates(g: GraphView, start: i64)
    ensures
        candidates(g, start).finite(),
        candidates(g, start).len() <= g.edges.len() + 1,
        candidates(g, start).contains(start),
        forall|i: int|
            0 <= i < g.edges.len() ==> candidates(g, start).contains(#[trigger] g.edges[i].1),
{
    reveal(candidates);
    let ends = g.edges.map_values(|e: (i64, i64)| e.1);
    vstd::seq_lib::seq_to_set_is_finite(ends);
    ends.lemma_cardinality_of_set();
    vstd::set::axiom_set_insert_len(ends.to_set(), start);
    vstd::set::axiom_set_insert_finite(ends.to_set(), start);
    assert forall|i: int| 0 <= i < g.edges.len() implies candidates(g, start).contains(
        #[trigger] g.edges[i].1,
    ) by {
        assert(ends[i] == g.edges[i].1);
        assert(ends.contains(g.edges[i].1));
    }
}

/// The settled nodes are among those that the search can come to.
proof fn lemma_settled_are_candidates(g: GraphView, start: i64, s: Search, current: Option<i64>)
    requires
        routes_agree(g, start, s),
        settled_agree(g, start, s, current),
        s.visited.finite(),
    ensures
        s.visited.subset_of(candidates(g, start)),
        s.visited.len() <= candidates(g, start).len(),
        s.visited.len() <= g.edges.len() + 1,
{
    assert forall|x: i64| s.visited.contains(x) implies candidates(g, start).contains(x) by {
        assert(s.distances.contains_key(x));
    }
    lemma_candidates(g, start);
    vstd::set_lib::lemma_len_subset(s.visited, candidates(g, start));
}

/// When an entry whose node is settled has left the queue, the queue still
/// holds every unsettled node at its cost.
proof fn lemma_queue_after_leaving(s: Search, t: Search, m: NodeWithDistance)
    requires
        queue_agrees(s),
        waiting(t) == waiting(s).remove(m),
        t.distances == s.distances,
        t.visited.contains(m.node),
        forall|x: i64| s.visited.contains(x) ==> t.visited.contains(x),
    ensures
        queue_agrees(t),
{
    broadcast use vstd::multiset::group_multiset_axioms;

    assert forall|v: i64| #[trigger]
        t.distances.contains_key(v) && !t.visited.contains(v) implies waiting(t).contains(
        NodeWithDistance { node: v, distance: t.distances[v] },
    ) by {
        let e = NodeWithDistance { node: v, distance: s.distances[v] };
        assert(waiting(s).contains(e));
        assert(e != m);
    }
    assert forall|e: NodeWithDistance| #[trigger] waiting(t).contains(e) implies waiting(
        s,
    ).contains(e) by {
        assert(waiting(t).count(e) <= waiting(s).count(e));
    }
}

/// Settling the node of the first entry keeps the search consistent and
/// starts the relaxation of its edges.
pub(crate) proof fn lemma_settle(
    g: GraphView,
    start: i64,
    end: i64,
    s: Search,
    m: NodeWithDistance,
)
    requires
        consistent(g, start, end, s, None),
        m == s.queue[0],
        is_least(waiting(s), m),
        waiting(settle(s)) == waiting(s).remove(m),
        !s.visited.contains(m.node),
        m.node != end,
    ensures
        relaxing(g, start, end, settle(s), m.node, m.distance, 0),
        settle(s).visited.len() == s.visited.len() + 1,
        settle(s).visited.len() <= candidates(g, start).len(),
{
    let t = settle(s);
    lemma_least_is_minimal(g, start, end, s, m);
    lemma_candidates(g, start);
    vstd::set::axiom_set_insert_len(s.visited, m.node);
    vstd::set::axiom_set_insert_finite(s.visited, m.node);
    assert(routes_agree(g, start, t));
    assert(settled_agree(g, start, t, Some(m.node))) by {
        assert forall|x: i64| #[trigger] t.visited.contains(x) && Some(m.node) != Some(
            x,
        ) implies relaxed(g, t, x, g.edges.len() as int) by {
            assert(s.visited.contains(x));
            assert(relaxed(g, s, x, g.edges.len() as int));
        }
    }
    lemma_settled_are_candidates(g, start, t, Some(m.node));
    assert forall|v: i64| #[trigger] t.distances.contains_key(v) implies t.distances[v]
        <= t.visited.len() * length_bound() by {
        assert(s.distances[v] <= s.visited.len() * length_bound());
    }
    lemma_queue_after_leaving(s, t, m);
    assert(prev_agrees(start, t));
    assert(m.distance <= (t.visited.len() - 1) * length_bound());
}

/// Dropping an entry whose node is settled keeps the search consistent.
pub(crate) proof fn lemma_discard(
    g: GraphView,
    start: i64,
    end: i64,
    s: Search,
    m: NodeWithDistance,
)
    requires
        consistent(g, start, end, s, None),
        waiting(s).contains(m),
        waiting(discard(s)) == waiting(s).remove(m),
        s.visited.contains(m.node),
    ensures
        consistent(g, start, end, discard(s), None),
        discard(s).queue.len() == s.queue.len() - 1,
{
    broadcast use vstd::multiset::group_multiset_axioms;

    let t = discard(s);
    s.queue.to_multiset_ensures();
    t.queue.to_multiset_ensures();
    lemma_queue_after_leaving(s, t, m);
    assert(settled_agree(g, start, t, None)) by {
        assert forall|x: i64| #[trigger] t.visited.contains(x) implies relaxed(
            g,
            t,
            x,
            g.edges.len() as int,
        ) by {
            assert(relaxed(g, s, x, g.edges.len() as int));
        }
    }
}

/// Looking at an edge that does not leave `u`, or whose far end already has
/// a cost that the route through `u` does not beat, changes nothing.
pub(crate) proof fn lemma_keep(
    g: GraphView,
    start: i64,
    end: i64,
    s: Search,
    u: i64,
    d: u128,
    i: int,
)
    requires
        relaxing(g, start, end, s, u, d, i),
        0 <= i < g.edges.len(),
        g.edges[i].0 != u || {
            &&& g.nodes.contains_key(u)
            &&& g.nodes.contains_key(g.edges[i].1)
            &&& s.distances.contains_key(g.edges[i].1)
            &&& s.distances[g.edges[i].1] <= d + g.weight(u, g.edges[i].1)
        },
    ensures
        relaxing(g, start, end, s, u, d, i + 1),
{
}

/// Recording a lower cost for the far end of an edge that leaves `u` keeps
/// the search consistent.
pub(crate) proof fn lemma_improve(
    g: GraphView,
    start: i64,
    end: i64,
    s: Search,
    u: i64,
    d: u128,
    i: int,
    better: u128,
)
    requires
        relaxing(g, start, end, s, u, d, i),
        0 <= i < g.edges.len(),
        g.edges[i].0 == u,
        g.nodes.contains_key(u),
        g.nodes.contains_key(g.edges[i].1),
        better == d + g.weight(u, g.edges[i].1),
        g.weight(u, g.edges[i].1) < length_bound(),
        waiting(improve(s, u, g.edges[i].1, better)) == waiting(s).insert(
            NodeWithDistance { node: g.edges[i].1, distance: better },
        ),
        s.distances.contains_key(g.edges[i].1) ==> better < s.distances[g.edges[i].1],
    ensures
        relaxing(g, start, end, improve(s, u, g.edges[i].1, better), u, d, i + 1),
{
    broadcast use vstd::multiset::group_multiset_axioms;

    let v = g.edges[i].1;
    let t = improve(s, u, v, better);
    let route = s.routes[u].push(v);
    assert(g.edges.contains((u, v)));
    assert(g.has_road(u, v));
    assert(g.is_route_between(s.routes[u], start, u));
    g.lemma_route_extend(s.routes[u], v);
    assert(g.is_route_between(route, start, v));
    assert(g.cost(route) == better);
    lemma_candidates(g, start);
    // The far end is not settled: its settled cost would be minimal.
    if s.visited.contains(v) {
        assert(undercuts_all(g, start, v, s.distances[v] as int));
        assert(false);
    }
    assert(v != start);
    assert(v != u);
    assert(routes_agree(g, start, t)) by {
        assert forall|y: i64| #[trigger] t.distances.contains_key(y) implies {
            &&& g.is_route_between(t.routes[y], start, y)
            &&& g.cost(t.routes[y]) == t.distances[y]
            &&& candidates(g, start).contains(y)
        } by {
            if y != v {
                assert(s.distances.contains_key(y));
            }
        }
    }
    assert(prev_agrees(start, t)) by {
        assert forall|y: i64| #[trigger] t.distances.contains_key(y) && y != start implies {
            &&& t.prev.contains_key(y)
            &&& t.visited.contains(t.prev[y])
            &&& t.routes[y] =~= t.routes[t.prev[y]].push(y)
        } by {
            if y != v {
                assert(s.distances.contains_key(y));
                assert(s.prev.contains_key(y));
                assert(s.visited.contains(s.prev[y]));
                assert(s.prev[y] != v);
            }
        }
    }
    assert(settled_agree(g, start, t, Some(u))) by {
        assert forall|x: i64| #[trigger] t.visited.contains(x) implies {
            &&& t.distances.contains_key(x)
            &&& undercuts_all(g, start, x, t.distances[x] as int)
        } by {
            assert(x != v);
        }
        assert forall|x: i64| #[trigger]
            t.visited.contains(x) && Some(u) != Some(x) implies relaxed(
            g,
            t,
            x,
            g.edges.len() as int,
        ) by {
            assert(relaxed(g, s, x, g.edges.len() as int));
            assert(x != v);
        }
    }
    assert(queue_agrees(t)) by {
        assert forall|y: i64| #[trigger]
            t.distances.contains_key(y) && !t.visited.contains(y) implies waiting(t).contains(
            NodeWithDistance { node: y, distance: t.distances[y] },
        ) by {
            if y != v {
                let e = NodeWithDistance { node: y, distance: s.distances[y] };
                assert(waiting(s).contains(e));
            }
        }
        assert forall|e: NodeWithDistance| #[trigger] waiting(t).contains(e) implies {
            &&& t.distances.contains_key(e.node)
            &&& t.distances[e.node] <= e.distance
        } by {
            if e != (NodeWithDistance { node: v, distance: better }) {
                assert(waiting(s).contains(e));
            }
        }
    }
    assert(costs_bounded(t)) by {
        assert forall|y: i64| #[trigger] t.distances.contains_key(y) implies t.distances[y]
            <= t.visited.len() * length_bound() by {
            if y != v {
                assert(s.distances.contains_key(y));
            }
        }
    }
    assert(relaxed(g, t, u, i + 1)) by {
        assert(relaxed(g, s, u, i));
    }
}

/// When every edge has been looked at, the node is done.
pub(crate) proof fn lemma_finish(g: GraphView, start: i64, end: i64, s: Search, u: i64, d: u128)
    requires
        relaxing(g, start, end, s, u, d, g.edges.len() as int),
    ensures
        consistent(g, start, end, s, None),
{
}

/// When the queue has run empty, every node that a route from the start
/// reaches is settled: the destination is out of reach, and no dangling edge
/// is in reach.
pub(crate) proof fn lemma_exhausted(g: GraphView, start: i64, end: i64, s: Search)
    requires
        consistent(g, start, end, s, None),
        s.queue.len() == 0,
    ensures
        !g.reaches(start, end),
        g.is_sound_from(start),
{
    broadcast use vstd::multiset::group_multiset_axioms;

    s.queue.to_multiset_ensures();
    assert forall|q: Seq<i64>, u: i64| #[trigger]
        g.is_route_between(q, start, u) implies s.visited.contains(u) by {
        lemma_frontier(g, start, end, s, q);
        if !s.visited.contains(u) {
            let e = choose|e: NodeWithDistance| waiting(s).contains(e) && e.distance <= g.cost(q);
            assert(waiting(s).count(e) <= waiting(s).len());
        }
    }
    assert forall|q: Seq<i64>, u: i64| #[trigger]
        g.is_route_between(q, start, u) implies !g.is_broken_at(u) by {
        assert(s.visited.contains(u));
        lemma_settled_is_sound(g, start, end, s, u);
    }
}

/// No dangling edge leaves a node whose edges are relaxed.
pub(crate) proof fn lemma_settled_is_sound(g: GraphView, start: i64, end: i64, s: Search, u: i64)
    requires
        consistent(g, start, end, s, None),
        s.visited.contains(u),
    ensures
        !g.is_broken_at(u),
{
    if g.is_broken_at(u) {
        let v = choose|v: i64| g.has_dangling_edge(u, v);
        let i = choose|i: int| 0 <= i < g.edges.len() && g.edges[i] == (u, v);
        assert(relaxed(g, s, u, g.edges.len() as int));
        assert(g.edges[i].0 == u);
        assert(false);
    }
}

/// The route recorded for a node, cut off after one of its nodes, is the
/// route recorded for that node.
proof fn lemma_route_prefix(g: GraphView, start: i64, end: i64, s: Search, v: i64, i: int)
    requires
        consistent(g, start, end, s, None),
        s.distances.contains_key(v),
        0 <= i < s.routes[v].len(),
    ensures
        s.distances.contains_key(s.routes[v][i]),
        s.routes[s.routes[v][i]] == s.routes[v].subrange(0, i + 1),
    decreases s.routes[v].len(),
{
    let route = s.routes[v];
    assert(g.is_route_between(route, start, v));
    if i == route.len() - 1 {
        assert(route.subrange(0, i + 1) =~= route);
    } else {
        assert(s.prev.contains_key(v));
        let before = s.prev[v];
        assert(s.visited.contains(before));
        assert(route =~= s.routes[before].push(v));
        lemma_route_prefix(g, start, end, s, before, i);
        assert(route.subrange(0, i + 1) =~= s.routes[before].subrange(0, i + 1));
    }
}

/// The route recorded for a node passes no node twice.
proof fn lemma_route_repeats_no_node(g: GraphView, start: i64, end: i64, s: Search, v: i64)
    requires
        consistent(g, start, end, s, None),
        s.distances.contains_key(v),
    ensures
        s.routes[v].no_duplicates(),
{
    let route = s.routes[v];
    assert forall|i: int, j: int|
        0 <= i < route.len() && 0 <= j < route.len() && i != j implies route[i] != route[j] by {
        lemma_route_prefix(g, start, end, s, v, i);
        lemma_route_prefix(g, start, end, s, v, j);
        if route[i] == route[j] {
            assert(route.subrange(0, i + 1).len() == route.subrange(0, j + 1).len());
        }
    }
}

/// When the first entry of the queue is the destination, the route recorded
/// for it is a shortest one that passes no node twice, and no dangling edge
/// leaves a nearer node.
pub(crate) proof fn lemma_arrived(
    g: GraphView,
    start: i64,
    end: i64,
    s: Search,
    m: NodeWithDistance,
)
    requires
        consistent(g, start, end, s, None),
        is_least(waiting(s), m),
        m.node == end,
    ensures
        s.distances.contains_key(end),
        g.is_shortest_route(s.routes[end], start, end),
        s.routes[end].no_duplicates(),
        g.is_sound_below(start, g.cost(s.routes[end])),
{
    lemma_least_is_minimal(g, start, end, s, m);
    lemma_route_repeats_no_node(g, start, end, s, end);
    assert forall|q: Seq<i64>, u: i64| #[trigger]
        g.is_route_between(q, start, u) && g.cost(q) < g.cost(s.routes[end])
        implies !g.is_broken_at(u) by {
        lemma_frontier(g, start, end, s, q);
        if !s.visited.contains(u) {
            let e = choose|e: NodeWithDistance| waiting(s).contains(e) && e.distance <= g.cost(q);
            assert(precedes(m, e));
        }
        lemma_settled_is_sound(g, start, end, s, u);
    }
}

/// Before the first step the queue holds the start at cost zero and nothing
/// else.
pub(crate) proof fn lemma_first_entry(start: i64)
    ensures
        initial(start).queue == seq![NodeWithDistance { node: start, distance: 0 }],
        waiting(initial(start)) == Multiset::<NodeWithDistance>::empty().insert(
            NodeWithDistance { node: start, distance: 0 },
        ),
{
    broadcast use vstd::multiset::group_multiset_axioms;

    let first = NodeWithDistance { node: start, distance: 0 };
    let none = Seq::<NodeWithDistance>::empty();
    assert(none.push(first) =~= seq![first]);
    assert(risen(seq![first], 0) == seq![first]);
    none.to_multiset_ensures();
    vstd::multiset::lemma_multiset_empty_len(none.to_multiset());
    assert(waiting(initial(start)) =~= Multiset::<NodeWithDistance>::empty().insert(first));
}

/// The search is consistent before its first step.
pub(crate) proof fn lemma_initial(g: GraphView, start: i64, end: i64)
    ensures
        consistent(g, start, end, initial(start), None),
{
    broadcast use vstd::multiset::group_multiset_axioms;

    let s = initial(start);
    let first = NodeWithDistance { node: start, distance: 0 };
    lemma_first_entry(start);
    lemma_candidates(g, start);
    assert(g.is_route(seq![start]));
    assert(s.visited.len() == 0);
    assert forall|e: NodeWithDistance| #[trigger] waiting(s).contains(e) implies e == first by {
        if e != first {
            assert(waiting(s).count(e) == 0);
        }
    }
}

/// The settled nodes are among the finitely many that the search can come
/// to.
pub(crate) proof fn lemma_measure(g: GraphView, start: i64, end: i64, s: Search)
    requires
        consistent(g, start, end, s, None),
    ensures
        s.visited.finite(),
        s.visited.len() <= candidates(g, start).len(),
{
    lemma_settled_are_candidates(g, start, s, None);
}

/// While the edges of `u` are relaxed, the cost of `u` is that of its
/// recorded route and leaves room for one more length.
pub(crate) proof fn lemma_relaxing_facts(
    g: GraphView,
    start: i64,
    end: i64,
    s: Search,
    u: i64,
    d: u128,
    upto: int,
)
    requires
        relaxing(g, start, end, s, u, d, upto),
    ensures
        g.is_route_between(s.routes[u], start, u),
        g.cost(s.routes[u]) == d,
        d + length_bound() <= s.visited.len() * length_bound(),
        s.visited.len() <= g.edges.len() + 1,
{
    lemma_settled_are_candidates(g, start, s, Some(u));
}

/// The route recorded for a node other than the start is the route of its
/// predecessor followed by the node.
pub(crate) proof fn lemma_step_back(g: GraphView, start: i64, end: i64, s: Search, v: i64)
    requires
        consistent(g, start, end, s, None),
        s.distances.contains_key(v),
    ensures
        s.routes.contains_key(v),
        s.routes[v].len() > 0,
        s.routes[v].last() == v,
        s.routes[start] == seq![start],
        v != start ==> {
            &&& s.prev.contains_key(v)
            &&& s.distances.contains_key(s.prev[v])
            &&& s.routes[v] == s.routes[s.prev[v]].push(v)
        },
{
    if v != start {
        assert(s.prev.contains_key(v));
        assert(s.visited.contains(s.prev[v]));
    }
}

} // verus!
