use road_graph::geometry::segment_length_of;
use road_graph::{LatLon, PathError, RoadGraph};

/// Degrees to grid steps of 10^-7 degree.
fn deg(d: f64) -> i32 {
    (d * 1e7).round() as i32
}

fn create_test_road_graph() -> RoadGraph {
    let mut graph = RoadGraph::new();

    graph.add_node(1, deg(0.0), deg(0.0));
    graph.add_node(2, deg(1.0), deg(1.0));
    graph.add_node(3, deg(2.0), deg(2.0));
    graph.add_node(4, deg(0.0), deg(2.0));
    graph.add_node(5, deg(2.0), deg(0.0));

    graph.add_edge(1, 2);
    graph.add_edge(2, 3);
    graph.add_edge(3, 4);
    graph.add_edge(4, 1);
    graph.add_edge(1, 5);
    graph.add_edge(5, 3);

    graph
}

#[test]
fn test_shortest_path() {
    let graph = create_test_road_graph();

    let path = graph.shortest_path(1, 3);
    assert_eq!(path, Ok(Some(vec![1, 2, 3])));

    let path = graph.shortest_path(1, 4);
    assert_eq!(path, Ok(Some(vec![1, 2, 3, 4])));

    let path = graph.shortest_path(2, 5);
    assert_eq!(path, Ok(Some(vec![2, 3, 4, 1, 5])));

    let path = graph.shortest_path(1, 6);
    assert_eq!(path, Ok(None));
}

#[test]
fn path_to_self_is_the_single_node() {
    let graph = create_test_road_graph();
    for id in 1..=5 {
        assert_eq!(graph.shortest_path(id, id), Ok(Some(vec![id])));
    }
}

#[test]
fn path_to_self_needs_no_position() {
    let mut graph = RoadGraph::new();
    assert_eq!(graph.shortest_path(7, 7), Ok(Some(vec![7])));
    // Not even when a dangling edge leaves the node.
    graph.add_edge(7, 8);
    assert_eq!(graph.shortest_path(7, 7), Ok(Some(vec![7])));
}

#[test]
fn unreachable_destination_is_absent() {
    let mut graph = RoadGraph::new();
    graph.add_node(1, 0, 0);
    graph.add_node(2, 10, 0);
    graph.add_node(3, 20, 0);
    graph.add_edge(1, 2);
    graph.add_edge(3, 2);
    assert_eq!(graph.shortest_path(1, 3), Ok(None));
    assert_eq!(graph.shortest_path(2, 1), Ok(None));
    assert_eq!(graph.shortest_path(1, 2), Ok(Some(vec![1, 2])));
}

#[test]
fn empty_graph_has_no_paths() {
    let graph = RoadGraph::new();
    assert_eq!(graph.shortest_path(1, 2), Ok(None));
}

#[test]
fn edges_are_directed() {
    let mut graph = RoadGraph::new();
    graph.add_node(1, 0, 0);
    graph.add_node(2, 5, 5);
    graph.add_edge(1, 2);
    assert_eq!(graph.shortest_path(1, 2), Ok(Some(vec![1, 2])));
    assert_eq!(graph.shortest_path(2, 1), Ok(None));
}

#[test]
fn returned_path_starts_and_ends_where_asked() {
    let graph = create_test_road_graph();
    for start in 1..=5 {
        for end in 1..=5 {
            let path = graph.shortest_path(start, end).unwrap().unwrap();
            assert_eq!(path.first(), Some(&start));
            assert_eq!(path.last(), Some(&end));
            for pair in path.windows(2) {
                assert!(graph.edges().contains(&(pair[0], pair[1])));
            }
        }
    }
}

fn cost(graph: &RoadGraph, path: &[i64]) -> u128 {
    path.windows(2)
        .map(|pair| {
            let a = graph.position(pair[0]).unwrap();
            let b = graph.position(pair[1]).unwrap();
            u128::from(segment_length_of(a, b))
        })
        .sum()
}

/// The least cost of a walk from `at` to `end` that passes no node twice.
fn cheapest(graph: &RoadGraph, at: i64, end: i64, seen: &mut Vec<i64>) -> Option<u128> {
    if at == end {
        return Some(0);
    }
    let mut best = None;
    for &(from, to) in graph.edges().iter() {
        if from == at && !seen.contains(&to) {
            seen.push(to);
            if let Some(rest) = cheapest(graph, to, end, seen) {
                let a = graph.position(from).unwrap();
                let b = graph.position(to).unwrap();
                let total = rest + u128::from(segment_length_of(a, b));
                if best.map_or(true, |known| total < known) {
                    best = Some(total);
                }
            }
            seen.pop();
        }
    }
    best
}

/// A small pseudo-random graph: `n` nodes on a grid, `m` directed edges.
fn scattered_graph(seed: u64, n: i64, m: usize) -> RoadGraph {
    let mut state = seed;
    let mut next = move || {
        state = state.wrapping_mul(6364136223846793005).wrapping_add(1442695040888963407);
        (state >> 33) as i64
    };
    let mut graph = RoadGraph::new();
    for id in 0..n {
        graph.add_node(id, (next() % 1000) as i32, (next() % 1000) as i32);
    }
    for _ in 0..m {
        graph.add_edge(next() % n, next() % n);
    }
    graph
}

#[test]
fn returned_path_is_as_cheap_as_any() {
    for seed in 0..40u64 {
        let graph = scattered_graph(seed, 7, 14);
        for start in 0..7 {
            for end in 0..7 {
                let mut seen = vec![start];
                let expected = cheapest(&graph, start, end, &mut seen);
                match graph.shortest_path(start, end) {
                    Ok(Some(path)) => assert_eq!(Some(cost(&graph, &path)), expected),
                    Ok(None) => assert_eq!(expected, None),
                    Err(e) => panic!("no edge dangles, yet {:?}", e),
                }
            }
        }
    }
}

#[test]
fn bypass_is_taken_when_it_is_shorter() {
    let mut graph = RoadGraph::new();
    graph.add_node(1, 0, 0);
    graph.add_node(2, 0, 100);
    graph.add_node(3, 0, 200);
    graph.add_node(4, 500, 100);
    graph.add_edge(1, 4);
    graph.add_edge(4, 3);
    graph.add_edge(1, 2);
    graph.add_edge(2, 3);
    assert_eq!(graph.shortest_path(1, 3), Ok(Some(vec![1, 2, 3])));
}

#[test]
fn repeated_queries_agree() {
    let graph = scattered_graph(99, 9, 30);
    for start in 0..9 {
        for end in 0..9 {
            let first = graph.shortest_path(start, end);
            let second = graph.shortest_path(start, end);
            assert_eq!(first, second);
        }
    }
}

#[test]
fn equal_routes_are_told_apart_the_same_way_every_time() {
    // Two routes of the same cost from 1 to 4.
    let mut graph = RoadGraph::new();
    graph.add_node(1, 0, 0);
    graph.add_node(2, 10, 0);
    graph.add_node(3, 0, 10);
    graph.add_node(4, 10, 10);
    graph.add_edge(1, 3);
    graph.add_edge(1, 2);
    graph.add_edge(3, 4);
    graph.add_edge(2, 4);
    let first = graph.shortest_path(1, 4);
    // Nodes 3 and 2 are equally far and enter the queue in that order, so
    // node 3 leaves first; the route through it is recorded and the equal
    // one through 2 does not replace it.
    assert_eq!(first, Ok(Some(vec![1, 3, 4])));
    for _ in 0..10 {
        assert_eq!(graph.shortest_path(1, 4), first);
    }
}

#[test]
fn dangling_edge_on_the_way_is_an_error() {
    let mut graph = RoadGraph::new();
    graph.add_node(1, 0, 0);
    graph.add_node(3, 20, 0);
    graph.add_edge(1, 2);
    graph.add_edge(2, 3);
    assert_eq!(graph.shortest_path(1, 3), Err(PathError::DanglingEdgeReference));
}

#[test]
fn start_without_position_is_an_error_once_an_edge_leaves_it() {
    let mut graph = RoadGraph::new();
    graph.add_node(2, 0, 0);
    graph.add_edge(1, 2);
    assert_eq!(graph.shortest_path(1, 2), Err(PathError::DanglingEdgeReference));
    // Without an edge to follow there is nothing to measure.
    assert_eq!(graph.shortest_path(5, 2), Ok(None));
}

#[test]
fn dangling_edge_beyond_the_destination_is_not_reached() {
    let mut graph = RoadGraph::new();
    graph.add_node(1, 0, 0);
    graph.add_node(2, 10, 0);
    graph.add_node(3, 1000, 0);
    graph.add_edge(1, 2);
    graph.add_edge(1, 3);
    graph.add_edge(3, 99);
    assert_eq!(graph.shortest_path(1, 2), Ok(Some(vec![1, 2])));
    // The search for a far or missing node does come to it.
    assert_eq!(graph.shortest_path(1, 99), Err(PathError::DanglingEdgeReference));
    assert_eq!(graph.shortest_path(1, 7), Err(PathError::DanglingEdgeReference));
}

#[test]
fn dangling_edge_out_of_reach_does_no_harm() {
    let mut graph = RoadGraph::new();
    graph.add_node(1, 0, 0);
    graph.add_node(2, 10, 0);
    graph.add_edge(1, 2);
    graph.add_edge(50, 51);
    assert_eq!(graph.shortest_path(1, 2), Ok(Some(vec![1, 2])));
    assert_eq!(graph.shortest_path(2, 1), Ok(None));
}

#[test]
fn later_position_replaces_earlier() {
    let mut graph = RoadGraph::new();
    graph.add_node(1, 0, 0);
    graph.add_node(1, 7, 9);
    assert_eq!(graph.position(1), Some(LatLon { lat: 7, lon: 9 }));
    assert_eq!(graph.position(2), None);
    assert_eq!(graph.nodes().len(), 1);
}

#[test]
fn edges_keep_their_order_and_duplicates() {
    let mut graph = RoadGraph::new();
    graph.add_edge(1, 2);
    graph.add_edge(3, 4);
    graph.add_edge(1, 2);
    assert_eq!(graph.edges(), &vec![(1, 2), (3, 4), (1, 2)]);
    assert!(graph.nodes().is_empty());
}

#[test]
fn duplicate_and_self_edges_do_not_disturb_the_search() {
    let mut graph = RoadGraph::new();
    graph.add_node(1, 0, 0);
    graph.add_node(2, 3, 4);
    graph.add_edge(1, 1);
    graph.add_edge(1, 2);
    graph.add_edge(1, 2);
    graph.add_edge(2, 1);
    assert_eq!(graph.shortest_path(1, 2), Ok(Some(vec![1, 2])));
    assert_eq!(graph.shortest_path(2, 1), Ok(Some(vec![2, 1])));
}

#[test]
fn coincident_nodes_are_joined_at_no_cost() {
    let mut graph = RoadGraph::new();
    graph.add_node(1, 5, 5);
    graph.add_node(2, 5, 5);
    graph.add_node(3, 5, 5);
    graph.add_edge(1, 2);
    graph.add_edge(2, 3);
    assert_eq!(graph.shortest_path(1, 3), Ok(Some(vec![1, 2, 3])));
}

#[test]
fn extreme_coordinates_do_not_overflow() {
    let mut graph = RoadGraph::new();
    graph.add_node(1, i32::MIN, i32::MIN);
    graph.add_node(2, i32::MAX, i32::MAX);
    graph.add_node(3, i32::MIN, i32::MAX);
    graph.add_edge(1, 2);
    graph.add_edge(2, 3);
    graph.add_edge(3, 1);
    assert_eq!(graph.shortest_path(1, 3), Ok(Some(vec![1, 2, 3])));
    assert_eq!(graph.shortest_path(2, 1), Ok(Some(vec![2, 3, 1])));
}

#[test]
fn distance_between_located_nodes() {
    let mut graph = RoadGraph::new();
    graph.add_node(1, 0, 0);
    graph.add_node(2, 3, 4);
    graph.add_node(3, 3, 4);
    assert_eq!(graph.distance(1, 2), Ok(5 << 31));
    assert_eq!(graph.distance(2, 1), Ok(5 << 31));
    assert_eq!(graph.distance(2, 3), Ok(0));
    assert_eq!(graph.distance(1, 1), Ok(0));
}

#[test]
fn distance_needs_both_positions() {
    let mut graph = RoadGraph::new();
    graph.add_node(1, 0, 0);
    assert_eq!(graph.distance(1, 2), Err(PathError::DanglingEdgeReference));
    assert_eq!(graph.distance(2, 1), Err(PathError::DanglingEdgeReference));
    assert_eq!(graph.distance(2, 3), Err(PathError::DanglingEdgeReference));
}

#[test]
fn returned_path_passes_no_node_twice() {
    for seed in 100..130u64 {
        let graph = scattered_graph(seed, 8, 24);
        for start in 0..8 {
            for end in 0..8 {
                if let Ok(Some(path)) = graph.shortest_path(start, end) {
                    let mut seen = path.clone();
                    seen.sort();
                    seen.dedup();
                    assert_eq!(seen.len(), path.len());
                }
            }
        }
    }
}

#[test]
fn loop_of_no_length_is_not_walked() {
    // Nodes 2 and 3 lie on one spot and are joined both ways.
    let mut graph = RoadGraph::new();
    graph.add_node(1, 0, 0);
    graph.add_node(2, 0, 10);
    graph.add_node(3, 0, 10);
    graph.add_node(4, 0, 20);
    graph.add_edge(1, 2);
    graph.add_edge(2, 3);
    graph.add_edge(3, 2);
    graph.add_edge(3, 4);
    graph.add_edge(2, 4);
    assert_eq!(graph.shortest_path(1, 4), Ok(Some(vec![1, 2, 4])));
    assert_eq!(graph.shortest_path(1, 3), Ok(Some(vec![1, 2, 3])));
}
