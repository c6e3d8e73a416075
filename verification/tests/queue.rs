use road_graph::queue::{comes_before, MinQueue, NodeWithDistance};

fn entry(node: i64, distance: u128) -> NodeWithDistance {
    NodeWithDistance { node, distance }
}

#[test]
fn empty_queue_hands_out_nothing() {
    let mut queue = MinQueue::new();
    assert_eq!(queue.len(), 0);
    assert_eq!(queue.pop(), None);
    assert_eq!(queue.len(), 0);
}

#[test]
fn entries_leave_least_distance_first() {
    let mut queue = MinQueue::new();
    for (node, distance) in [(1, 50u128), (2, 10), (3, 40), (4, 20), (5, 30), (6, 0)] {
        queue.push(entry(node, distance));
    }
    assert_eq!(queue.len(), 6);
    let mut out = Vec::new();
    while let Some(e) = queue.pop() {
        out.push((e.node, e.distance));
    }
    assert_eq!(out, vec![(6, 0), (2, 10), (4, 20), (5, 30), (3, 40), (1, 50)]);
}

#[test]
fn equal_distances_leave_as_the_heap_holds_them() {
    let mut queue = MinQueue::new();
    queue.push(entry(9, 5));
    queue.push(entry(-3, 5));
    queue.push(entry(4, 5));
    queue.push(entry(4, 1));
    assert_eq!(queue.pop(), Some(entry(4, 1)));
    // The three that are left are equally far. The node does not decide
    // which of them leaves: the place in the heap does.
    assert_eq!(queue.pop(), Some(entry(4, 5)));
    assert_eq!(queue.pop(), Some(entry(9, 5)));
    assert_eq!(queue.pop(), Some(entry(-3, 5)));
    assert_eq!(queue.pop(), None);
}

#[test]
fn of_two_equal_entries_the_first_pushed_leaves_first() {
    let mut queue = MinQueue::new();
    queue.push(entry(3, 7));
    queue.push(entry(2, 7));
    assert_eq!(queue.pop(), Some(entry(3, 7)));
    assert_eq!(queue.pop(), Some(entry(2, 7)));

    let mut queue = MinQueue::new();
    queue.push(entry(2, 7));
    queue.push(entry(3, 7));
    assert_eq!(queue.pop(), Some(entry(2, 7)));
    assert_eq!(queue.pop(), Some(entry(3, 7)));
}

#[test]
fn repeated_entries_are_kept() {
    let mut queue = MinQueue::new();
    queue.push(entry(1, 7));
    queue.push(entry(1, 7));
    assert_eq!(queue.len(), 2);
    assert_eq!(queue.pop(), Some(entry(1, 7)));
    assert_eq!(queue.pop(), Some(entry(1, 7)));
    assert_eq!(queue.pop(), None);
}

#[test]
fn pushes_and_pops_may_alternate() {
    let mut queue = MinQueue::new();
    let mut state: u64 = 12345;
    let mut held: Vec<(u128, i64)> = Vec::new();
    for round in 0..2000 {
        state = state.wrapping_mul(6364136223846793005).wrapping_add(1442695040888963407);
        let distance = u128::from((state >> 40) % 50);
        let node = ((state >> 20) % 20) as i64 - 10;
        if round % 3 == 2 {
            match queue.pop() {
                None => assert!(held.is_empty()),
                Some(e) => {
                    let least = held.iter().map(|h| h.0).min();
                    assert_eq!(Some(e.distance), least);
                    let place = held.iter().position(|h| *h == (e.distance, e.node));
                    held.remove(place.expect("the queue handed out what it was given"));
                }
            }
        } else {
            queue.push(entry(node, distance));
            held.push((distance, node));
        }
        assert_eq!(queue.len(), held.len());
    }
    while let Some(e) = queue.pop() {
        let least = held.iter().map(|h| h.0).min();
        assert_eq!(Some(e.distance), least);
        let place = held.iter().position(|h| *h == (e.distance, e.node));
        held.remove(place.expect("the queue handed out what it was given"));
    }
    assert!(held.is_empty());
}

#[test]
fn order_looks_at_the_distance_only() {
    assert!(comes_before(entry(1, 0), entry(0, 1)));
    assert!(!comes_before(entry(0, 1), entry(1, 0)));
    assert!(comes_before(entry(1, 5), entry(2, 5)));
    assert!(comes_before(entry(2, 5), entry(1, 5)));
    assert!(comes_before(entry(2, 5), entry(2, 5)));
    assert!(comes_before(entry(i64::MIN, u128::MAX), entry(i64::MAX, u128::MAX)));
    assert!(comes_before(entry(i64::MAX, u128::MAX), entry(i64::MIN, u128::MAX)));
    assert!(!comes_before(entry(i64::MIN, u128::MAX), entry(i64::MAX, u128::MAX - 1)));
}
