//! A min-priority queue of nodes keyed by tentative distance: a binary heap
//! in a vector.
//!
//! The order of the queue looks at the distance alone. Which of several
//! entries of the same least distance leaves first follows from the places
//! that the entries hold in the heap, and so does every later answer of the
//! queue. The view of a queue is therefore the sequence of its entries as the
//! heap holds them, and `push` and `pop` are stated as functions on it.

use vstd::multiset::Multiset;
use vstd::prelude::*;

verus! {

/// A node together with the length of some route that reaches it.
#[derive(Clone, Copy, Debug, PartialEq, Eq, Structural)]
pub struct NodeWithDistance {
    pub node: i64,
    pub distance: u128,
}

/// The order of the queue: `a` is no farther than `b`. The node is not
/// looked at.
pub open spec fn precedes(a: NodeWithDistance, b: NodeWithDistance) -> bool {
    a.distance <= b.distance
}

/// `m` is an entry of `q` that is no farther than any entry of `q`.
pub open spec fn is_least(q: Multiset<NodeWithDistance>, m: NodeWithDistance) -> bool {
    &&& q.contains(m)
    &&& forall|x: NodeWithDistance| q.contains(x) ==> precedes(m, x)
}

/// Decides `precedes`.
pub fn comes_before(a: NodeWithDistance, b: NodeWithDistance) -> (r: bool)
    ensures
        r == precedes(a, b),
{
    a.distance <= b.distance
}

/// The place above place `i` in the heap.
pub open spec fn parent(i: int) -> int {
    (i - 1) / 2
}

/// `s` with the entries at places `a` and `b` exchanged.
pub open spec fn swapped(s: Seq<NodeWithDistance>, a: int, b: int) -> Seq<NodeWithDistance> {
    s.update(a, s[b]).update(b, s[a])
}

/// `s` after the entry at place `k` has risen: as long as it is nearer than
/// the entry above it, the two are exchanged.
pub open spec fn risen(s: Seq<NodeWithDistance>, k: int) -> Seq<NodeWithDistance>
    decreases k,
{
    if 0 < k < s.len() && !precedes(s[parent(k)], s[k]) {
        risen(swapped(s, parent(k), k), parent(k))
    } else {
        s
    }
}

/// The place below place `k` that holds the nearer entry; the right one if
/// the two are equally far.
pub open spec fn nearer_child(s: Seq<NodeWithDistance>, k: int) -> int {
    if 2 * k + 2 < s.len() && precedes(s[2 * k + 2], s[2 * k + 1]) {
        2 * k + 2
    } else {
        2 * k + 1
    }
}

/// `s` after the entry at place `k` has sunk to the bottom: as long as there
/// is a place below it, it is exchanged with the nearer entry there. The
/// second part is the place where it comes to rest.
pub open spec fn sunk(s: Seq<NodeWithDistance>, k: int) -> (Seq<NodeWithDistance>, int)
    decreases s.len() - k,
{
    if 0 <= k && 2 * k + 1 < s.len() {
        sunk(swapped(s, k, nearer_child(s, k)), nearer_child(s, k))
    } else {
        (s, k)
    }
}

/// The heap `s` after `entry` has been added: it is put last and rises.
pub open spec fn with_entry(s: Seq<NodeWithDistance>, entry: NodeWithDistance) -> Seq<
    NodeWithDistance,
> {
    risen(s.push(entry), s.len() as int)
}

/// The heap `s` after its first entry has been taken: the last entry takes
/// its place, sinks to the bottom and rises again.
pub open spec fn without_first(s: Seq<NodeWithDistance>) -> Seq<NodeWithDistance> {
    if s.len() <= 1 {
        Seq::empty()
    } else {
        let sunken = sunk(s.drop_last().update(0, s.last()), 0);
        risen(sunken.0, sunken.1)
    }
}

/// The entry at place `i` is no nearer than the one above it.
spec fn heap_at(s: Seq<NodeWithDistance>, i: int) -> bool {
    precedes(s[parent(i)], s[i])
}

/// The entry at place `i` is no nearer than the one two places above it.
spec fn bridge_at(s: Seq<NodeWithDistance>, i: int) -> bool {
    precedes(s[parent(parent(i))], s[i])
}

/// No entry is nearer than the one above it.
spec fn is_heap(s: Seq<NodeWithDistance>) -> bool {
    forall|i: int| 0 < i < s.len() ==> #[trigger] heap_at(s, i)
}

/// `s` is a heap but for the entry at place `k`, which may be nearer than
/// the one above it; the entries below `k` are no nearer than the one above
/// `k`.
spec fn is_heap_but_above(s: Seq<NodeWithDistance>, k: int) -> bool {
    &&& forall|i: int| 0 < i < s.len() && i != k ==> #[trigger] heap_at(s, i)
    &&& forall|i: int| 0 < i < s.len() && parent(i) == k && k > 0 ==> #[trigger] bridge_at(s, i)
}

/// `s` is a heap but for the entry at place `k`, which may be nearer than
/// the one above it and farther than the ones below it; these are no nearer
/// than the one above `k`.
spec fn is_heap_but_at(s: Seq<NodeWithDistance>, k: int) -> bool {
    &&& forall|i: int|
        0 < i < s.len() && i != k && parent(i) != k ==> #[trigger] heap_at(s, i)
    &&& forall|i: int| 0 < i < s.len() && parent(i) == k && k > 0 ==> #[trigger] bridge_at(s, i)
}

/// Exchanging two entries changes no count.
proof fn lemma_swapped_entries(s: Seq<NodeWithDistance>, a: int, b: int)
    requires
        0 <= a < s.len(),
        0 <= b < s.len(),
    ensures
        swapped(s, a, b).to_multiset() == s.to_multiset(),
{
    broadcast use vstd::multiset::group_multiset_axioms;

    let mid = s.update(a, s[b]);
    vstd::seq_lib::to_multiset_update(s, a, s[b]);
    vstd::seq_lib::to_multiset_update(mid, b, s[a]);
    s.to_multiset_ensures();
    assert(s.contains(s[a]));
    assert(s.contains(s[b]));
    assert(swapped(s, a, b).to_multiset() =~= s.to_multiset());
}

/// The first entry of a heap is no farther than any entry.
proof fn lemma_root_is_least(s: Seq<NodeWithDistance>, i: int)
    requires
        is_heap(s),
        0 <= i < s.len(),
    ensures
        precedes(s[0], s[i]),
    decreases i,
{
    if i > 0 {
        assert(heap_at(s, i));
        lemma_root_is_least(s, parent(i));
    }
}

/// Exchanges the entries at places `a` and `b`.
fn swap_entries(items: &mut Vec<NodeWithDistance>, a: usize, b: usize)
    requires
        a < old(items).len(),
        b < old(items).len(),
    ensures
        final(items)@ == swapped(old(items)@, a as int, b as int),
{
    let x = items[a];
    let y = items[b];
    items[a] = y;
    items[b] = x;
}

/// Lets the entry at place `from` rise.
fn sift_up(items: &mut Vec<NodeWithDistance>, from: usize)
    requires
        from < old(items).len(),
        is_heap_but_above(old(items)@, from as int),
    ensures
        final(items)@ == risen(old(items)@, from as int),
        is_heap(final(items)@),
        final(items)@.to_multiset() == old(items)@.to_multiset(),
{
    let mut k: usize = from;
    while k > 0
        invariant
            k < items.len(),
            is_heap_but_above(items@, k as int),
            items@.to_multiset() == old(items)@.to_multiset(),
            risen(items@, k as int) == risen(old(items)@, from as int),
        ensures
            items@ == risen(old(items)@, from as int),
            is_heap(items@),
            items@.to_multiset() == old(items)@.to_multiset(),
        decreases k,
    {
        let above: usize = (k - 1) / 2;
        if comes_before(items[above], items[k]) {
            proof {
                let s = items@;
                assert forall|i: int| 0 < i < s.len() implies #[trigger] heap_at(s, i) by {
                    if i != k {
                        assert(heap_at(s, i));
                    }
                }
            }
            break;
        }
        let ghost s = items@;
        swap_entries(items, above, k);
        proof {
            let t = items@;
            lemma_swapped_entries(s, above as int, k as int);
            assert forall|i: int| 0 < i < t.len() && i != above implies #[trigger] heap_at(
                t,
                i,
            ) by {
                if i == k {
                } else if parent(i) == k {
                    assert(bridge_at(s, i));
                } else {
                    assert(heap_at(s, i));
                }
            }
            assert forall|i: int|
                0 < i < t.len() && parent(i) == above && above > 0 implies #[trigger] bridge_at(
                t,
                i,
            ) by {
                assert(heap_at(s, above as int));
                if i != k {
                    assert(heap_at(s, i));
                }
            }
        }
        k = above;
    }
    proof {
        let s = items@;
        if k == 0 {
            assert forall|i: int| 0 < i < s.len() implies #[trigger] heap_at(s, i) by {
                assert(i != k);
            }
        }
    }
}

/// Lets the entry at place `from` sink to the bottom, and returns the place
/// where it comes to rest.
fn sift_down_to_bottom(items: &mut Vec<NodeWithDistance>, from: usize) -> (rest: usize)
    requires
        from < old(items).len(),
        is_heap_but_at(old(items)@, from as int),
    ensures
        (final(items)@, rest as int) == sunk(old(items)@, from as int),
        rest < final(items).len(),
        is_heap_but_above(final(items)@, rest as int),
        final(items)@.to_multiset() == old(items)@.to_multiset(),
{
    let mut k: usize = from;
    let n: usize = items.len();
    while k < n / 2
        invariant
            k < n,
            n == items.len(),
            is_heap_but_at(items@, k as int),
            items@.to_multiset() == old(items)@.to_multiset(),
            sunk(items@, k as int) == sunk(old(items)@, from as int),
        decreases n - k,
    {
        let left: usize = 2 * k + 1;
        let mut child: usize = left;
        if left + 1 < n && comes_before(items[left + 1], items[left]) {
            child = left + 1;
        }
        let ghost s = items@;
        swap_entries(items, k, child);
        proof {
            let t = items@;
            assert(child == nearer_child(s, k as int));
            lemma_swapped_entries(s, k as int, child as int);
            assert forall|i: int|
                0 < i < t.len() && i != child && parent(i) != child implies #[trigger] heap_at(
                t,
                i,
            ) by {
                if i == k {
                    assert(bridge_at(s, child as int));
                } else if parent(i) == k {
                } else {
                    assert(heap_at(s, i));
                }
            }
            assert forall|i: int|
                0 < i < t.len() && parent(i) == child && child > 0 implies #[trigger] bridge_at(
                t,
                i,
            ) by {
                assert(heap_at(s, i));
            }
        }
        k = child;
    }
    proof {
        let s = items@;
        assert forall|i: int| 0 < i < s.len() && i != k implies #[trigger] heap_at(s, i) by {
            assert(parent(i) != k);
        }
    }
    k
}

/// A queue that hands out its entries nearest first.
pub struct MinQueue {
    items: Vec<NodeWithDistance>,
}

impl View for MinQueue {
    type V = Seq<NodeWithDistance>;

    closed spec fn view(&self) -> Seq<NodeWithDistance> {
        self.items@
    }
}

impl MinQueue {
    /// The entries are laid out as a heap: none is nearer than the one above
    /// it. Every queue made by `new` and changed by `push` and `pop` is.
    pub closed spec fn well_formed(&self) -> bool {
        is_heap(self.items@)
    }

    /// An empty queue.
    pub fn new() -> (queue: MinQueue)
        ensures
            queue.well_formed(),
            queue@ == Seq::<NodeWithDistance>::empty(),
    {
        MinQueue { items: Vec::new() }
    }

    /// The number of entries, counting repetitions.
    pub fn len(&self) -> (n: usize)
        ensures
            n == self@.len(),
    {
        self.items.len()
    }

    /// Adds an entry.
    pub fn push(&mut self, entry: NodeWithDistance)
        requires
            old(self).well_formed(),
        ensures
            final(self).well_formed(),
            final(self)@ == with_entry(old(self)@, entry),
            final(self)@.to_multiset() == old(self)@.to_multiset().insert(entry),
    {
        let ghost before = self.items@;
        self.items.push(entry);
        let last: usize = self.items.len() - 1;
        proof {
            let s = self.items@;
            before.to_multiset_ensures();
            assert forall|i: int| 0 < i < s.len() && i != last implies #[trigger] heap_at(
                s,
                i,
            ) by {
                assert(heap_at(before, i));
            }
        }
        sift_up(&mut self.items, last);
    }

    /// Removes and returns the first entry, which is no farther than any
    /// other, or returns `None` when the queue is empty.
    pub fn pop(&mut self) -> (first: Option<NodeWithDistance>)
        requires
            old(self).well_formed(),
        ensures
            final(self).well_formed(),
            first is Some <==> old(self)@.len() > 0,
            final(self)@ == without_first(old(self)@),
            match first {
                Some(m) => {
                    &&& m == old(self)@[0]
                    &&& is_least(old(self)@.to_multiset(), m)
                    &&& final(self)@.to_multiset() == old(self)@.to_multiset().remove(m)
                },
                None => final(self)@ == old(self)@,
            },
    {
        broadcast use vstd::multiset::group_multiset_axioms;

        let ghost before = self.items@;
        proof {
            before.to_multiset_ensures();
        }
        let last = match self.items.pop() {
            Some(last) => last,
            None => {
                return None;
            },
        };
        let ghost rest = self.items@;
        proof {
            rest.to_multiset_ensures();
            assert(rest.push(last) =~= before);
            assert forall|x: NodeWithDistance| before.to_multiset().contains(x) implies precedes(
                before[0],
                x,
            ) by {
                assert(before.contains(x));
                let j = choose|j: int| 0 <= j < before.len() && before[j] == x;
                lemma_root_is_least(before, j);
            }
            assert(before.contains(before[0]));
        }
        if self.items.len() == 0 {
            proof {
                assert(before[0] == last);
                assert(rest.to_multiset() =~= before.to_multiset().remove(last));
            }
            return Some(last);
        }
        let top = self.items[0];
        self.items[0] = last;
        proof {
            let s = self.items@;
            vstd::seq_lib::to_multiset_update(rest, 0, last);
            assert(s.to_multiset() =~= before.to_multiset().remove(top));
            assert forall|i: int|
                0 < i < s.len() && i != 0 && parent(i) != 0 implies #[trigger] heap_at(s, i) by {
                assert(heap_at(before, i));
            }
        }
        let down = sift_down_to_bottom(&mut self.items, 0);
        sift_up(&mut self.items, down);
        Some(top)
    }
}

} // verus!
