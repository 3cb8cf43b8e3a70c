//! A minimum-priority queue: a binary heap laid out in a vector.
//!
//! The queue is modelled as the multiset of its `(item, priority)` entries. The
//! same item may be queued several times, under equal or different priorities;
//! which of several entries of least priority leaves first is not specified.

use vstd::multiset::Multiset;
use vstd::prelude::*;
use vstd::seq_lib::{to_multiset_build, to_multiset_len, to_multiset_remove, to_multiset_update};

verus! {

/// `e` is an entry of `q` and no entry of `q` has a smaller priority.
pub open spec fn is_min_entry<T>(q: Multiset<(T, u64)>, e: (T, u64)) -> bool {
    &&& q.count(e) > 0
    &&& forall|o: (T, u64)| #[trigger] q.count(o) > 0 ==> e.1 <= o.1
}

/// `after` is `before` less one entry of least priority, whose item is `item`.
pub open spec fn popped<T>(before: Multiset<(T, u64)>, after: Multiset<(T, u64)>, item: T) -> bool {
    exists|priority: u64|
        #[trigger] is_min_entry(before, (item, priority)) && after == before.remove(
            (item, priority),
        )
}

/// `s` with the entries at `i` and `j` exchanged.
spec fn exchanged<T>(s: Seq<T>, i: int, j: int) -> Seq<T> {
    s.update(i, s[j]).update(j, s[i])
}

/// No entry has a smaller priority than its parent, the entry at `(i - 1) / 2`.
#[verifier::opaque]
spec fn heap_ordered<T>(s: Seq<(T, u64)>) -> bool {
    forall|i: int| 0 < i < s.len() ==> s[(i - 1) / 2].1 <= (#[trigger] s[i]).1
}

/// The heap order holds but perhaps between `hole` and its parent; the children
/// of `hole` are no smaller than its parent.
#[verifier::opaque]
spec fn ordered_above<T>(s: Seq<(T, u64)>, hole: int) -> bool {
    &&& forall|i: int| 0 < i < s.len() && i != hole ==> s[(i - 1) / 2].1 <= (#[trigger] s[i]).1
    &&& forall|i: int|
        0 < i < s.len() && (i - 1) / 2 == hole && hole > 0 ==> s[(hole - 1) / 2].1 <= (
        #[trigger] s[i]).1
}

/// The heap order holds but perhaps between `hole` and its children; the children
/// of `hole` are no smaller than its parent.
#[verifier::opaque]
spec fn ordered_below<T>(s: Seq<(T, u64)>, hole: int) -> bool {
    &&& forall|i: int|
        0 < i < s.len() && (i - 1) / 2 != hole ==> s[(i - 1) / 2].1 <= (#[trigger] s[i]).1
    &&& forall|i: int|
        0 < i < s.len() && (i - 1) / 2 == hole && hole > 0 ==> s[(hole - 1) / 2].1 <= (
        #[trigger] s[i]).1
}

/// In a heap-ordered sequence no entry is smaller than the first.
proof fn lemma_root_is_least<T>(s: Seq<(T, u64)>, i: int)
    requires
        heap_ordered(s),
        0 <= i < s.len(),
    ensures
        s[0].1 <= s[i].1,
    decreases i,
{
    reveal(heap_ordered);
    if i > 0 {
        lemma_root_is_least(s, (i - 1) / 2);
        assert(s[(i - 1) / 2].1 <= s[i].1);
    }
}

/// The first entry of a non-empty heap-ordered sequence is a least entry of its multiset.
proof fn lemma_root_is_min_entry<T>(s: Seq<(T, u64)>)
    requires
        heap_ordered(s),
        s.len() > 0,
    ensures
        is_min_entry(s.to_multiset(), s[0]),
{
    s.to_multiset_ensures();
    assert(s.contains(s[0]));
    assert forall|o: (T, u64)| #[trigger] s.to_multiset().count(o) > 0 implies s[0].1 <= o.1 by {
        assert(s.contains(o));
        let i = choose|i: int| 0 <= i < s.len() && s[i] == o;
        lemma_root_is_least(s, i);
    }
}

/// Exchanging two entries leaves the multiset of entries as it was.
proof fn lemma_exchange_keeps_entries<T>(s: Seq<T>, i: int, j: int)
    requires
        0 <= i < s.len(),
        0 <= j < s.len(),
    ensures
        exchanged(s, i, j).to_multiset() == s.to_multiset(),
{
    let u = s.update(i, s[j]);
    s.to_multiset_ensures();
    assert(s.contains(s[i]));
    assert(s.contains(s[j]));
    to_multiset_update(s, i, s[j]);
    to_multiset_update(u, j, s[i]);
    assert(u[j] == s[j]);
    assert(exchanged(s, i, j).to_multiset() =~= s.to_multiset());
}

/// Removing the first entry by moving the last into its place removes it from the
/// multiset of entries.
proof fn lemma_replace_root_entries<T>(s: Seq<T>)
    requires
        s.len() > 0,
    ensures
        s.update(0, s.last()).drop_last().to_multiset() == s.to_multiset().remove(s[0]),
{
    let u = s.update(0, s.last());
    s.to_multiset_ensures();
    assert(s.contains(s[0]));
    assert(s.contains(s.last()));
    to_multiset_update(s, 0, s.last());
    to_multiset_remove(u, u.len() - 1);
    assert(u.remove(u.len() - 1) =~= u.drop_last());
    assert(u[u.len() - 1] == s.last());
    assert(u.drop_last().to_multiset() =~= s.to_multiset().remove(s[0]));
}

/// One step of sifting up: an entry smaller than its parent trades places with it.
proof fn lemma_sift_up_step<T>(s: Seq<(T, u64)>, hole: int)
    requires
        ordered_above(s, hole),
        0 < hole < s.len(),
        s[(hole - 1) / 2].1 > s[hole].1,
    ensures
        ordered_above(exchanged(s, (hole - 1) / 2, hole), (hole - 1) / 2),
{
    reveal(ordered_above);
    let p = (hole - 1) / 2;
    let t = exchanged(s, p, hole);
    assert(t[p] == s[hole]);
    assert(t[hole] == s[p]);
    assert forall|i: int| 0 < i < t.len() && i != p implies t[(i - 1) / 2].1 <= (#[trigger] t[i]).1 by {
        let q = (i - 1) / 2;
        if i == hole {
        } else if q == hole {
            assert(s[p].1 <= s[i].1);
        } else {
            assert(s[q].1 <= s[i].1);
        }
    }
    assert forall|i: int| 0 < i < t.len() && (i - 1) / 2 == p && p > 0 implies t[(p - 1) / 2].1 <= (
    #[trigger] t[i]).1 by {
        assert(s[(p - 1) / 2].1 <= s[p].1);
        if i != hole {
            assert(s[p].1 <= s[i].1);
        }
    }
}

/// One step of sifting down: an entry greater than its least child trades places with it.
proof fn lemma_sift_down_step<T>(s: Seq<(T, u64)>, hole: int, child: int)
    requires
        ordered_below(s, hole),
        0 <= hole,
        child == 2 * hole + 1 || child == 2 * hole + 2,
        child < s.len(),
        s[child].1 <= s[2 * hole + 1].1,
        2 * hole + 2 < s.len() ==> s[child].1 <= s[2 * hole + 2].1,
        s[hole].1 > s[child].1,
    ensures
        ordered_below(exchanged(s, hole, child), child),
{
    reveal(ordered_below);
    let t = exchanged(s, hole, child);
    assert(t[hole] == s[child]);
    assert(t[child] == s[hole]);
    assert forall|i: int| 0 < i < t.len() && (i - 1) / 2 != child implies t[(i - 1) / 2].1 <= (
    #[trigger] t[i]).1 by {
        let q = (i - 1) / 2;
        if i == child {
        } else if q == hole {
            assert(i == 2 * hole + 1 || i == 2 * hole + 2);
        } else if i == hole {
            assert(s[(hole - 1) / 2].1 <= s[child].1);
        } else {
            assert(s[q].1 <= s[i].1);
        }
    }
    assert forall|i: int| 0 < i < t.len() && (i - 1) / 2 == child && child > 0 implies t[(child - 1)
        / 2].1 <= (#[trigger] t[i]).1 by {
        assert(s[child].1 <= s[i].1);
    }
}

/// Sifting up ends where the entry is the first or no smaller than its parent.
proof fn lemma_sift_up_done<T>(s: Seq<(T, u64)>, hole: int)
    requires
        ordered_above(s, hole),
        0 <= hole < s.len(),
        hole == 0 || s[(hole - 1) / 2].1 <= s[hole].1,
    ensures
        heap_ordered(s),
{
    reveal(ordered_above);
    reveal(heap_ordered);
}

/// Sifting down ends where the entry has no child or is no greater than its children.
proof fn lemma_sift_down_done<T>(s: Seq<(T, u64)>, hole: int)
    requires
        ordered_below(s, hole),
        0 <= hole,
        2 * hole + 1 < s.len() ==> s[hole].1 <= s[2 * hole + 1].1,
        2 * hole + 2 < s.len() ==> s[hole].1 <= s[2 * hole + 2].1,
    ensures
        heap_ordered(s),
{
    reveal(ordered_below);
    reveal(heap_ordered);
    assert forall|i: int| 0 < i < s.len() implies s[(i - 1) / 2].1 <= (#[trigger] s[i]).1 by {
        if (i - 1) / 2 == hole {
            assert(i == 2 * hole + 1 || i == 2 * hole + 2);
        }
    }
}

/// A new last entry can only break the heap order against its parent.
proof fn lemma_pushed_ordered<T>(s: Seq<(T, u64)>, e: (T, u64))
    requires
        heap_ordered(s),
    ensures
        ordered_above(s.push(e), s.len() as int),
{
    reveal(ordered_above);
    reveal(heap_ordered);
    let t = s.push(e);
    assert forall|i: int| 0 < i < t.len() && i != s.len() implies t[(i - 1) / 2].1 <= (
    #[trigger] t[i]).1 by {
        assert(s[(i - 1) / 2].1 <= s[i].1);
    }
}

/// Moving the last entry into the place of the first can only break the heap
/// order against the children of the first.
proof fn lemma_replaced_ordered<T>(s: Seq<(T, u64)>)
    requires
        heap_ordered(s),
        s.len() > 0,
    ensures
        ordered_below(s.update(0, s.last()).drop_last(), 0),
{
    reveal(ordered_below);
    reveal(heap_ordered);
    let t = s.update(0, s.last()).drop_last();
    assert forall|i: int| 0 < i < t.len() && (i - 1) / 2 != 0 implies t[(i - 1) / 2].1 <= (
    #[trigger] t[i]).1 by {
        assert(s[(i - 1) / 2].1 <= s[i].1);
    }
}

/// The empty sequence is heap-ordered.
proof fn lemma_empty_ordered<T>(s: Seq<(T, u64)>)
    requires
        s.len() == 0,
    ensures
        heap_ordered(s),
{
    reveal(heap_ordered);
}

/// Exchanges the entry at `i` with the last one.
fn swap_with_last<T>(v: &mut Vec<T>, i: usize)
    requires
        i < old(v).len(),
    ensures
        final(v)@ == exchanged(old(v)@, i as int, old(v)@.len() - 1),
{
    let x = v.swap_remove(i);
    v.push(x);
    assert(v@ =~= exchanged(old(v)@, i as int, old(v)@.len() - 1));
}

/// Exchanges the entries at `i` and `j`. `Vec` offers no verified exchange of two
/// arbitrary entries, so the exchange goes through the tail of the vector.
fn swap_entries<T>(v: &mut Vec<T>, i: usize, j: usize)
    requires
        i < j < old(v).len(),
    ensures
        final(v)@ == exchanged(old(v)@, i as int, j as int),
{
    if j + 1 == v.len() {
        swap_with_last(v, i);
    } else {
        swap_with_last(v, i);
        swap_with_last(v, j);
        swap_with_last(v, i);
        assert(v@ =~= exchanged(old(v)@, i as int, j as int));
    }
}

/// A minimum-priority queue of items of type `T` under `u64` priorities.
pub struct MinHeap<T> {
    entries: Vec<(T, u64)>,
}

impl<T> View for MinHeap<T> {
    type V = Multiset<(T, u64)>;

    closed spec fn view(&self) -> Multiset<(T, u64)> {
        self.entries@.to_multiset()
    }
}

impl<T> MinHeap<T> {
    /// The entries are in heap order.
    pub closed spec fn wf(&self) -> bool {
        heap_ordered(self.entries@)
    }

    /// An empty queue.
    pub fn new() -> (heap: Self)
        ensures
            heap.wf(),
            heap@ == Multiset::<(T, u64)>::empty(),
    {
        let heap = MinHeap { entries: Vec::new() };
        proof {
            lemma_empty_ordered(heap.entries@);
            to_multiset_len(heap.entries@);
            assert(heap.entries@.to_multiset() =~= Multiset::<(T, u64)>::empty());
        }
        heap
    }

    /// Whether the queue holds no entry.
    pub fn is_empty(&self) -> (empty: bool)
        ensures
            empty == (self@.len() == 0),
    {
        proof {
            to_multiset_len(self.entries@);
        }
        self.entries.len() == 0
    }

    /// Adds the entry `(item, priority)`.
    pub fn insert(&mut self, item: T, priority: u64)
        requires
            old(self).wf(),
        ensures
            final(self).wf(),
            final(self)@ == old(self)@.insert((item, priority)),
    {
        proof {
            to_multiset_build(self.entries@, (item, priority));
            lemma_pushed_ordered(self.entries@, (item, priority));
        }
        self.entries.push((item, priority));
        let mut i: usize = self.entries.len() - 1;
        while i > 0 && self.entries[(i - 1) / 2].1 > self.entries[i].1
            invariant
                i < self.entries.len(),
                self.entries@.to_multiset() == old(self)@.insert((item, priority)),
                ordered_above(self.entries@, i as int),
            decreases i,
        {
            let parent = (i - 1) / 2;
            proof {
                lemma_sift_up_step(self.entries@, i as int);
                lemma_exchange_keeps_entries(self.entries@, parent as int, i as int);
            }
            swap_entries(&mut self.entries, parent, i);
            i = parent;
        }
        proof {
            lemma_sift_up_done(self.entries@, i as int);
        }
    }

    /// Removes an entry of least priority and returns its item; `None` when the
    /// queue is empty.
    pub fn pop(&mut self) -> (r: Option<T>)
        requires
            old(self).wf(),
        ensures
            final(self).wf(),
            match r {
                Some(item) => popped(old(self)@, final(self)@, item),
                None => old(self)@.len() == 0 && final(self)@ == old(self)@,
            },
    {
        proof {
            to_multiset_len(self.entries@);
        }
        if self.entries.len() == 0 {
            return None;
        }
        proof {
            lemma_root_is_min_entry(self.entries@);
            lemma_replace_root_entries(self.entries@);
            lemma_replaced_ordered(self.entries@);
        }
        let (item, priority) = self.entries.swap_remove(0);
        let len = self.entries.len();
        let mut i: usize = 0;
        let mut settled = false;
        while !settled
            invariant
                len == self.entries.len(),
                self.entries@.to_multiset() == old(self)@.remove((item, priority)),
                ordered_below(self.entries@, i as int),
                settled ==> heap_ordered(self.entries@),
            decreases len - i, if settled { 0int } else { 1int },
        {
            if len < 2 || i > (len - 2) / 2 {
                proof {
                    lemma_sift_down_done(self.entries@, i as int);
                }
                settled = true;
            } else {
                let left = 2 * i + 1;
                let right = left + 1;
                let mut least = left;
                if right < len && self.entries[right].1 < self.entries[left].1 {
                    least = right;
                }
                if self.entries[i].1 <= self.entries[least].1 {
                    proof {
                        lemma_sift_down_done(self.entries@, i as int);
                    }
                    settled = true;
                } else {
                    proof {
                        lemma_sift_down_step(self.entries@, i as int, least as int);
                        lemma_exchange_keeps_entries(self.entries@, i as int, least as int);
                    }
                    swap_entries(&mut self.entries, i, least);
                    i = least;
                }
            }
        }
        assert(is_min_entry(old(self)@, (item, priority)) && self@ == old(self)@.remove(
            (item, priority),
        ));
        assert(popped(old(self)@, self@, item));
        Some(item)
    }
}

/// Of two entries popped one after the other, the second has no smaller priority.
pub proof fn lemma_pops_ascend<T>(q: Multiset<(T, u64)>, first: (T, u64), second: (T, u64))
    requires
        is_min_entry(q, first),
        is_min_entry(q.remove(first), second),
    ensures
        first.1 <= second.1,
{
    assert(q.count(second) > 0);
}

} // verus!
