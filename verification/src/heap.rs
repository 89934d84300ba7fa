use crate::buffer::swap;
use crate::candidate::DistancePoint;
use vstd::multiset::Multiset;
use vstd::prelude::*;

verus! {

/// `worst` is one of `held`, and none of `held` is farther.
pub open spec fn is_farthest(held: Multiset<DistancePoint>, worst: DistancePoint) -> bool {
    &&& held.count(worst) > 0
    &&& forall|c: DistancePoint| #[trigger] held.count(c) > 0 ==> c.distance <= worst.distance
}

/// Whether a heap that holds `held`, and at most `limit` candidates, takes
/// `candidate`: it has room, or `candidate` is strictly nearer than one that
/// it holds.
pub open spec fn takes(
    held: Multiset<DistancePoint>,
    limit: nat,
    candidate: DistancePoint,
) -> bool {
    held.len() < limit || exists|other: DistancePoint|
        #[trigger] held.count(other) > 0 && candidate.distance < other.distance
}

/// What a heap of at most `limit` candidates holds once `candidate` was
/// offered to it: `after`, where it held `before`.
///
/// With room it holds `candidate` as well. Without room, it holds
/// `candidate` in place of a farthest candidate where it takes `candidate`,
/// and what it held before where it does not.
pub open spec fn offered(
    before: Multiset<DistancePoint>,
    limit: nat,
    candidate: DistancePoint,
    after: Multiset<DistancePoint>,
) -> bool {
    if before.len() < limit {
        after == before.insert(candidate)
    } else if takes(before, limit, candidate) {
        exists|worst: DistancePoint|
            is_farthest(before, worst) && after == #[trigger] before.remove(worst).insert(
                candidate,
            )
    } else {
        after == before
    }
}

/// The position above `j` in the heap's tree.
spec fn parent(j: int) -> int {
    (j - 1) / 2
}

/// The entry at `j` is not farther than the one above it.
spec fn ordered_at(s: Seq<DistancePoint>, j: int) -> bool {
    j > 0 ==> s[j].distance <= s[parent(j)].distance
}

/// The entry at `j` is not farther than the one two levels above it.
spec fn ordered_across(s: Seq<DistancePoint>, j: int) -> bool {
    j > 0 && parent(j) > 0 ==> s[j].distance <= s[parent(parent(j))].distance
}

/// Every entry is not farther than the one above it, so the farthest is first.
spec fn is_max_heap(s: Seq<DistancePoint>) -> bool {
    forall|j: int| 0 <= j < s.len() ==> #[trigger] ordered_at(s, j)
}

/// `s` is a heap but for the entry at `i`, which may be farther than the one
/// above it.
spec fn rising(s: Seq<DistancePoint>, i: int) -> bool {
    &&& forall|j: int| 0 <= j < s.len() && j != i ==> #[trigger] ordered_at(s, j)
    &&& forall|j: int| 0 < j < s.len() && parent(j) == i ==> #[trigger] ordered_across(s, j)
}

/// `s` is a heap but for the entry at `i`, which may be nearer than those
/// below it.
spec fn sinking(s: Seq<DistancePoint>, i: int) -> bool {
    &&& forall|j: int| 0 <= j < s.len() && parent(j) != i ==> #[trigger] ordered_at(s, j)
    &&& forall|j: int| 0 < j < s.len() && parent(j) == i ==> #[trigger] ordered_across(s, j)
}

/// In a heap no entry is farther than the first.
proof fn lemma_first_is_farthest(s: Seq<DistancePoint>, j: int)
    requires
        is_max_heap(s),
        0 <= j < s.len(),
    ensures
        s[j].distance <= s[0].distance,
    decreases j,
{
    if j > 0 {
        assert(ordered_at(s, j));
        lemma_first_is_farthest(s, parent(j));
    }
}

/// The first entry of a heap is the farthest of what it holds.
proof fn lemma_first_is_farthest_held(s: Seq<DistancePoint>)
    requires
        is_max_heap(s),
        s.len() > 0,
    ensures
        is_farthest(s.to_multiset(), s[0]),
{
    vstd::seq_lib::to_multiset_contains(s, s[0]);
    assert forall|c: DistancePoint| #[trigger] s.to_multiset().count(c) > 0 implies c.distance
        <= s[0].distance by {
        vstd::seq_lib::to_multiset_contains(s, c);
        let j = choose|j: int| 0 <= j < s.len() && s[j] == c;
        lemma_first_is_farthest(s, j);
    }
}

/// Moves the entry at `start` up until the one above it is not nearer.
fn sift_up(items: &mut Vec<DistancePoint>, start: usize)
    requires
        start < old(items)@.len(),
        rising(old(items)@, start as int),
    ensures
        is_max_heap(final(items)@),
        final(items)@.len() == old(items)@.len(),
        final(items)@.to_multiset() == old(items)@.to_multiset(),
{
    let mut i: usize = start;
    loop
        invariant_except_break
            rising(items@, i as int),
        invariant
            i < items@.len(),
            items@.len() == old(items)@.len(),
            items@.to_multiset() == old(items)@.to_multiset(),
        ensures
            is_max_heap(items@),
        decreases i,
    {
        if i == 0 {
            break ;
        }
        let above: usize = (i - 1) / 2;
        if items[i].distance <= items[above].distance {
            break ;
        }
        let ghost before = items@;
        swap(items, i, above);
        proof {
            let after = items@;
            assert forall|j: int| 0 <= j < after.len() && j != above implies #[trigger] ordered_at(
                after,
                j,
            ) by {
                if j > 0 && parent(j) == i {
                    assert(ordered_across(before, j));
                } else if j != i {
                    assert(ordered_at(before, j));
                }
            }
            assert forall|j: int|
                0 < j < after.len() && parent(j) == above implies #[trigger] ordered_across(
                after,
                j,
            ) by {
                assert(ordered_at(before, above as int));
                if j != i {
                    assert(ordered_at(before, j));
                }
            }
        }
        i = above;
    }
}

/// Moves the entry at `start` down until neither of those below it is
/// farther.
fn sift_down(items: &mut Vec<DistancePoint>, start: usize)
    requires
        start < old(items)@.len(),
        sinking(old(items)@, start as int),
    ensures
        is_max_heap(final(items)@),
        final(items)@.len() == old(items)@.len(),
        final(items)@.to_multiset() == old(items)@.to_multiset(),
{
    let len: usize = items.len();
    let mut i: usize = start;
    loop
        invariant_except_break
            sinking(items@, i as int),
        invariant
            i < items@.len(),
            len == items@.len(),
            items@.len() == old(items)@.len(),
            items@.to_multiset() == old(items)@.to_multiset(),
        ensures
            is_max_heap(items@),
        decreases len - i,
    {
        if i >= len / 2 {
            break ;
        }
        let left: usize = 2 * i + 1;
        let right: usize = left + 1;
        let mut below: usize = left;
        if right < len && items[right].distance > items[left].distance {
            below = right;
        }
        if items[below].distance <= items[i].distance {
            break ;
        }
        let ghost before = items@;
        swap(items, i, below);
        proof {
            let after = items@;
            assert forall|j: int|
                0 <= j < after.len() && parent(j) != below implies #[trigger] ordered_at(
                after,
                j,
            ) by {
                if j == i {
                    assert(ordered_across(before, below as int));
                } else if j != 0 && j != below && parent(j) != i {
                    assert(ordered_at(before, j));
                }
            }
            assert forall|j: int|
                0 < j < after.len() && parent(j) == below implies #[trigger] ordered_across(
                after,
                j,
            ) by {
                assert(ordered_at(before, j));
            }
        }
        i = below;
    }
}

/// A heap of at most `limit()` candidates with the farthest on top.
///
/// It is the bounded store of a streaming selection: while it has room it
/// takes every candidate; once full it takes a candidate only in exchange
/// for the farthest that it holds.
pub struct BoundedHeap {
    items: Vec<DistancePoint>,
    capacity: usize,
}

impl View for BoundedHeap {
    type V = Multiset<DistancePoint>;

    /// The candidates held, each as often as it was taken.
    closed spec fn view(&self) -> Multiset<DistancePoint> {
        self.items@.to_multiset()
    }
}

impl BoundedHeap {
    /// The most candidates that the heap holds at a time.
    pub closed spec fn limit(&self) -> nat {
        self.capacity as nat
    }

    /// The heap keeps its order and its bound.
    pub closed spec fn wf(&self) -> bool {
        &&& is_max_heap(self.items@)
        &&& self.items@.len() <= self.capacity
    }

    /// An empty heap that will hold at most `capacity` candidates.
    pub fn new(capacity: usize) -> (heap: BoundedHeap)
        ensures
            heap.wf(),
            heap.limit() == capacity,
            heap@ == Multiset::<DistancePoint>::empty(),
    {
        let heap = BoundedHeap { items: Vec::new(), capacity };
        proof {
            vstd::seq_lib::to_multiset_len(heap.items@);
        }
        heap
    }

    /// The number of candidates held.
    pub fn len(&self) -> (len: usize)
        requires
            self.wf(),
        ensures
            len == self@.len(),
            len <= self.limit(),
    {
        proof {
            vstd::seq_lib::to_multiset_len(self.items@);
        }
        self.items.len()
    }

    /// The most candidates that the heap holds at a time.
    pub fn capacity(&self) -> (capacity: usize)
        ensures
            capacity == self.limit(),
    {
        self.capacity
    }

    /// The farthest candidate held, or `None` where the heap is empty.
    pub fn peek(&self) -> (top: Option<DistancePoint>)
        requires
            self.wf(),
        ensures
            top is None <==> self@.len() == 0,
            top matches Some(worst) ==> is_farthest(self@, worst),
    {
        proof {
            vstd::seq_lib::to_multiset_len(self.items@);
        }
        if self.items.len() == 0 {
            None
        } else {
            proof {
                lemma_first_is_farthest_held(self.items@);
            }
            Some(self.items[0])
        }
    }

    /// Takes `candidate` into a heap that has room.
    pub fn push(&mut self, candidate: DistancePoint)
        requires
            old(self).wf(),
            old(self)@.len() < old(self).limit(),
        ensures
            final(self).wf(),
            final(self).limit() == old(self).limit(),
            final(self)@ == old(self)@.insert(candidate),
    {
        proof {
            vstd::seq_lib::to_multiset_len(self.items@);
        }
        let ghost before = self.items@;
        self.items.push(candidate);
        let last: usize = self.items.len() - 1;
        proof {
            let pushed = self.items@;
            vstd::seq_lib::to_multiset_build(before, candidate);
            assert forall|j: int| 0 <= j < pushed.len() && j != last implies #[trigger] ordered_at(
                pushed,
                j,
            ) by {
                assert(ordered_at(before, j));
            }
        }
        sift_up(&mut self.items, last);
    }

    /// Exchanges the farthest candidate held for `candidate`, and returns the
    /// one that left.
    pub fn replace_top(&mut self, candidate: DistancePoint) -> (evicted: DistancePoint)
        requires
            old(self).wf(),
            old(self)@.len() > 0,
        ensures
            final(self).wf(),
            final(self).limit() == old(self).limit(),
            is_farthest(old(self)@, evicted),
            final(self)@ == old(self)@.remove(evicted).insert(candidate),
    {
        proof {
            vstd::seq_lib::to_multiset_len(self.items@);
            lemma_first_is_farthest_held(self.items@);
        }
        let ghost before = self.items@;
        let evicted = self.items[0];
        self.items[0] = candidate;
        proof {
            let replaced = self.items@;
            vstd::seq_lib::to_multiset_update(before, 0, candidate);
            assert(replaced.to_multiset() =~= before.to_multiset().remove(evicted).insert(
                candidate,
            ));
            assert forall|j: int|
                0 <= j < replaced.len() && parent(j) != 0 implies #[trigger] ordered_at(
                replaced,
                j,
            ) by {
                assert(ordered_at(before, j));
            }
        }
        sift_down(&mut self.items, 0);
        evicted
    }

    /// Offers `candidate` to the heap, and says whether it was taken.
    ///
    /// A heap with room takes it. A full heap takes it in exchange for the
    /// farthest candidate held, and only where `candidate` is strictly
    /// nearer than that one; a heap whose limit is zero takes nothing.
    pub fn offer(&mut self, candidate: DistancePoint) -> (taken: bool)
        requires
            old(self).wf(),
        ensures
            final(self).wf(),
            final(self).limit() == old(self).limit(),
            taken == takes(old(self)@, old(self).limit(), candidate),
            offered(old(self)@, old(self).limit(), candidate, final(self)@),
    {
        if self.len() < self.capacity {
            self.push(candidate);
            return true;
        }
        match self.peek() {
            None => false,
            Some(worst) => {
                if candidate.distance < worst.distance {
                    self.replace_top(candidate);
                    true
                } else {
                    false
                }
            },
        }
    }

    /// The candidates held, in no particular order.
    pub fn into_vec(self) -> (held: Vec<DistancePoint>)
        ensures
            held@.to_multiset() == self@,
    {
        self.items
    }
}

} // verus!
