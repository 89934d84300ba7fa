use crate::buffer::swap;
use crate::candidate::is_closest;
use crate::candidate::selection_len;
use crate::candidate::DistancePoint;
use vstd::prelude::*;

verus! {

/// No entry before `at` is farther than any entry from `at` on.
pub open spec fn split_at(s: Seq<DistancePoint>, at: int) -> bool {
    forall|i: int, j: int|
        #![trigger s[i], s[j]]
        0 <= i < at && at <= j < s.len() ==> s[i].distance <= s[j].distance
}

/// The window `lo..hi` of `s` lies in three runs: up to `equal` the entries
/// nearer than those of the middle run, which are all at one distance, and
/// from `farther` on the entries farther than those.
spec fn in_runs(s: Seq<DistancePoint>, lo: int, equal: int, farther: int, hi: int) -> bool {
    &&& forall|a: int, b: int|
        #![trigger s[a], s[b]]
        lo <= a < equal && equal <= b < hi ==> s[a].distance < s[b].distance
    &&& forall|a: int, b: int|
        #![trigger s[a], s[b]]
        lo <= a < farther && farther <= b < hi ==> s[a].distance < s[b].distance
    &&& forall|a: int, b: int|
        #![trigger s[a], s[b]]
        equal <= a < farther && equal <= b < farther ==> s[a].distance == s[b].distance
}

/// Reorders the window `lo..hi` of `buffer` in three runs around the
/// distance of its middle entry: the nearer entries, then those at that
/// distance, then the farther ones. Returns where the middle run starts and
/// ends; it is not empty.
fn partition(buffer: &mut Vec<DistancePoint>, lo: usize, hi: usize) -> (runs: (usize, usize))
    requires
        lo < hi <= old(buffer)@.len(),
        split_at(old(buffer)@, lo as int),
        split_at(old(buffer)@, hi as int),
    ensures
        lo <= runs.0 < runs.1 <= hi,
        final(buffer)@.len() == old(buffer)@.len(),
        final(buffer)@.to_multiset() == old(buffer)@.to_multiset(),
        split_at(final(buffer)@, lo as int),
        split_at(final(buffer)@, hi as int),
        in_runs(final(buffer)@, lo as int, runs.0 as int, runs.1 as int, hi as int),
{
    let middle: usize = lo + (hi - lo) / 2;
    swap(buffer, lo, middle);
    let pivot: u64 = buffer[lo].distance;
    let mut nearer: usize = lo;
    let mut i: usize = lo + 1;
    let mut farther: usize = hi;
    while i < farther
        invariant
            lo <= nearer < i <= farther <= hi <= buffer@.len(),
            buffer@.len() == old(buffer)@.len(),
            buffer@.to_multiset() == old(buffer)@.to_multiset(),
            split_at(buffer@, lo as int),
            split_at(buffer@, hi as int),
            forall|a: int| lo <= a < nearer ==> #[trigger] buffer@[a].distance < pivot,
            forall|a: int| nearer <= a < i ==> #[trigger] buffer@[a].distance == pivot,
            forall|a: int| farther <= a < hi ==> #[trigger] buffer@[a].distance > pivot,
        decreases farther - i,
    {
        let distance: u64 = buffer[i].distance;
        if distance < pivot {
            swap(buffer, nearer, i);
            nearer += 1;
            i += 1;
        } else if distance > pivot {
            farther -= 1;
            swap(buffer, i, farther);
        } else {
            i += 1;
        }
    }
    (nearer, farther)
}

/// Reorders `buffer` so that its `k` nearest candidates come first.
///
/// The buffer keeps its candidates, each as often as before, and no entry
/// before position `k` is farther than any entry from `k` on. Neither side
/// is put in order. Where `k` is not less than the buffer's length, any
/// order will do and the buffer is left as it is.
pub fn partition_nearest(buffer: &mut Vec<DistancePoint>, k: usize)
    ensures
        final(buffer)@.len() == old(buffer)@.len(),
        final(buffer)@.to_multiset() == old(buffer)@.to_multiset(),
        split_at(final(buffer)@, k as int),
        k >= old(buffer)@.len() ==> final(buffer)@ == old(buffer)@,
{
    let mut lo: usize = 0;
    let mut hi: usize = buffer.len();
    while lo < k && k < hi
        invariant
            lo <= hi <= buffer@.len(),
            k < old(buffer)@.len() ==> lo <= k <= hi,
            k >= old(buffer)@.len() ==> hi == buffer@.len() && buffer@ == old(buffer)@,
            buffer@.len() == old(buffer)@.len(),
            buffer@.to_multiset() == old(buffer)@.to_multiset(),
            split_at(buffer@, lo as int),
            split_at(buffer@, hi as int),
        decreases hi - lo,
    {
        let (nearer, farther) = partition(buffer, lo, hi);
        if k <= nearer {
            hi = nearer;
        } else if k >= farther {
            lo = farther;
        } else {
            lo = k;
            hi = k;
        }
    }
}

/// Selects the `k` nearest of `candidates` by reordering the buffer around
/// its `k`-th entry and cutting it off there.
///
/// The buffer is taken over and comes back as the selection: its entries are
/// in a new order, and those from position `k` on are gone. The selection
/// comes out in no particular order. A buffer of no more than `k` candidates
/// comes back as it was.
pub fn select_partition(candidates: Vec<DistancePoint>, k: usize) -> (chosen: Vec<DistancePoint>)
    ensures
        is_closest(candidates@, k as nat, chosen@),
        chosen@.len() == selection_len(k as nat, candidates@.len()),
        k >= candidates@.len() ==> chosen@ == candidates@,
{
    let mut buffer = candidates;
    partition_nearest(&mut buffer, k);
    let ghost reordered = buffer@;
    buffer.truncate(k);
    proof {
        lemma_prefix_is_closest(reordered, k as int);
    }
    buffer
}

/// In a buffer that is split at `k`, the entries before `k` are a selection
/// of the `k` nearest.
pub proof fn lemma_prefix_is_closest(s: Seq<DistancePoint>, k: int)
    requires
        0 <= k,
        split_at(s, k),
    ensures
        k <= s.len() ==> is_closest(s, k as nat, s.take(k)),
        k > s.len() ==> is_closest(s, k as nat, s),
{
    let at = if k <= s.len() {
        k
    } else {
        s.len() as int
    };
    let head = s.take(at);
    let tail = s.skip(at);
    assert(head + tail == s);
    vstd::seq_lib::lemma_multiset_commutative(head, tail);
    vstd::seq_lib::to_multiset_len(head);
    assert forall|c: DistancePoint, r: DistancePoint|
        #![trigger head.to_multiset().count(c), s.to_multiset().sub(head.to_multiset()).count(r)]
        head.to_multiset().count(c) > 0 && s.to_multiset().sub(head.to_multiset()).count(r)
            > 0 implies c.distance <= r.distance by {
        vstd::seq_lib::to_multiset_contains(head, c);
        vstd::seq_lib::to_multiset_contains(tail, r);
        let i = choose|i: int| 0 <= i < head.len() && head[i] == c;
        let j = choose|j: int| 0 <= j < tail.len() && tail[j] == r;
        assert(s[i] == c && s[at + j] == r);
    }
}

} // verus!
