use crate::candidate::DistancePoint;
use vstd::prelude::*;

verus! {

/// `s` with the entries at `i` and `j` exchanged.
pub open spec fn swapped(s: Seq<DistancePoint>, i: int, j: int) -> Seq<DistancePoint> {
    s.update(i, s[j]).update(j, s[i])
}

/// Exchanging two entries keeps the candidates, each as often as before.
pub proof fn lemma_swapped_keeps_candidates(s: Seq<DistancePoint>, i: int, j: int)
    requires
        0 <= i < s.len(),
        0 <= j < s.len(),
    ensures
        swapped(s, i, j).to_multiset() == s.to_multiset(),
{
    let once = s.update(i, s[j]);
    vstd::seq_lib::to_multiset_update(s, i, s[j]);
    vstd::seq_lib::to_multiset_update(once, j, s[i]);
    vstd::seq_lib::to_multiset_contains(s, s[i]);
}

/// Exchanges the entries at `i` and `j`.
pub fn swap(buffer: &mut Vec<DistancePoint>, i: usize, j: usize)
    requires
        i < old(buffer)@.len(),
        j < old(buffer)@.len(),
    ensures
        final(buffer)@ == swapped(old(buffer)@, i as int, j as int),
        final(buffer)@.len() == old(buffer)@.len(),
        final(buffer)@.to_multiset() == old(buffer)@.to_multiset(),
{
    let first = buffer[i];
    let second = buffer[j];
    buffer[i] = second;
    buffer[j] = first;
    proof {
        lemma_swapped_keeps_candidates(old(buffer)@, i as int, j as int);
    }
}

} // verus!
