use vstd::multiset::Multiset;
use vstd::prelude::*;

verus! {

/// A candidate as the selection sees it.
///
/// `distance` ranks the candidate: a smaller value is a nearer point. `point`
/// is the caller's handle for the point itself, usually its position in the
/// caller's buffer. The selection reads `distance` and carries `point` along.
#[derive(Clone, Copy, Debug, PartialEq, Eq, Structural)]
pub struct DistancePoint {
    pub distance: u64,
    pub point: usize,
}

impl DistancePoint {
    /// A candidate with the given rank and handle.
    pub fn new(distance: u64, point: usize) -> (candidate: DistancePoint)
        ensures
            candidate.distance == distance,
            candidate.point == point,
    {
        DistancePoint { distance, point }
    }
}

/// The candidate that stands for the point at `position`, given the keys of
/// all points.
pub open spec fn candidate_at(keys: Seq<u64>, position: int) -> DistancePoint {
    DistancePoint { distance: keys[position], point: position as usize }
}

/// The candidates that stand for the points with these keys: each key with
/// its position.
pub open spec fn ranked(keys: Seq<u64>) -> Seq<DistancePoint> {
    Seq::new(keys.len(), |position: int| candidate_at(keys, position))
}

/// The distances of `candidates`, in the same order.
pub open spec fn distances(candidates: Seq<DistancePoint>) -> Seq<u64> {
    candidates.map_values(|c: DistancePoint| c.distance)
}

/// The lesser of `k` and `n`: how many candidates a selection of `k` among
/// `n` holds.
pub open spec fn selection_len(k: nat, n: nat) -> nat {
    if k <= n {
        k
    } else {
        n
    }
}

/// `chosen` is a selection of the `k` nearest among `all`.
///
/// It holds `k` candidates, or all of them where there are fewer; each of
/// them is taken from `all`, no more often than it occurs there; and none of
/// the candidates left behind is nearer than any that was chosen. Among
/// candidates at the same distance the choice is free.
pub open spec fn closest_of(
    all: Multiset<DistancePoint>,
    k: nat,
    chosen: Multiset<DistancePoint>,
) -> bool {
    &&& chosen.len() == selection_len(k, all.len())
    &&& chosen.subset_of(all)
    &&& forall|c: DistancePoint, r: DistancePoint|
        #![trigger chosen.count(c), all.sub(chosen).count(r)]
        chosen.count(c) > 0 && all.sub(chosen).count(r) > 0 ==> c.distance <= r.distance
}

/// `chosen` is a selection of the `k` nearest among `candidates`, in any
/// order.
pub open spec fn is_closest(
    candidates: Seq<DistancePoint>,
    k: nat,
    chosen: Seq<DistancePoint>,
) -> bool {
    closest_of(candidates.to_multiset(), k, chosen.to_multiset())
}

} // verus!
