use crate::candidate::candidate_at;
use crate::candidate::is_closest;
use crate::candidate::ranked;
use crate::candidate::selection_len;
use crate::candidate::DistancePoint;
use crate::partition::select_partition;
use crate::streaming::select_streaming;
use crate::streaming::select_streaming_keys;
use vstd::prelude::*;

verus! {

/// How many points `closest_points` selects.
pub const CLOSEST_POINTS_LIMIT: usize = 10;

/// The way in which a selection is made. Both ways select the same
/// distances.
#[derive(Clone, Copy, Debug, PartialEq, Eq, Structural)]
pub enum Strategy {
    /// Reorder the whole buffer around its `k`-th entry, then cut it off.
    Partition,
    /// Offer each candidate once to a heap of at most `k`.
    Streaming,
}

/// Selects the `k` nearest of `candidates` in the given way.
///
/// The selection holds `k` candidates, or all of them where there are fewer,
/// and none where `k` is zero. It comes out in no particular order, and
/// among candidates at the same distance either may be chosen. The buffer is
/// given up with the call.
pub fn select_closest(strategy: Strategy, candidates: Vec<DistancePoint>, k: usize) -> (chosen: Vec<
    DistancePoint,
>)
    ensures
        is_closest(candidates@, k as nat, chosen@),
        chosen@.len() == selection_len(k as nat, candidates@.len()),
        k >= candidates@.len() ==> chosen@.to_multiset() == candidates@.to_multiset(),
{
    match strategy {
        Strategy::Partition => select_partition(candidates, k),
        Strategy::Streaming => select_streaming(&candidates, k),
    }
}

/// The points of `chosen`, in the same order.
pub open spec fn points_of(chosen: Seq<DistancePoint>) -> Seq<usize> {
    chosen.map_values(|c: DistancePoint| c.point)
}

/// The candidates that stand for the points at `positions`, in the same
/// order.
pub open spec fn picked(keys: Seq<u64>, positions: Seq<usize>) -> Seq<DistancePoint> {
    positions.map_values(|position: usize| candidate_at(keys, position as int))
}

/// `positions` are the places of the `k` nearest among the points with
/// these keys.
///
/// There are `k` of them, or as many as there are points; each is the place
/// of a point, and none occurs twice; and no point at another place is
/// nearer than any point at one of these.
pub open spec fn is_nearest_positions(keys: Seq<u64>, k: nat, positions: Seq<usize>) -> bool {
    &&& positions.len() == selection_len(k, keys.len())
    &&& forall|i: int| 0 <= i < positions.len() ==> #[trigger] positions[i] < keys.len()
    &&& forall|i: int, j: int|
        0 <= i < j < positions.len() ==> #[trigger] positions[i] != #[trigger] positions[j]
    &&& forall|i: int, other: int|
        #![trigger positions[i], keys[other]]
        0 <= i < positions.len() && 0 <= other < keys.len() && !positions.contains(other as usize)
            ==> keys[positions[i] as int] <= keys[other]
}

/// A selection among the candidates that stand for the points with these
/// keys names the places of the nearest points.
pub proof fn lemma_points_of_selection(keys: Seq<u64>, k: nat, chosen: Seq<DistancePoint>)
    requires
        keys.len() <= usize::MAX,
        is_closest(ranked(keys), k, chosen),
    ensures
        is_nearest_positions(keys, k, points_of(chosen)),
        picked(keys, points_of(chosen)) == chosen,
{
    let all = ranked(keys);
    let positions = points_of(chosen);
    vstd::seq_lib::to_multiset_len(all);
    vstd::seq_lib::to_multiset_len(chosen);
    assert(all.no_duplicates()) by {
        assert forall|i: int, j: int|
            0 <= i < all.len() && 0 <= j < all.len() && i != j implies all[i] != all[j] by {
            assert(all[i].point == i && all[j].point == j);
        }
    }
    all.lemma_multiset_has_no_duplicates();
    assert forall|i: int| 0 <= i < chosen.len() implies #[trigger] chosen[i] == candidate_at(
        keys,
        chosen[i].point as int,
    ) && chosen[i].point < keys.len() by {
        vstd::seq_lib::to_multiset_contains(chosen, chosen[i]);
        vstd::seq_lib::to_multiset_contains(all, chosen[i]);
        let p = choose|p: int| 0 <= p < all.len() && all[p] == chosen[i];
        assert(chosen[i] == candidate_at(keys, p));
    }
    assert(chosen.no_duplicates()) by {
        let held = chosen.to_multiset();
        assert forall|x: DistancePoint| held.contains(x) implies held.count(x) == 1 by {
            assert(all.to_multiset().contains(x));
        }
        chosen.lemma_multiset_has_no_duplicates_conv();
    }
    assert forall|i: int, j: int| 0 <= i < j < positions.len() implies #[trigger] positions[i]
        != #[trigger] positions[j] by {
        assert(chosen[i] != chosen[j]);
    }
    assert forall|i: int, other: int|
        #![trigger positions[i], keys[other]]
        0 <= i < positions.len() && 0 <= other < keys.len() && !positions.contains(
            other as usize,
        ) implies keys[positions[i] as int] <= keys[other] by {
        let left = all[other];
        vstd::seq_lib::to_multiset_contains(all, left);
        vstd::seq_lib::to_multiset_contains(chosen, left);
        vstd::seq_lib::to_multiset_contains(chosen, chosen[i]);
        if chosen.contains(left) {
            let at = choose|at: int| 0 <= at < chosen.len() && chosen[at] == left;
            assert(positions[at] == other as usize);
        }
        assert(all.to_multiset().sub(chosen.to_multiset()).count(left) > 0);
    }
    assert(picked(keys, positions) =~= chosen);
}

/// Pairs each key with its position: the candidates that stand for the
/// points with these keys.
pub fn rank_candidates(keys: &Vec<u64>) -> (candidates: Vec<DistancePoint>)
    ensures
        candidates@ == ranked(keys@),
{
    let mut candidates: Vec<DistancePoint> = Vec::new();
    let mut position: usize = 0;
    while position < keys.len()
        invariant
            position <= keys@.len(),
            candidates@.len() == position,
            forall|i: int|
                0 <= i < position ==> #[trigger] candidates@[i] == candidate_at(keys@, i),
        decreases keys@.len() - position,
    {
        candidates.push(DistancePoint { distance: keys[position], point: position });
        position += 1;
    }
    candidates
}

/// The points of a selection, in the same order.
pub fn selected_points(chosen: &Vec<DistancePoint>) -> (points: Vec<usize>)
    ensures
        points@ == points_of(chosen@),
{
    let mut points: Vec<usize> = Vec::new();
    let mut i: usize = 0;
    while i < chosen.len()
        invariant
            i <= chosen@.len(),
            points@.len() == i,
            forall|j: int| 0 <= j < i ==> #[trigger] points@[j] == chosen@[j].point,
        decreases chosen@.len() - i,
    {
        points.push(chosen[i].point);
        i += 1;
    }
    points
}

/// The places of the `k` nearest among the points with these keys, found in
/// the given way.
///
/// `keys[i]` ranks the distance of the point at place `i`. The places come
/// out in no particular order; among points at the same distance either may
/// be chosen. The partition strategy works on a buffer of candidates that it
/// makes for the purpose; the streaming strategy reads the keys as they are
/// and holds no more than `k` candidates at a time.
pub fn closest_positions(strategy: Strategy, keys: &Vec<u64>, k: usize) -> (positions: Vec<usize>)
    ensures
        is_nearest_positions(keys@, k as nat, positions@),
        is_closest(ranked(keys@), k as nat, picked(keys@, positions@)),
{
    let chosen = match strategy {
        Strategy::Partition => select_partition(rank_candidates(keys), k),
        Strategy::Streaming => select_streaming_keys(keys, k),
    };
    proof {
        vstd::std_specs::vec::axiom_spec_len(keys);
        lemma_points_of_selection(keys@, k as nat, chosen@);
    }
    selected_points(&chosen)
}

/// The places of the `CLOSEST_POINTS_LIMIT` nearest among the points with
/// these keys, found by streaming them through a bounded heap.
pub fn closest_points(keys: &Vec<u64>) -> (positions: Vec<usize>)
    ensures
        is_nearest_positions(keys@, CLOSEST_POINTS_LIMIT as nat, positions@),
        is_closest(ranked(keys@), CLOSEST_POINTS_LIMIT as nat, picked(keys@, positions@)),
{
    closest_positions(Strategy::Streaming, keys, CLOSEST_POINTS_LIMIT)
}

} // verus!
