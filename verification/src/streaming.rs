use crate::candidate::candidate_at;
use crate::candidate::closest_of;
use crate::candidate::is_closest;
use crate::candidate::ranked;
use crate::candidate::selection_len;
use crate::candidate::DistancePoint;
use crate::counting::lemma_part_len;
use crate::heap::is_farthest;
use crate::heap::offered;
use crate::heap::takes;
use crate::heap::BoundedHeap;
use vstd::multiset::Multiset;
use vstd::prelude::*;

verus! {

/// A selection that is not yet full stays one when it takes the next
/// candidate.
proof fn lemma_take_with_room(
    seen: Multiset<DistancePoint>,
    k: nat,
    held: Multiset<DistancePoint>,
    next: DistancePoint,
)
    requires
        closest_of(seen, k, held),
        held.len() < k,
    ensures
        closest_of(seen.insert(next), k, held.insert(next)),
{
    lemma_part_len(held, seen);
    assert forall|r: DistancePoint| seen.insert(next).sub(held.insert(next)).count(r) == 0 by {}
}

/// A full selection stays one when it gives up its farthest candidate for a
/// strictly nearer one.
proof fn lemma_take_by_exchange(
    seen: Multiset<DistancePoint>,
    k: nat,
    held: Multiset<DistancePoint>,
    next: DistancePoint,
    worst: DistancePoint,
)
    requires
        closest_of(seen, k, held),
        held.len() >= k,
        is_farthest(held, worst),
        next.distance < worst.distance,
    ensures
        closest_of(seen.insert(next), k, held.remove(worst).insert(next)),
{
    let seen_after = seen.insert(next);
    let held_after = held.remove(worst).insert(next);
    assert forall|c: DistancePoint, r: DistancePoint|
        #![trigger held_after.count(c), seen_after.sub(held_after).count(r)]
        held_after.count(c) > 0 && seen_after.sub(held_after).count(r) > 0 implies c.distance
        <= r.distance by {
        if r != worst {
            assert(seen.sub(held).count(r) > 0);
        }
    }
}

/// A full selection stays one when it passes over a candidate that is not
/// nearer than any that it holds.
proof fn lemma_pass_over(
    seen: Multiset<DistancePoint>,
    k: nat,
    held: Multiset<DistancePoint>,
    next: DistancePoint,
)
    requires
        closest_of(seen, k, held),
        held.len() >= k,
        forall|c: DistancePoint| #[trigger] held.count(c) > 0 ==> c.distance <= next.distance,
    ensures
        closest_of(seen.insert(next), k, held),
{
    let seen_after = seen.insert(next);
    assert forall|c: DistancePoint, r: DistancePoint|
        #![trigger held.count(c), seen_after.sub(held).count(r)]
        held.count(c) > 0 && seen_after.sub(held).count(r) > 0 implies c.distance
        <= r.distance by {
        if r != next {
            assert(seen.sub(held).count(r) > 0);
        }
    }
}

/// What is held once `candidates` were offered one by one, in their order,
/// to an empty heap of at most `limit` candidates: `held`.
pub open spec fn streamed(
    candidates: Seq<DistancePoint>,
    limit: nat,
    held: Multiset<DistancePoint>,
) -> bool
    decreases candidates.len(),
{
    if candidates.len() == 0 {
        held == Multiset::<DistancePoint>::empty()
    } else {
        exists|before: Multiset<DistancePoint>|
            streamed(candidates.drop_last(), limit, before) && #[trigger] offered(
                before,
                limit,
                candidates.last(),
                held,
            )
    }
}

/// What a heap of at most `k` candidates holds once the candidates were
/// offered to it is a selection of the `k` nearest among them.
pub proof fn lemma_streamed_is_closest(
    candidates: Seq<DistancePoint>,
    k: nat,
    held: Multiset<DistancePoint>,
)
    requires
        streamed(candidates, k, held),
    ensures
        closest_of(candidates.to_multiset(), k, held),
    decreases candidates.len(),
{
    if candidates.len() == 0 {
        vstd::seq_lib::to_multiset_len(candidates);
    } else {
        let seen = candidates.drop_last();
        let next = candidates.last();
        let before = choose|before: Multiset<DistancePoint>|
            streamed(seen, k, before) && #[trigger] offered(before, k, next, held);
        lemma_streamed_is_closest(seen, k, before);
        assert(candidates == seen.push(next));
        vstd::seq_lib::to_multiset_build(seen, next);
        if before.len() < k {
            lemma_take_with_room(seen.to_multiset(), k, before, next);
        } else if takes(before, k, next) {
            let worst = choose|worst: DistancePoint|
                is_farthest(before, worst) && held == #[trigger] before.remove(worst).insert(next);
            lemma_take_by_exchange(seen.to_multiset(), k, before, next, worst);
        } else {
            lemma_pass_over(seen.to_multiset(), k, before, next);
        }
    }
}

/// Selects the `k` nearest of `candidates` by streaming them through a
/// bounded heap.
///
/// Each candidate is offered once, in the order of the buffer, to a heap of
/// at most `k` candidates whose top is the farthest held. The buffer is left
/// as it was. The selection comes out in no particular order.
pub fn select_streaming(candidates: &Vec<DistancePoint>, k: usize) -> (chosen: Vec<DistancePoint>)
    ensures
        streamed(candidates@, k as nat, chosen@.to_multiset()),
        is_closest(candidates@, k as nat, chosen@),
        chosen@.len() == selection_len(k as nat, candidates@.len()),
        k >= candidates@.len() ==> chosen@.to_multiset() == candidates@.to_multiset(),
{
    let mut heap = BoundedHeap::new(k);
    let mut i: usize = 0;
    while i < candidates.len()
        invariant
            i <= candidates@.len(),
            heap.wf(),
            heap.limit() == k,
            streamed(candidates@.take(i as int), k as nat, heap@),
        decreases candidates@.len() - i,
    {
        let next = candidates[i];
        heap.offer(next);
        proof {
            let seen = candidates@.take(i as int + 1);
            assert(seen.drop_last() == candidates@.take(i as int));
            assert(seen.last() == next);
        }
        i += 1;
    }
    assert(candidates@.take(i as int) == candidates@);
    let chosen = heap.into_vec();
    proof {
        lemma_streamed_is_closest(candidates@, k as nat, chosen@.to_multiset());
        vstd::seq_lib::to_multiset_len(candidates@);
        vstd::seq_lib::to_multiset_len(chosen@);
        lemma_part_len(chosen@.to_multiset(), candidates@.to_multiset());
    }
    chosen
}

/// Selects the `k` nearest among the points with these keys by streaming
/// them through a bounded heap: each key, with its position, is offered
/// once, in the order of the keys.
///
/// It does what `select_streaming` does on the candidates that stand for
/// the points, without making a buffer of them: beside the keys it holds no
/// more than `k` candidates at a time.
pub fn select_streaming_keys(keys: &Vec<u64>, k: usize) -> (chosen: Vec<DistancePoint>)
    ensures
        streamed(ranked(keys@), k as nat, chosen@.to_multiset()),
        is_closest(ranked(keys@), k as nat, chosen@),
        chosen@.len() == selection_len(k as nat, keys@.len()),
        k >= keys@.len() ==> chosen@.to_multiset() == ranked(keys@).to_multiset(),
{
    let mut heap = BoundedHeap::new(k);
    let mut position: usize = 0;
    while position < keys.len()
        invariant
            position <= keys@.len(),
            heap.wf(),
            heap.limit() == k,
            streamed(ranked(keys@).take(position as int), k as nat, heap@),
        decreases keys@.len() - position,
    {
        let next = DistancePoint { distance: keys[position], point: position };
        heap.offer(next);
        proof {
            let seen = ranked(keys@).take(position as int + 1);
            assert(seen.drop_last() == ranked(keys@).take(position as int));
            assert(seen.last() == candidate_at(keys@, position as int));
        }
        position += 1;
    }
    assert(ranked(keys@).take(position as int) == ranked(keys@));
    let chosen = heap.into_vec();
    proof {
        lemma_streamed_is_closest(ranked(keys@), k as nat, chosen@.to_multiset());
        vstd::seq_lib::to_multiset_len(ranked(keys@));
        vstd::seq_lib::to_multiset_len(chosen@);
        lemma_part_len(chosen@.to_multiset(), ranked(keys@).to_multiset());
    }
    chosen
}

} // verus!
