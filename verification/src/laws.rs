use crate::candidate::closest_of;
use crate::candidate::distances;
use crate::candidate::is_closest;
use crate::candidate::selection_len;
use crate::candidate::DistancePoint;
use crate::counting::lemma_part_and_rest;
use crate::counting::lemma_part_len;
use vstd::multiset::Multiset;
use vstd::prelude::*;

verus! {

/// The test "is nearer than `bound`".
pub open spec fn nearer_than(bound: int) -> spec_fn(DistancePoint) -> bool {
    |c: DistancePoint| c.distance < bound
}

/// The test "is at distance `d`".
spec fn at_distance(d: int) -> spec_fn(DistancePoint) -> bool {
    |c: DistancePoint| c.distance == d
}

/// How many of `held` are nearer than `bound`.
pub open spec fn count_nearer(held: Multiset<DistancePoint>, bound: int) -> nat {
    held.filter(nearer_than(bound)).len()
}

/// How many of `held` are at distance `d`.
spec fn count_at(held: Multiset<DistancePoint>, d: int) -> nat {
    held.filter(at_distance(d)).len()
}

/// Those of two multisets together that pass a test are those of the one
/// that pass it together with those of the other.
proof fn lemma_filter_add(
    a: Multiset<DistancePoint>,
    b: Multiset<DistancePoint>,
    test: spec_fn(DistancePoint) -> bool,
)
    ensures
        a.add(b).filter(test) == a.filter(test).add(b.filter(test)),
        a.add(b).filter(test).len() == a.filter(test).len() + b.filter(test).len(),
{
    assert(a.add(b).filter(test) =~= a.filter(test).add(b.filter(test)));
}

/// The candidates nearer than `d + 1` are those nearer than `d` and those at
/// distance `d`.
proof fn lemma_count_step(held: Multiset<DistancePoint>, d: int)
    ensures
        count_nearer(held, d + 1) == count_nearer(held, d) + count_at(held, d),
{
    assert(held.filter(nearer_than(d + 1)) =~= held.filter(nearer_than(d)).add(
        held.filter(at_distance(d)),
    ));
}

/// A distance occurs among the distances of `s` as often as `s` holds a
/// candidate at that distance.
proof fn lemma_distance_count(s: Seq<DistancePoint>, d: u64)
    ensures
        distances(s).to_multiset().count(d) == count_at(s.to_multiset(), d as int),
    decreases s.len(),
{
    let test = at_distance(d as int);
    if s.len() == 0 {
        vstd::seq_lib::to_multiset_len(s);
        vstd::seq_lib::to_multiset_len(distances(s));
        lemma_part_len(s.to_multiset().filter(test), s.to_multiset());
    } else {
        let front = s.drop_last();
        let last = s.last();
        lemma_distance_count(front, d);
        assert(s == front.push(last));
        assert(distances(s) == distances(front).push(last.distance));
        vstd::seq_lib::to_multiset_build(front, last);
        vstd::seq_lib::to_multiset_build(distances(front), last.distance);
        lemma_filter_add(front.to_multiset(), Multiset::singleton(last), test);
        if last.distance == d {
            assert(Multiset::singleton(last).filter(test) =~= Multiset::singleton(last));
        } else {
            assert(Multiset::singleton(last).filter(test) =~= Multiset::<DistancePoint>::empty());
        }
    }
}

/// Of a selection of the `k` nearest, as many are nearer than a bound as
/// there are such candidates at all, up to the selection's size.
///
/// So the candidates themselves, and `k`, settle how many of the chosen are
/// nearer than any bound, whichever way the ties were broken.
pub proof fn lemma_chosen_nearer(
    all: Multiset<DistancePoint>,
    k: nat,
    chosen: Multiset<DistancePoint>,
    bound: int,
)
    requires
        closest_of(all, k, chosen),
    ensures
        count_nearer(chosen, bound) == selection_len(
            selection_len(k, all.len()),
            count_nearer(all, bound),
        ),
{
    let test = nearer_than(bound);
    let rest = all.sub(chosen);
    lemma_part_and_rest(chosen, all);
    lemma_filter_add(chosen, rest, test);
    lemma_part_len(chosen.filter(test), chosen);
    if exists|c: DistancePoint| chosen.count(c) > 0 && c.distance >= bound {
        let c = choose|c: DistancePoint| chosen.count(c) > 0 && c.distance >= bound;
        assert forall|r: DistancePoint| rest.filter(test).count(r) == 0 by {
            if rest.count(r) > 0 {
                assert(c.distance <= r.distance);
            }
        }
        assert(rest.filter(test) =~= Multiset::<DistancePoint>::empty());
    } else {
        assert(chosen.filter(test) =~= chosen);
    }
}

/// Two selections of the `k` nearest among the same candidates hold the
/// same distances, each as often as the other.
pub proof fn lemma_distances_determined(
    all: Multiset<DistancePoint>,
    k: nat,
    first: Seq<DistancePoint>,
    second: Seq<DistancePoint>,
)
    requires
        closest_of(all, k, first.to_multiset()),
        closest_of(all, k, second.to_multiset()),
    ensures
        distances(first).to_multiset() == distances(second).to_multiset(),
{
    assert forall|d: u64|
        distances(first).to_multiset().count(d) == distances(second).to_multiset().count(d) by {
        lemma_distance_count(first, d);
        lemma_distance_count(second, d);
        lemma_count_step(first.to_multiset(), d as int);
        lemma_count_step(second.to_multiset(), d as int);
        lemma_chosen_nearer(all, k, first.to_multiset(), d as int);
        lemma_chosen_nearer(all, k, second.to_multiset(), d as int);
        lemma_chosen_nearer(all, k, first.to_multiset(), d as int + 1);
        lemma_chosen_nearer(all, k, second.to_multiset(), d as int + 1);
    }
}

/// A selection holds `k` candidates, or all of them where there are fewer;
/// it takes each from the candidates, no more often than it occurs there;
/// and every candidate that it leaves behind is at least as far as every
/// one that it holds.
pub proof fn lemma_selection_is_nearest(
    candidates: Seq<DistancePoint>,
    k: nat,
    chosen: Seq<DistancePoint>,
)
    requires
        is_closest(candidates, k, chosen),
    ensures
        chosen.len() == selection_len(k, candidates.len()),
        chosen.to_multiset().subset_of(candidates.to_multiset()),
        forall|i: int| 0 <= i < chosen.len() ==> candidates.contains(#[trigger] chosen[i]),
        forall|i: int, r: DistancePoint|
            #![trigger chosen[i], candidates.to_multiset().sub(chosen.to_multiset()).count(r)]
            0 <= i < chosen.len() && candidates.to_multiset().sub(chosen.to_multiset()).count(r)
                > 0 ==> chosen[i].distance <= r.distance,
{
    vstd::seq_lib::to_multiset_len(candidates);
    vstd::seq_lib::to_multiset_len(chosen);
    assert forall|i: int| 0 <= i < chosen.len() implies candidates.contains(
        #[trigger] chosen[i],
    ) && chosen.to_multiset().count(chosen[i]) > 0 by {
        vstd::seq_lib::to_multiset_contains(chosen, chosen[i]);
        vstd::seq_lib::to_multiset_contains(candidates, chosen[i]);
    }
}

/// Selecting as many as there are returns them all: a selection of
/// `chosen.len()` among `chosen` holds the candidates of `chosen`, each as
/// often as `chosen` does.
pub proof fn lemma_reselection_returns_all(chosen: Seq<DistancePoint>, again: Seq<DistancePoint>)
    requires
        is_closest(chosen, chosen.len(), again),
    ensures
        again.to_multiset() == chosen.to_multiset(),
{
    vstd::seq_lib::to_multiset_len(chosen);
    lemma_part_len(again.to_multiset(), chosen.to_multiset());
}

/// The order of the candidates does not matter: selections of the `k`
/// nearest from two buffers that hold the same candidates, in whatever
/// order, hold the same distances, each as often as the other. Which
/// candidate stands for a distance may differ among ties.
pub proof fn lemma_order_independent(
    candidates: Seq<DistancePoint>,
    permuted: Seq<DistancePoint>,
    k: nat,
    chosen: Seq<DistancePoint>,
    chosen_permuted: Seq<DistancePoint>,
)
    requires
        permuted.to_multiset() == candidates.to_multiset(),
        is_closest(candidates, k, chosen),
        is_closest(permuted, k, chosen_permuted),
    ensures
        distances(chosen).to_multiset() == distances(chosen_permuted).to_multiset(),
{
    lemma_distances_determined(candidates.to_multiset(), k, chosen, chosen_permuted);
}

/// The two strategies agree: what the partition strategy and the streaming
/// strategy select from the same candidates, for the same `k`, holds the
/// same distances, each as often as the other.
pub proof fn lemma_strategies_agree(
    candidates: Seq<DistancePoint>,
    k: nat,
    by_partition: Seq<DistancePoint>,
    by_streaming: Seq<DistancePoint>,
)
    requires
        is_closest(candidates, k, by_partition),
        is_closest(candidates, k, by_streaming),
    ensures
        distances(by_partition).to_multiset() == distances(by_streaming).to_multiset(),
{
    lemma_distances_determined(candidates.to_multiset(), k, by_partition, by_streaming);
}

/// A candidate that one part's selection left behind is not nearer than
/// any candidate of a selection merged from that part's selection and
/// another's.
proof fn lemma_left_behind_in_part(
    part: Multiset<DistancePoint>,
    k: nat,
    chosen: Multiset<DistancePoint>,
    others: Multiset<DistancePoint>,
    merged: Multiset<DistancePoint>,
    c: DistancePoint,
    r: DistancePoint,
)
    requires
        closest_of(part, k, chosen),
        closest_of(chosen.add(others), k, merged),
        merged.count(c) > 0,
        part.count(r) > chosen.count(r),
    ensures
        c.distance <= r.distance,
{
    let both = chosen.add(others);
    lemma_part_len(chosen, part);
    if c.distance > r.distance {
        let more = chosen.insert(c);
        assert forall|x: DistancePoint| more.count(x) <= merged.count(x) by {
            if chosen.count(x) > 0 {
                assert(part.sub(chosen).count(r) > 0);
                if merged.count(x) < both.count(x) {
                    assert(both.sub(merged).count(x) > 0);
                }
            }
        }
        lemma_part_len(more, merged);
    }
}

/// Selections made part by part can be merged: where the candidates are
/// split in two, a selection of the `k` nearest among what each part's own
/// selection chose is a selection of the `k` nearest among them all.
pub proof fn lemma_merged_selection(
    first_part: Seq<DistancePoint>,
    second_part: Seq<DistancePoint>,
    k: nat,
    first: Seq<DistancePoint>,
    second: Seq<DistancePoint>,
    merged: Seq<DistancePoint>,
)
    requires
        is_closest(first_part, k, first),
        is_closest(second_part, k, second),
        is_closest(first + second, k, merged),
    ensures
        is_closest(first_part + second_part, k, merged),
{
    let a = first_part.to_multiset();
    let b = second_part.to_multiset();
    let chosen_a = first.to_multiset();
    let chosen_b = second.to_multiset();
    let all = (first_part + second_part).to_multiset();
    let both = (first + second).to_multiset();
    let m = merged.to_multiset();
    vstd::seq_lib::lemma_multiset_commutative(first_part, second_part);
    vstd::seq_lib::lemma_multiset_commutative(first, second);
    assert(both == chosen_b.add(chosen_a));
    assert forall|c: DistancePoint, r: DistancePoint|
        #![trigger m.count(c), all.sub(m).count(r)]
        m.count(c) > 0 && all.sub(m).count(r) > 0 implies c.distance <= r.distance by {
        if both.count(r) > m.count(r) {
            assert(both.sub(m).count(r) > 0);
        } else if a.count(r) > chosen_a.count(r) {
            lemma_left_behind_in_part(a, k, chosen_a, chosen_b, m, c, r);
        } else {
            lemma_left_behind_in_part(b, k, chosen_b, chosen_a, m, c, r);
        }
    }
}

} // verus!
