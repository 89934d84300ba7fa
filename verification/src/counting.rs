use crate::candidate::DistancePoint;
use vstd::multiset::Multiset;
use vstd::prelude::*;

verus! {

/// A part holds no more than the whole, and a part as large as the whole is
/// the whole.
pub proof fn lemma_part_len(part: Multiset<DistancePoint>, whole: Multiset<DistancePoint>)
    requires
        part.subset_of(whole),
    ensures
        part.len() <= whole.len(),
        part.len() == whole.len() ==> part == whole,
{
    let rest = whole.sub(part);
    assert(rest.len() == whole.len() - part.len());
    if part.len() == whole.len() {
        assert forall|c: DistancePoint| part.count(c) == whole.count(c) by {
            assert(rest.count(c) == 0);
        }
    }
}

/// What is left of the whole once a part is taken away, put back together
/// with the part, is the whole.
pub proof fn lemma_part_and_rest(part: Multiset<DistancePoint>, whole: Multiset<DistancePoint>)
    requires
        part.subset_of(whole),
    ensures
        part.add(whole.sub(part)) == whole,
        part.len() + whole.sub(part).len() == whole.len(),
{
}

} // verus!
