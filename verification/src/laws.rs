//! Laws relating the public operations, stated over the multiset view and
//! the sorted drain.

use crate::heap::is_min_of;
use crate::heap::sorted;
use vstd::multiset::Multiset;
use vstd::prelude::*;

verus! {

broadcast use vstd::multiset::group_multiset_axioms, vstd::seq_lib::group_to_multiset_ensures;

/// A multiset has at most one least key. Hence the key `top` reports on a
/// non-empty heap is exactly the key the next `pop` returns: both contracts
/// pin their result to `is_min_of` over the same contents.
pub proof fn lemma_min_unique(a: u64, b: u64, m: Multiset<u64>)
    requires
        is_min_of(a, m),
        is_min_of(b, m),
    ensures
        a == b,
{
}

/// Draining is a function of the contents alone: any two non-decreasing
/// sequences holding the same multiset of keys are equal. So the drain of a
/// heap is fully determined by its multiset view.
pub proof fn lemma_drain_unique(d1: Seq<u64>, d2: Seq<u64>)
    requires
        sorted(d1),
        sorted(d2),
        d1.to_multiset() == d2.to_multiset(),
    ensures
        d1 == d2,
{
    let leq = (|a: u64, b: u64| a <= b);
    assert(vstd::relations::total_ordering(leq)) by {
        assert forall|x: u64| #[trigger] leq(x, x) by {}
        assert forall|x: u64, y: u64| #[trigger] leq(x, y) && #[trigger] leq(y, x) implies x
            == y by {}
        assert forall|x: u64, y: u64, z: u64| #[trigger] leq(x, y) && #[trigger] leq(
            y,
            z,
        ) implies leq(x, z) by {}
        assert forall|x: u64, y: u64| #[trigger] leq(x, y) || #[trigger] leq(y, x) by {}
    }
    assert(vstd::relations::sorted_by(d1, leq)) by {
        assert forall|i: int, j: int| 0 <= i < j < d1.len() implies #[trigger] leq(
            d1[i],
            d1[j],
        ) by {}
    }
    assert(vstd::relations::sorted_by(d2, leq)) by {
        assert forall|i: int, j: int| 0 <= i < j < d2.len() implies #[trigger] leq(
            d2[i],
            d2[j],
        ) by {}
    }
    vstd::seq_lib::lemma_sorted_unique(d1, d2, leq);
    assert(d1 =~= d2);
}

/// The contents reached by starting from the empty heap and inserting the
/// keys of `s` one at a time, in order.
pub open spec fn inserted_all(s: Seq<u64>) -> Multiset<u64>
    decreases s.len(),
{
    if s.len() == 0 {
        Multiset::empty()
    } else {
        inserted_all(s.drop_last()).insert(s.last())
    }
}

/// Inserting keys one at a time accumulates exactly their multiset, the
/// same contents bulk construction yields; with the drain determined by the
/// contents, inserting n keys and draining equals bulk-building from the
/// same keys and draining.
pub proof fn lemma_inserted_all_is_to_multiset(s: Seq<u64>)
    ensures
        inserted_all(s) == s.to_multiset(),
    decreases s.len(),
{
    if s.len() == 0 {
        assert(s.to_multiset() =~= Multiset::<u64>::empty());
    } else {
        lemma_inserted_all_is_to_multiset(s.drop_last());
        assert(s =~= s.drop_last().push(s.last()));
        assert(s.drop_last().push(s.last()).to_multiset() =~= s.drop_last().to_multiset().insert(
            s.last(),
        ));
        assert(inserted_all(s) =~= s.to_multiset());
    }
}

/// Merging an empty heap into a heap H leaves H's subsequent drain
/// unchanged: the merge result holds `H@.add(e)` with `e` empty, which is
/// `H@` itself, and a sorted drain of equal contents is equal.
pub proof fn lemma_merge_empty_keeps_drain(
    h: Multiset<u64>,
    e: Multiset<u64>,
    d1: Seq<u64>,
    d2: Seq<u64>,
)
    requires
        e.len() == 0,
        sorted(d1),
        d1.to_multiset() == h,
        sorted(d2),
        d2.to_multiset() == h.add(e),
    ensures
        d1 == d2,
{
    assert(h.add(e) =~= h) by {
        assert forall|v: u64| h.add(e).count(v) == h.count(v) by {
            assert(e.count(v) <= e.len());
        }
    }
    lemma_drain_unique(d1, d2);
}

/// Inserting keys one at a time and then draining yields the same sequence
/// as draining a bulk-built heap over the same keys.
pub proof fn lemma_incremental_matches_bulk(s: Seq<u64>, d1: Seq<u64>, d2: Seq<u64>)
    requires
        sorted(d1),
        d1.to_multiset() == inserted_all(s),
        sorted(d2),
        d2.to_multiset() == s.to_multiset(),
    ensures
        d1 == d2,
{
    lemma_inserted_all_is_to_multiset(s);
    lemma_drain_unique(d1, d2);
}

} // verus!
