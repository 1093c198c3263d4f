use vstd::prelude::*;
use crate::sorted::sorted;

verus! {

/// Two sorted sequences that hold the same multiset of elements are equal.
pub proof fn lemma_sorted_unique(x: Seq<i32>, y: Seq<i32>)
    requires
        sorted(x),
        sorted(y),
        x.to_multiset() == y.to_multiset(),
    ensures
        x == y,
    decreases x.len(),
{
    broadcast use vstd::seq_lib::group_to_multiset_ensures;
    broadcast use vstd::multiset::group_multiset_axioms;

    vstd::seq_lib::to_multiset_len(x);
    vstd::seq_lib::to_multiset_len(y);
    assert(x.len() == y.len());
    if x.len() == 0 {
        assert(x =~= y);
    } else {
        assert(x.contains(x[0]));
        vstd::seq_lib::to_multiset_contains(x, x[0]);
        vstd::seq_lib::to_multiset_contains(y, x[0]);
        vstd::seq_lib::to_multiset_contains(x, y[0]);
        vstd::seq_lib::to_multiset_contains(y, y[0]);
        assert(y.contains(x[0]));
        let j = choose|j: int| 0 <= j < y.len() && y[j] == x[0];
        assert(y[0] <= y[j]);
        assert(y.contains(y[0]));
        assert(x.contains(y[0]));
        let i = choose|i: int| 0 <= i < x.len() && x[i] == y[0];
        assert(x[0] <= x[i]);
        assert(x[0] == y[0]);
        vstd::seq_lib::to_multiset_remove(x, 0);
        vstd::seq_lib::to_multiset_remove(y, 0);
        assert(x.remove(0) =~= x.drop_first());
        assert(y.remove(0) =~= y.drop_first());
        let x1 = x.drop_first();
        let y1 = y.drop_first();
        assert(sorted(x1));
        assert(sorted(y1));
        assert(x1.to_multiset() == y1.to_multiset());
        lemma_sorted_unique(x1, y1);
        assert forall|k: int| 0 <= k < x.len() implies x[k] == y[k] by {
            if k > 0 {
                assert(x[k] == x1[k - 1]);
                assert(y[k] == y1[k - 1]);
            }
        }
        assert(x =~= y);
    }
}

/// The sorted result depends on the input alone: any two outcomes that are
/// sorted and hold the input's multiset of elements, as every run of the
/// hybrid sort gives for every threshold, are the same sequence.
pub proof fn lemma_threshold_independence(input: Seq<i32>, out1: Seq<i32>, out2: Seq<i32>)
    requires
        sorted(out1),
        out1.to_multiset() == input.to_multiset(),
        sorted(out2),
        out2.to_multiset() == input.to_multiset(),
    ensures
        out1 == out2,
{
    lemma_sorted_unique(out1, out2);
}

} // verus!
