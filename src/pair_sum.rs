use vstd::prelude::*;
use std::collections::BTreeSet;

verus! {

/// Two distinct positions of `a` hold values that add up to `x`.
pub open spec fn has_pair(x: i32, a: Seq<i32>) -> bool {
    exists|i: int, j: int| 0 <= i < j < a.len() && a[i] + a[j] == x
}

/// Tells whether two distinct positions of `a` hold values that add up to
/// `x`, remembering the values seen so far in an ordered set.
pub fn solve(x: i32, a: &Vec<i32>) -> (r: bool)
    requires
        forall|k: int| 0 <= k < a@.len() ==> i32::MIN <= x - #[trigger] a@[k] <= i32::MAX,
    ensures
        r == has_pair(x, a@),
{
    broadcast use vstd::laws_cmp::group_laws_cmp, vstd::std_specs::btree::group_btree_axioms;

    let mut s: BTreeSet<i32> = BTreeSet::new();
    let mut k: usize = 0;
    while k < a.len()
        invariant
            k <= a@.len(),
            forall|m: int| 0 <= m < a@.len() ==> i32::MIN <= x - #[trigger] a@[m] <= i32::MAX,
            forall|v: i32| s@.contains(v) <==> exists|i: int| 0 <= i < k && a@[i] == v,
            forall|i: int, j: int| 0 <= i < j < k ==> a@[i] + a@[j] != x,
        decreases a@.len() - k,
    {
        let num = a[k];
        let want = x - num;
        if s.contains(&want) {
            proof {
                let i = choose|i: int| 0 <= i < k && a@[i] == want;
                assert(a@[i] + a@[k as int] == x);
            }
            return true;
        }
        s.insert(num);
        proof {
            assert forall|v: i32| s@.contains(v) implies exists|i: int| 0 <= i < k + 1 && a@[i] == v by {
                if v != num {
                    let i = choose|i: int| 0 <= i < k && a@[i] == v;
                    assert(0 <= i < k + 1 && a@[i] == v);
                } else {
                    assert(a@[k as int] == v);
                }
            }
        }
        k += 1;
    }
    false
}

} // verus!
