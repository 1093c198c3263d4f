use vstd::prelude::*;
use crate::perm::{lemma_stable_perm_multiset, moved_stably, stable_perm};
use crate::sorted::{sorted, sorted_on};

verus! {

/// Sorts positions `lo..hi` of `arr` in place, stably, by binary insertion:
/// each element is placed after every element of the sorted prefix that is not
/// greater than it, and the elements in between shift right by one.
pub fn binary_insertion_sort_range(arr: &mut Vec<i32>, lo: usize, hi: usize)
    requires
        lo <= hi <= old(arr)@.len(),
    ensures
        final(arr)@.len() == old(arr)@.len(),
        forall|k: int| 0 <= k < lo || hi <= k < old(arr)@.len() ==> #[trigger] final(arr)@[k] == old(arr)@[k],
        sorted_on(final(arr)@, lo as int, hi as int),
        exists|q: Seq<int>| moved_stably(final(arr)@, old(arr)@, q, lo as int, hi as int),
{
    let ghost orig = arr@;
    let ghost mut q: Seq<int> = Seq::new((hi - lo) as nat, |k: int| k);
    let mut i: usize = if lo < hi { lo + 1 } else { hi };
    while i < hi
        invariant
            arr@.len() == orig.len(),
            lo <= hi <= orig.len(),
            lo < i <= hi || i == hi,
            forall|k: int| 0 <= k < lo || hi <= k < orig.len() ==> #[trigger] arr@[k] == orig[k],
            sorted_on(arr@, lo as int, i as int),
            moved_stably(arr@, orig, q, lo as int, hi as int),
            forall|k: int| i - lo <= k < hi - lo ==> #[trigger] q[k] == k,
            forall|k: int| 0 <= k < i - lo ==> #[trigger] q[k] < i - lo,
        decreases hi - i,
    {
        let x = arr[i];
        let mut left: usize = lo;
        let mut right: usize = i;
        while left < right
            invariant
                arr@.len() == orig.len(),
                lo <= left <= right <= i < hi <= arr@.len(),
                x == arr@[i as int],
                sorted_on(arr@, lo as int, i as int),
                forall|k: int| lo <= k < left ==> #[trigger] arr@[k] <= x,
                forall|k: int| right <= k < i ==> #[trigger] arr@[k] > x,
            decreases right - left,
        {
            let mid = left + (right - left) / 2;
            if arr[mid] <= x {
                left = mid + 1;
            } else {
                right = mid;
            }
        }
        let ghost a = arr@;
        let mut j: usize = i;
        while j > left
            invariant
                arr@.len() == a.len(),
                lo <= left <= j <= i < hi <= a.len(),
                forall|k: int| 0 <= k <= j ==> #[trigger] arr@[k] == a[k],
                forall|k: int| j < k <= i ==> #[trigger] arr@[k] == a[k - 1],
                forall|k: int| i < k < a.len() ==> #[trigger] arr@[k] == a[k],
            decreases j - left,
        {
            let v = arr[j - 1];
            arr.set(j, v);
            j -= 1;
        }
        arr.set(left, x);
        proof {
            let ll = left - lo;
            let ii = i - lo;
            let q0 = q;
            q = Seq::new((hi - lo) as nat, |k: int|
                if k < ll { q0[k] } else if k == ll { q0[ii] } else if k <= ii { q0[k - 1] } else { q0[k] });
            assert forall|k: int| 0 <= k < hi - lo implies 0 <= #[trigger] q[k] < hi - lo
                && arr@[lo + k] == orig[lo + q[k]] by {
                if k < ll {
                    assert(arr@[lo + k] == a[lo + k]);
                } else if k == ll {
                } else if k <= ii {
                    assert(arr@[lo + k] == a[lo + (k - 1)]);
                    assert(0 <= q0[k - 1] < hi - lo);
                } else {
                    assert(arr@[lo + k] == a[lo + k]);
                }
            }
            assert forall|k: int, l: int| 0 <= k < l < hi - lo implies #[trigger] q[k] != #[trigger] q[l]
                && (arr@[lo + k] == arr@[lo + l] ==> q[k] < q[l]) by {
                let k1 = if k < ll { k } else if k == ll { ii } else if k <= ii { k - 1 } else { k };
                let l1 = if l < ll { l } else if l == ll { ii } else if l <= ii { l - 1 } else { l };
                assert(q[k] == q0[k1] && q[l] == q0[l1]);
                assert(arr@[lo + k] == a[lo + k1]);
                assert(arr@[lo + l] == a[lo + l1]);
                assert(k1 != l1);
                if k1 < l1 {
                    assert(q0[k1] != q0[l1] && (a[lo + k1] == a[lo + l1] ==> q0[k1] < q0[l1]));
                } else {
                    assert(q0[l1] != q0[k1]);
                    if k == ll {
                        assert(a[lo + l1] > x);
                    } else {
                        assert(l == ll);
                        assert(q0[k1] < ii);
                    }
                }
            }
            assert forall|k: int, l: int| lo <= k < l < i + 1 implies arr@[k] <= arr@[l] by {
                if l < left {
                    assert(arr@[k] == a[k] && arr@[l] == a[l]);
                } else if l == left {
                    assert(arr@[k] == a[k]);
                } else if k < left {
                    assert(arr@[k] == a[k]);
                    assert(arr@[l] == a[l - 1]);
                } else if k == left {
                    assert(arr@[l] == a[l - 1]);
                } else {
                    assert(arr@[k] == a[k - 1]);
                    assert(arr@[l] == a[l - 1]);
                }
            }
            assert forall|k: int| 0 <= k < lo || hi <= k < orig.len() implies #[trigger] arr@[k] == orig[k] by {
                assert(arr@[k] == a[k]);
            }
        }
        i += 1;
    }
    proof {
        assert(moved_stably(arr@, orig, q, lo as int, hi as int));
    }
}

/// Sorts `arr` in place, stably, by binary insertion.
pub fn binary_insertion_sort(arr: &mut Vec<i32>)
    ensures
        sorted(final(arr)@),
        exists|q: Seq<int>| stable_perm(final(arr)@, old(arr)@, q),
        final(arr)@.to_multiset() == old(arr)@.to_multiset(),
{
    let n = arr.len();
    binary_insertion_sort_range(arr, 0, n);
    proof {
        let q = choose|q: Seq<int>| moved_stably(arr@, old(arr)@, q, 0, n as int);
        assert(stable_perm(arr@, old(arr)@, q));
        lemma_stable_perm_multiset(arr@, old(arr)@, q);
    }
}

} // verus!
