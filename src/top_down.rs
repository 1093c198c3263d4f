use vstd::prelude::*;
use crate::hybrid::{lemma_join_stable, seg_ok};
use crate::merge_step::{lemma_take_left, lemma_take_right, merge_inv};
use crate::perm::{
    apply_local, lemma_apply_local, lemma_local_from_global, lemma_stable_perm_multiset, maps_into,
    moved_stably, perm_map, stable_on, stable_perm,
};
use crate::sorted::{sorted, sorted_on};

verus! {

/// A copy of positions `lo..hi` of `arr`.
fn copy_range(arr: &Vec<i32>, lo: usize, hi: usize) -> (r: Vec<i32>)
    requires
        lo <= hi <= arr@.len(),
    ensures
        r@ == arr@.subrange(lo as int, hi as int),
{
    let mut r: Vec<i32> = Vec::new();
    let mut k: usize = lo;
    while k < hi
        invariant
            lo <= k <= hi <= arr@.len(),
            r@ == arr@.subrange(lo as int, k as int),
        decreases hi - k,
    {
        r.push(arr[k]);
        k += 1;
        assert(r@ =~= arr@.subrange(lo as int, k as int));
    }
    r
}

/// Merges the adjacent sorted runs `lo..mid` and `mid..hi` of `arr` in place,
/// reading from copies of the two runs; among equal elements those of the
/// left run come first.
pub fn merge_range(arr: &mut Vec<i32>, lo: usize, mid: usize, hi: usize)
    requires
        lo <= mid <= hi <= old(arr)@.len(),
        sorted_on(old(arr)@, lo as int, mid as int),
        sorted_on(old(arr)@, mid as int, hi as int),
    ensures
        final(arr)@.len() == old(arr)@.len(),
        forall|k: int| 0 <= k < lo || hi <= k < old(arr)@.len() ==> #[trigger] final(arr)@[k] == old(arr)@[k],
        sorted_on(final(arr)@, lo as int, hi as int),
        exists|q: Seq<int>| moved_stably(final(arr)@, old(arr)@, q, lo as int, hi as int),
{
    let ghost a = arr@;
    let left = copy_range(arr, lo, mid);
    let right = copy_range(arr, mid, hi);
    let ghost mut q: Seq<int> = Seq::empty();
    let mut i: usize = lo;
    let mut left_idx: usize = 0;
    let mut right_idx: usize = 0;
    while left_idx < left.len() && right_idx < right.len()
        invariant
            left@ == a.subrange(lo as int, mid as int),
            right@ == a.subrange(mid as int, hi as int),
            merge_inv(a, arr@, q, lo as int, mid as int, hi as int, lo + left_idx, mid + right_idx, lo as int),
            arr@.len() == a.len(),
            forall|k: int| 0 <= k < lo || hi <= k < a.len() ==> #[trigger] arr@[k] == a[k],
            i == lo + left_idx + right_idx,
            sorted_on(a, lo as int, mid as int),
            sorted_on(a, mid as int, hi as int),
        decreases hi - i,
    {
        if left[left_idx] <= right[right_idx] {
            proof { lemma_take_left(a, arr@, q, lo as int, mid as int, hi as int, lo + left_idx, mid + right_idx, lo as int); q = q.push(left_idx as int); }
            arr.set(i, left[left_idx]);
            left_idx += 1;
        } else {
            proof { lemma_take_right(a, arr@, q, lo as int, mid as int, hi as int, lo + left_idx, mid + right_idx, lo as int); q = q.push(mid - lo + right_idx); }
            arr.set(i, right[right_idx]);
            right_idx += 1;
        }
        i += 1;
    }
    while left_idx < left.len()
        invariant
            left@ == a.subrange(lo as int, mid as int),
            right@ == a.subrange(mid as int, hi as int),
            merge_inv(a, arr@, q, lo as int, mid as int, hi as int, lo + left_idx, mid + right_idx, lo as int),
            arr@.len() == a.len(),
            forall|k: int| 0 <= k < lo || hi <= k < a.len() ==> #[trigger] arr@[k] == a[k],
            i == lo + left_idx + right_idx,
            left_idx < left.len() ==> right_idx == right.len(),
            sorted_on(a, lo as int, mid as int),
            sorted_on(a, mid as int, hi as int),
        decreases mid - lo - left_idx,
    {
        proof { lemma_take_left(a, arr@, q, lo as int, mid as int, hi as int, lo + left_idx, mid + right_idx, lo as int); q = q.push(left_idx as int); }
        arr.set(i, left[left_idx]);
        left_idx += 1;
        i += 1;
    }
    while right_idx < right.len()
        invariant
            left@ == a.subrange(lo as int, mid as int),
            right@ == a.subrange(mid as int, hi as int),
            merge_inv(a, arr@, q, lo as int, mid as int, hi as int, lo + left_idx, mid + right_idx, lo as int),
            arr@.len() == a.len(),
            forall|k: int| 0 <= k < lo || hi <= k < a.len() ==> #[trigger] arr@[k] == a[k],
            i == lo + left_idx + right_idx,
            left_idx == left.len(),
            sorted_on(a, lo as int, mid as int),
            sorted_on(a, mid as int, hi as int),
        decreases hi - mid - right_idx,
    {
        proof { lemma_take_right(a, arr@, q, lo as int, mid as int, hi as int, lo + left_idx, mid + right_idx, lo as int); q = q.push(mid - lo + right_idx); }
        arr.set(i, right[right_idx]);
        right_idx += 1;
        i += 1;
    }
    proof {
        assert(moved_stably(arr@, a, q, lo as int, hi as int));
    }
}

/// Merges the sorted runs `..mid` and `mid..` of `arr` in place, stably.
pub fn merge(arr: &mut Vec<i32>, mid: usize)
    requires
        mid <= old(arr)@.len(),
        sorted_on(old(arr)@, 0, mid as int),
        sorted_on(old(arr)@, mid as int, old(arr)@.len() as int),
    ensures
        sorted(final(arr)@),
        exists|q: Seq<int>| stable_perm(final(arr)@, old(arr)@, q),
{
    let n = arr.len();
    merge_range(arr, 0, mid, n);
    proof {
        let q = choose|q: Seq<int>| moved_stably(arr@, old(arr)@, q, 0, n as int);
        assert(stable_perm(arr@, old(arr)@, q));
    }
}

/// Sorts positions `lo..hi` of `arr` in place, stably, by recursive halving
/// and merging.
pub fn merge_sort_range(arr: &mut Vec<i32>, lo: usize, hi: usize)
    requires
        lo <= hi <= old(arr)@.len(),
    ensures
        final(arr)@.len() == old(arr)@.len(),
        forall|k: int| 0 <= k < lo || hi <= k < old(arr)@.len() ==> #[trigger] final(arr)@[k] == old(arr)@[k],
        sorted_on(final(arr)@, lo as int, hi as int),
        exists|q: Seq<int>| moved_stably(final(arr)@, old(arr)@, q, lo as int, hi as int),
    decreases hi - lo,
{
    let ghost orig = arr@;
    let ghost p0: Seq<int> = Seq::new(orig.len(), |k: int| k);
    if hi - lo <= 1 {
        proof {
            let q = Seq::new((hi - lo) as nat, |k: int| k);
            assert(moved_stably(arr@, orig, q, lo as int, hi as int));
        }
        return;
    }
    let mid = lo + (hi - lo) / 2;
    merge_sort_range(arr, lo, mid);
    let ghost a1 = arr@;
    let ghost p1 = {
        let q = choose|q: Seq<int>| moved_stably(a1, orig, q, lo as int, mid as int);
        apply_local(p0, q, lo as int)
    };
    proof {
        let q = choose|q: Seq<int>| moved_stably(a1, orig, q, lo as int, mid as int);
        assert(stable_on(orig, p0, lo as int, mid as int));
        assert(maps_into(p0, lo as int, mid as int));
        lemma_apply_local(orig, orig, p0, a1, q, lo as int, mid as int);
    }
    merge_sort_range(arr, mid, hi);
    let ghost a2 = arr@;
    let ghost p2 = {
        let q = choose|q: Seq<int>| moved_stably(a2, a1, q, mid as int, hi as int);
        apply_local(p1, q, mid as int)
    };
    proof {
        let q = choose|q: Seq<int>| moved_stably(a2, a1, q, mid as int, hi as int);
        assert(stable_on(a1, p1, mid as int, hi as int));
        assert(maps_into(p1, mid as int, hi as int));
        lemma_apply_local(orig, a1, p1, a2, q, mid as int, hi as int);
        assert(seg_ok(a2, p2, lo as int, mid as int));
        assert(seg_ok(a2, p2, mid as int, hi as int));
        lemma_join_stable(a2, p2, lo as int, mid as int, hi as int);
    }
    merge_range(arr, lo, mid, hi);
    proof {
        let q = choose|q: Seq<int>| moved_stably(arr@, a2, q, lo as int, hi as int);
        lemma_apply_local(orig, a2, p2, arr@, q, lo as int, hi as int);
        lemma_local_from_global(orig, arr@, apply_local(p2, q, lo as int), lo as int, hi as int);
    }
}

/// Sorts `arr` in place, stably, by recursive halving and merging.
pub fn merge_sort(arr: &mut Vec<i32>)
    ensures
        sorted(final(arr)@),
        exists|q: Seq<int>| stable_perm(final(arr)@, old(arr)@, q),
        final(arr)@.to_multiset() == old(arr)@.to_multiset(),
{
    let n = arr.len();
    merge_sort_range(arr, 0, n);
    proof {
        let q = choose|q: Seq<int>| moved_stably(arr@, old(arr)@, q, 0, n as int);
        assert(stable_perm(arr@, old(arr)@, q));
        lemma_stable_perm_multiset(arr@, old(arr)@, q);
    }
}

} // verus!
