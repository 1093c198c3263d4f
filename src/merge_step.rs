use vstd::prelude::*;
use crate::perm::moved_stably;
use crate::sorted::sorted_on;

verus! {

/// What holds while the runs `lo..mid` and `mid..hi` of `a` are merged into
/// `b`: the first `li - lo` elements of the left run and the first `ri - mid`
/// of the right run fill `b` from `bo` on, in order, each position `bo + k`
/// taken from `lo + q[k]`, with left-run elements first among equals.
pub open spec fn merge_inv(a: Seq<i32>, b: Seq<i32>, q: Seq<int>, lo: int, mid: int, hi: int, li: int, ri: int, bo: int) -> bool {
    let t = (li - lo) + (ri - mid);
    &&& 0 <= lo <= li <= mid <= ri <= hi <= a.len()
    &&& 0 <= bo && bo + (hi - lo) <= b.len()
    &&& q.len() == t
    &&& forall|k: int| 0 <= k < t ==> ((0 <= #[trigger] q[k] < li - lo) || (mid - lo <= q[k] < ri - lo))
        && b[bo + k] == a[lo + q[k]]
    &&& forall|k: int, l: int| 0 <= k < l < t ==> #[trigger] q[k] != #[trigger] q[l] && (b[bo + k] == b[bo + l] ==> q[k] < q[l])
    &&& sorted_on(b, bo, bo + t)
    &&& forall|m: int| bo <= m < bo + t ==> (li < mid ==> #[trigger] b[m] <= a[li]) && (ri < hi ==> b[m] <= a[ri])
    &&& forall|k: int| 0 <= k < t && #[trigger] q[k] >= mid - lo && li < mid ==> b[bo + k] < a[li]
}

pub proof fn lemma_take_left(a: Seq<i32>, b: Seq<i32>, q: Seq<int>, lo: int, mid: int, hi: int, li: int, ri: int, bo: int)
    requires
        merge_inv(a, b, q, lo, mid, hi, li, ri, bo),
        sorted_on(a, lo, mid),
        sorted_on(a, mid, hi),
        li < mid,
        ri < hi ==> a[li] <= a[ri],
    ensures
        merge_inv(a, b.update(bo + (li - lo) + (ri - mid), a[li]), q.push(li - lo), lo, mid, hi, li + 1, ri, bo),
{
    let t = (li - lo) + (ri - mid);
    let b2 = b.update(bo + t, a[li]);
    let q2 = q.push(li - lo);
    assert forall|k: int| 0 <= k < t + 1 implies ((0 <= #[trigger] q2[k] < li + 1 - lo) || (mid - lo <= q2[k] < ri - lo))
        && b2[bo + k] == a[lo + q2[k]] by {
        if k < t {
            assert(q2[k] == q[k]);
        }
    }
    assert forall|k: int, l: int| 0 <= k < l < t + 1 implies #[trigger] q2[k] != #[trigger] q2[l]
        && (b2[bo + k] == b2[bo + l] ==> q2[k] < q2[l]) by {
        assert(q2[k] == q[k]);
        if l < t {
            assert(q2[l] == q[l]);
        } else {
            if q[k] >= mid - lo {
                assert(b[bo + k] < a[li]);
            }
        }
    }
    assert forall|m: int| bo <= m < bo + t + 1 implies (li + 1 < mid ==> #[trigger] b2[m] <= a[li + 1]) && (ri < hi ==> b2[m] <= a[ri]) by {
        let k = m - bo;
        if k < t {
            if li + 1 < mid {
                assert(a[li] <= a[li + 1]);
            }
        } else {
            if li + 1 < mid {
                assert(a[li] <= a[li + 1]);
            }
        }
    }
    assert forall|k: int| 0 <= k < t + 1 && #[trigger] q2[k] >= mid - lo && li + 1 < mid implies b2[bo + k] < a[li + 1] by {
        assert(a[li] <= a[li + 1]);
        if k < t {
            assert(q2[k] == q[k]);
        }
    }
    assert(sorted_on(b2, bo, bo + t + 1));
}

pub proof fn lemma_take_right(a: Seq<i32>, b: Seq<i32>, q: Seq<int>, lo: int, mid: int, hi: int, li: int, ri: int, bo: int)
    requires
        merge_inv(a, b, q, lo, mid, hi, li, ri, bo),
        sorted_on(a, lo, mid),
        sorted_on(a, mid, hi),
        ri < hi,
        li < mid ==> a[ri] < a[li],
    ensures
        merge_inv(a, b.update(bo + (li - lo) + (ri - mid), a[ri]), q.push(ri - lo), lo, mid, hi, li, ri + 1, bo),
{
    let t = (li - lo) + (ri - mid);
    let b2 = b.update(bo + t, a[ri]);
    let q2 = q.push(ri - lo);
    assert forall|k: int| 0 <= k < t + 1 implies ((0 <= #[trigger] q2[k] < li - lo) || (mid - lo <= q2[k] < ri + 1 - lo))
        && b2[bo + k] == a[lo + q2[k]] by {
        if k < t {
            assert(q2[k] == q[k]);
            assert(b2[bo + k] == b[bo + k]);
        } else {
            assert(q2[k] == ri - lo);
            assert(b2[bo + k] == a[ri]);
        }
    }
    assert forall|k: int, l: int| 0 <= k < l < t + 1 implies #[trigger] q2[k] != #[trigger] q2[l]
        && (b2[bo + k] == b2[bo + l] ==> q2[k] < q2[l]) by {
        assert(q2[k] == q[k]);
        if l < t {
            assert(q2[l] == q[l]);
        }
    }
    assert forall|m: int| bo <= m < bo + t + 1 implies (li < mid ==> #[trigger] b2[m] <= a[li]) && (ri + 1 < hi ==> b2[m] <= a[ri + 1]) by {
        let k = m - bo;
        if ri + 1 < hi {
            assert(a[ri] <= a[ri + 1]);
        }
        if k < t {
            assert(b2[bo + k] == b[bo + k]);
        } else {
            assert(b2[bo + k] == a[ri]);
        }
    }
    assert forall|k: int| 0 <= k < t + 1 && #[trigger] q2[k] >= mid - lo && li < mid implies b2[bo + k] < a[li] by {
        if k < t {
            assert(q2[k] == q[k]);
        }
    }
    assert(sorted_on(b2, bo, bo + t + 1));
}

/// Merges the adjacent sorted runs `lo..mid` and `mid..hi` of `arr` into one
/// sorted run in place. The merged run is written to positions `lo..hi` of the
/// scratch buffer `buf`, then copied back; among equal elements those of the
/// left run come first. Positions of `buf` outside `lo..hi` are not touched.
pub fn stable_merge_with_buf(arr: &mut Vec<i32>, lo: usize, mid: usize, hi: usize, buf: &mut Vec<i32>)
    requires
        lo <= mid <= hi <= old(arr)@.len(),
        hi <= old(buf)@.len(),
        sorted_on(old(arr)@, lo as int, mid as int),
        sorted_on(old(arr)@, mid as int, hi as int),
    ensures
        final(arr)@.len() == old(arr)@.len(),
        final(buf)@.len() == old(buf)@.len(),
        forall|k: int| 0 <= k < lo || hi <= k < old(buf)@.len() ==> #[trigger] final(buf)@[k] == old(buf)@[k],
        forall|k: int| 0 <= k < lo || hi <= k < old(arr)@.len() ==> #[trigger] final(arr)@[k] == old(arr)@[k],
        sorted_on(final(arr)@, lo as int, hi as int),
        exists|q: Seq<int>| moved_stably(final(arr)@, old(arr)@, q, lo as int, hi as int),
{
    let ghost a = arr@;
    let ghost mut q: Seq<int> = Seq::empty();
    let mut left_index: usize = lo;
    let mut right_index: usize = mid;
    let mut buf_idx: usize = lo;
    while left_index < mid && right_index < hi
        invariant
            arr@ == a,
            merge_inv(a, buf@, q, lo as int, mid as int, hi as int, left_index as int, right_index as int, lo as int),
            buf_idx == lo + (left_index - lo) + (right_index - mid),
            buf@.len() == old(buf)@.len(),
            forall|k: int| 0 <= k < lo || hi <= k < buf@.len() ==> #[trigger] buf@[k] == old(buf)@[k],
            sorted_on(a, lo as int, mid as int),
            sorted_on(a, mid as int, hi as int),
        decreases hi - buf_idx,
    {
        if arr[left_index] <= arr[right_index] {
            proof { lemma_take_left(a, buf@, q, lo as int, mid as int, hi as int, left_index as int, right_index as int, lo as int); q = q.push(left_index - lo); }
            buf.set(buf_idx, arr[left_index]);
            left_index += 1;
        } else {
            proof { lemma_take_right(a, buf@, q, lo as int, mid as int, hi as int, left_index as int, right_index as int, lo as int); q = q.push(right_index - lo); }
            buf.set(buf_idx, arr[right_index]);
            right_index += 1;
        }
        buf_idx += 1;
    }
    // The rest of the left run.
    while left_index < mid
        invariant
            arr@ == a,
            merge_inv(a, buf@, q, lo as int, mid as int, hi as int, left_index as int, right_index as int, lo as int),
            buf_idx == lo + (left_index - lo) + (right_index - mid),
            buf@.len() == old(buf)@.len(),
            forall|k: int| 0 <= k < lo || hi <= k < buf@.len() ==> #[trigger] buf@[k] == old(buf)@[k],
            left_index < mid ==> right_index == hi,
            sorted_on(a, lo as int, mid as int),
            sorted_on(a, mid as int, hi as int),
        decreases mid - left_index,
    {
        proof { lemma_take_left(a, buf@, q, lo as int, mid as int, hi as int, left_index as int, right_index as int, lo as int); q = q.push(left_index - lo); }
        buf.set(buf_idx, arr[left_index]);
        left_index += 1;
        buf_idx += 1;
    }
    // The rest of the right run.
    while right_index < hi
        invariant
            arr@ == a,
            merge_inv(a, buf@, q, lo as int, mid as int, hi as int, left_index as int, right_index as int, lo as int),
            buf_idx == lo + (left_index - lo) + (right_index - mid),
            buf@.len() == old(buf)@.len(),
            forall|k: int| 0 <= k < lo || hi <= k < buf@.len() ==> #[trigger] buf@[k] == old(buf)@[k],
            left_index == mid,
            sorted_on(a, lo as int, mid as int),
            sorted_on(a, mid as int, hi as int),
        decreases hi - right_index,
    {
        proof { lemma_take_right(a, buf@, q, lo as int, mid as int, hi as int, left_index as int, right_index as int, lo as int); q = q.push(right_index - lo); }
        buf.set(buf_idx, arr[right_index]);
        right_index += 1;
        buf_idx += 1;
    }
    // Copy the merged run back.
    let ghost b = buf@;
    let mut k: usize = lo;
    while k < hi
        invariant
            lo <= k <= hi <= a.len(),
            buf@ == b,
            hi <= b.len(),
            forall|m: int| 0 <= m < lo || hi <= m < b.len() ==> #[trigger] b[m] == old(buf)@[m],
            arr@.len() == a.len(),
            forall|m: int| 0 <= m < lo || k <= m < a.len() ==> #[trigger] arr@[m] == a[m],
            forall|m: int| lo <= m < k ==> #[trigger] arr@[m] == b[m],
        decreases hi - k,
    {
        arr.set(k, buf[k]);
        k += 1;
    }
    proof {
        assert forall|m: int| 0 <= m < hi - lo implies 0 <= #[trigger] q[m] < hi - lo && arr@[lo + m] == a[lo + q[m]] by {
            assert(arr@[lo + m] == b[lo + m]);
        }
        assert forall|m: int, l: int| 0 <= m < l < hi - lo implies #[trigger] q[m] != #[trigger] q[l]
            && (arr@[lo + m] == arr@[lo + l] ==> q[m] < q[l]) by {
            assert(arr@[lo + m] == b[lo + m]);
            assert(arr@[lo + l] == b[lo + l]);
        }
        assert forall|m: int, l: int| lo <= m < l < hi implies arr@[m] <= arr@[l] by {
            assert(arr@[m] == b[m]);
            assert(arr@[l] == b[l]);
        }
        assert(moved_stably(arr@, a, q, lo as int, hi as int));
    }
}

} // verus!
