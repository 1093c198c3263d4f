use vstd::prelude::*;
use crate::insertion::binary_insertion_sort_range;
use crate::laws::lemma_sorted_unique;
use crate::merge_step::stable_merge_with_buf;
use crate::perm::{
    apply_local, lemma_apply_local, lemma_stable_perm_multiset, maps_into, moved_stably, perm_map,
    stable_on, stable_perm,
};
use crate::sorted::{sorted, sorted_on};

verus! {

/// `x` clipped to at most `n`.
pub open spec fn clip(x: int, n: int) -> int {
    if x < n { x } else { n }
}

/// Positions `lo..hi` of `a` form a run: sorted, with equal elements in the
/// order `p` gives them, and `p` keeping the run's positions inside it.
pub open spec fn seg_ok(a: Seq<i32>, p: Seq<int>, lo: int, hi: int) -> bool {
    &&& sorted_on(a, lo, hi)
    &&& stable_on(a, p, lo, hi)
    &&& maps_into(p, lo, hi)
}

/// The `c`-th aligned block of width `w`, clipped to `n`, is a run.
pub open spec fn run(a: Seq<i32>, p: Seq<int>, w: int, n: int, c: int) -> bool {
    seg_ok(a, p, clip(c * w, n), clip(c * w + w, n))
}

proof fn lemma_seg_frame(a: Seq<i32>, p: Seq<int>, a2: Seq<i32>, p2: Seq<int>, lo: int, hi: int)
    requires
        seg_ok(a, p, lo, hi),
        forall|k: int| lo <= k < hi ==> a2[k] == a[k] && p2[k] == p[k],
    ensures
        seg_ok(a2, p2, lo, hi),
{
    assert forall|k: int, l: int| lo <= k < l < hi && a2[k] == a2[l] implies #[trigger] p2[k] < #[trigger] p2[l] by {
        assert(p[k] < p[l]);
    }
    assert forall|k: int| lo <= k < hi implies lo <= #[trigger] p2[k] < hi by {
        assert(lo <= p[k] < hi);
    }
}

proof fn lemma_seg_empty(a: Seq<i32>, p: Seq<int>, lo: int, hi: int)
    requires
        lo >= hi,
    ensures
        seg_ok(a, p, lo, hi),
{
}

pub proof fn lemma_join_stable(a: Seq<i32>, p: Seq<int>, lo: int, mid: int, hi: int)
    requires
        lo <= mid <= hi,
        seg_ok(a, p, lo, mid),
        seg_ok(a, p, mid, hi),
    ensures
        stable_on(a, p, lo, hi),
        maps_into(p, lo, hi),
{
    assert forall|k: int, l: int| lo <= k < l < hi && a[k] == a[l] implies #[trigger] p[k] < #[trigger] p[l] by {
        if l < mid {
        } else if k >= mid {
        } else {
            assert(lo <= p[k] < mid);
            assert(mid <= p[l] < hi);
        }
    }
    assert forall|k: int| lo <= k < hi implies lo <= #[trigger] p[k] < hi by {
        if k < mid {
            assert(lo <= p[k] < mid);
        } else {
            assert(mid <= p[k] < hi);
        }
    }
}

proof fn lemma_mul_le(c: int, d: int, w: int)
    requires
        c <= d,
        0 <= w,
    ensures
        c * w <= d * w,
{
    assert(c * w <= d * w) by (nonlinear_arith)
        requires
            c <= d,
            0 <= w,
    ;
}

proof fn lemma_mul_succ(c: int, w: int)
    ensures
        c * w + w == (c + 1) * w,
        (2 * c) * w == c * (2 * w),
        (2 * c + 1) * w == c * (2 * w) + w,
        (2 * c + 2) * w == c * (2 * w) + 2 * w,
{
    assert(c * w + w == (c + 1) * w) by (nonlinear_arith);
    assert((2 * c) * w == c * (2 * w)) by (nonlinear_arith);
    assert((2 * c + 1) * w == c * (2 * w) + w) by (nonlinear_arith);
    assert((2 * c + 2) * w == c * (2 * w) + 2 * w) by (nonlinear_arith);
}

/// Sorts `arr` in place, stably: blocks of `threshold` elements are first
/// sorted by binary insertion, then adjacent runs are merged bottom-up, the
/// run width doubling each pass, through one scratch buffer allocated once.
pub fn hybrid_bottom_up_merge_sort(arr: &mut Vec<i32>, threshold: usize)
    requires
        threshold >= 1,
    ensures
        sorted(final(arr)@),
        exists|q: Seq<int>| stable_perm(final(arr)@, old(arr)@, q),
        final(arr)@.to_multiset() == old(arr)@.to_multiset(),
        sorted(old(arr)@) ==> final(arr)@ == old(arr)@,
{
    let ghost orig = arr@;
    let n = arr.len();
    let ghost mut p: Seq<int> = Seq::new(n as nat, |k: int| k);
    if n <= 1 {
        proof {
            assert(moved_stably(arr@, orig, p, 0, n as int));
            assert(stable_perm(arr@, orig, p));
            lemma_stable_perm_multiset(arr@, orig, p);
            assert(arr@ == orig);
        }
        return;
    }
    // Sort each block of `threshold` elements on its own.
    let mut start: usize = 0;
    let ghost mut c0: int = 0;
    while start < n
        invariant
            n == arr@.len() == orig.len(),
            threshold >= 1,
            perm_map(arr@, orig, p),
            0 <= c0,
            start == clip(c0 * threshold, n as int),
            forall|c: int| 0 <= c < c0 ==> #[trigger] run(arr@, p, threshold as int, n as int, c),
            forall|k: int| start <= k < n ==> #[trigger] p[k] == k,
        decreases n - start,
    {
        let end: usize = if threshold < n - start { start + threshold } else { n };
        let ghost a = arr@;
        binary_insertion_sort_range(arr, start, end);
        proof {
            let t = threshold as int;
            let q = choose|q: Seq<int>| moved_stably(arr@, a, q, start as int, end as int);
            assert(stable_on(a, p, start as int, end as int));
            assert(maps_into(p, start as int, end as int));
            lemma_apply_local(orig, a, p, arr@, q, start as int, end as int);
            let p2 = apply_local(p, q, start as int);
            lemma_mul_succ(c0, t);
            assert forall|c: int| 0 <= c < c0 + 1 implies #[trigger] run(arr@, p2, t, n as int, c) by {
                if c < c0 {
                    lemma_mul_le(c + 1, c0, t);
                    lemma_mul_succ(c, t);
                    assert(run(a, p, t, n as int, c));
                    lemma_seg_frame(a, p, arr@, p2, clip(c * t, n as int), clip(c * t + t, n as int));
                }
            }
            p = p2;
            c0 = c0 + 1;
        }
        start = end;
    }
    proof {
        let t = threshold as int;
        assert forall|c: int| 0 <= c implies #[trigger] run(arr@, p, t, n as int, c) by {
            if c >= c0 {
                lemma_mul_le(c0, c, t);
            }
        }
    }
    let mut buf: Vec<i32> = vec![0; n];
    // Merge adjacent runs, doubling their width each pass.
    let mut width: usize = threshold;
    while width < n
        invariant
            n == arr@.len() == orig.len() == buf@.len(),
            n > 1,
            width >= 1,
            perm_map(arr@, orig, p),
            forall|c: int| 0 <= c ==> #[trigger] run(arr@, p, width as int, n as int, c),
        decreases n - width,
    {
        let mut i: usize = 0;
        let ghost mut c0: int = 0;
        while i < n
            invariant
                n == arr@.len() == orig.len() == buf@.len(),
                1 <= width < n,
                perm_map(arr@, orig, p),
                0 <= c0,
                i == clip(c0 * (2 * width), n as int),
                forall|c: int| 0 <= c < c0 ==> #[trigger] run(arr@, p, 2 * width as int, n as int, c),
                forall|c: int| 2 * c0 <= c ==> #[trigger] run(arr@, p, width as int, n as int, c),
            decreases n - i,
        {
            let mid: usize = if width < n - i { i + width } else { n };
            let right: usize = if mid < n && width < n - mid { mid + width } else { n };
            let ghost a = arr@;
            let ghost old_p = p;
            proof {
                let w = width as int;
                lemma_mul_succ(c0, w);
                assert(run(a, p, w, n as int, 2 * c0));
                assert(run(a, p, w, n as int, 2 * c0 + 1));
                assert(seg_ok(a, p, i as int, mid as int));
                assert(seg_ok(a, p, mid as int, right as int));
            }
            if mid < right {
                stable_merge_with_buf(arr, i, mid, right, &mut buf);
                proof {
                    let q = choose|q: Seq<int>| moved_stably(arr@, a, q, i as int, right as int);
                    lemma_join_stable(a, p, i as int, mid as int, right as int);
                    lemma_apply_local(orig, a, p, arr@, q, i as int, right as int);
                    p = apply_local(p, q, i as int);
                }
            }
            proof {
                let w = width as int;
                let w2 = 2 * width as int;
                assert(seg_ok(arr@, p, i as int, right as int));
                assert(run(arr@, p, w2, n as int, c0));
                assert forall|c: int| 0 <= c < c0 + 1 implies #[trigger] run(arr@, p, w2, n as int, c) by {
                    if c < c0 {
                        lemma_mul_le(c + 1, c0, w2);
                        lemma_mul_succ(c, w2);
                        assert(run(a, old_p, w2, n as int, c));
                        lemma_seg_frame(a, old_p, arr@, p, clip(c * w2, n as int), clip(c * w2 + w2, n as int));
                    }
                }
                assert forall|c: int| 2 * (c0 + 1) <= c implies #[trigger] run(arr@, p, w, n as int, c) by {
                    lemma_mul_le(2 * c0 + 2, c, w);
                    assert(run(a, old_p, w, n as int, c));
                    lemma_seg_frame(a, old_p, arr@, p, clip(c * w, n as int), clip(c * w + w, n as int));
                }
                lemma_mul_succ(c0, w2);
                assert(right == clip((c0 + 1) * w2, n as int));
                c0 = c0 + 1;
            }
            i = right;
        }
        proof {
            let w2 = 2 * width as int;
            assert forall|c: int| 0 <= c implies #[trigger] run(arr@, p, w2, n as int, c) by {
                if c >= c0 {
                    lemma_mul_le(c0, c, w2);
                }
            }
        }
        if width > n - width {
            proof {
                let w2 = 2 * width as int;
                assert(run(arr@, p, w2, n as int, 0));
                assert forall|c: int| 0 <= c implies #[trigger] run(arr@, p, n as int, n as int, c) by {
                    if c >= 1 {
                        lemma_mul_le(1, c, n as int);
                        lemma_seg_empty(arr@, p, clip(c * n, n as int), clip(c * n + n, n as int));
                    } else {
                        assert(c * n == 0);
                        assert(0 * w2 == 0);
                    }
                }
            }
            width = n;
        } else {
            width = width * 2;
        }
    }
    proof {
        assert(run(arr@, p, width as int, n as int, 0));
        assert(seg_ok(arr@, p, 0, n as int));
        assert(moved_stably(arr@, orig, p, 0, n as int));
        assert(stable_perm(arr@, orig, p));
        lemma_stable_perm_multiset(arr@, orig, p);
        if sorted(orig) {
            lemma_sorted_unique(arr@, orig);
        }
    }
}

} // verus!
