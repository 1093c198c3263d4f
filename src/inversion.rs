use vstd::prelude::*;
use crate::merge_step::{lemma_take_left, lemma_take_right, merge_inv};
use crate::perm::{lemma_perm_map_multiset, perm_map};
use crate::sorted::sorted_on;

verus! {

/// The sum of `f` over the elements of `s`.
pub open spec fn sum_f(s: Seq<i32>, f: spec_fn(i32) -> int) -> int
    decreases s.len(),
{
    if s.len() == 0 {
        0
    } else {
        sum_f(s.drop_last(), f) + f(s.last())
    }
}

/// One for an element less than `v`, else zero.
pub open spec fn lt_ind(v: i32) -> spec_fn(i32) -> int {
    |e: i32| if e < v { 1int } else { 0int }
}

/// One for an element greater than `v`, else zero.
pub open spec fn gt_ind(v: i32) -> spec_fn(i32) -> int {
    |e: i32| if e > v { 1int } else { 0int }
}

/// The number of elements of `t` less than `v`.
pub open spec fn cnt_lt(t: Seq<i32>, v: i32) -> int {
    sum_f(t, lt_ind(v))
}

/// For each `l`, the number of elements of `r` less than `l`.
pub open spec fn cnt_lt_of(r: Seq<i32>) -> spec_fn(i32) -> int {
    |l: i32| cnt_lt(r, l)
}

/// For each `x`, the number of elements of `l` greater than `x`.
pub open spec fn cnt_gt_of(l: Seq<i32>) -> spec_fn(i32) -> int {
    |x: i32| sum_f(l, gt_ind(x))
}

/// The number of pairs of positions `i < j` of `s` with `s[i] > s[j]`.
pub open spec fn inversions(s: Seq<i32>) -> int
    decreases s.len(),
{
    if s.len() == 0 {
        0
    } else {
        cnt_lt(s.drop_first(), s[0]) + inversions(s.drop_first())
    }
}

/// The number of pairs of an element of `l` and a smaller element of `r`.
pub open spec fn cross(l: Seq<i32>, r: Seq<i32>) -> int {
    sum_f(l, cnt_lt_of(r))
}

proof fn lemma_sum_concat(a: Seq<i32>, b: Seq<i32>, f: spec_fn(i32) -> int)
    ensures
        sum_f(a + b, f) == sum_f(a, f) + sum_f(b, f),
    decreases b.len(),
{
    if b.len() == 0 {
        assert(a + b =~= a);
    } else {
        assert((a + b).drop_last() =~= a + b.drop_last());
        lemma_sum_concat(a, b.drop_last(), f);
    }
}

proof fn lemma_sum_first(s: Seq<i32>, f: spec_fn(i32) -> int)
    requires
        s.len() > 0,
    ensures
        sum_f(s, f) == f(s[0]) + sum_f(s.drop_first(), f),
{
    let h = seq![s[0]];
    assert(s =~= h + s.drop_first());
    lemma_sum_concat(h, s.drop_first(), f);
    assert(h.drop_last() =~= Seq::<i32>::empty());
    assert(sum_f(h.drop_last(), f) == 0);
    assert(sum_f(h, f) == f(s[0]));
}

proof fn lemma_sum_remove(s: Seq<i32>, j: int, f: spec_fn(i32) -> int)
    requires
        0 <= j < s.len(),
    ensures
        sum_f(s, f) == f(s[j]) + sum_f(s.remove(j), f),
{
    let a = s.subrange(0, j);
    let b = s.subrange(j, s.len() as int);
    assert(s =~= a + b);
    assert(s.remove(j) =~= a + b.drop_first());
    lemma_sum_concat(a, b, f);
    lemma_sum_concat(a, b.drop_first(), f);
    lemma_sum_first(b, f);
}

proof fn lemma_sum_perm(s: Seq<i32>, t: Seq<i32>, f: spec_fn(i32) -> int)
    requires
        s.to_multiset() == t.to_multiset(),
    ensures
        sum_f(s, f) == sum_f(t, f),
    decreases s.len(),
{
    broadcast use vstd::seq_lib::group_to_multiset_ensures;
    broadcast use vstd::multiset::group_multiset_axioms;

    vstd::seq_lib::to_multiset_len(s);
    vstd::seq_lib::to_multiset_len(t);
    if s.len() == 0 {
        assert(t =~= Seq::<i32>::empty());
    } else {
        let x = s.last();
        assert(s =~= s.drop_last().push(x));
        vstd::seq_lib::to_multiset_build(s.drop_last(), x);
        vstd::seq_lib::to_multiset_contains(t, x);
        assert(t.contains(x));
        let j = choose|j: int| 0 <= j < t.len() && t[j] == x;
        vstd::seq_lib::to_multiset_remove(t, j);
        assert(s.drop_last().to_multiset() =~= t.remove(j).to_multiset());
        lemma_sum_perm(s.drop_last(), t.remove(j), f);
        lemma_sum_remove(t, j, f);
    }
}

proof fn lemma_sum_ext(s: Seq<i32>, f: spec_fn(i32) -> int, g: spec_fn(i32) -> int)
    requires
        forall|k: int| 0 <= k < s.len() ==> f(#[trigger] s[k]) == g(s[k]),
    ensures
        sum_f(s, f) == sum_f(s, g),
    decreases s.len(),
{
    if s.len() > 0 {
        lemma_sum_ext(s.drop_last(), f, g);
        assert(f(s[s.len() - 1]) == g(s[s.len() - 1]));
    }
}

proof fn lemma_sum_bound(s: Seq<i32>, f: spec_fn(i32) -> int, c: int)
    requires
        forall|x: i32| 0 <= #[trigger] f(x) <= c,
    ensures
        0 <= sum_f(s, f) <= s.len() * c,
    decreases s.len(),
{
    if s.len() > 0 {
        lemma_sum_bound(s.drop_last(), f, c);
        assert(f(s.last()) <= c);
        assert((s.len() - 1) * c + c == s.len() * c) by (nonlinear_arith);
    }
}

proof fn lemma_cross_perm(l: Seq<i32>, r: Seq<i32>, l2: Seq<i32>, r2: Seq<i32>)
    requires
        l.to_multiset() == l2.to_multiset(),
        r.to_multiset() == r2.to_multiset(),
    ensures
        cross(l, r) == cross(l2, r2),
{
    lemma_sum_perm(l, l2, cnt_lt_of(r));
    assert forall|k: int| 0 <= k < l2.len() implies cnt_lt_of(r)(#[trigger] l2[k]) == cnt_lt_of(r2)(l2[k]) by {
        lemma_sum_perm(r, r2, lt_ind(l2[k]));
    }
    lemma_sum_ext(l2, cnt_lt_of(r), cnt_lt_of(r2));
}

proof fn lemma_gt_split(r: Seq<i32>, l: Seq<i32>)
    requires
        l.len() > 0,
    ensures
        sum_f(r, cnt_gt_of(l)) == sum_f(r, cnt_gt_of(l.drop_last())) + cnt_lt(r, l.last()),
    decreases r.len(),
{
    if r.len() > 0 {
        lemma_gt_split(r.drop_last(), l);
    }
}

/// Counting, for each element of `r`, the greater elements of `l` gives the
/// same total as counting, for each element of `l`, the smaller ones of `r`.
proof fn lemma_cross_swap(l: Seq<i32>, r: Seq<i32>)
    ensures
        sum_f(r, cnt_gt_of(l)) == cross(l, r),
    decreases l.len(),
{
    if l.len() == 0 {
        lemma_sum_bound(r, cnt_gt_of(l), 0);
    } else {
        lemma_gt_split(r, l);
        lemma_cross_swap(l.drop_last(), r);
    }
}

/// Inversions of a concatenation: those within each part and those across.
pub proof fn lemma_inversions_concat(l: Seq<i32>, r: Seq<i32>)
    ensures
        inversions(l + r) == inversions(l) + inversions(r) + cross(l, r),
    decreases l.len(),
{
    if l.len() == 0 {
        assert(l + r =~= r);
    } else {
        let l1 = l.drop_first();
        assert((l + r).drop_first() =~= l1 + r);
        assert((l + r)[0] == l[0]);
        lemma_sum_concat(l1, r, lt_ind(l[0]));
        lemma_inversions_concat(l1, r);
        lemma_sum_first(l, cnt_lt_of(r));
    }
}

proof fn lemma_cnt_gt_sorted(s: Seq<i32>, v: i32, li: int)
    requires
        0 <= li <= s.len(),
        forall|k: int| 0 <= k < li ==> #[trigger] s[k] <= v,
        forall|k: int| li <= k < s.len() ==> #[trigger] s[k] > v,
    ensures
        sum_f(s, gt_ind(v)) == s.len() - li,
    decreases s.len(),
{
    if s.len() > 0 {
        if li == s.len() {
            lemma_cnt_gt_sorted(s.drop_last(), v, li - 1);
        } else {
            lemma_cnt_gt_sorted(s.drop_last(), v, li);
        }
    }
}

proof fn lemma_inversions_bound(s: Seq<i32>)
    ensures
        0 <= inversions(s) <= s.len() * s.len(),
    decreases s.len(),
{
    if s.len() > 0 {
        lemma_inversions_bound(s.drop_first());
        lemma_sum_bound(s.drop_first(), lt_ind(s[0]), 1);
        let n = s.len() as int;
        assert((n - 1) * 1 + (n - 1) * (n - 1) <= n * n) by (nonlinear_arith)
            requires
                n >= 1,
        ;
    }
}

/// The number of pairs of positions `i < j` of `a` with `a[i] > a[j]`,
/// counted by comparing every pair.
pub fn naive(a: &Vec<i32>) -> (r: i64)
    requires
        a@.len() <= 3_000_000_000,
    ensures
        r == inversions(a@),
{
    let n = a.len();
    let mut count: i64 = 0;
    let mut i: usize = 0;
    assert(a@.subrange(0, n as int) =~= a@);
    while i < n
        invariant
            n == a@.len() <= 3_000_000_000,
            i <= n,
            count + inversions(a@.subrange(i as int, n as int)) == inversions(a@),
            0 <= count,
        decreases n - i,
    {
        let ghost t = a@.subrange(i as int, n as int);
        proof {
            assert(t.drop_first() =~= a@.subrange(i + 1, n as int));
            assert(t[0] == a@[i as int]);
            lemma_inversions_bound(a@);
            lemma_inversions_bound(t);
            assert(n * n <= 9_000_000_000_000_000_000) by (nonlinear_arith)
                requires
                    n <= 3_000_000_000,
            ;
        }
        let mut j: usize = i + 1;
        while j < n
            invariant
                n == a@.len() <= 3_000_000_000,
                i < n,
                i + 1 <= j <= n,
                t == a@.subrange(i as int, n as int),
                t.drop_first() == a@.subrange(i + 1, n as int),
                count + cnt_lt(a@.subrange(j as int, n as int), a@[i as int]) + inversions(a@.subrange(i + 1, n as int))
                    == inversions(a@),
                0 <= count,
                inversions(a@) <= 9_000_000_000_000_000_000,
            decreases n - j,
        {
            proof {
                let u = a@.subrange(j as int, n as int);
                lemma_sum_first(u, lt_ind(a@[i as int]));
                assert(u.drop_first() =~= a@.subrange(j + 1, n as int));
                lemma_sum_bound(a@.subrange(j + 1, n as int), lt_ind(a@[i as int]), 1);
                lemma_inversions_bound(a@.subrange(i + 1, n as int));
            }
            if a[i] > a[j] {
                count += 1;
            }
            j += 1;
        }
        proof {
            assert(a@.subrange(n as int, n as int) =~= Seq::<i32>::empty());
        }
        i += 1;
    }
    proof {
        assert(a@.subrange(n as int, n as int) =~= Seq::<i32>::empty());
    }
    count
}

proof fn lemma_count_bounds(r: Seq<i32>)
    ensures
        forall|x: i32| 0 <= #[trigger] cnt_lt_of(r)(x) <= r.len(),
        forall|x: i32| 0 <= #[trigger] cnt_gt_of(r)(x) <= r.len(),
{
    assert forall|x: i32| 0 <= #[trigger] cnt_lt_of(r)(x) <= r.len() by {
        lemma_sum_bound(r, lt_ind(x), 1);
    }
    assert forall|x: i32| 0 <= #[trigger] cnt_gt_of(r)(x) <= r.len() by {
        lemma_sum_bound(r, gt_ind(x), 1);
    }
}

proof fn lemma_sum_prefix_le(s: Seq<i32>, m: int, f: spec_fn(i32) -> int, c: int)
    requires
        0 <= m <= s.len(),
        forall|x: i32| 0 <= #[trigger] f(x) <= c,
    ensures
        0 <= sum_f(s.subrange(0, m), f) <= sum_f(s, f),
{
    assert(s =~= s.subrange(0, m) + s.subrange(m, s.len() as int));
    lemma_sum_concat(s.subrange(0, m), s.subrange(m, s.len() as int), f);
    lemma_sum_bound(s.subrange(0, m), f, c);
    lemma_sum_bound(s.subrange(m, s.len() as int), f, c);
}

proof fn lemma_inversions_short(s: Seq<i32>)
    requires
        s.len() <= 1,
    ensures
        inversions(s) == 0,
{
    if s.len() == 1 {
        assert(s.drop_first() =~= Seq::<i32>::empty());
        assert(sum_f(s.drop_first(), lt_ind(s[0])) == 0);
        assert(inversions(s.drop_first()) == 0);
    }
}

/// The inversions of positions `lo..hi` of `arr`, counted while sorting that
/// range by recursive halving and merging through a vector of its length.
pub fn count_inversion_range(arr: &mut Vec<i32>, lo: usize, hi: usize) -> (r: i64)
    requires
        lo <= hi <= old(arr)@.len(),
        hi - lo <= 3_000_000_000,
    ensures
        final(arr)@.len() == old(arr)@.len(),
        forall|k: int| 0 <= k < lo || hi <= k < old(arr)@.len() ==> #[trigger] final(arr)@[k] == old(arr)@[k],
        sorted_on(final(arr)@, lo as int, hi as int),
        final(arr)@.subrange(lo as int, hi as int).to_multiset() == old(arr)@.subrange(lo as int, hi as int).to_multiset(),
        r == inversions(old(arr)@.subrange(lo as int, hi as int)),
    decreases hi - lo,
{
    let ghost orig = arr@;
    if hi - lo <= 1 {
        proof {
            lemma_inversions_short(orig.subrange(lo as int, hi as int));
        }
        return 0;
    }
    let len = hi - lo;
    let mut result: Vec<i32> = vec![0; len];
    let mut result_index: usize = 0;
    let mut count: i64 = 0;
    let mid = lo + len / 2;
    let ghost l0 = orig.subrange(lo as int, mid as int);
    let ghost r0 = orig.subrange(mid as int, hi as int);
    proof {
        assert(orig.subrange(lo as int, hi as int) =~= l0 + r0);
        lemma_inversions_concat(l0, r0);
        lemma_inversions_bound(orig.subrange(lo as int, hi as int));
        lemma_inversions_bound(l0);
        lemma_inversions_bound(r0);
        lemma_count_bounds(r0);
        lemma_sum_bound(l0, cnt_lt_of(r0), r0.len() as int);
        assert(len * len <= 9_000_000_000_000_000_000) by (nonlinear_arith)
            requires
                len <= 3_000_000_000,
        ;
    }
    let c1 = count_inversion_range(arr, lo, mid);
    let ghost a1 = arr@;
    proof {
        assert(a1.subrange(mid as int, hi as int) =~= r0);
    }
    let c2 = count_inversion_range(arr, mid, hi);
    count += c1;
    count += c2;
    let ghost a = arr@;
    let ghost l = a.subrange(lo as int, mid as int);
    let ghost r = a.subrange(mid as int, hi as int);
    let ghost total = inversions(orig.subrange(lo as int, hi as int));
    proof {
        assert(l =~= a1.subrange(lo as int, mid as int));
        lemma_cross_swap(l, r);
        lemma_cross_perm(l, r, l0, r0);
        lemma_count_bounds(l);
        assert(r.subrange(0, 0) =~= Seq::<i32>::empty());
    }
    let ghost mut q: Seq<int> = Seq::empty();
    let mut left_index: usize = lo;
    let mut right_index: usize = mid;
    while left_index < mid && right_index < hi
        invariant
            arr@ == a,
            l == a.subrange(lo as int, mid as int),
            r == a.subrange(mid as int, hi as int),
            merge_inv(a, result@, q, lo as int, mid as int, hi as int, left_index as int, right_index as int, 0),
            result_index == (left_index - lo) + (right_index - mid),
            result@.len() == len,
            len == hi - lo <= 3_000_000_000,
            sorted_on(a, lo as int, mid as int),
            sorted_on(a, mid as int, hi as int),
            right_index < hi ==> forall|k: int| lo <= k < left_index ==> #[trigger] a[k] <= a[right_index as int],
            count == inversions(l0) + inversions(r0) + sum_f(r.subrange(0, right_index - mid), cnt_gt_of(l)),
            forall|x: i32| 0 <= #[trigger] cnt_gt_of(l)(x) <= l.len(),
            inversions(l0) + inversions(r0) + sum_f(r, cnt_gt_of(l)) == total,
            0 <= inversions(l0) && 0 <= inversions(r0) && total <= 9_000_000_000_000_000_000,
        decreases hi - result_index,
    {
        if arr[left_index] <= arr[right_index] {
            proof { lemma_take_left(a, result@, q, lo as int, mid as int, hi as int, left_index as int, right_index as int, 0); q = q.push(left_index - lo); }
            result.set(result_index, arr[left_index]);
            left_index += 1;
        } else {
            proof {
                lemma_take_right(a, result@, q, lo as int, mid as int, hi as int, left_index as int, right_index as int, 0);
                q = q.push(right_index - lo);
                let v = a[right_index as int];
                assert forall|k: int| left_index - lo <= k < l.len() implies #[trigger] l[k] > v by {
                    assert(a[left_index as int] <= a[lo + k]);
                }
                assert forall|k: int| 0 <= k < left_index - lo implies #[trigger] l[k] <= v by {
                    assert(a[lo + k] <= v);
                }
                lemma_cnt_gt_sorted(l, v, left_index - lo);
                let rp = r.subrange(0, right_index - mid + 1);
                assert(rp.drop_last() =~= r.subrange(0, right_index - mid));
                assert(rp.last() == v);
                assert(cnt_gt_of(l)(v) == mid - left_index);
                assert(sum_f(rp, cnt_gt_of(l)) == sum_f(r.subrange(0, right_index - mid), cnt_gt_of(l)) + (mid - left_index));
                lemma_sum_prefix_le(r, right_index - mid + 1, cnt_gt_of(l), l.len() as int);
                assert(count + (mid - left_index) <= total);
            }
            result.set(result_index, arr[right_index]);
            assert(mid - left_index <= len);
            count += (mid - left_index) as i64;
            right_index += 1;
            proof {
                if right_index < hi {
                    assert(a[right_index - 1] <= a[right_index as int]);
                }
            }
        }
        result_index += 1;
    }
    while left_index < mid
        invariant
            arr@ == a,
            l == a.subrange(lo as int, mid as int),
            r == a.subrange(mid as int, hi as int),
            merge_inv(a, result@, q, lo as int, mid as int, hi as int, left_index as int, right_index as int, 0),
            result_index == (left_index - lo) + (right_index - mid),
            result@.len() == len,
            left_index < mid ==> right_index == hi,
            sorted_on(a, lo as int, mid as int),
            sorted_on(a, mid as int, hi as int),
            count == inversions(l0) + inversions(r0) + sum_f(r.subrange(0, right_index - mid), cnt_gt_of(l)),
        decreases mid - left_index,
    {
        proof { lemma_take_left(a, result@, q, lo as int, mid as int, hi as int, left_index as int, right_index as int, 0); q = q.push(left_index - lo); }
        result.set(result_index, arr[left_index]);
        left_index += 1;
        result_index += 1;
    }
    while right_index < hi
        invariant
            arr@ == a,
            l == a.subrange(lo as int, mid as int),
            r == a.subrange(mid as int, hi as int),
            merge_inv(a, result@, q, lo as int, mid as int, hi as int, left_index as int, right_index as int, 0),
            result_index == (left_index - lo) + (right_index - mid),
            result@.len() == len,
            left_index == mid,
            sorted_on(a, lo as int, mid as int),
            sorted_on(a, mid as int, hi as int),
            right_index < hi ==> forall|k: int| lo <= k < left_index ==> #[trigger] a[k] <= a[right_index as int],
            count == inversions(l0) + inversions(r0) + sum_f(r.subrange(0, right_index - mid), cnt_gt_of(l)),
        decreases hi - right_index,
    {
        proof {
            lemma_take_right(a, result@, q, lo as int, mid as int, hi as int, left_index as int, right_index as int, 0);
            q = q.push(right_index - lo);
            let v = a[right_index as int];
            assert forall|k: int| 0 <= k < l.len() implies #[trigger] l[k] <= v by {
                assert(a[lo + k] <= v);
            }
            lemma_cnt_gt_sorted(l, v, l.len() as int);
            let rp = r.subrange(0, right_index - mid + 1);
            assert(rp.drop_last() =~= r.subrange(0, right_index - mid));
            assert(rp.last() == v);
            assert(cnt_gt_of(l)(v) == 0);
            assert(sum_f(rp, cnt_gt_of(l)) == sum_f(r.subrange(0, right_index - mid), cnt_gt_of(l)));
        }
        result.set(result_index, arr[right_index]);
        right_index += 1;
        result_index += 1;
        proof {
            if right_index < hi {
                assert(a[right_index - 1] <= a[right_index as int]);
            }
        }
    }
    proof {
        assert(r.subrange(0, hi - mid) =~= r);
    }
    let ghost b = result@;
    let mut k: usize = 0;
    while k < len
        invariant
            lo + len == hi <= a.len(),
            k <= len,
            result@ == b,
            b.len() == len,
            arr@.len() == a.len(),
            forall|m: int| 0 <= m < lo || lo + k <= m < a.len() ==> #[trigger] arr@[m] == a[m],
            forall|m: int| lo <= m < lo + k ==> #[trigger] arr@[m] == b[m - lo],
        decreases len - k,
    {
        arr.set(lo + k, result[k]);
        k += 1;
    }
    proof {
        broadcast use vstd::seq_lib::group_to_multiset_ensures;
        assert(arr@.subrange(lo as int, hi as int) =~= b);
        assert forall|x: int, y: int| lo <= x < y < hi implies arr@[x] <= arr@[y] by {
            assert(arr@[x] == b[x - lo] && arr@[y] == b[y - lo]);
        }
        let sa = a.subrange(lo as int, hi as int);
        assert forall|m: int| 0 <= m < q.len() implies 0 <= #[trigger] q[m] < sa.len() && b[m] == sa[q[m]] by {
            assert(b[0 + m] == a[lo + q[m]]);
        }
        assert(perm_map(b, sa, q));
        lemma_perm_map_multiset(b, sa, q);
        assert(sa =~= l + r);
        vstd::seq_lib::lemma_multiset_commutative(l, r);
        vstd::seq_lib::lemma_multiset_commutative(l0, r0);
        assert(orig.subrange(lo as int, hi as int) =~= l0 + r0);
    }
    count
}

/// The number of pairs of positions `i < j` of `arr` with `arr[i] > arr[j]`,
/// counted while sorting `arr` by merge sort.
pub fn count_inversion_with_merge_sort(arr: &mut Vec<i32>) -> (r: i64)
    requires
        old(arr)@.len() <= 3_000_000_000,
    ensures
        r == inversions(old(arr)@),
        crate::sorted::sorted(final(arr)@),
        final(arr)@.to_multiset() == old(arr)@.to_multiset(),
{
    let n = arr.len();
    let r = count_inversion_range(arr, 0, n);
    proof {
        assert(old(arr)@.subrange(0, n as int) =~= old(arr)@);
        assert(arr@.subrange(0, n as int) =~= arr@);
    }
    r
}

} // verus!
