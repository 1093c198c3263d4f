use vstd::prelude::*;

verus! {

/// `p` maps each position of `out` to the position of `inp` its element came
/// from, one to one.
pub open spec fn perm_map(out: Seq<i32>, inp: Seq<i32>, p: Seq<int>) -> bool {
    &&& out.len() == inp.len()
    &&& p.len() == out.len()
    &&& forall|k: int| 0 <= k < p.len() ==> 0 <= #[trigger] p[k] < inp.len() && out[k] == inp[p[k]]
    &&& forall|k: int, l: int| 0 <= k < l < p.len() ==> #[trigger] p[k] != #[trigger] p[l]
}

/// Positions `lo..hi` of `out` hold the elements of positions `lo..hi` of `inp`,
/// rearranged by the local map `q` (position `lo + k` of `out` came from position
/// `lo + q[k]` of `inp`), one to one, with equal elements kept in their order.
pub open spec fn moved_stably(out: Seq<i32>, inp: Seq<i32>, q: Seq<int>, lo: int, hi: int) -> bool {
    &&& q.len() == hi - lo
    &&& forall|k: int|
        0 <= k < hi - lo ==> 0 <= #[trigger] q[k] < hi - lo && out[lo + k] == inp[lo + q[k]]
    &&& forall|k: int, l: int|
        0 <= k < l < hi - lo ==> #[trigger] q[k] != #[trigger] q[l] && (out[lo + k] == out[lo + l]
            ==> q[k] < q[l])
}

/// `out` is a rearrangement of `inp` by `q` that keeps equal elements in the
/// order they had in `inp`.
pub open spec fn stable_perm(out: Seq<i32>, inp: Seq<i32>, q: Seq<int>) -> bool {
    &&& out.len() == inp.len()
    &&& moved_stably(out, inp, q, 0, out.len() as int)
}

/// Equal elements at positions `lo..hi` of `a` came, by `p`, from positions in
/// increasing order.
pub open spec fn stable_on(a: Seq<i32>, p: Seq<int>, lo: int, hi: int) -> bool {
    forall|k: int, l: int| lo <= k < l < hi && a[k] == a[l] ==> #[trigger] p[k] < #[trigger] p[l]
}

/// `p` maps positions `lo..hi` into `lo..hi`.
pub open spec fn maps_into(p: Seq<int>, lo: int, hi: int) -> bool {
    forall|k: int| lo <= k < hi ==> lo <= #[trigger] p[k] < hi
}

/// `p` followed by the local rearrangement `q` of positions `lo..lo + q.len()`.
pub open spec fn apply_local(p: Seq<int>, q: Seq<int>, lo: int) -> Seq<int> {
    Seq::new(p.len(), |k: int| if lo <= k < lo + q.len() { p[lo + q[k - lo]] } else { p[k] })
}

/// Following a tracked rearrangement `p` of `orig` by a local stable move `q`
/// gives a tracked rearrangement again, and keeps the range's stability.
pub proof fn lemma_apply_local(orig: Seq<i32>, a: Seq<i32>, p: Seq<int>, a2: Seq<i32>, q: Seq<int>, lo: int, hi: int)
    requires
        perm_map(a, orig, p),
        0 <= lo <= hi <= a.len(),
        a2.len() == a.len(),
        forall|k: int| 0 <= k < lo || hi <= k < a.len() ==> #[trigger] a2[k] == a[k],
        moved_stably(a2, a, q, lo, hi),
    ensures
        perm_map(a2, orig, apply_local(p, q, lo)),
        stable_on(a, p, lo, hi) ==> stable_on(a2, apply_local(p, q, lo), lo, hi),
        maps_into(p, lo, hi) ==> maps_into(apply_local(p, q, lo), lo, hi),
        forall|k: int| 0 <= k < lo || hi <= k < a.len() ==> #[trigger] apply_local(p, q, lo)[k] == p[k],
{
    let p2 = apply_local(p, q, lo);
    assert forall|k: int| 0 <= k < p2.len() implies 0 <= #[trigger] p2[k] < orig.len() && a2[k] == orig[p2[k]] by {
        if lo <= k < hi {
            assert(0 <= q[k - lo] < hi - lo);
        }
    }
    assert forall|k: int, l: int| 0 <= k < l < p2.len() implies #[trigger] p2[k] != #[trigger] p2[l] by {
        let k1 = if lo <= k < hi { lo + q[k - lo] } else { k };
        let l1 = if lo <= l < hi { lo + q[l - lo] } else { l };
        if lo <= k < hi {
            assert(0 <= q[k - lo] < hi - lo);
        }
        if lo <= l < hi {
            assert(0 <= q[l - lo] < hi - lo);
        }
        if lo <= k < hi && lo <= l < hi {
            assert(q[k - lo] != q[l - lo]);
        }
        assert(k1 != l1);
        if k1 < l1 {
            assert(p[k1] != p[l1]);
        } else {
            assert(p[l1] != p[k1]);
        }
    }
    if stable_on(a, p, lo, hi) {
        assert forall|k: int, l: int| lo <= k < l < hi && a2[k] == a2[l] implies #[trigger] p2[k] < #[trigger] p2[l] by {
            assert(q[k - lo] != q[l - lo] && (a2[lo + (k - lo)] == a2[lo + (l - lo)] ==> q[k - lo] < q[l - lo]));
            assert(0 <= q[k - lo] < hi - lo && a2[lo + (k - lo)] == a[lo + q[k - lo]]);
            assert(0 <= q[l - lo] < hi - lo && a2[lo + (l - lo)] == a[lo + q[l - lo]]);
        }
    }
    if maps_into(p, lo, hi) {
        assert forall|k: int| lo <= k < hi implies lo <= #[trigger] p2[k] < hi by {
            assert(0 <= q[k - lo] < hi - lo);
        }
    }
}

/// A tracked rearrangement `p` of `orig` that keeps positions `lo..hi` within
/// that range, stably, is a local stable move of that range.
pub proof fn lemma_local_from_global(orig: Seq<i32>, a: Seq<i32>, p: Seq<int>, lo: int, hi: int)
    requires
        perm_map(a, orig, p),
        0 <= lo <= hi <= a.len(),
        stable_on(a, p, lo, hi),
        maps_into(p, lo, hi),
    ensures
        moved_stably(a, orig, Seq::new((hi - lo) as nat, |k: int| p[lo + k] - lo), lo, hi),
{
    let q = Seq::new((hi - lo) as nat, |k: int| p[lo + k] - lo);
    assert forall|k: int| 0 <= k < hi - lo implies 0 <= #[trigger] q[k] < hi - lo && a[lo + k] == orig[lo + q[k]] by {
        assert(lo <= p[lo + k] < hi);
    }
    assert forall|k: int, l: int| 0 <= k < l < hi - lo implies #[trigger] q[k] != #[trigger] q[l]
        && (a[lo + k] == a[lo + l] ==> q[k] < q[l]) by {
        assert(p[lo + k] != p[lo + l]);
    }
}

/// A one-to-one rearrangement keeps the multiset of elements.
pub proof fn lemma_perm_map_multiset(out: Seq<i32>, inp: Seq<i32>, p: Seq<int>)
    requires
        perm_map(out, inp, p),
    ensures
        out.to_multiset() == inp.to_multiset(),
    decreases out.len(),
{
    broadcast use vstd::seq_lib::group_to_multiset_ensures;
    broadcast use vstd::multiset::group_multiset_axioms;

    let n = out.len() as int;
    if n == 0 {
        assert(out =~= Seq::<i32>::empty());
        assert(inp =~= Seq::<i32>::empty());
    } else {
        let j = p[n - 1];
        let out2 = out.drop_last();
        let inp2 = inp.remove(j);
        let p2 = Seq::new((n - 1) as nat, |k: int| if p[k] < j { p[k] } else { p[k] - 1 });
        assert forall|k: int| 0 <= k < p2.len() implies 0 <= #[trigger] p2[k] < inp2.len() && out2[k] == inp2[p2[k]] by {
            assert(p[k] != p[n - 1]);
        }
        assert forall|k: int, l: int| 0 <= k < l < p2.len() implies #[trigger] p2[k] != #[trigger] p2[l] by {
            assert(p[k] != p[l]);
            assert(p[k] != p[n - 1]);
            assert(p[l] != p[n - 1]);
        }
        lemma_perm_map_multiset(out2, inp2, p2);
        assert(out =~= out2.push(out[n - 1]));
        vstd::seq_lib::to_multiset_build(out2, out[n - 1]);
        vstd::seq_lib::to_multiset_remove(inp, j);
        assert(inp.to_multiset().count(inp[j]) > 0);
        assert(inp.to_multiset() =~= inp2.to_multiset().insert(inp[j]));
    }
}

/// A stable rearrangement keeps the multiset of elements.
pub proof fn lemma_stable_perm_multiset(out: Seq<i32>, inp: Seq<i32>, q: Seq<int>)
    requires
        stable_perm(out, inp, q),
    ensures
        out.to_multiset() == inp.to_multiset(),
{
    assert forall|k: int| 0 <= k < q.len() implies 0 <= #[trigger] q[k] < inp.len() && out[k] == inp[q[k]] by {
        assert(out[0 + k] == inp[0 + q[k]]);
    }
    assert forall|k: int, l: int| 0 <= k < l < q.len() implies #[trigger] q[k] != #[trigger] q[l] by {}
    lemma_perm_map_multiset(out, inp, q);
}

} // verus!
