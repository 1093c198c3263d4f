use vstd::prelude::*;

verus! {

/// Positions `lo..hi` of `s` are in non-decreasing order.
pub open spec fn sorted_on(s: Seq<i32>, lo: int, hi: int) -> bool {
    forall|i: int, j: int| lo <= i < j < hi ==> s[i] <= s[j]
}

/// Every pair of positions of `s` is in non-decreasing order.
pub open spec fn sorted(s: Seq<i32>) -> bool {
    sorted_on(s, 0, s.len() as int)
}

/// Tells whether every adjacent pair of `arr` is in non-decreasing order.
/// An empty sequence counts as sorted.
pub fn is_sorted(arr: &Vec<i32>) -> (r: bool)
    ensures
        r == sorted(arr@),
{
    let n = arr.len();
    if n == 0 {
        return true;
    }
    let mut i: usize = 0;
    while i < n - 1
        invariant
            n == arr@.len(),
            n > 0,
            i <= n - 1,
            sorted_on(arr@, 0, i as int + 1),
        decreases n - 1 - i,
    {
        if arr[i] > arr[i + 1] {
            return false;
        }
        i += 1;
    }
    true
}

} // verus!
