//! Merge sort of 64-bit keys.
use vstd::prelude::*;

verus! {

broadcast use vstd::seq_lib::group_to_multiset_ensures;

/// `s` is in non-decreasing order.
pub open spec fn sorted_u64(s: Seq<u64>) -> bool {
    forall|i: int, j: int| 0 <= i <= j < s.len() ==> s[i] <= s[j]
}

/// Merges the sorted `a` and `b` into one sorted sequence holding both.
fn merge(a: &Vec<u64>, b: &Vec<u64>) -> (r: Vec<u64>)
    requires
        sorted_u64(a@),
        sorted_u64(b@),
    ensures
        sorted_u64(r@),
        r@.to_multiset() == a@.to_multiset().add(b@.to_multiset()),
{
    let mut r: Vec<u64> = Vec::new();
    let mut i: usize = 0;
    let mut j: usize = 0;
    assert(a@.take(0) =~= seq![]);
    assert(b@.take(0) =~= seq![]);
    while i < a.len() || j < b.len()
        invariant
            i <= a.len(),
            j <= b.len(),
            sorted_u64(a@),
            sorted_u64(b@),
            sorted_u64(r@),
            r@.to_multiset() == a@.take(i as int).to_multiset().add(b@.take(j as int).to_multiset()),
            forall|k: int, m: int| 0 <= k < r@.len() && i <= m < a@.len() ==> r@[k] <= a@[m],
            forall|k: int, m: int| 0 <= k < r@.len() && j <= m < b@.len() ==> r@[k] <= b@[m],
        decreases a.len() + b.len() - i - j,
    {
        let ghost r0 = r@;
        if j >= b.len() || (i < a.len() && a[i] <= b[j]) {
            let x = a[i];
            r.push(x);
            assert(a@.take(i + 1) == a@.take(i as int).push(x));
            i += 1;
        } else {
            let x = b[j];
            r.push(x);
            assert(b@.take(j + 1) == b@.take(j as int).push(x));
            j += 1;
        }
        assert(r@ == r0.push(r@.last()));
    }
    assert(a@.take(a@.len() as int) == a@);
    assert(b@.take(b@.len() as int) == b@);
    r
}

/// The elements of `v` in non-decreasing order.
pub(crate) fn merge_sort(v: &Vec<u64>) -> (r: Vec<u64>)
    ensures
        sorted_u64(r@),
        r@.to_multiset() == v@.to_multiset(),
    decreases v@.len(),
{
    let n = v.len();
    if n <= 1 {
        let r = v.clone();
        assert(r@ =~= v@);
        return r;
    }
    let mid = n / 2;
    let mut left: Vec<u64> = Vec::new();
    let mut right: Vec<u64> = Vec::new();
    let mut i: usize = 0;
    while i < n
        invariant
            n == v.len(),
            mid < n,
            i <= n,
            i <= mid ==> left@ == v@.take(i as int) && right@.len() == 0,
            i > mid ==> left@ == v@.take(mid as int) && right@ == v@.subrange(mid as int, i as int),
        decreases n - i,
    {
        if i < mid {
            left.push(v[i]);
            assert(v@.take(i + 1) == v@.take(i as int).push(v@[i as int]));
        } else {
            right.push(v[i]);
            assert(v@.subrange(mid as int, i + 1) == v@.subrange(mid as int, i as int).push(v@[i as int]));
        }
        i += 1;
    }
    assert(v@ == v@.take(mid as int) + v@.subrange(mid as int, n as int));
    proof {
        vstd::seq_lib::lemma_multiset_commutative(left@, right@);
    }
    let sl = merge_sort(&left);
    let sr = merge_sort(&right);
    merge(&sl, &sr)
}

} // verus!
