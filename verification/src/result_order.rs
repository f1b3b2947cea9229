//! The order in which search results and matching files are reported: by
//! path, in the order of `std::path::Path` (component by component), then
//! by line number.
use vstd::prelude::*;
use crate::search::result_view;
use crate::types::SearchResult;

verus! {

broadcast use vstd::seq_lib::group_to_multiset_ensures;

/// How `std::path::Path` orders the paths `a` and `b`: negative when `a`
/// comes first, zero when they are equal as paths, positive when `b` comes
/// first.
pub uninterp spec fn path_order_spec(a: Seq<char>, b: Seq<char>) -> int;

/// Compares the paths `a` and `b` with `Path::cmp` of std, the order of
/// their components. Trusted: the result is -1, 0 or 1 as `path_order_spec`
/// names it, a function of the two paths, and swapping the paths negates it
/// (`Ord` asks `a < b` exactly when `b > a`).
#[verifier::external_body]
fn path_order(a: &str, b: &str) -> (r: i8)
    ensures
        r == path_order_spec(a@, b@),
        -1 <= r <= 1,
        path_order_spec(b@, a@) == -r,
{
    match std::path::Path::new(a).cmp(std::path::Path::new(b)) {
        std::cmp::Ordering::Less => -1,
        std::cmp::Ordering::Equal => 0,
        std::cmp::Ordering::Greater => 1,
    }
}

/// The views of the results `v`.
pub open spec fn results_view(v: Seq<SearchResult>) -> Seq<(Seq<char>, int, Seq<char>)> {
    v.map_values(|x: SearchResult| result_view(x))
}

/// The result `x` may come before `y`: its path comes first, or the paths
/// are equal and its line number is not greater.
pub open spec fn result_le(x: (Seq<char>, int, Seq<char>), y: (Seq<char>, int, Seq<char>)) -> bool {
    path_order_spec(x.0, y.0) < 0 || (path_order_spec(x.0, y.0) == 0 && x.1 <= y.1)
}

/// Each result of `s` may come before the next.
pub open spec fn results_in_order(s: Seq<(Seq<char>, int, Seq<char>)>) -> bool {
    forall|i: int, j: int| 0 <= i && j == i + 1 && j < s.len() ==> result_le(#[trigger] s[i], #[trigger] s[j])
}

/// Whether `x` may come before `y` (see `result_le`); when not, `y` may
/// come before `x`.
fn result_before(x: &SearchResult, y: &SearchResult) -> (r: bool)
    ensures
        r == result_le(result_view(*x), result_view(*y)),
        !r ==> result_le(result_view(*y), result_view(*x)),
{
    let c = path_order(x.file_path.as_str(), y.file_path.as_str());
    c < 0 || (c == 0 && x.line_number <= y.line_number)
}

/// A copy of the result `x`.
fn copy_result(x: &SearchResult) -> (r: SearchResult)
    ensures
        result_view(r) == result_view(*x),
{
    SearchResult { file_path: x.file_path.clone(), line_number: x.line_number, line_content: x.line_content.clone() }
}

/// Merges `a` and `b`, each in order, into one list in order that holds
/// both.
fn merge_results(a: &Vec<SearchResult>, b: &Vec<SearchResult>) -> (r: Vec<SearchResult>)
    requires
        results_in_order(results_view(a@)),
        results_in_order(results_view(b@)),
    ensures
        results_in_order(results_view(r@)),
        results_view(r@).to_multiset() == results_view(a@).to_multiset().add(results_view(b@).to_multiset()),
{
    let ghost av = results_view(a@);
    let ghost bv = results_view(b@);
    let mut r: Vec<SearchResult> = Vec::new();
    let mut i: usize = 0;
    let mut j: usize = 0;
    assert(av.take(0) =~= seq![]);
    assert(bv.take(0) =~= seq![]);
    assert(results_view(r@) =~= seq![]);
    while i < a.len() || j < b.len()
        invariant
            av == results_view(a@),
            bv == results_view(b@),
            i <= a.len(),
            j <= b.len(),
            results_in_order(av),
            results_in_order(bv),
            results_in_order(results_view(r@)),
            results_view(r@).to_multiset() == av.take(i as int).to_multiset().add(bv.take(j as int).to_multiset()),
            r@.len() > 0 && i < a.len() ==> result_le(results_view(r@).last(), av[i as int]),
            r@.len() > 0 && j < b.len() ==> result_le(results_view(r@).last(), bv[j as int]),
        decreases a.len() + b.len() - i - j,
    {
        let ghost r0 = results_view(r@);
        let take_a = j >= b.len() || (i < a.len() && result_before(&a[i], &b[j]));
        let x = if take_a {
            copy_result(&a[i])
        } else {
            copy_result(&b[j])
        };
        let ghost xv = result_view(x);
        r.push(x);
        assert(results_view(r@) =~= r0.push(xv));
        if take_a {
            assert(xv == av[i as int]);
            assert(av.take(i + 1) =~= av.take(i as int).push(xv));
            if i + 1 < a.len() {
                assert(result_le(av[i as int], av[i + 1]));
            }
            i += 1;
        } else {
            assert(xv == bv[j as int]);
            assert(bv.take(j + 1) =~= bv.take(j as int).push(xv));
            if j + 1 < b.len() {
                assert(result_le(bv[j as int], bv[j + 1]));
            }
            j += 1;
        }
        let ghost rv = results_view(r@);
        assert forall|p: int, q: int| 0 <= p && q == p + 1 && q < rv.len() implies result_le(
            #[trigger] rv[p],
            #[trigger] rv[q],
        ) by {
            if q < rv.len() - 1 {
                assert(rv[p] == r0[p]);
                assert(rv[q] == r0[q]);
            } else {
                assert(rv[p] == r0.last());
            }
        }
    }
    assert(av.take(av.len() as int) == av);
    assert(bv.take(bv.len() as int) == bv);
    r
}

/// The results `v` sorted by path (in `Path` order), then by line number:
/// each result may come before the next, and the results are those of `v`,
/// as many times each.
pub fn sort_results(v: &Vec<SearchResult>) -> (r: Vec<SearchResult>)
    ensures
        results_in_order(results_view(r@)),
        results_view(r@).to_multiset() == results_view(v@).to_multiset(),
    decreases v@.len(),
{
    let n = v.len();
    let ghost vv = results_view(v@);
    if n <= 1 {
        let mut r: Vec<SearchResult> = Vec::new();
        if n == 1 {
            r.push(copy_result(&v[0]));
        }
        assert(results_view(r@) =~= vv);
        return r;
    }
    let mid = n / 2;
    let mut left: Vec<SearchResult> = Vec::new();
    let mut right: Vec<SearchResult> = Vec::new();
    let mut i: usize = 0;
    while i < n
        invariant
            n == v.len(),
            vv == results_view(v@),
            mid < n,
            i <= n,
            i <= mid ==> results_view(left@) == vv.take(i as int) && right@.len() == 0,
            i > mid ==> results_view(left@) == vv.take(mid as int) && results_view(right@) == vv.subrange(
                mid as int,
                i as int,
            ),
        decreases n - i,
    {
        let x = copy_result(&v[i]);
        if i < mid {
            let ghost l0 = results_view(left@);
            left.push(x);
            assert(results_view(left@) =~= l0.push(result_view(x)));
            assert(vv.take(i + 1) =~= vv.take(i as int).push(vv[i as int]));
        } else {
            let ghost r0 = results_view(right@);
            right.push(x);
            assert(results_view(right@) =~= r0.push(result_view(x)));
            if i == mid {
                assert(r0 =~= vv.subrange(mid as int, i as int));
            }
            assert(vv.subrange(mid as int, i + 1) =~= vv.subrange(mid as int, i as int).push(vv[i as int]));
        }
        i += 1;
    }
    assert(vv =~= vv.take(mid as int) + vv.subrange(mid as int, n as int));
    proof {
        vstd::seq_lib::lemma_multiset_commutative(results_view(left@), results_view(right@));
    }
    let sl = sort_results(&left);
    let sr = sort_results(&right);
    merge_results(&sl, &sr)
}

/// The paths of `v`.
pub open spec fn paths_view(v: Seq<String>) -> Seq<Seq<char>> {
    v.map_values(|x: String| x@)
}

/// Each path of `s` comes no later than the next in `Path` order.
pub open spec fn paths_in_order(s: Seq<Seq<char>>) -> bool {
    forall|i: int, j: int| 0 <= i && j == i + 1 && j < s.len() ==> path_order_spec(#[trigger] s[i], #[trigger] s[j]) <= 0
}

/// Merges the paths `a` and `b`, each in order, into one list in order
/// that holds both.
fn merge_paths(a: &Vec<String>, b: &Vec<String>) -> (r: Vec<String>)
    requires
        paths_in_order(paths_view(a@)),
        paths_in_order(paths_view(b@)),
    ensures
        paths_in_order(paths_view(r@)),
        paths_view(r@).to_multiset() == paths_view(a@).to_multiset().add(paths_view(b@).to_multiset()),
{
    let ghost av = paths_view(a@);
    let ghost bv = paths_view(b@);
    let mut r: Vec<String> = Vec::new();
    let mut i: usize = 0;
    let mut j: usize = 0;
    assert(av.take(0) =~= seq![]);
    assert(bv.take(0) =~= seq![]);
    assert(paths_view(r@) =~= seq![]);
    while i < a.len() || j < b.len()
        invariant
            av == paths_view(a@),
            bv == paths_view(b@),
            i <= a.len(),
            j <= b.len(),
            paths_in_order(av),
            paths_in_order(bv),
            paths_in_order(paths_view(r@)),
            paths_view(r@).to_multiset() == av.take(i as int).to_multiset().add(bv.take(j as int).to_multiset()),
            r@.len() > 0 && i < a.len() ==> path_order_spec(paths_view(r@).last(), av[i as int]) <= 0,
            r@.len() > 0 && j < b.len() ==> path_order_spec(paths_view(r@).last(), bv[j as int]) <= 0,
        decreases a.len() + b.len() - i - j,
    {
        let ghost r0 = paths_view(r@);
        let take_a = j >= b.len() || (i < a.len() && path_order(a[i].as_str(), b[j].as_str()) <= 0);
        let x = if take_a {
            a[i].clone()
        } else {
            b[j].clone()
        };
        let ghost xv = x@;
        r.push(x);
        assert(paths_view(r@) =~= r0.push(xv));
        if take_a {
            assert(xv == av[i as int]);
            assert(av.take(i + 1) =~= av.take(i as int).push(xv));
            if i + 1 < a.len() {
                assert(path_order_spec(av[i as int], av[i + 1]) <= 0);
            }
            i += 1;
        } else {
            assert(xv == bv[j as int]);
            assert(bv.take(j + 1) =~= bv.take(j as int).push(xv));
            if j + 1 < b.len() {
                assert(path_order_spec(bv[j as int], bv[j + 1]) <= 0);
            }
            j += 1;
        }
        let ghost rv = paths_view(r@);
        assert forall|p: int, q: int| 0 <= p && q == p + 1 && q < rv.len() implies path_order_spec(
            #[trigger] rv[p],
            #[trigger] rv[q],
        ) <= 0 by {
            if q < rv.len() - 1 {
                assert(rv[p] == r0[p]);
                assert(rv[q] == r0[q]);
            } else {
                assert(rv[p] == r0.last());
            }
        }
    }
    assert(av.take(av.len() as int) == av);
    assert(bv.take(bv.len() as int) == bv);
    r
}

/// The paths `v` sorted in `Path` order: each path comes no later than the
/// next, and the paths are those of `v`, as many times each.
pub fn sort_paths(v: &Vec<String>) -> (r: Vec<String>)
    ensures
        paths_in_order(paths_view(r@)),
        paths_view(r@).to_multiset() == paths_view(v@).to_multiset(),
    decreases v@.len(),
{
    let n = v.len();
    let ghost vv = paths_view(v@);
    if n <= 1 {
        let mut r: Vec<String> = Vec::new();
        if n == 1 {
            r.push(v[0].clone());
        }
        assert(paths_view(r@) =~= vv);
        return r;
    }
    let mid = n / 2;
    let mut left: Vec<String> = Vec::new();
    let mut right: Vec<String> = Vec::new();
    let mut i: usize = 0;
    while i < n
        invariant
            n == v.len(),
            vv == paths_view(v@),
            mid < n,
            i <= n,
            i <= mid ==> paths_view(left@) == vv.take(i as int) && right@.len() == 0,
            i > mid ==> paths_view(left@) == vv.take(mid as int) && paths_view(right@) == vv.subrange(
                mid as int,
                i as int,
            ),
        decreases n - i,
    {
        let x = v[i].clone();
        if i < mid {
            let ghost l0 = paths_view(left@);
            left.push(x);
            assert(paths_view(left@) =~= l0.push(x@));
            assert(vv.take(i + 1) =~= vv.take(i as int).push(vv[i as int]));
        } else {
            let ghost r0 = paths_view(right@);
            right.push(x);
            assert(paths_view(right@) =~= r0.push(x@));
            if i == mid {
                assert(r0 =~= vv.subrange(mid as int, i as int));
            }
            assert(vv.subrange(mid as int, i + 1) =~= vv.subrange(mid as int, i as int).push(vv[i as int]));
        }
        i += 1;
    }
    assert(vv =~= vv.take(mid as int) + vv.subrange(mid as int, n as int));
    proof {
        vstd::seq_lib::lemma_multiset_commutative(paths_view(left@), paths_view(right@));
    }
    let sl = sort_paths(&left);
    let sr = sort_paths(&right);
    merge_paths(&sl, &sr)
}

} // verus!
