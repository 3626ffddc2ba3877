//! A stable merge sort of places by a comparison.
use vstd::prelude::*;

verus! {

/// Whether `rel` compares any two places below `n`, and does so consistently.
pub open spec fn is_preorder(rel: spec_fn(int, int) -> bool, n: int) -> bool {
    &&& forall|i: int, j: int| 0 <= i < n && 0 <= j < n ==> #[trigger] rel(i, j) || rel(j, i)
    &&& forall|i: int, j: int, k: int|
        0 <= i < n && 0 <= j < n && 0 <= k < n && #[trigger] rel(i, j) && #[trigger] rel(j, k)
            ==> rel(i, k)
}

/// Whether place `i` belongs before place `j`: by `rel`, and ties by place.
pub open spec fn goes_before(rel: spec_fn(int, int) -> bool, i: int, j: int) -> bool {
    rel(i, j) && (rel(j, i) ==> i < j)
}

/// Whether `order` lists the places from `lo` to below `hi`, each once.
pub open spec fn lists_places(order: Seq<usize>, lo: int, hi: int) -> bool {
    &&& order.len() == hi - lo
    &&& order.no_duplicates()
    &&& forall|i: int| 0 <= i < order.len() ==> lo <= (#[trigger] order[i]) < hi
}

/// Whether `order` is sorted by `rel`, ties by place.
pub open spec fn in_order(order: Seq<usize>, rel: spec_fn(int, int) -> bool) -> bool {
    forall|i: int, j: int|
        0 <= i < j < order.len() ==> goes_before(
            rel,
            #[trigger] order[i] as int,
            #[trigger] order[j] as int,
        )
}

/// Whether `le` computes `rel` on the places below `n`.
pub open spec fn computes<F: Fn(usize, usize) -> bool>(
    le: F,
    rel: spec_fn(int, int) -> bool,
    n: int,
) -> bool {
    &&& forall|i: usize, j: usize| i < n && j < n ==> #[trigger] call_requires(le, (i, j))
    &&& forall|i: usize, j: usize, r: bool|
        i < n && j < n && #[trigger] call_ensures(le, (i, j), r) ==> r == rel(i as int, j as int)
}

/// The places below `n`, sorted by `le`; ties keep their order.
pub fn sort_places<F: Fn(usize, usize) -> bool>(
    n: usize,
    le: &F,
    Ghost(rel): Ghost<spec_fn(int, int) -> bool>,
) -> (order: Vec<usize>)
    requires
        is_preorder(rel, n as int),
        computes(*le, rel, n as int),
    ensures
        lists_places(order@, 0, n as int),
        in_order(order@, rel),
{
    sort_range(0, n, n, le, Ghost(rel))
}

fn sort_range<F: Fn(usize, usize) -> bool>(
    lo: usize,
    hi: usize,
    n: usize,
    le: &F,
    Ghost(rel): Ghost<spec_fn(int, int) -> bool>,
) -> (order: Vec<usize>)
    requires
        lo <= hi <= n,
        is_preorder(rel, n as int),
        computes(*le, rel, n as int),
    ensures
        lists_places(order@, lo as int, hi as int),
        in_order(order@, rel),
    decreases hi - lo,
{
    if hi - lo <= 1 {
        let mut order: Vec<usize> = Vec::new();
        if lo < hi {
            order.push(lo);
        }
        return order;
    }
    let mid: usize = lo + (hi - lo) / 2;
    let left = sort_range(lo, mid, n, le, Ghost(rel));
    let right = sort_range(mid, hi, n, le, Ghost(rel));
    let mut order: Vec<usize> = Vec::new();
    let mut i: usize = 0;
    let mut j: usize = 0;
    while i < left.len() || j < right.len()
        invariant
            lo < mid < hi <= n,
            is_preorder(rel, n as int),
            computes(*le, rel, n as int),
            lists_places(left@, lo as int, mid as int),
            lists_places(right@, mid as int, hi as int),
            in_order(left@, rel),
            in_order(right@, rel),
            i <= left@.len(),
            j <= right@.len(),
            order@.len() == i + j,
            in_order(order@, rel),
            forall|k: int|
                0 <= k < order@.len() ==> from_parts(
                    #[trigger] order@[k],
                    left@,
                    i as int,
                    right@,
                    j as int,
                ),
            forall|k: int, l: int|
                0 <= k < order@.len() && i <= l < left@.len() ==> goes_before(
                    rel,
                    #[trigger] order@[k] as int,
                    #[trigger] left@[l] as int,
                ),
            forall|k: int, l: int|
                0 <= k < order@.len() && j <= l < right@.len() ==> goes_before(
                    rel,
                    #[trigger] order@[k] as int,
                    #[trigger] right@[l] as int,
                ),
            order@.no_duplicates(),
        decreases left@.len() - i + right@.len() - j,
    {
        let ghost before = order@;
        let take_left: bool = if i >= left.len() {
            false
        } else if j >= right.len() {
            true
        } else {
            le(left[i], right[j])
        };
        if take_left {
            let x: usize = left[i];
            proof {
                assert forall|l: int| j <= l < right@.len() implies goes_before(
                    rel,
                    x as int,
                    #[trigger] right@[l] as int,
                ) by {
                    let r = right@[l] as int;
                    let r0 = right@[j as int] as int;
                    assert(rel(x as int, r0));
                    if l > j {
                        assert(goes_before(rel, r0, r));
                        assert(rel(r0, r));
                    }
                    assert(rel(x as int, r));
                    assert(x < mid && mid <= right@[l]);
                }
                assert forall|k: int| 0 <= k < before.len() implies before[k] != x by {
                    assert(goes_before(rel, before[k] as int, left@[i as int] as int));
                    assert(from_parts(before[k], left@, i as int, right@, j as int));
                    lemma_parts_apart(before[k], left@, i as int, right@, j as int, lo as int, mid as int, hi as int);
                }
            }
            order.push(x);
            i = i + 1;
        } else {
            let x: usize = right[j];
            proof {
                assert forall|l: int| i <= l < left@.len() implies goes_before(
                    rel,
                    x as int,
                    #[trigger] left@[l] as int,
                ) by {
                    let r = left@[l] as int;
                    let r0 = left@[i as int] as int;
                    assert(!rel(r0, x as int));
                    assert(rel(x as int, r0));
                    if l > i {
                        assert(goes_before(rel, r0, r));
                        assert(rel(r0, r));
                    }
                    assert(rel(x as int, r));
                    if rel(r, x as int) {
                        assert(rel(r0, r));
                        assert(rel(r0, x as int));
                    }
                }
                assert forall|k: int| 0 <= k < before.len() implies before[k] != x by {
                    assert(from_parts(before[k], left@, i as int, right@, j as int));
                    lemma_parts_apart(before[k], left@, i as int, right@, j as int, lo as int, mid as int, hi as int);
                }
            }
            order.push(x);
            j = j + 1;
        }
        proof {
            assert forall|k: int| 0 <= k < order@.len() implies from_parts(
                #[trigger] order@[k],
                left@,
                i as int,
                right@,
                j as int,
            ) by {
                if k < before.len() {
                    assert(order@[k] == before[k]);
                }
            }
        }
    }
    proof {
        assert forall|k: int| 0 <= k < order@.len() implies lo <= (#[trigger] order@[k]) < hi by {
            assert(from_parts(order@[k], left@, i as int, right@, j as int));
        }
    }
    order
}

/// Whether `x` is one of the first `i` of `left` or the first `j` of `right`.
spec fn from_parts(x: usize, left: Seq<usize>, i: int, right: Seq<usize>, j: int) -> bool {
    ||| exists|k: int| 0 <= k < i && k < left.len() && left[k] == x
    ||| exists|k: int| 0 <= k < j && k < right.len() && right[k] == x
}

proof fn lemma_parts_apart(
    x: usize,
    left: Seq<usize>,
    i: int,
    right: Seq<usize>,
    j: int,
    lo: int,
    mid: int,
    hi: int,
)
    requires
        lists_places(left, lo, mid),
        lists_places(right, mid, hi),
        from_parts(x, left, i, right, j),
    ensures
        0 <= i < left.len() ==> x != left[i],
        0 <= j < right.len() ==> x != right[j],
{
}

/// A listing of the places below `n` reaches each of them.
pub proof fn lemma_lists_all(order: Seq<usize>, n: int)
    requires
        lists_places(order, 0, n),
        0 <= n <= usize::MAX,
    ensures
        forall|x: usize| x < n ==> #[trigger] order.contains(x),
{
    let all: Set<usize> = order.to_set();
    order.unique_seq_to_set();
    let range = Set::new(|x: usize| x < n);
    lemma_range_len(n);
    assert(all.subset_of(range)) by {
        assert forall|x: usize| all.contains(x) implies range.contains(x) by {
            let i = choose|i: int| 0 <= i < order.len() && order[i] == x;
        }
    }
    vstd::set_lib::lemma_subset_equality(all, range);
    assert forall|x: usize| x < n implies #[trigger] order.contains(x) by {
        assert(range.contains(x));
        assert(all.contains(x));
    }
}

proof fn lemma_range_len(n: int)
    requires
        0 <= n <= usize::MAX,
    ensures
        Set::new(|x: usize| x < n).finite(),
        Set::new(|x: usize| x < n).len() == n,
    decreases n,
{
    let range = Set::new(|x: usize| x < n);
    if n == 0 {
        assert(range =~= Set::empty());
    } else {
        lemma_range_len(n - 1);
        let smaller = Set::new(|x: usize| x < n - 1);
        assert(range =~= smaller.insert((n - 1) as usize));
    }
}

/// Places that are sorted strictly stand in one order.
pub proof fn lemma_same_order(
    x: Seq<usize>,
    y: Seq<usize>,
    n: int,
    before: spec_fn(int, int) -> bool,
)
    requires
        0 <= n <= usize::MAX,
        lists_places(x, 0, n),
        lists_places(y, 0, n),
        forall|i: int, j: int|
            0 <= i < j < n ==> before(#[trigger] x[i] as int, #[trigger] x[j] as int),
        forall|i: int, j: int|
            0 <= i < j < n ==> before(#[trigger] y[i] as int, #[trigger] y[j] as int),
        forall|a: int, b: int| #[trigger] before(a, b) ==> !before(b, a),
    ensures
        x == y,
{
    lemma_lists_all(x, n);
    lemma_lists_all(y, n);
    assert forall|i: int| 0 <= i < n implies x[i] == y[i] by {
        lemma_same_place(x, y, n, before, i);
    }
    assert(x =~= y);
}

proof fn lemma_same_place(
    x: Seq<usize>,
    y: Seq<usize>,
    n: int,
    before: spec_fn(int, int) -> bool,
    i: int,
)
    requires
        0 <= i < n,
        lists_places(x, 0, n),
        lists_places(y, 0, n),
        forall|p: usize| p < n ==> #[trigger] x.contains(p),
        forall|p: usize| p < n ==> #[trigger] y.contains(p),
        forall|i: int, j: int|
            0 <= i < j < n ==> before(#[trigger] x[i] as int, #[trigger] x[j] as int),
        forall|i: int, j: int|
            0 <= i < j < n ==> before(#[trigger] y[i] as int, #[trigger] y[j] as int),
        forall|a: int, b: int| #[trigger] before(a, b) ==> !before(b, a),
    ensures
        x[i] == y[i],
    decreases i,
{
    assert forall|j: int| 0 <= j < i implies x[j] == y[j] by {
        lemma_same_place(x, y, n, before, j);
    }
    if x[i] != y[i] {
        assert(x.contains(y[i]) && y.contains(x[i]));
        let p = choose|p: int| 0 <= p < x.len() && x[p] == y[i];
        let q = choose|q: int| 0 <= q < y.len() && y[q] == x[i];
        assert(p > i) by {
            if p < i {
                assert(y[p] == y[i]);
            }
        }
        assert(q > i) by {
            if q < i {
                assert(x[q] == x[i]);
            }
        }
        assert(before(x[i] as int, x[p] as int));
        assert(before(y[i] as int, y[q] as int));
    }
}

} // verus!
