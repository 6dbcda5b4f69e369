//! Stable sorting of positions by integer keys.

use vstd::prelude::*;

verus! {

/// Whether position `i` comes before position `j` when positions are sorted
/// by their keys and equal keys keep their order.
pub open spec fn before(keys: Seq<i64>, i: int, j: int) -> bool {
    keys[i] < keys[j] || (keys[i] == keys[j] && i < j)
}

/// Whether `order` lists the positions `lo..hi`, each once, sorted by key
/// with equal keys in their original order.
pub open spec fn sorted_span(keys: Seq<i64>, order: Seq<usize>, lo: int, hi: int) -> bool {
    &&& order.len() == hi - lo
    &&& forall|a: int| 0 <= a < order.len() ==> lo <= #[trigger] order[a] < hi
    &&& forall|a: int, b: int|
        0 <= a < b < order.len() ==> before(keys, #[trigger] order[a] as int, #[trigger] order[b] as int)
    &&& forall|x: usize| lo <= x < hi ==> #[trigger] order.contains(x)
}

/// Whether `order` is the stable sorting of all positions of `keys`.
pub open spec fn stable_order(keys: Seq<i64>, order: Seq<usize>) -> bool {
    sorted_span(keys, order, 0, keys.len() as int)
}

/// There is only one stable sorting of a list of keys.
pub proof fn stable_order_is_unique(keys: Seq<i64>, p: Seq<usize>, q: Seq<usize>)
    requires
        keys.len() <= usize::MAX,
        stable_order(keys, p),
        stable_order(keys, q),
    ensures
        p == q,
{
    assert forall|a: int| 0 <= a < keys.len() implies p[a] == q[a] by {
        same_until(keys, p, q, a + 1);
    }
    assert(p =~= q);
}

proof fn same_until(keys: Seq<i64>, p: Seq<usize>, q: Seq<usize>, n: int)
    requires
        0 <= n <= keys.len() <= usize::MAX,
        stable_order(keys, p),
        stable_order(keys, q),
    ensures
        forall|a: int| 0 <= a < n ==> p[a] == q[a],
    decreases n,
{
    if n > 0 {
        same_until(keys, p, q, n - 1);
        let x = p[n - 1];
        let y = q[n - 1];
        assert(q.contains(x));
        assert(p.contains(y));
        let i = choose|i: int| 0 <= i < q.len() && q[i] == x;
        let j = choose|j: int| 0 <= j < p.len() && p[j] == y;
        if i < n - 1 {
            assert(p[i] == q[i]);
            assert(before(keys, p[i] as int, p[n - 1] as int));
        }
        if j < n - 1 {
            assert(p[j] == q[j]);
            assert(before(keys, q[j] as int, q[n - 1] as int));
        }
        if i > n - 1 && j > n - 1 {
            assert(before(keys, q[n - 1] as int, q[i] as int));
            assert(before(keys, p[n - 1] as int, p[j] as int));
        }
    }
}

/// How many of the first `m` listed positions have a key of at most `x`.
spec fn not_above(keys: Seq<i64>, order: Seq<usize>, x: i64, m: int) -> int
    decreases m,
{
    if m <= 0 {
        0
    } else if keys[order[m - 1] as int] <= x {
        not_above(keys, order, x, m - 1) + 1
    } else {
        not_above(keys, order, x, m - 1)
    }
}

proof fn not_above_splits(keys: Seq<i64>, order: Seq<usize>, x: i64, m: int)
    requires
        0 <= m <= order.len(),
        forall|a: int, b: int|
            0 <= a < b < m ==> keys[#[trigger] order[a] as int] <= keys[#[trigger] order[b] as int],
    ensures
        0 <= not_above(keys, order, x, m) <= m,
        forall|a: int|
            0 <= a < not_above(keys, order, x, m) ==> keys[#[trigger] order[a] as int] <= x,
        forall|a: int|
            not_above(keys, order, x, m) <= a < m ==> keys[#[trigger] order[a] as int] > x,
    decreases m,
{
    if m > 0 {
        not_above_splits(keys, order, x, m - 1);
        let k = not_above(keys, order, x, m - 1);
        if keys[order[m - 1] as int] <= x && k < m - 1 {
            assert(keys[order[k] as int] > x);
            assert(keys[order[k] as int] <= keys[order[m - 1] as int]);
        }
    }
}

proof fn sorted_span_exists(keys: Seq<i64>, n: int)
    requires
        0 <= n <= keys.len() <= usize::MAX,
    ensures
        exists|order: Seq<usize>| sorted_span(keys, order, 0, n),
    decreases n,
{
    if n == 0 {
        assert(sorted_span(keys, Seq::<usize>::empty(), 0, 0));
    } else {
        sorted_span_exists(keys, n - 1);
        let m = n - 1;
        let p = choose|order: Seq<usize>| sorted_span(keys, order, 0, m);
        let x = keys[n - 1];
        assert forall|a: int, b: int| 0 <= a < b < p.len() implies keys[#[trigger] p[a] as int]
            <= keys[#[trigger] p[b] as int] by {
            assert(before(keys, p[a] as int, p[b] as int));
        }
        not_above_splits(keys, p, x, n - 1);
        let k = not_above(keys, p, x, n - 1);
        let q = p.insert(k, (n - 1) as usize);
        assert forall|a: int, b: int| 0 <= a < b < q.len() implies before(
            keys,
            #[trigger] q[a] as int,
            #[trigger] q[b] as int,
        ) by {
            let a0 = if a < k { a } else { a - 1 };
            let b0 = if b < k { b } else { b - 1 };
            if a != k && b != k {
                assert(q[a] == p[a0] && q[b] == p[b0]);
            } else if b == k {
                assert(q[a] == p[a]);
            } else {
                assert(q[b] == p[b - 1]);
            }
        }
        assert forall|y: usize| 0 <= y < n implies #[trigger] q.contains(y) by {
            if y == n - 1 {
                assert(q[k] == y);
            } else {
                assert(p.contains(y));
                let a = choose|a: int| 0 <= a < p.len() && p[a] == y;
                if a < k {
                    assert(q[a] == y);
                } else {
                    assert(q[a + 1] == y);
                }
            }
        }
        assert(sorted_span(keys, q, 0, n));
    }
}

/// Every list of keys has a stable sorting.
pub proof fn stable_order_exists(keys: Seq<i64>)
    requires
        keys.len() <= usize::MAX,
    ensures
        exists|order: Seq<usize>| stable_order(keys, order),
{
    let n = keys.len() as int;
    sorted_span_exists(keys, n);
    let p = choose|order: Seq<usize>| sorted_span(keys, order, 0, n);
    assert(stable_order(keys, p));
}

/// The positions of `keys`, sorted by key; equal keys keep their order.
pub fn argsort(keys: &[i64]) -> (order: Vec<usize>)
    ensures
        stable_order(keys@, order@),
{
    sort_span(keys, 0, keys.len())
}

fn sort_span(keys: &[i64], lo: usize, hi: usize) -> (order: Vec<usize>)
    requires
        lo <= hi <= keys.len(),
    ensures
        sorted_span(keys@, order@, lo as int, hi as int),
    decreases hi - lo,
{
    if hi - lo <= 1 {
        let mut order: Vec<usize> = Vec::new();
        if lo < hi {
            order.push(lo);
            assert(order@[0] == lo);
        }
        return order;
    }
    let mid: usize = lo + (hi - lo) / 2;
    let left = sort_span(keys, lo, mid);
    let right = sort_span(keys, mid, hi);
    merge(keys, &left, &right, Ghost(lo as int), Ghost(mid as int), Ghost(hi as int))
}

fn merge(
    keys: &[i64],
    left: &Vec<usize>,
    right: &Vec<usize>,
    Ghost(lo): Ghost<int>,
    Ghost(mid): Ghost<int>,
    Ghost(hi): Ghost<int>,
) -> (order: Vec<usize>)
    requires
        0 <= lo <= mid <= hi <= keys.len(),
        sorted_span(keys@, left@, lo, mid),
        sorted_span(keys@, right@, mid, hi),
    ensures
        sorted_span(keys@, order@, lo, hi),
{
    let mut order: Vec<usize> = Vec::new();
    let mut i: usize = 0;
    let mut j: usize = 0;
    while i < left.len() || j < right.len()
        invariant
            0 <= lo <= mid <= hi <= keys.len(),
            sorted_span(keys@, left@, lo, mid),
            sorted_span(keys@, right@, mid, hi),
            i <= left.len(),
            j <= right.len(),
            order.len() == i + j,
            forall|a: int| 0 <= a < order.len() ==> lo <= #[trigger] order[a] < hi,
            forall|a: int, b: int|
                0 <= a < order.len() && i <= b < left.len() ==> before(
                    keys@,
                    #[trigger] order[a] as int,
                    #[trigger] left[b] as int,
                ),
            forall|a: int, b: int|
                0 <= a < order.len() && j <= b < right.len() ==> before(
                    keys@,
                    #[trigger] order[a] as int,
                    #[trigger] right[b] as int,
                ),
            forall|a: int, b: int|
                0 <= a < b < order.len() ==> before(
                    keys@,
                    #[trigger] order[a] as int,
                    #[trigger] order[b] as int,
                ),
            forall|a: int| 0 <= a < i ==> order@.contains(#[trigger] left[a]),
            forall|a: int| 0 <= a < j ==> order@.contains(#[trigger] right[a]),
        decreases left.len() - i + right.len() - j,
    {
        let ghost was = order@;
        let from_left = if i >= left.len() {
            false
        } else if j >= right.len() {
            true
        } else {
            keys[left[i]] <= keys[right[j]]
        };
        if from_left {
            let x: usize = left[i];
            order.push(x);
            i = i + 1;
            proof {
                assert(order@[order.len() - 1] == x);
                assert forall|a: int| 0 <= a < i implies order@.contains(#[trigger] left[a]) by {
                    if a < i - 1 {
                        let k = choose|k: int| 0 <= k < was.len() && was[k] == left[a];
                        assert(order@[k] == left[a]);
                    }
                }
                assert forall|a: int| 0 <= a < j implies order@.contains(#[trigger] right[a]) by {
                    let k = choose|k: int| 0 <= k < was.len() && was[k] == right[a];
                    assert(order@[k] == right[a]);
                }
                assert forall|b: int| j <= b < right.len() implies before(
                    keys@,
                    x as int,
                    #[trigger] right[b] as int,
                ) by {
                    if b > j {
                        assert(before(keys@, right[j as int] as int, right[b] as int));
                    }
                }
            }
        } else {
            let x: usize = right[j];
            order.push(x);
            j = j + 1;
            proof {
                assert(order@[order.len() - 1] == x);
                assert forall|a: int| 0 <= a < i implies order@.contains(#[trigger] left[a]) by {
                    let k = choose|k: int| 0 <= k < was.len() && was[k] == left[a];
                    assert(order@[k] == left[a]);
                }
                assert forall|a: int| 0 <= a < j implies order@.contains(#[trigger] right[a]) by {
                    if a < j - 1 {
                        let k = choose|k: int| 0 <= k < was.len() && was[k] == right[a];
                        assert(order@[k] == right[a]);
                    }
                }
                assert forall|b: int| i <= b < left.len() implies before(
                    keys@,
                    x as int,
                    #[trigger] left[b] as int,
                ) by {
                    if b > i {
                        assert(before(keys@, left[i as int] as int, left[b] as int));
                    }
                }
            }
        }
    }
    proof {
        assert forall|x: usize| lo <= x < hi implies #[trigger] order@.contains(x) by {
            if x < mid {
                assert(left@.contains(x));
                let k = choose|k: int| 0 <= k < left.len() && left[k] == x;
                assert(order@.contains(left[k]));
            } else {
                assert(right@.contains(x));
                let k = choose|k: int| 0 <= k < right.len() && right[k] == x;
                assert(order@.contains(right[k]));
            }
        }
    }
    order
}

} // verus!
