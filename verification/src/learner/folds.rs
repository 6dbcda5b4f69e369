//! The folds of cross-validation.

use vstd::prelude::*;

use crate::random::is_permutation;

verus! {

/// The rows of fold `f` among the first `n` of an order that is dealt out to
/// `nfold` folds in turn.
pub open spec fn fold(order: Seq<usize>, nfold: int, f: int, n: int) -> Seq<usize>
    decreases n,
{
    if n <= 0 {
        Seq::empty()
    } else {
        let rest = fold(order, nfold, f, n - 1);
        if (n - 1) % nfold == f { rest.push(order[n - 1]) } else { rest }
    }
}

/// The rows of the first `g` folds but fold `f`.
pub open spec fn other_folds(order: Seq<usize>, nfold: int, f: int, g: int) -> Seq<usize>
    decreases g,
{
    if g <= 0 {
        Seq::empty()
    } else {
        let rest = other_folds(order, nfold, f, g - 1);
        if g - 1 == f {
            rest
        } else {
            rest + fold(order, nfold, g - 1, order.len() as int)
        }
    }
}

/// The folds take equal shares: each has the rounded quotient of rows, and the
/// first ones one more as far as the remainder goes.
pub proof fn folds_take_equal_shares(order: Seq<usize>, nfold: int, f: int, n: int)
    requires
        0 <= n <= order.len(),
        0 <= f < nfold,
    ensures
        fold(order, nfold, f, n).len() == n / nfold + if f < n % nfold {
            1int
        } else {
            0
        },
    decreases n,
{
    if n <= 0 {
        assert(0int / nfold == 0 && 0int % nfold == 0) by (nonlinear_arith)
            requires
                nfold > 0,
        ;
    } else {
        folds_take_equal_shares(order, nfold, f, n - 1);
        let q = (n - 1) / nfold;
        let r = (n - 1) % nfold;
        vstd::arithmetic::div_mod::lemma_fundamental_div_mod(n - 1, nfold);
        if r + 1 < nfold {
            assert(n == q * nfold + (r + 1)) by (nonlinear_arith)
                requires
                    n - 1 == nfold * q + r,
            ;
            vstd::arithmetic::div_mod::lemma_fundamental_div_mod_converse(n, nfold, q, r + 1);
        } else {
            assert(n == (q + 1) * nfold + 0) by (nonlinear_arith)
                requires
                    n - 1 == nfold * q + r,
                    r + 1 == nfold,
            ;
            vstd::arithmetic::div_mod::lemma_fundamental_div_mod_converse(n, nfold, q + 1, 0);
        }
    }
}

/// A fold holds what stands at its places of the order, and nothing else.
pub proof fn fold_members(order: Seq<usize>, nfold: int, f: int, n: int, x: usize)
    requires
        0 <= n <= order.len(),
        0 <= f < nfold,
    ensures
        fold(order, nfold, f, n).contains(x) <==> exists|i: int|
            0 <= i < n && i % nfold == f && #[trigger] order[i] == x,
    decreases n,
{
    let s = fold(order, nfold, f, n);
    if n > 0 {
        fold_members(order, nfold, f, n - 1, x);
        let rest = fold(order, nfold, f, n - 1);
        if (n - 1) % nfold == f {
            if s.contains(x) {
                let j = choose|j: int| 0 <= j < s.len() && s[j] == x;
                if j < rest.len() {
                    assert(rest[j] == x);
                    assert(rest.contains(x));
                } else {
                    assert(order[n - 1] == x);
                }
            }
            if exists|i: int| 0 <= i < n && i % nfold == f && #[trigger] order[i] == x {
                let i = choose|i: int| 0 <= i < n && i % nfold == f && #[trigger] order[i] == x;
                if i == n - 1 {
                    assert(s[rest.len() as int] == x);
                } else {
                    assert(rest.contains(x));
                    let j = choose|j: int| 0 <= j < rest.len() && rest[j] == x;
                    assert(s[j] == x);
                }
            }
        }
    }
}

/// Every row is in exactly one fold.
pub proof fn folds_part_the_rows(order: Seq<usize>, nfold: int, x: usize)
    requires
        is_permutation(order, order.len() as int),
        0 < nfold,
        x < order.len(),
    ensures
        exists|f: int|
            0 <= f < nfold && (#[trigger] fold(
                order,
                nfold,
                f,
                order.len() as int,
            )).contains(x) && forall|g: int|
                0 <= g < nfold && (#[trigger] fold(
                    order,
                    nfold,
                    g,
                    order.len() as int,
                )).contains(x) ==> g == f,
{
    let n = order.len() as int;
    assert(order.contains(x));
    let i = choose|i: int| 0 <= i < order.len() && order[i] == x;
    let f = i % nfold;
    assert(0 <= f < nfold) by (nonlinear_arith)
        requires
            0 < nfold,
            f == i % nfold,
    ;
    fold_members(order, nfold, f, n, x);
    assert(fold(order, nfold, f, n).contains(x));
    assert forall|g: int| 0 <= g < nfold && (#[trigger] fold(order, nfold, g, n)).contains(
        x,
    ) implies g == f by {
        fold_members(order, nfold, g, n, x);
        let j = choose|j: int| 0 <= j < n && j % nfold == g && #[trigger] order[j] == x;
        assert(order[j] == order[i]);
        assert(i == j);
    }
}

/// The rows of a fold and of the other folds exist.
pub proof fn fold_rows_exist(order: Seq<usize>, nfold: int, f: int, n: int, rows: int)
    requires
        0 <= n <= order.len(),
        forall|i: int| 0 <= i < order.len() ==> #[trigger] order[i] < rows,
    ensures
        fold(order, nfold, f, n).len() <= n,
        forall|i: int|
            0 <= i < fold(order, nfold, f, n).len() ==> #[trigger] fold(order, nfold, f, n)[i]
                < rows,
    decreases n,
{
    if n > 0 {
        fold_rows_exist(order, nfold, f, n - 1, rows);
    }
}

/// All folds together have as many rows as the order.
pub proof fn other_folds_are_counted(order: Seq<usize>, nfold: int, f: int, g: int, rows: int)
    requires
        0 <= f < nfold,
        0 <= g <= nfold,
        forall|i: int| 0 <= i < order.len() ==> #[trigger] order[i] < rows,
    ensures
        other_folds(order, nfold, f, g).len() + (if f < g {
            fold(order, nfold, f, order.len() as int).len()
        } else {
            0
        }) == fold_sizes(order, nfold, g, order.len() as int),
        forall|i: int|
            0 <= i < other_folds(order, nfold, f, g).len() ==> #[trigger] other_folds(
                order,
                nfold,
                f,
                g,
            )[i] < rows,
    decreases g,
{
    if g > 0 {
        other_folds_are_counted(order, nfold, f, g - 1, rows);
        fold_rows_exist(order, nfold, g - 1, order.len() as int, rows);
    }
}

/// The number of rows of the first `g` folds.
pub open spec fn fold_sizes(order: Seq<usize>, nfold: int, g: int, n: int) -> int
    decreases g,
{
    if g <= 0 {
        0
    } else {
        fold_sizes(order, nfold, g - 1, n) + fold(order, nfold, g - 1, n).len()
    }
}

proof fn sizes_after_a_row(order: Seq<usize>, nfold: int, g: int, n: int)
    requires
        0 < n <= order.len(),
        0 <= g <= nfold,
        0 < nfold,
    ensures
        fold_sizes(order, nfold, g, n) == fold_sizes(order, nfold, g, n - 1) + if (n - 1) % nfold
            < g {
            1int
        } else {
            0
        },
    decreases g,
{
    if g > 0 {
        sizes_after_a_row(order, nfold, g - 1, n);
    }
}

/// All folds together have all rows.
pub proof fn folds_have_all_rows(order: Seq<usize>, nfold: int, n: int)
    requires
        0 <= n <= order.len(),
        0 < nfold,
    ensures
        fold_sizes(order, nfold, nfold, n) == n,
    decreases n,
{
    if n > 0 {
        folds_have_all_rows(order, nfold, n - 1);
        sizes_after_a_row(order, nfold, nfold, n);
        assert(0 <= (n - 1) % nfold < nfold) by (nonlinear_arith)
            requires
                0 < nfold,
        ;
    } else {
        no_rows_no_sizes(order, nfold, nfold);
    }
}

proof fn no_rows_no_sizes(order: Seq<usize>, nfold: int, g: int)
    ensures
        fold_sizes(order, nfold, g, 0) == 0,
    decreases g,
{
    if g > 0 {
        no_rows_no_sizes(order, nfold, g - 1);
    }
}

/// Deal rows out to folds in turn.
pub fn deal(order: &Vec<usize>, nfold: usize) -> (r: Vec<Vec<usize>>)
    requires
        0 < nfold,
    ensures
        r.len() == nfold,
        forall|f: int|
            0 <= f < nfold ==> (#[trigger] r[f])@ == fold(
                order@,
                nfold as int,
                f,
                order.len() as int,
            ),
{
    let mut folds: Vec<Vec<usize>> = Vec::new();
    let mut f: usize = 0;
    while f < nfold
        invariant
            f <= nfold,
            folds.len() == f,
            forall|g: int| 0 <= g < f ==> (#[trigger] folds[g])@ == Seq::<usize>::empty(),
        decreases nfold - f,
    {
        folds.push(Vec::new());
        f = f + 1;
    }
    let mut i: usize = 0;
    while i < order.len()
        invariant
            0 < nfold,
            folds.len() == nfold,
            i <= order.len(),
            forall|g: int|
                0 <= g < nfold ==> (#[trigger] folds[g])@ == fold(
                    order@,
                    nfold as int,
                    g,
                    i as int,
                ),
        decreases order.len() - i,
    {
        let g: usize = i % nfold;
        let ghost before = folds@;
        folds[g].push(order[i]);
        proof {
            assert forall|h: int| 0 <= h < nfold implies (#[trigger] folds[h])@ == fold(
                order@,
                nfold as int,
                h,
                i + 1,
            ) by {
                assert(before[h]@ == fold(order@, nfold as int, h, i as int));
            }
        }
        i = i + 1;
    }
    folds
}

/// The rows of all folds but one.
pub(crate) fn rest_of(folds: &Vec<Vec<usize>>, f: usize, order: Ghost<Seq<usize>>) -> (r: Vec<usize>)
    requires
        f < folds.len(),
        forall|g: int|
            0 <= g < folds.len() ==> (#[trigger] folds[g])@ == fold(
                order@,
                folds.len() as int,
                g,
                order@.len() as int,
            ),
    ensures
        r@ == other_folds(order@, folds.len() as int, f as int, folds.len() as int),
{
    let mut out: Vec<usize> = Vec::new();
    let mut g: usize = 0;
    while g < folds.len()
        invariant
            forall|h: int|
                0 <= h < folds.len() ==> (#[trigger] folds[h])@ == fold(
                    order@,
                    folds.len() as int,
                    h,
                    order@.len() as int,
                ),
            g <= folds.len(),
            out@ == other_folds(order@, folds.len() as int, f as int, g as int),
        decreases folds.len() - g,
    {
        if g != f {
            let ghost before = out@;
            let mut i: usize = 0;
            assert(before + folds[g as int]@.take(0) =~= before);
            while i < folds[g].len()
                invariant
                    g < folds.len(),
                    i <= folds[g as int].len(),
                    out@ == before + folds[g as int]@.take(i as int),
                decreases folds[g as int].len() - i,
            {
                let row: usize = folds[g][i];
                out.push(row);
                i = i + 1;
                assert(out@ =~= before + folds[g as int]@.take(i as int));
            }
            assert(folds[g as int]@.take(folds[g as int].len() as int) =~= folds[g as int]@);
        }
        g = g + 1;
    }
    out
}

} // verus!
