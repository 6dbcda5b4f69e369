//! Raw margins: where they start, and what trees add to them.
//!
//! Margins are laid out row after row, with one entry per output.

use vstd::prelude::*;

use crate::arith::{Calc, Op};
use crate::data::dmatrix::DMatrix;
use crate::layout::{entry_place, place_entry};
use crate::number::{Single, ONE_S};
use crate::tree::builder::exact::features_exist;
use crate::tree::regtree::RegTree;

verus! {

/// The margins that boosting starts from: the base score everywhere, unless the
/// dataset has base margins per row, or per row and output.
pub open spec fn start_margins(data: &DMatrix, base: Single, k: int) -> Seq<Single> {
    let n = data.height();
    Seq::new(
        (n * k) as nat,
        |j: int|
            match data.margin_list() {
                Some(b) => if b.len() == n * k {
                    b[j]
                } else if b.len() == n {
                    b[j / k]
                } else {
                    base
                },
                None => base,
            },
    )
}

/// The margins that boosting starts from.
pub fn init_margin(data: &DMatrix, base_margin: Single, n_out: usize) -> (r: Vec<Single>)
    requires
        data.well_formed(),
        data.height() * n_out <= usize::MAX,
    ensures
        r@ == start_margins(data, base_margin, n_out as int),
{
    let n: usize = data.n_rows();
    let len: usize = n * n_out;
    let mut m: Vec<Single> = vec![base_margin; len];
    if let Some(bm) = data.base_margin() {
        if bm.len() == len {
            let m = vstd::slice::slice_to_vec(bm);
            assert(m@ =~= start_margins(data, base_margin, n_out as int));
            return m;
        } else if bm.len() == n {
            let mut r: usize = 0;
            while r < n
                invariant
                    n == data.height(),
                    bm.len() == n,
                    len == n * n_out,
                    m.len() == len,
                    r <= n,
                    forall|j: int|
                        0 <= j < len && j / (n_out as int) < r ==> #[trigger] m[j] == bm[j / (
                        n_out as int)],
                decreases n - r,
            {
                let mut k: usize = 0;
                while k < n_out
                    invariant
                        n == data.height(),
                        bm.len() == n,
                        len == n * n_out,
                        m.len() == len,
                        r < n,
                        k <= n_out,
                        forall|j: int|
                            0 <= j < len && (j / (n_out as int) < r || (j / (n_out as int) == r
                                && j % (n_out as int) < k)) ==> #[trigger] m[j] == bm[j / (
                            n_out as int)],
                    decreases n_out - k,
                {
                    proof {
                        entry_place(n as int, n_out as int, r as int, k as int);
                    }
                    let ghost was = m@;
                    m.set(r * n_out + k, bm[r]);
                    proof {
                        assert forall|j: int|
                            0 <= j < len && (j / (n_out as int) < r || (j / (n_out as int) == r
                                && j % (n_out as int) < k + 1)) implies #[trigger] m[j] == bm[j / (
                        n_out as int)] by {
                            place_entry(n as int, n_out as int, j);
                            if j != r * n_out + k {
                                assert(m[j] == was[j]);
                            }
                        }
                    }
                    k = k + 1;
                }
                proof {
                    assert forall|j: int| 0 <= j < len && j / (n_out as int) < r + 1 implies
                        #[trigger] m[j] == bm[j / (n_out as int)] by {
                        place_entry(n as int, n_out as int, j);
                    }
                }
                r = r + 1;
            }
            proof {
                assert forall|j: int| 0 <= j < len implies #[trigger] m[j] == bm[j / (
                n_out as int)] by {
                    if n_out > 0 {
                        place_entry(n as int, n_out as int, j);
                    } else {
                        assert(n * 0 == 0) by (nonlinear_arith);
                    }
                }
            }
        }
    }
    assert(m@ =~= start_margins(data, base_margin, n_out as int));
    m
}

/// The leaf weight that a tree gives a row.
pub open spec fn tree_value(tree: &RegTree, data: &DMatrix, row: int) -> Single {
    tree.node_list()[tree.leaf_of(|f: u32| data.cell(row, f as int))].leaf_value
}

/// A leaf weight times the weight of its tree; a tree of weight one counts as
/// it is.
pub open spec fn weighed<F: Fn(Op, u64, u64) -> u64>(
    weight: Single,
    value: Single,
    calc: &Calc<F>,
) -> Single {
    if weight.bits == ONE_S { value } else { calc.times_s(weight, value) }
}

/// Margins after a tree is added to one of `k` outputs.
pub open spec fn with_tree<F: Fn(Op, u64, u64) -> u64>(
    m: Seq<Single>,
    tree: &RegTree,
    weight: Single,
    data: &DMatrix,
    out: int,
    k: int,
    calc: &Calc<F>,
) -> Seq<Single> {
    Seq::new(
        m.len(),
        |j: int|
            if j % k == out {
                calc.plus_s(m[j], weighed(weight, tree_value(tree, data, j / k), calc))
            } else {
                m[j]
            },
    )
}

/// Whether a tree can be walked with rows of `width` features.
pub open spec fn walkable(tree: &RegTree, width: int) -> bool {
    tree.sound() && features_exist(tree.node_list(), width)
}

/// Add a tree to one of `n_out` outputs.
pub fn add_tree<F: Fn(Op, u64, u64) -> u64>(
    m: &mut Vec<Single>,
    tree: &RegTree,
    weight: Single,
    data: &DMatrix,
    out: usize,
    n_out: usize,
    calc: &Calc<F>,
)
    requires
        data.well_formed(),
        data.readable(),
        walkable(tree, data.width()),
        out < n_out,
        old(m).len() == data.height() * n_out,
    ensures
        final(m)@ == with_tree(old(m)@, tree, weight, data, out as int, n_out as int, calc),
        final(m).len() == old(m).len(),
{
    let n: usize = data.n_rows();
    let ghost k = n_out as int;
    let mut row: usize = 0;
    while row < n
        invariant
            data.well_formed(),
            data.readable(),
            walkable(tree, data.width()),
            out < n_out,
            k == n_out,
            n == data.height(),
            m.len() == n * n_out,
            old(m).len() == n * n_out,
            row <= n,
            forall|j: int|
                0 <= j < m.len() ==> #[trigger] m[j] == (if j % k == out && j / k < row {
                    with_tree(old(m)@, tree, weight, data, out as int, k, calc)[j]
                } else {
                    old(m)[j]
                }),
        decreases n - row,
    {
        proof {
            entry_place(n as int, k, row as int, out as int);
            assert(data.readable_row(row as int));
        }
        let v = tree.predict_row(data, row);
        let part = if weight.bits == ONE_S { v } else { calc.mul_s(weight, v) };
        let at: usize = row * n_out + out;
        let ghost was = m@;
        m.set(at, calc.add_s(m[at], part));
        proof {
            assert forall|j: int| 0 <= j < m.len() implies #[trigger] m[j] == (if j % k == out && j
                / k < row + 1 {
                with_tree(old(m)@, tree, weight, data, out as int, k, calc)[j]
            } else {
                old(m)[j]
            }) by {
                place_entry(n as int, k, j);
                if j != at {
                    assert(m[j] == was[j]);
                }
            }
        }
        row = row + 1;
    }
    proof {
        assert forall|j: int| 0 <= j < m.len() implies #[trigger] m[j] == with_tree(
            old(m)@,
            tree,
            weight,
            data,
            out as int,
            k,
            calc,
        )[j] by {
            place_entry(n as int, k, j);
        }
        assert(m@ =~= with_tree(old(m)@, tree, weight, data, out as int, k, calc));
    }
}

/// Whether tree `t` is left out.
pub open spec fn left_out(dropped: Seq<bool>, t: int) -> bool {
    t < dropped.len() && dropped[t]
}

/// The margins of the first `n` trees, tree `t` adding to output `t % k`, less
/// the trees that are left out.
pub open spec fn margins_of<F: Fn(Op, u64, u64) -> u64>(
    trees: Seq<RegTree>,
    weights: Seq<Single>,
    dropped: Seq<bool>,
    data: &DMatrix,
    base: Single,
    k: int,
    n: int,
    calc: &Calc<F>,
) -> Seq<Single>
    decreases n,
{
    if n <= 0 {
        start_margins(data, base, k)
    } else {
        let rest = margins_of(trees, weights, dropped, data, base, k, n - 1, calc);
        if left_out(dropped, n - 1) {
            rest
        } else {
            with_tree(rest, &trees[n - 1], weights[n - 1], data, (n - 1) % k, k, calc)
        }
    }
}

/// There is one margin per row and output.
pub proof fn margins_fill_the_table<F: Fn(Op, u64, u64) -> u64>(
    trees: Seq<RegTree>,
    weights: Seq<Single>,
    dropped: Seq<bool>,
    data: &DMatrix,
    base: Single,
    k: int,
    n: int,
    calc: &Calc<F>,
)
    requires
        0 <= data.height() * k,
    ensures
        margins_of(trees, weights, dropped, data, base, k, n, calc).len() == data.height() * k,
    decreases n,
{
    if n > 0 {
        margins_fill_the_table(trees, weights, dropped, data, base, k, n - 1, calc);
    }
}

/// The margins of the first trees do not depend on the later ones.
pub proof fn margins_of_a_prefix<F: Fn(Op, u64, u64) -> u64>(
    trees: Seq<RegTree>,
    weights: Seq<Single>,
    more_trees: Seq<RegTree>,
    more_weights: Seq<Single>,
    dropped: Seq<bool>,
    data: &DMatrix,
    base: Single,
    k: int,
    n: int,
    calc: &Calc<F>,
)
    requires
        n <= trees.len() <= more_trees.len(),
        n <= weights.len() <= more_weights.len(),
        forall|t: int| 0 <= t < n ==> #[trigger] trees[t] == more_trees[t],
        forall|t: int| 0 <= t < n ==> #[trigger] weights[t] == more_weights[t],
    ensures
        margins_of(trees, weights, dropped, data, base, k, n, calc) == margins_of(
            more_trees,
            more_weights,
            dropped,
            data,
            base,
            k,
            n,
            calc,
        ),
    decreases n,
{
    if n > 0 {
        margins_of_a_prefix(
            trees,
            weights,
            more_trees,
            more_weights,
            dropped,
            data,
            base,
            k,
            n - 1,
            calc,
        );
        assert(trees[n - 1] == more_trees[n - 1]);
        assert(weights[n - 1] == more_weights[n - 1]);
    }
}

} // verus!
