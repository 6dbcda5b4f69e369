//! Feature contributions and interactions of a model's predictions.

use vstd::prelude::*;

use crate::arith::{Calc, Op};
use crate::data::dmatrix::DMatrix;
use crate::error::SequoiaError;
use crate::layout::{entry_place, place_entry};
use crate::learner::margin::walkable;
use crate::learner::model::BoostedModel;
use crate::learner::shap::{
    attributed, mean_value, node_mean_value, tree_shap_cond, Condition, PathElement,
};
use crate::number::{Single, Wide, HALF, ONE};

verus! {

/// The row of a dataset.
pub open spec fn row_cells(data: &DMatrix, row: int) -> spec_fn(u32) -> Option<Single> {
    |f: u32| data.cell(row, f as int)
}

/// The attributions of a row after tree `t`, whose output's attributions start
/// at place `off`.
pub open spec fn after_tree<F: Fn(Op, u64, u64) -> u64>(
    model: &BoostedModel,
    data: &DMatrix,
    row: int,
    acc: Seq<Wide>,
    t: int,
    condition: Condition,
    calc: &Calc<F>,
) -> Seq<Wide> {
    let one = Wide { bits: ONE };
    let tree = model.tree_list()[t];
    attributed(
        &tree,
        model.weight_list()[t],
        row_cells(data, row),
        0,
        Seq::empty(),
        one,
        one,
        -1i64,
        acc,
        (t % model.outputs()) * (model.width() + 1),
        condition,
        one,
        tree.node_list().len(),
        calc,
    )
}

/// The mean prediction of tree `t`.
pub open spec fn tree_mean<F: Fn(Op, u64, u64) -> u64>(
    model: &BoostedModel,
    t: int,
    calc: &Calc<F>,
) -> Wide {
    let tree = model.tree_list()[t];
    mean_value(&tree, model.weight_list()[t], 0, tree.node_list().len(), calc)
}

/// The attributions of a row after the first `n` trees, with the mean
/// predictions of trees in the bias columns.
pub open spec fn with_means<F: Fn(Op, u64, u64) -> u64>(
    model: &BoostedModel,
    data: &DMatrix,
    row: int,
    start: Seq<Wide>,
    n: int,
    calc: &Calc<F>,
) -> Seq<Wide>
    decreases n,
{
    if n <= 0 {
        start
    } else {
        let before = with_means(model, data, row, start, n - 1, calc);
        let after = after_tree(model, data, row, before, n - 1, Condition::Free, calc);
        let bias = ((n - 1) % model.outputs()) * (model.width() + 1) + model.width();
        after.update(bias, calc.plus(after[bias], tree_mean(model, n - 1, calc)))
    }
}

/// The attributions of a row under a condition after the first `n` trees.
pub open spec fn under_condition<F: Fn(Op, u64, u64) -> u64>(
    model: &BoostedModel,
    data: &DMatrix,
    row: int,
    condition: Condition,
    n: int,
    calc: &Calc<F>,
) -> Seq<Wide>
    decreases n,
{
    if n <= 0 {
        zeros(model.outputs() * (model.width() + 1))
    } else {
        after_tree(
            model,
            data,
            row,
            under_condition(model, data, row, condition, n - 1, calc),
            n - 1,
            condition,
            calc,
        )
    }
}

/// Zeros.
pub open spec fn zeros(n: int) -> Seq<Wide> {
    Seq::new(n as nat, |j: int| Wide { bits: 0 })
}

/// What a linear part adds at place `j` of a row's attributions: its weight
/// times the row's value, or its bias.
pub open spec fn linear_share<F: Fn(Op, u64, u64) -> u64>(
    model: &BoostedModel,
    data: &DMatrix,
    row: int,
    j: int,
    calc: &Calc<F>,
) -> Wide {
    let out = j / (model.width() + 1);
    let f = j % (model.width() + 1);
    match model.linear_part() {
        None => Wide { bits: 0 },
        Some(l) => if f == model.width() {
            calc.widened(l.biases()[out])
        } else {
            match data.cell(row, f) {
                Some(x) => calc.widened(
                    calc.times_s(x, l.coefficients()[f * model.outputs() + out]),
                ),
                None => Wide { bits: 0 },
            }
        },
    }
}

/// The attributions before any tree: what a linear part adds.
pub open spec fn linear_row<F: Fn(Op, u64, u64) -> u64>(
    model: &BoostedModel,
    data: &DMatrix,
    row: int,
    calc: &Calc<F>,
) -> Seq<Wide> {
    Seq::new(
        (model.outputs() * (model.width() + 1)) as nat,
        |j: int| linear_share(model, data, row, j, calc),
    )
}

/// The attributions before any tree, with the base score in the bias columns.
pub open spec fn base_row<F: Fn(Op, u64, u64) -> u64>(
    model: &BoostedModel,
    data: &DMatrix,
    row: int,
    calc: &Calc<F>,
) -> Seq<Wide> {
    let width = model.width() + 1;
    Seq::new(
        (model.outputs() * width) as nat,
        |j: int|
            if j % width == model.width() {
                calc.plus(linear_share(model, data, row, j, calc), calc.widened(model.base()))
            } else {
                linear_share(model, data, row, j, calc)
            },
    )
}

/// The contributions of a row: per output, one per feature and the bias.
pub open spec fn row_contribs<F: Fn(Op, u64, u64) -> u64>(
    model: &BoostedModel,
    data: &DMatrix,
    row: int,
    calc: &Calc<F>,
) -> Seq<Wide> {
    with_means(
        model,
        data,
        row,
        base_row(model, data, row, calc),
        model.tree_list().len() as int,
        calc,
    )
}

/// The contributions of all rows, row after row.
pub open spec fn contribs_of<F: Fn(Op, u64, u64) -> u64>(
    model: &BoostedModel,
    data: &DMatrix,
    calc: &Calc<F>,
) -> Seq<Single> {
    let per = model.outputs() * (model.width() + 1);
    Seq::new(
        (data.height() * per) as nat,
        |j: int| calc.narrowed(row_contribs(model, data, j / per, calc)[j % per]),
    )
}

/// The matrices of a row after the first `n` columns of feature `j`'s row in
/// the matrix that starts at `mbase` took up the interactions of `on` and
/// `off`, which start at `dbase`.
pub open spec fn with_columns<F: Fn(Op, u64, u64) -> u64>(
    mat: Seq<Wide>,
    on: Seq<Wide>,
    off: Seq<Wide>,
    mbase: int,
    dbase: int,
    width: int,
    j: int,
    n: int,
    calc: &Calc<F>,
) -> Seq<Wide>
    decreases n,
{
    if n <= 0 {
        mat
    } else {
        let m = with_columns(mat, on, off, mbase, dbase, width, j, n - 1, calc);
        let val = calc.times(
            Wide { bits: HALF },
            calc.minus(on[dbase + n - 1], off[dbase + n - 1]),
        );
        let cell = mbase + j * width + (n - 1);
        let diag = mbase + j * width + j;
        let raised = m.update(cell, calc.plus(m[cell], val));
        raised.update(diag, calc.minus(raised[diag], val))
    }
}

/// The matrices of a row after the first `n` outputs took up the interactions
/// of feature `j`.
pub open spec fn with_output_columns<F: Fn(Op, u64, u64) -> u64>(
    mat: Seq<Wide>,
    on: Seq<Wide>,
    off: Seq<Wide>,
    width: int,
    j: int,
    n: int,
    calc: &Calc<F>,
) -> Seq<Wide>
    decreases n,
{
    if n <= 0 {
        mat
    } else {
        with_columns(
            with_output_columns(mat, on, off, width, j, n - 1, calc),
            on,
            off,
            (n - 1) * (width * width),
            (n - 1) * width,
            width,
            j,
            width,
            calc,
        )
    }
}

/// The matrices of a row after the interactions of the first `n` features.
pub open spec fn with_interactions<F: Fn(Op, u64, u64) -> u64>(
    model: &BoostedModel,
    data: &DMatrix,
    row: int,
    mat: Seq<Wide>,
    n: int,
    calc: &Calc<F>,
) -> Seq<Wide>
    decreases n,
{
    if n <= 0 {
        mat
    } else {
        let all = model.tree_list().len() as int;
        let f = (n - 1) as u32;
        with_output_columns(
            with_interactions(model, data, row, mat, n - 1, calc),
            under_condition(model, data, row, Condition::Present(f), all, calc),
            under_condition(model, data, row, Condition::Absent(f), all, calc),
            model.width() + 1,
            n - 1,
            model.outputs(),
            calc,
        )
    }
}

/// The matrices of a row before interactions: contributions without the base
/// score on the diagonals.
pub open spec fn diagonals<F: Fn(Op, u64, u64) -> u64>(
    model: &BoostedModel,
    data: &DMatrix,
    row: int,
    calc: &Calc<F>,
) -> Seq<Wide> {
    let width = model.width() + 1;
    let square = width * width;
    let diag = with_means(
        model,
        data,
        row,
        linear_row(model, data, row, calc),
        model.tree_list().len() as int,
        calc,
    );
    Seq::new(
        (model.outputs() * square) as nat,
        |i: int|
            if (i % square) / width == (i % square) % width {
                diag[(i / square) * width + (i % square) % width]
            } else {
                Wide { bits: 0 }
            },
    )
}

/// The interaction matrices of a row, one per output.
pub open spec fn row_interactions<F: Fn(Op, u64, u64) -> u64>(
    model: &BoostedModel,
    data: &DMatrix,
    row: int,
    calc: &Calc<F>,
) -> Seq<Wide> {
    with_interactions(model, data, row, diagonals(model, data, row, calc), model.width(), calc)
}

/// The interaction matrices of all rows, row after row.
pub open spec fn interactions_of<F: Fn(Op, u64, u64) -> u64>(
    model: &BoostedModel,
    data: &DMatrix,
    calc: &Calc<F>,
) -> Seq<Single> {
    let width = model.width() + 1;
    let per = model.outputs() * (width * width);
    Seq::new(
        (data.height() * per) as nat,
        |j: int| calc.narrowed(row_interactions(model, data, j / per, calc)[j % per]),
    )
}

impl BoostedModel {
    /// Add the attributions of a row over one tree.
    fn shap_tree<F: Fn(Op, u64, u64) -> u64>(
        &self,
        data: &DMatrix,
        row: usize,
        acc: &mut Vec<Wide>,
        t: usize,
        k: usize,
        condition: Condition,
        calc: &Calc<F>,
    )
        requires
            self.well_formed(),
            self.reads(data),
            row < data.height(),
            k == self.outputs(),
            t < self.tree_list().len(),
            self.width() < usize::MAX,
            old(acc).len() == k * (self.width() + 1),
        ensures
            final(acc)@ == after_tree(
                self,
                data,
                row as int,
                old(acc)@,
                t as int,
                condition,
                calc,
            ),
            final(acc).len() == old(acc).len(),
    {
        let one = Wide { bits: ONE };
        let width: usize = self.n_features() + 1;
        let cls: usize = t % k;
        proof {
            entry_place(k as int, width as int, cls as int, self.width());
            assert(walkable(&self.tree_list()[t as int], self.width()));
            assert(data.readable_row(row as int));
        }
        let trees = self.trees();
        let weights = self.tree_weights();
        let start: Vec<PathElement> = Vec::new();
        assert(start@ =~= Seq::<PathElement>::empty());
        tree_shap_cond(
            &trees[t],
            weights[t],
            data,
            row,
            0,
            start,
            one,
            one,
            -1,
            acc,
            cls * width,
            condition,
            one,
            Ghost(self.width()),
            Ghost(trees[t as int].node_list().len()),
            calc,
        );
    }

    /// The mean predictions of all trees.
    fn tree_means<F: Fn(Op, u64, u64) -> u64>(&self, calc: &Calc<F>) -> (r: Vec<Wide>)
        requires
            self.well_formed(),
        ensures
            r.len() == self.tree_list().len(),
            forall|t: int|
                0 <= t < r.len() ==> #[trigger] r[t] == tree_mean(self, t, calc),
    {
        let trees = self.trees();
        let weights = self.tree_weights();
        let mut means: Vec<Wide> = Vec::new();
        let mut t: usize = 0;
        while t < trees.len()
            invariant
                self.well_formed(),
                trees@ == self.tree_list(),
                weights@ == self.weight_list(),
                t <= trees.len(),
                means.len() == t,
                forall|i: int| 0 <= i < t ==> #[trigger] means[i] == tree_mean(self, i, calc),
            decreases trees.len() - t,
        {
            assert(walkable(&self.tree_list()[t as int], self.width()));
            means.push(
                node_mean_value(
                    &trees[t],
                    weights[t],
                    0,
                    Ghost(trees[t as int].node_list().len()),
                    calc,
                ),
            );
            t = t + 1;
        }
        means
    }

    /// Add the attributions of a row over all trees, and their mean
    /// predictions.
    fn add_means<F: Fn(Op, u64, u64) -> u64>(
        &self,
        data: &DMatrix,
        row: usize,
        acc: &mut Vec<Wide>,
        means: &Vec<Wide>,
        k: usize,
        calc: &Calc<F>,
    )
        requires
            self.well_formed(),
            self.reads(data),
            row < data.height(),
            k == self.outputs(),
            k >= 1,
            self.width() < usize::MAX,
            old(acc).len() == k * (self.width() + 1),
            means.len() == self.tree_list().len(),
            forall|t: int|
                0 <= t < means.len() ==> #[trigger] means[t] == tree_mean(self, t, calc),
        ensures
            final(acc)@ == with_means(
                self,
                data,
                row as int,
                old(acc)@,
                self.tree_list().len() as int,
                calc,
            ),
            final(acc).len() == old(acc).len(),
    {
        let nf: usize = self.n_features();
        let width: usize = nf + 1;
        let mut t: usize = 0;
        while t < means.len()
            invariant
                self.well_formed(),
                self.reads(data),
                row < data.height(),
                k == self.outputs(),
                k >= 1,
                nf == self.width(),
                width == nf + 1,
                acc.len() == k * width,
                means.len() == self.tree_list().len(),
                forall|i: int|
                    0 <= i < means.len() ==> #[trigger] means[i] == tree_mean(self, i, calc),
                t <= means.len(),
                acc@ == with_means(self, data, row as int, old(acc)@, t as int, calc),
            decreases means.len() - t,
        {
            self.shap_tree(data, row, acc, t, k, Condition::Free, calc);
            let cls: usize = t % k;
            proof {
                entry_place(k as int, width as int, cls as int, nf as int);
            }
            let at: usize = cls * width + nf;
            let sum = calc.add(acc[at], means[t]);
            acc.set(at, sum);
            t = t + 1;
        }
    }

    /// The attributions of a row before any tree.
    fn start_row<F: Fn(Op, u64, u64) -> u64>(
        &self,
        data: &DMatrix,
        row: usize,
        k: usize,
        per: usize,
        calc: &Calc<F>,
    ) -> (r: Vec<Wide>)
        requires
            self.well_formed(),
            self.reads(data),
            row < data.height(),
            k == self.outputs(),
            self.width() < usize::MAX,
            per == k * (self.width() + 1),
        ensures
            r@ == linear_row(self, data, row as int, calc),
            r.len() == per,
    {
        let nf: usize = self.n_features();
        let width: usize = nf + 1;
        let mut acc: Vec<Wide> = Vec::new();
        let mut j: usize = 0;
        assert(data.readable_row(row as int));
        while j < per
            invariant
                self.well_formed(),
                self.reads(data),
                row < data.height(),
                data.readable_row(row as int),
                k == self.outputs(),
                nf == self.width(),
                width == nf + 1,
                per == k * width,
                j <= per,
                acc.len() == j,
                forall|i: int|
                    0 <= i < j ==> #[trigger] acc[i] == linear_share(
                        self,
                        data,
                        row as int,
                        i,
                        calc,
                    ),
            decreases per - j,
        {
            proof {
                place_entry(k as int, width as int, j as int);
            }
            let out: usize = j / width;
            let f: usize = j % width;
            let share = match self.linear() {
                None => Wide::zero(),
                Some(l) => if f == nf {
                    calc.widen(l.bias()[out])
                } else {
                    let weights = l.weights();
                    proof {
                        entry_place(nf as int, k as int, f as int, out as int);
                        assert(f * k <= f * k + out < weights.len());
                    }
                    match data.get(row, f) {
                        Some(x) => calc.widen(calc.mul_s(x, weights[f * k + out])),
                        None => Wide::zero(),
                    }
                },
            };
            acc.push(share);
            j = j + 1;
        }
        assert(acc@ =~= linear_row(self, data, row as int, calc));
        acc
    }

    /// The contributions of features to the predictions of every row, with the
    /// bias last: `n_rows * n_outputs * (n_features + 1)` numbers. The dataset
    /// may have fewer features than the model, as long as it has those that the
    /// model reads.
    pub fn predict_contribs<F: Fn(Op, u64, u64) -> u64>(
        &self,
        data: &DMatrix,
        calc: &Calc<F>,
    ) -> (r: Result<Vec<Single>, SequoiaError>)
        requires
            self.well_formed(),
            self.reads(data),
            self.width() < usize::MAX,
            data.height() * (self.outputs() * (self.width() + 1)) <= usize::MAX,
        ensures
            r matches Ok(c) && c@ == contribs_of(self, data, calc),
    {
        let n: usize = data.n_rows();
        let k: usize = self.n_outputs();
        let nf: usize = self.n_features();
        let width: usize = nf + 1;
        proof {
            data.shape();
            row_room(n as int, k as int, width as int);
        }
        let per: usize = k * width;
        let means = self.tree_means(calc);
        let base = calc.widen(self.base_score());
        let mut out: Vec<Single> = Vec::new();
        let mut row: usize = 0;
        proof {
            assert(0 * per == 0) by (nonlinear_arith);
        }
        while row < n
            invariant
                self.well_formed(),
                self.reads(data),
                n == data.height(),
                k == self.outputs(),
                k >= 1,
                nf == self.width(),
                width == nf + 1,
                per == k * width,
                per > 0,
                n * per <= usize::MAX,
                base == calc.widened(self.base()),
                means.len() == self.tree_list().len(),
                forall|t: int|
                    0 <= t < means.len() ==> #[trigger] means[t] == tree_mean(self, t, calc),
                row <= n,
                out.len() == row * per,
                forall|j: int|
                    0 <= j < out.len() ==> #[trigger] out[j] == contribs_of(self, data, calc)[j],
            decreases n - row,
        {
            let mut acc = self.start_row(data, row, k, per, calc);
            let mut c: usize = 0;
            while c < k
                invariant
                    nf == self.width(),
                    width == nf + 1,
                    k == self.outputs(),
                    per == k * width,
                    base == calc.widened(self.base()),
                    c <= k,
                    acc.len() == per,
                    forall|i: int|
                        0 <= i < per ==> #[trigger] acc[i] == if i < c * width {
                            base_row(self, data, row as int, calc)[i]
                        } else {
                            linear_row(self, data, row as int, calc)[i]
                        },
                decreases k - c,
            {
                proof {
                    entry_place(k as int, width as int, c as int, nf as int);
                    base_goes_to_its_column(self, data, row as int, c as int, calc);
                }
                let at: usize = c * width + nf;
                let ghost was = acc@;
                let sum = calc.add(acc[at], base);
                acc.set(at, sum);
                proof {
                    assert((c + 1) * width == c * width + width) by (nonlinear_arith);
                    assert forall|i: int| 0 <= i < per implies #[trigger] acc[i] == if i < (c + 1)
                        * width {
                        base_row(self, data, row as int, calc)[i]
                    } else {
                        linear_row(self, data, row as int, calc)[i]
                    } by {
                        assert(i != at ==> acc[i] == was[i]);
                        assert(was[i] == if i < c * width {
                            base_row(self, data, row as int, calc)[i]
                        } else {
                            linear_row(self, data, row as int, calc)[i]
                        });
                    }
                }
                c = c + 1;
            }
            assert(acc@ =~= base_row(self, data, row as int, calc));
            self.add_means(data, row, &mut acc, &means, k, calc);
            assert forall|i: int| 0 <= i < acc.len() implies contribs_of(
                self,
                data,
                calc,
            )[row * acc.len() + i] == calc.narrowed(#[trigger] acc[i]) by {
                entry_place(n as int, per as int, row as int, i);
            }
            push_row(&mut out, &acc, row, n, Ghost(contribs_of(self, data, calc)), calc);
            row = row + 1;
        }
        assert(out@ =~= contribs_of(self, data, calc));
        Ok(out)
    }

    /// The attributions of a row over all trees under a condition.
    fn condition_row<F: Fn(Op, u64, u64) -> u64>(
        &self,
        data: &DMatrix,
        row: usize,
        condition: Condition,
        k: usize,
        per: usize,
        calc: &Calc<F>,
    ) -> (r: Vec<Wide>)
        requires
            self.well_formed(),
            self.reads(data),
            row < data.height(),
            k == self.outputs(),
            self.width() < usize::MAX,
            per == k * (self.width() + 1),
        ensures
            r@ == under_condition(
                self,
                data,
                row as int,
                condition,
                self.tree_list().len() as int,
                calc,
            ),
            r.len() == per,
    {
        let mut acc: Vec<Wide> = vec![Wide::zero(); per];
        assert(acc@ =~= zeros(per as int));
        let n: usize = self.num_trees();
        let mut t: usize = 0;
        while t < n
            invariant
                self.well_formed(),
                self.reads(data),
                row < data.height(),
                k == self.outputs(),
                self.width() < usize::MAX,
                per == k * (self.width() + 1),
                n == self.tree_list().len(),
                acc.len() == per,
                t <= n,
                acc@ == under_condition(self, data, row as int, condition, t as int, calc),
            decreases n - t,
        {
            self.shap_tree(data, row, &mut acc, t, k, condition, calc);
            t = t + 1;
        }
        acc
    }

    /// The interactions of features in the predictions of every row: per row
    /// and output a square matrix over features and the bias. The dataset may
    /// have fewer features than the model, as long as it has those that the
    /// model reads.
    pub fn predict_interactions<F: Fn(Op, u64, u64) -> u64>(
        &self,
        data: &DMatrix,
        calc: &Calc<F>,
    ) -> (r: Result<Vec<Single>, SequoiaError>)
        requires
            self.well_formed(),
            self.reads(data),
            self.width() < u32::MAX,
            data.height() * (self.outputs() * ((self.width() + 1) * (self.width() + 1)))
                <= usize::MAX,
        ensures
            r matches Ok(c) && c@ == interactions_of(self, data, calc),
    {
        let n: usize = data.n_rows();
        let k: usize = self.n_outputs();
        let nf: usize = self.n_features();
        let width: usize = nf + 1;
        proof {
            data.shape();
            matrix_room(n as int, k as int, width as int);
        }
        let square: usize = width * width;
        let per: usize = k * square;
        let line: usize = k * width;
        let means = self.tree_means(calc);
        let mut out: Vec<Single> = Vec::new();
        let mut row: usize = 0;
        proof {
            assert(0 * per == 0) by (nonlinear_arith);
        }
        while row < n
            invariant
                self.well_formed(),
                self.reads(data),
                n == data.height(),
                k == self.outputs(),
                k >= 1,
                nf == self.width(),
                nf < u32::MAX,
                width == nf + 1,
                square == width * width,
                per == k * square,
                per > 0,
                line == k * width,
                n * per <= usize::MAX,
                means.len() == self.tree_list().len(),
                forall|t: int|
                    0 <= t < means.len() ==> #[trigger] means[t] == tree_mean(self, t, calc),
                row <= n,
                out.len() == row * per,
                forall|j: int|
                    0 <= j < out.len() ==> #[trigger] out[j] == interactions_of(
                        self,
                        data,
                        calc,
                    )[j],
            decreases n - row,
        {
            let mut diag = self.start_row(data, row, k, line, calc);
            self.add_means(data, row, &mut diag, &means, k, calc);
            let mut mat = spread_diagonal(&diag, k, width, square, per);
            assert(mat@ =~= diagonals(self, data, row as int, calc));
            let ghost start = mat@;
            let mut j: usize = 0;
            while j < nf
                invariant
                    self.well_formed(),
                    self.reads(data),
                    row < data.height(),
                    k == self.outputs(),
                    k >= 1,
                    nf == self.width(),
                    nf < u32::MAX,
                    width == nf + 1,
                    square == width * width,
                    per == k * square,
                    line == k * width,
                    mat.len() == per,
                    j <= nf,
                    mat@ == with_interactions(self, data, row as int, start, j as int, calc),
                decreases nf - j,
            {
                let on = self.condition_row(
                    data,
                    row,
                    Condition::Present(j as u32),
                    k,
                    line,
                    calc,
                );
                let off = self.condition_row(
                    data,
                    row,
                    Condition::Absent(j as u32),
                    k,
                    line,
                    calc,
                );
                take_up(&mut mat, &on, &off, k, width, square, j, calc);
                j = j + 1;
            }
            assert forall|i: int| 0 <= i < mat.len() implies interactions_of(
                self,
                data,
                calc,
            )[row * mat.len() + i] == calc.narrowed(#[trigger] mat[i]) by {
                entry_place(n as int, per as int, row as int, i);
            }
            push_row(&mut out, &mat, row, n, Ghost(interactions_of(self, data, calc)), calc);
            row = row + 1;
        }
        assert(out@ =~= interactions_of(self, data, calc));
        Ok(out)
    }
}

proof fn base_goes_to_its_column<F: Fn(Op, u64, u64) -> u64>(
    model: &BoostedModel,
    data: &DMatrix,
    row: int,
    c: int,
    calc: &Calc<F>,
)
    requires
        0 <= c < model.outputs(),
        0 <= model.width(),
    ensures
        ({
            let width = model.width() + 1;
            forall|i: int|
                c * width <= i < (c + 1) * width ==> #[trigger] base_row(
                    model,
                    data,
                    row,
                    calc,
                )[i] == if i == c * width + model.width() {
                    calc.plus(
                        linear_row(model, data, row, calc)[i],
                        calc.widened(model.base()),
                    )
                } else {
                    linear_row(model, data, row, calc)[i]
                }
        }),
{
    let k = model.outputs();
    let width = model.width() + 1;
    assert((c + 1) * width == c * width + width) by (nonlinear_arith);
    assert forall|i: int| c * width <= i < (c + 1) * width implies #[trigger] base_row(
        model,
        data,
        row,
        calc,
    )[i] == if i == c * width + model.width() {
        calc.plus(linear_row(model, data, row, calc)[i], calc.widened(model.base()))
    } else {
        linear_row(model, data, row, calc)[i]
    } by {
        entry_place(k, width, c, i - c * width);
    }
}

proof fn row_room(n: int, k: int, width: int)
    requires
        1 <= n,
        1 <= k,
        1 <= width,
        n * (k * width) <= usize::MAX,
    ensures
        0 < k * width <= usize::MAX,
{
    assert(0 < k * width && k * width <= n * (k * width)) by (nonlinear_arith)
        requires
            1 <= n,
            1 <= k,
            1 <= width,
    ;
}

proof fn matrix_room(n: int, k: int, width: int)
    requires
        1 <= n,
        1 <= k,
        1 <= width,
        n * (k * (width * width)) <= usize::MAX,
    ensures
        0 < width * width <= usize::MAX,
        0 < k * (width * width) <= usize::MAX,
        0 < k * width <= usize::MAX,
{
    let square = width * width;
    assert(0 < square && width <= square) by (nonlinear_arith)
        requires
            1 <= width,
            square == width * width,
    ;
    row_room(n, k, square);
    assert(square <= k * square && 0 < k * width && k * width <= k * square) by (nonlinear_arith)
        requires
            1 <= k,
            1 <= width <= square,
    ;
}

/// Append a row of numbers in single precision.
fn push_row<F: Fn(Op, u64, u64) -> u64>(
    out: &mut Vec<Single>,
    acc: &Vec<Wide>,
    row: usize,
    n: usize,
    goal: Ghost<Seq<Single>>,
    calc: &Calc<F>,
)
    requires
        row < n,
        acc.len() > 0,
        goal@.len() == n * acc.len(),
        old(out).len() == row * acc.len(),
        forall|j: int| 0 <= j < old(out).len() ==> #[trigger] old(out)[j] == goal@[j],
        forall|i: int|
            0 <= i < acc.len() ==> goal@[row * acc.len() + i] == calc.narrowed(#[trigger] acc[i]),
    ensures
        final(out).len() == (row + 1) * acc.len(),
        forall|j: int| 0 <= j < final(out).len() ==> #[trigger] final(out)[j] == goal@[j],
{
    let ghost from = out.len();
    let mut i: usize = 0;
    while i < acc.len()
        invariant
            from == row * acc.len(),
            forall|k: int|
                0 <= k < acc.len() ==> goal@[from + k] == calc.narrowed(#[trigger] acc[k]),
            i <= acc.len(),
            out.len() == from + i,
            forall|j: int| 0 <= j < out.len() ==> #[trigger] out[j] == goal@[j],
        decreases acc.len() - i,
    {
        assert(goal@[from + i] == calc.narrowed(acc[i as int]));
        out.push(calc.narrow(acc[i]));
        i = i + 1;
    }
    proof {
        let per = acc.len() as int;
        assert((row + 1) * per == row * per + per) by (nonlinear_arith);
    }
}

/// Matrices with the given diagonals.
fn spread_diagonal(
    diag: &Vec<Wide>,
    k: usize,
    width: usize,
    square: usize,
    per: usize,
) -> (r: Vec<Wide>)
    requires
        1 <= width,
        square == width * width,
        per == k * square,
        diag.len() == k * width,
    ensures
        r.len() == per,
        forall|i: int|
            0 <= i < per ==> #[trigger] r[i] == (if (i % (square as int)) / (width as int) == (i % (
            square as int)) % (width as int) {
                diag[(i / (square as int)) * width + (i % (square as int)) % (width as int)]
            } else {
                Wide { bits: 0 }
            }),
{
    let mut out: Vec<Wide> = Vec::new();
    let mut i: usize = 0;
    while i < per
        invariant
            1 <= width,
            square == width * width,
            per == k * square,
            diag.len() == k * width,
            i <= per,
            out.len() == i,
            forall|q: int|
                0 <= q < i ==> #[trigger] out[q] == (if (q % (square as int)) / (width as int) == (q
                    % (square as int)) % (width as int) {
                    diag[(q / (square as int)) * width + (q % (square as int)) % (width as int)]
                } else {
                    Wide { bits: 0 }
                }),
        decreases per - i,
    {
        proof {
            assert(0 < width * width) by (nonlinear_arith)
                requires
                    1 <= width,
            ;
            place_entry(k as int, square as int, i as int);
            place_entry(width as int, width as int, i as int % (square as int));
            entry_place(
                k as int,
                width as int,
                i as int / (square as int),
                (i as int % (square as int)) % (width as int),
            );
        }
        let c: usize = i / square;
        let a: usize = (i % square) / width;
        let b: usize = (i % square) % width;
        out.push(
            if a == b {
                diag[c * width + b]
            } else {
                Wide::zero()
            },
        );
        i = i + 1;
    }
    out
}

/// Take up the interactions of feature `j` in the matrices of all outputs.
fn take_up<F: Fn(Op, u64, u64) -> u64>(
    mat: &mut Vec<Wide>,
    on: &Vec<Wide>,
    off: &Vec<Wide>,
    k: usize,
    width: usize,
    square: usize,
    j: usize,
    calc: &Calc<F>,
)
    requires
        j < width,
        square == width * width,
        old(mat).len() == k * square,
        on.len() == k * width,
        off.len() == k * width,
    ensures
        final(mat)@ == with_output_columns(
            old(mat)@,
            on@,
            off@,
            width as int,
            j as int,
            k as int,
            calc,
        ),
        final(mat).len() == old(mat).len(),
{
    let mut c: usize = 0;
    while c < k
        invariant
            j < width,
            square == width * width,
            mat.len() == k * square,
            on.len() == k * width,
            off.len() == k * width,
            c <= k,
            mat@ == with_output_columns(
                old(mat)@,
                on@,
                off@,
                width as int,
                j as int,
                c as int,
                calc,
            ),
        decreases k - c,
    {
        let ghost start = mat@;
        proof {
            entry_place(width as int, width as int, j as int, j as int);
            entry_place(k as int, square as int, c as int, j * width + j);
            entry_place(k as int, width as int, c as int, j as int);
        }
        let mbase: usize = c * square;
        let dbase: usize = c * width;
        let diag: usize = mbase + j * width + j;
        let mut q: usize = 0;
        while q < width
            invariant
                j < width,
                c < k,
                square == width * width,
                mat.len() == k * square,
                on.len() == k * width,
                off.len() == k * width,
                mbase == c * square,
                dbase == c * width,
                diag == mbase + j * width + j,
                diag < mat.len(),
                q <= width,
                mat@ == with_columns(
                    start,
                    on@,
                    off@,
                    mbase as int,
                    dbase as int,
                    width as int,
                    j as int,
                    q as int,
                    calc,
                ),
            decreases width - q,
        {
            proof {
                entry_place(width as int, width as int, j as int, q as int);
                entry_place(k as int, square as int, c as int, j * width + q);
                entry_place(k as int, width as int, c as int, q as int);
            }
            let half = Wide { bits: HALF };
            let val = calc.mul(half, calc.sub(on[dbase + q], off[dbase + q]));
            let cell: usize = mbase + j * width + q;
            let up = calc.add(mat[cell], val);
            mat.set(cell, up);
            let down = calc.sub(mat[diag], val);
            mat.set(diag, down);
            q = q + 1;
        }
        c = c + 1;
    }
}

} // verus!
