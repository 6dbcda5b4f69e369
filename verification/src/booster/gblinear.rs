//! The linear booster: a generalized linear model fit by coordinate descent.
//!
//! Each round takes the objective's gradients at the current margins, and then
//! moves, for every output, the bias and the weight of every feature by the
//! closed-form step. Margins and gradients follow every move.

use vstd::prelude::*;

use crate::arith::{Calc, Op};
use crate::config::TrainingParams;
use crate::data::dmatrix::DMatrix;
use crate::error::SequoiaError;
use crate::layout::entry_place;
use crate::learner::boost::gradients_at;
use crate::learner::model::LinearModel;
use crate::number::{Single, Wide};
use crate::objective::base::Objective;
use crate::objective::pair::{zero_pair, GradPair};

verus! {

/// The bit pattern of the least sum of Hessians that allows a step, `1e-5`.
pub const LEAST_SUM: u64 = 0x3ee4_f8b5_88e3_68f1;

/// The step of a weight under L1 and L2 regularization, held so that the weight
/// does not cross zero.
pub open spec fn weight_step<F: Fn(Op, u64, u64) -> u64>(
    sum_grad: Wide,
    sum_hess: Wide,
    w: Wide,
    alpha: Wide,
    lambda: Wide,
    calc: &Calc<F>,
) -> Wide {
    if sum_hess.lt(Wide { bits: LEAST_SUM }) {
        Wide { bits: 0 }
    } else {
        let g = calc.plus(sum_grad, calc.times(lambda, w));
        let h = calc.plus(sum_hess, lambda);
        if (Wide { bits: 0 }).le(calc.minus(w, calc.over(g, h))) {
            calc.over(calc.plus(g, alpha).negated(), h).greater(w.negated())
        } else {
            calc.over(calc.minus(g, alpha).negated(), h).lesser(w.negated())
        }
    }
}

/// The step of a weight.
pub fn coordinate_delta<F: Fn(Op, u64, u64) -> u64>(
    sum_grad: Wide,
    sum_hess: Wide,
    w: Wide,
    alpha: Wide,
    lambda: Wide,
    calc: &Calc<F>,
) -> (r: Wide)
    ensures
        r == weight_step(sum_grad, sum_hess, w, alpha, lambda, calc),
{
    let least = Wide { bits: LEAST_SUM };
    if sum_hess.is_lt(least) {
        return Wide::zero();
    }
    let g = calc.add(sum_grad, calc.mul(lambda, w));
    let h = calc.add(sum_hess, lambda);
    let tmp = calc.sub(w, calc.div(g, h));
    if Wide::zero().is_le(tmp) {
        calc.div(calc.add(g, alpha).neg(), h).max(w.neg())
    } else {
        calc.div(calc.sub(g, alpha).neg(), h).min(w.neg())
    }
}

/// The step of a bias.
pub open spec fn bias_step<F: Fn(Op, u64, u64) -> u64>(
    sum_grad: Wide,
    sum_hess: Wide,
    calc: &Calc<F>,
) -> Wide {
    if sum_hess.lt(Wide { bits: LEAST_SUM }) {
        Wide { bits: 0 }
    } else {
        calc.over(sum_grad.negated(), sum_hess)
    }
}

/// The step of a bias.
pub fn bias_delta<F: Fn(Op, u64, u64) -> u64>(
    sum_grad: Wide,
    sum_hess: Wide,
    calc: &Calc<F>,
) -> (r: Wide)
    ensures
        r == bias_step(sum_grad, sum_hess, calc),
{
    let least = Wide { bits: LEAST_SUM };
    if sum_hess.is_lt(least) {
        return Wide::zero();
    }
    calc.div(sum_grad.neg(), sum_hess)
}

/// The values of feature `f` in the first `n` rows that are neither missing nor
/// zero.
pub open spec fn nonzero_column(data: &DMatrix, f: int, n: int) -> Seq<(u32, Single)>
    decreases n,
{
    if n <= 0 {
        Seq::empty()
    } else {
        let rest = nonzero_column(data, f, n - 1);
        match data.cell(n - 1, f) {
            Some(x) => if x.same(Single { bits: 0 }) {
                rest
            } else {
                rest.push(((n - 1) as u32, x))
            },
            None => rest,
        }
    }
}

/// A linear model as it is being fit.
#[verifier::ext_equal]
pub struct Fit {
    /// The weights, feature after feature with one entry per output.
    pub w: Seq<Single>,
    /// The bias of every output.
    pub bias: Seq<Single>,
    /// The margins, row after row with one entry per output.
    pub margin: Seq<Single>,
    /// The gradients, laid out like the margins.
    pub gp: Seq<GradPair>,
}

/// The sums of gradients and Hessians of an output over the first `n` rows.
pub open spec fn output_sums<F: Fn(Op, u64, u64) -> u64>(
    gp: Seq<GradPair>,
    k: int,
    out: int,
    n: int,
    calc: &Calc<F>,
) -> (Wide, Wide)
    decreases n,
{
    if n <= 0 {
        (Wide { bits: 0 }, Wide { bits: 0 })
    } else {
        let (g, h) = output_sums(gp, k, out, n - 1, calc);
        let p = gp[(n - 1) * k + out];
        (calc.plus(g, calc.widened(p.grad)), calc.plus(h, calc.widened(p.hess)))
    }
}

/// The sums of gradients times values and of Hessians times squared values over
/// the first `n` entries of a column.
pub open spec fn column_sums<F: Fn(Op, u64, u64) -> u64>(
    gp: Seq<GradPair>,
    col: Seq<(u32, Single)>,
    k: int,
    out: int,
    n: int,
    calc: &Calc<F>,
) -> (Wide, Wide)
    decreases n,
{
    if n <= 0 {
        (Wide { bits: 0 }, Wide { bits: 0 })
    } else {
        let (g, h) = column_sums(gp, col, k, out, n - 1, calc);
        let p = gp[col[n - 1].0 * k + out];
        let x = calc.widened(col[n - 1].1);
        (
            calc.plus(g, calc.times(calc.widened(p.grad), x)),
            calc.plus(h, calc.times(calc.times(calc.widened(p.hess), x), x)),
        )
    }
}

/// A gradient after its margin moved.
pub open spec fn moved_pair<F: Fn(Op, u64, u64) -> u64>(
    p: GradPair,
    by: Single,
    calc: &Calc<F>,
) -> GradPair {
    GradPair { grad: calc.plus_s(p.grad, by), ..p }
}

impl Fit {
    /// The state after the first `n` rows followed a step of the bias.
    pub open spec fn with_bias_rows<F: Fn(Op, u64, u64) -> u64>(
        self,
        k: int,
        out: int,
        db: Single,
        n: int,
        calc: &Calc<F>,
    ) -> Fit
        decreases n,
    {
        if n <= 0 {
            self
        } else {
            let s = self.with_bias_rows(k, out, db, n - 1, calc);
            let at = (n - 1) * k + out;
            let p = s.gp[at];
            Fit {
                gp: s.gp.update(at, moved_pair(p, calc.times_s(p.hess, db), calc)),
                margin: s.margin.update(at, calc.plus_s(s.margin[at], db)),
                ..s
            }
        }
    }

    /// The state after a step of the bias.
    pub open spec fn with_bias<F: Fn(Op, u64, u64) -> u64>(
        self,
        k: int,
        out: int,
        n: int,
        params: TrainingParams,
        calc: &Calc<F>,
    ) -> Fit {
        let (g, h) = output_sums(self.gp, k, out, n, calc);
        let step = calc.times(params.eta, bias_step(g, h, calc));
        if step.same(Wide { bits: 0 }) {
            self
        } else {
            let db = calc.narrowed(step);
            let s = self.with_bias_rows(k, out, db, n, calc);
            Fit { bias: s.bias.update(out, calc.plus_s(s.bias[out], db)), ..s }
        }
    }

    /// The state after the first `n` entries of a column followed a step of its
    /// weight.
    pub open spec fn with_column_rows<F: Fn(Op, u64, u64) -> u64>(
        self,
        col: Seq<(u32, Single)>,
        k: int,
        out: int,
        dw: Single,
        n: int,
        calc: &Calc<F>,
    ) -> Fit
        decreases n,
    {
        if n <= 0 {
            self
        } else {
            let s = self.with_column_rows(col, k, out, dw, n - 1, calc);
            let at = col[n - 1].0 * k + out;
            let x = col[n - 1].1;
            let p = s.gp[at];
            Fit {
                gp: s.gp.update(
                    at,
                    moved_pair(p, calc.times_s(calc.times_s(p.hess, x), dw), calc),
                ),
                margin: s.margin.update(at, calc.plus_s(s.margin[at], calc.times_s(x, dw))),
                ..s
            }
        }
    }

    /// The state after a step of the weight of feature `f`.
    pub open spec fn with_feature<F: Fn(Op, u64, u64) -> u64>(
        self,
        col: Seq<(u32, Single)>,
        k: int,
        out: int,
        f: int,
        params: TrainingParams,
        calc: &Calc<F>,
    ) -> Fit {
        let (g, h) = column_sums(self.gp, col, k, out, col.len() as int, calc);
        let w = calc.widened(self.w[f * k + out]);
        let step = calc.times(
            params.eta,
            weight_step(g, h, w, params.alpha, params.lambda, calc),
        );
        if step.same(Wide { bits: 0 }) {
            self
        } else {
            let dw = calc.narrowed(step);
            let s = self.with_column_rows(col, k, out, dw, col.len() as int, calc);
            Fit { w: s.w.update(f * k + out, calc.plus_s(s.w[f * k + out], dw)), ..s }
        }
    }

    /// The state after steps of the first `n` features.
    pub open spec fn with_features<F: Fn(Op, u64, u64) -> u64>(
        self,
        data: &DMatrix,
        k: int,
        out: int,
        n: int,
        params: TrainingParams,
        calc: &Calc<F>,
    ) -> Fit
        decreases n,
    {
        if n <= 0 {
            self
        } else {
            self.with_features(data, k, out, n - 1, params, calc).with_feature(
                nonzero_column(data, n - 1, data.height()),
                k,
                out,
                n - 1,
                params,
                calc,
            )
        }
    }

    /// The state after steps of the first `n` outputs.
    pub open spec fn with_outputs<F: Fn(Op, u64, u64) -> u64>(
        self,
        data: &DMatrix,
        k: int,
        n: int,
        params: TrainingParams,
        calc: &Calc<F>,
    ) -> Fit
        decreases n,
    {
        if n <= 0 {
            self
        } else {
            let s = self.with_outputs(data, k, n - 1, params, calc);
            s.with_bias(k, n - 1, data.height(), params, calc).with_features(
                data,
                k,
                n - 1,
                data.width(),
                params,
                calc,
            )
        }
    }

    /// The state after a round: gradients at the margins, then steps of all
    /// outputs.
    pub open spec fn with_round<F: Fn(Op, u64, u64) -> u64, O: Objective<F>>(
        self,
        params: TrainingParams,
        data: &DMatrix,
        o: &O,
        k: int,
        calc: &Calc<F>,
    ) -> Fit {
        let graded = Fit { gp: gradients_at(o, data, self.margin, calc), ..self };
        graded.with_outputs(data, k, k, params, calc)
    }

    /// Whether the parts have the shape that a dataset and a number of outputs
    /// call for.
    pub open spec fn fits(self, data: &DMatrix, k: int) -> bool {
        &&& self.w.len() == data.width() * k
        &&& self.bias.len() == k
        &&& self.margin.len() == data.height() * k
        &&& self.gp.len() == data.height() * k
    }
}

/// The state before the first round.
pub open spec fn fit_start(data: &DMatrix, k: int, base: Single) -> Fit {
    let zero = Single { bits: 0 };
    Fit {
        w: Seq::new((data.width() * k) as nat, |i: int| zero),
        bias: Seq::new(k as nat, |i: int| zero),
        margin: Seq::new((data.height() * k) as nat, |i: int| base),
        gp: Seq::new((data.height() * k) as nat, |i: int| zero_pair()),
    }
}

/// The state after `rounds` rounds.
pub open spec fn fit_after<F: Fn(Op, u64, u64) -> u64, O: Objective<F>>(
    params: TrainingParams,
    data: &DMatrix,
    o: &O,
    base: Single,
    k: int,
    rounds: int,
    calc: &Calc<F>,
) -> Fit
    decreases rounds,
{
    if rounds <= 0 {
        fit_start(data, k, base)
    } else {
        fit_after(params, data, o, base, k, rounds - 1, calc).with_round(
            params,
            data,
            o,
            k,
            calc,
        )
    }
}

/// A linear model as it is being fit to a dataset.
pub struct LinearFit {
    w: Vec<Single>,
    bias: Vec<Single>,
    margin: Vec<Single>,
    gp: Vec<GradPair>,
    cols: Vec<Vec<(u32, Single)>>,
}

impl LinearFit {
    /// The model, its margins and its gradients.
    pub closed spec fn state(&self) -> Fit {
        Fit { w: self.w@, bias: self.bias@, margin: self.margin@, gp: self.gp@ }
    }

    /// Whether the columns are those of a dataset, and the parts have the shape
    /// that it and a number of outputs call for.
    pub closed spec fn fits(&self, data: &DMatrix, k: int) -> bool {
        self.state().fits(data, k) && is_columns(self.cols@, data)
    }

    /// Start from a base score.
    pub fn start(dtrain: &DMatrix, n_out: usize, base_margin: Single) -> (r: Self)
        requires
            dtrain.well_formed(),
            dtrain.readable(),
            dtrain.height() <= u32::MAX,
            dtrain.width() <= u32::MAX,
            dtrain.height() * n_out <= usize::MAX,
            dtrain.width() * n_out <= usize::MAX,
        ensures
            r.fits(dtrain, n_out as int),
            r.state() == fit_start(dtrain, n_out as int, base_margin),
    {
        proof {
            dtrain.shape();
        }
        let n: usize = dtrain.n_rows();
        let n_features: usize = dtrain.n_cols();
        let r = LinearFit {
            w: vec![Single::zero(); n_features * n_out],
            bias: vec![Single::zero(); n_out],
            margin: vec![base_margin; n * n_out],
            gp: vec![GradPair::default(); n * n_out],
            cols: gather_columns(dtrain),
        };
        assert(r.state() =~= fit_start(dtrain, n_out as int, base_margin));
        r
    }

    /// Fit for a round.
    pub fn step_round<F: Fn(Op, u64, u64) -> u64, O: Objective<F>>(
        &mut self,
        params: &TrainingParams,
        dtrain: &DMatrix,
        labels: &[Single],
        n_out: usize,
        objective: &O,
        calc: &Calc<F>,
    )
        requires
            dtrain.well_formed(),
            dtrain.height() <= u32::MAX,
            dtrain.label_list() == Some(labels@),
            objective.usable(),
            objective.outputs() == n_out,
            old(self).fits(dtrain, n_out as int),
        ensures
            final(self).fits(dtrain, n_out as int),
            final(self).state() == old(self).state().with_round(
                *params,
                dtrain,
                objective,
                n_out as int,
                calc,
            ),
    {
        let ghost before = self.state();
        proof {
            dtrain.shape();
        }
        objective.gradient_grouped(
            self.margin.as_slice(),
            labels,
            dtrain.weights(),
            dtrain.group(),
            &mut self.gp,
            calc,
        );
        assert(self.state() =~= Fit {
            gp: gradients_at(objective, dtrain, before.margin, calc),
            ..before
        });
        self.step_outputs(dtrain, n_out, params, calc);
    }

    /// The model as it stands.
    pub fn model(&self) -> (r: LinearModel)
        ensures
            r.coefficients() == self.state().w,
            r.biases() == self.state().bias,
    {
        LinearModel::new(
            vstd::slice::slice_to_vec(self.w.as_slice()),
            vstd::slice::slice_to_vec(self.bias.as_slice()),
        )
    }

    /// A fit model has a weight per feature and output and a bias per output.
    pub proof fn has_its_shape(&self, data: &DMatrix, k: int)
        requires
            self.fits(data, k),
        ensures
            self.state().fits(data, k),
    {
    }

    /// Step the bias of an output.
    fn step_bias<F: Fn(Op, u64, u64) -> u64>(
        &mut self,
        data: &DMatrix,
        k: usize,
        out: usize,
        params: &TrainingParams,
        calc: &Calc<F>,
    )
        requires
            data.well_formed(),
            out < k,
            old(self).state().fits(data, k as int),
        ensures
            final(self).state() == old(self).state().with_bias(
                k as int,
                out as int,
                data.height(),
                *params,
                calc,
            ),
            final(self).state().fits(data, k as int),
            final(self).cols == old(self).cols,
    {
        let n: usize = data.n_rows();
        let mut g = Wide::zero();
        let mut h = Wide::zero();
        let mut i: usize = 0;
        while i < n
            invariant
                n == data.height(),
                out < k,
                self.state().fits(data, k as int),
                i <= n,
                (g, h) == output_sums(self.gp@, k as int, out as int, i as int, calc),
            decreases n - i,
        {
            proof {
                entry_place(n as int, k as int, i as int, out as int);
                assert(self.gp.len() == n * k);
            }
            let p = self.gp[i * k + out];
            g = calc.add(g, calc.widen(p.grad));
            h = calc.add(h, calc.widen(p.hess));
            i = i + 1;
        }
        let step = calc.mul(params.eta, bias_delta(g, h, calc));
        if step.is_same(Wide::zero()) {
            return ;
        }
        let db = calc.narrow(step);
        let ghost start = self.state();
        let mut i: usize = 0;
        while i < n
            invariant
                n == data.height(),
                out < k,
                self.state().fits(data, k as int),
                i <= n,
                self.cols == old(self).cols,
                self.state() == start.with_bias_rows(k as int, out as int, db, i as int, calc),
            decreases n - i,
        {
            proof {
                entry_place(n as int, k as int, i as int, out as int);
                assert(self.gp.len() == n * k);
            }
            let at: usize = i * k + out;
            let p = self.gp[at];
            let grad = calc.add_s(p.grad, calc.mul_s(p.hess, db));
            self.gp.set(at, GradPair { grad, hess: p.hess });
            let m = self.margin[at];
            self.margin.set(at, calc.add_s(m, db));
            i = i + 1;
            assert(self.state() =~= start.with_bias_rows(
                k as int,
                out as int,
                db,
                i as int,
                calc,
            ));
        }
        let b = self.bias[out];
        self.bias.set(out, calc.add_s(b, db));
        assert(self.state() =~= start.with_bias(k as int, out as int, n as int, *params, calc));
    }

    /// Step the weight of a feature for an output.
    fn step_feature<F: Fn(Op, u64, u64) -> u64>(
        &mut self,
        data: &DMatrix,
        k: usize,
        out: usize,
        f: usize,
        params: &TrainingParams,
        calc: &Calc<F>,
    )
        requires
            data.well_formed(),
            out < k,
            f < data.width(),
            old(self).fits(data, k as int),
        ensures
            final(self).state() == old(self).state().with_feature(
                nonzero_column(data, f as int, data.height()),
                k as int,
                out as int,
                f as int,
                *params,
                calc,
            ),
            final(self).fits(data, k as int),
    {
        let ghost height = data.height();
        let ghost col = self.cols[f as int]@;
        assert(col == nonzero_column(data, f as int, height));
        assert forall|i: int| 0 <= i < col.len() implies (#[trigger] col[i]).0 < height by {
            assert(self.cols[f as int][i].0 < height);
        }
        let ghost start = self.state();
        let mut g = Wide::zero();
        let mut h = Wide::zero();
        let mut i: usize = 0;
        while i < self.cols[f].len()
            invariant
                height == data.height(),
                f < self.cols.len(),
                self.cols[f as int]@ == col,
                self.cols == old(self).cols,
                out < k,
                forall|j: int| 0 <= j < col.len() ==> (#[trigger] col[j]).0 < height,
                self.state() == start,
                self.gp.len() == height * k,
                i <= col.len(),
                (g, h) == column_sums(start.gp, col, k as int, out as int, i as int, calc),
            decreases col.len() - i,
        {
            let (row, v) = self.cols[f][i];
            proof {
                assert(col[i as int].0 < height);
                entry_place(height, k as int, row as int, out as int);
            }
            let p = self.gp[row as usize * k + out];
            let x = calc.widen(v);
            g = calc.add(g, calc.mul(calc.widen(p.grad), x));
            h = calc.add(h, calc.mul(calc.mul(calc.widen(p.hess), x), x));
            i = i + 1;
        }
        proof {
            entry_place(data.width(), k as int, f as int, out as int);
            assert(self.w.len() == data.width() * k);
        }
        let w = calc.widen(self.w[f * k + out]);
        let step = calc.mul(
            params.eta,
            coordinate_delta(g, h, w, params.alpha, params.lambda, calc),
        );
        if step.is_same(Wide::zero()) {
            return ;
        }
        let dw = calc.narrow(step);
        let mut i: usize = 0;
        while i < self.cols[f].len()
            invariant
                data.well_formed(),
                height == data.height(),
                f < self.cols.len(),
                self.cols[f as int]@ == col,
                self.cols == old(self).cols,
                out < k,
                forall|j: int| 0 <= j < col.len() ==> (#[trigger] col[j]).0 < height,
                self.state().fits(data, k as int),
                i <= col.len(),
                self.state() == start.with_column_rows(
                    col,
                    k as int,
                    out as int,
                    dw,
                    i as int,
                    calc,
                ),
            decreases col.len() - i,
        {
            let (row, x) = self.cols[f][i];
            proof {
                assert(col[i as int].0 < height);
                entry_place(height, k as int, row as int, out as int);
                assert(self.gp.len() == height * k);
            }
            let at: usize = row as usize * k + out;
            let p = self.gp[at];
            let grad = calc.add_s(p.grad, calc.mul_s(calc.mul_s(p.hess, x), dw));
            self.gp.set(at, GradPair { grad, hess: p.hess });
            let m = self.margin[at];
            self.margin.set(at, calc.add_s(m, calc.mul_s(x, dw)));
            i = i + 1;
            assert(self.state() =~= start.with_column_rows(
                col,
                k as int,
                out as int,
                dw,
                i as int,
                calc,
            ));
        }
        let at: usize = f * k + out;
        let old_w = self.w[at];
        self.w.set(at, calc.add_s(old_w, dw));
        assert(self.state() =~= start.with_feature(
            col,
            k as int,
            out as int,
            f as int,
            *params,
            calc,
        ));
    }

    /// Step the bias and every weight of every output.
    fn step_outputs<F: Fn(Op, u64, u64) -> u64>(
        &mut self,
        data: &DMatrix,
        k: usize,
        params: &TrainingParams,
        calc: &Calc<F>,
    )
        requires
            data.well_formed(),
            old(self).fits(data, k as int),
        ensures
            final(self).state() == old(self).state().with_outputs(
                data,
                k as int,
                k as int,
                *params,
                calc,
            ),
            final(self).fits(data, k as int),
    {
        let ghost start = self.state();
        let mut out: usize = 0;
        while out < k
            invariant
                data.well_formed(),
                self.fits(data, k as int),
                out <= k,
                self.state() == start.with_outputs(data, k as int, out as int, *params, calc),
            decreases k - out,
        {
            self.step_bias(data, k, out, params, calc);
            let ghost moved = self.state();
            let mut f: usize = 0;
            while f < self.cols.len()
                invariant
                    data.well_formed(),
                    self.fits(data, k as int),
                    out < k,
                    f <= self.cols.len(),
                    self.state() == moved.with_features(
                        data,
                        k as int,
                        out as int,
                        f as int,
                        *params,
                        calc,
                    ),
                decreases self.cols.len() - f,
            {
                self.step_feature(data, k, out, f, params, calc);
                f = f + 1;
            }
            out = out + 1;
        }
    }
}

/// Whether columns are those of a dataset, and their rows exist.
spec fn is_columns(cols: Seq<Vec<(u32, Single)>>, data: &DMatrix) -> bool {
    &&& cols.len() == data.width()
    &&& forall|f: int|
        0 <= f < cols.len() ==> (#[trigger] cols[f])@ == nonzero_column(data, f, data.height())
    &&& forall|f: int, i: int|
        0 <= f < cols.len() && 0 <= i < cols[f].len() ==> (#[trigger] cols[f][i]).0
            < data.height()
}

/// The columns of a dataset without missing values and zeros.
fn gather_columns(data: &DMatrix) -> (r: Vec<Vec<(u32, Single)>>)
    requires
        data.well_formed(),
        data.readable(),
        data.height() <= u32::MAX,
        data.width() <= u32::MAX,
    ensures
        is_columns(r@, data),
{
    let n: usize = data.n_rows();
    let width: usize = data.n_cols();
    let mut cols: Vec<Vec<(u32, Single)>> = Vec::new();
    let mut f: usize = 0;
    while f < width
        invariant
            data.well_formed(),
            data.readable(),
            n == data.height(),
            n <= u32::MAX,
            width == data.width(),
            width <= u32::MAX,
            f <= width,
            cols.len() == f,
            forall|g: int|
                0 <= g < f ==> (#[trigger] cols[g])@ == nonzero_column(data, g, n as int),
            forall|g: int, i: int|
                0 <= g < f && 0 <= i < cols[g].len() ==> (#[trigger] cols[g][i]).0 < n,
        decreases width - f,
    {
        let mut col: Vec<(u32, Single)> = Vec::new();
        let mut row: usize = 0;
        while row < n
            invariant
                data.well_formed(),
                data.readable(),
                n == data.height(),
                n <= u32::MAX,
                width == data.width(),
                width <= u32::MAX,
                f < width,
                row <= n,
                col@ == nonzero_column(data, f as int, row as int),
                forall|i: int| 0 <= i < col.len() ==> (#[trigger] col[i]).0 < n,
            decreases n - row,
        {
            assert(data.readable_row(row as int));
            if let Some(x) = data.get(row, f) {
                if !x.is_same(Single::zero()) {
                    col.push((row as u32, x));
                }
            }
            row = row + 1;
        }
        cols.push(col);
        f = f + 1;
    }
    cols
}

/// Fit a linear model by coordinate descent, from a base score on.
pub fn train_gblinear<F: Fn(Op, u64, u64) -> u64, O: Objective<F>>(
    params: &TrainingParams,
    dtrain: &DMatrix,
    num_round: usize,
    base_margin: Single,
    n_out: usize,
    objective: &O,
    calc: &Calc<F>,
) -> (r: Result<LinearModel, SequoiaError>)
    requires
        dtrain.well_formed(),
        dtrain.readable(),
        dtrain.height() <= u32::MAX,
        dtrain.width() <= u32::MAX,
        objective.usable(),
        objective.outputs() == n_out,
        dtrain.height() * n_out <= usize::MAX,
        dtrain.width() * n_out <= usize::MAX,
    ensures
        match r {
            Ok(m) => {
                let s = fit_after(
                    *params,
                    dtrain,
                    objective,
                    base_margin,
                    n_out as int,
                    num_round as int,
                    calc,
                );
                &&& dtrain.label_list() is Some
                &&& m.coefficients() == s.w
                &&& m.biases() == s.bias
                &&& m.coefficients().len() == dtrain.width() * n_out
                &&& m.biases().len() == n_out
            },
            Err(e) => dtrain.label_list() is None && e == SequoiaError::EmptyDataset(
                "gblinear: dtrain has no labels",
            ),
        },
{
    let labels = match dtrain.labels() {
        Some(l) => l,
        None => {
            return Err(SequoiaError::EmptyDataset("gblinear: dtrain has no labels"));
        },
    };
    let mut fit = LinearFit::start(dtrain, n_out, base_margin);
    let mut round: usize = 0;
    while round < num_round
        invariant
            dtrain.well_formed(),
            dtrain.height() <= u32::MAX,
            dtrain.label_list() == Some(labels@),
            objective.usable(),
            objective.outputs() == n_out,
            round <= num_round,
            fit.fits(dtrain, n_out as int),
            fit.state() == fit_after(
                *params,
                dtrain,
                objective,
                base_margin,
                n_out as int,
                round as int,
                calc,
            ),
        decreases num_round - round,
    {
        fit.step_round(params, dtrain, labels, n_out, objective, calc);
        round = round + 1;
    }
    Ok(fit.model())
}

/// A step of a weight, before it is scaled by the learning rate, takes the
/// weight to zero at most: towards a weight of the sign that the unregularized
/// step leads to, it does not go beyond zero from the other side.
pub proof fn steps_stop_at_zero<F: Fn(Op, u64, u64) -> u64>(
    sum_grad: Wide,
    sum_hess: Wide,
    w: Wide,
    alpha: Wide,
    lambda: Wide,
    calc: &Calc<F>,
)
    requires
        !sum_hess.lt(Wide { bits: LEAST_SUM }),
        !w.nan(),
    ensures
        ({
            let g = calc.plus(sum_grad, calc.times(lambda, w));
            let h = calc.plus(sum_hess, lambda);
            let step = weight_step(sum_grad, sum_hess, w, alpha, lambda, calc);
            if (Wide { bits: 0 }).le(calc.minus(w, calc.over(g, h))) {
                w.negated().le(step)
            } else {
                step.le(w.negated())
            }
        }),
{
}

} // verus!
