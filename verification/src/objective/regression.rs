//! Regression objectives.

use vstd::prelude::*;

use crate::arith::{Calc, Op};
use crate::data::dmatrix::slice_view;
use crate::data::meta::GroupInfo;
use crate::number::{Single, ONE_S};
use crate::objective::base::{
    groups_of, label_mean, weight_at, weight_of, weighted_label_mean, Objective, ObjectiveInfo,
};
use crate::objective::pair::GradPair;

verus! {

/// Squared-error regression: gradient `pred - label`, Hessian one.
#[derive(Clone, Copy, Debug)]
pub struct SquaredErrorObjective;

impl Default for SquaredErrorObjective {
    fn default() -> (r: Self)
        ensures
            r == SquaredErrorObjective,
    {
        SquaredErrorObjective
    }
}

/// The squared-error gradient of an instance.
pub open spec fn squared_error_pair<F: Fn(Op, u64, u64) -> u64>(
    pred: Single,
    label: Single,
    weights: Option<Seq<Single>>,
    i: int,
    calc: &Calc<F>,
) -> GradPair {
    let g = calc.minus_s(pred, label);
    match weights {
        Some(w) => GradPair { grad: calc.times_s(g, w[i]), hess: w[i] },
        None => GradPair { grad: g, hess: Single { bits: ONE_S } },
    }
}

impl ObjectiveInfo for SquaredErrorObjective {
    open spec fn title(&self) -> Seq<char> {
        "reg:squarederror"@
    }

    open spec fn outputs(&self) -> int {
        1
    }

    open spec fn metric(&self) -> Seq<char> {
        "rmse"@
    }

    fn name(&self) -> (r: &str) {
        "reg:squarederror"
    }

    fn n_outputs(&self) -> (r: usize) {
        1
    }

    fn default_metric(&self) -> (r: &str) {
        "rmse"
    }
}

impl<F: Fn(Op, u64, u64) -> u64> Objective<F> for SquaredErrorObjective {
    open spec fn usable(&self) -> bool {
        true
    }

    open spec fn gradients(
        &self,
        preds: Seq<Single>,
        labels: Seq<Single>,
        weights: Option<Seq<Single>>,
        groups: Option<Seq<usize>>,
        calc: &Calc<F>,
    ) -> Seq<GradPair> {
        Seq::new(
            preds.len(),
            |i: int| squared_error_pair(preds[i], labels[i], weights, i, calc),
        )
    }

    open spec fn transformed(&self, preds: Seq<Single>, calc: &Calc<F>) -> Seq<Single> {
        preds
    }

    open spec fn start(
        &self,
        labels: Seq<Single>,
        weights: Option<Seq<Single>>,
        calc: &Calc<F>,
    ) -> Single {
        calc.narrowed(label_mean(labels, weights, calc))
    }

    open spec fn margin_of(&self, base_score: Single, calc: &Calc<F>) -> Single {
        base_score
    }

    fn gradient_grouped(
        &self,
        preds: &[Single],
        labels: &[Single],
        weights: Option<&[Single]>,
        group: Option<&GroupInfo>,
        out: &mut Vec<GradPair>,
        calc: &Calc<F>,
    ) {
        let ghost want = <Self as Objective<F>>::gradients(
            self,
            preds@,
            labels@,
            slice_view(weights),
            groups_of(group),
            calc,
        );
        let mut i: usize = 0;
        while i < preds.len()
            invariant
                i <= preds.len(),
                preds.len() == labels.len(),
                out.len() == preds.len(),
                weights matches Some(w) ==> w@.len() == labels.len(),
                want == <Self as Objective<F>>::gradients(
                    self,
                    preds@,
                    labels@,
                    slice_view(weights),
                    groups_of(group),
                    calc,
                ),
                forall|k: int| 0 <= k < i ==> #[trigger] out[k] == want[k],
            decreases preds.len() - i,
        {
            let g = calc.sub_s(preds[i], labels[i]);
            let pair = match weights {
                Some(w) => GradPair::new(calc.mul_s(g, w[i]), w[i]),
                None => GradPair::new(g, Single { bits: ONE_S }),
            };
            out.set(i, pair);
            i = i + 1;
        }
        assert(out@ =~= want);
    }

    fn pred_transform(&self, preds: &mut Vec<Single>, calc: &Calc<F>) {
    }

    fn base_margin(
        &self,
        labels: &[Single],
        weights: Option<&[Single]>,
        calc: &Calc<F>,
    ) -> (r: Single) {
        calc.narrow(weighted_label_mean(labels, weights, calc))
    }

    fn prob_to_margin(&self, base_score: Single, calc: &Calc<F>) -> (r: Single) {
        base_score
    }
}

/// Pseudo-Huber regression, a smooth approximation of the absolute error: with
/// `d = margin - y` and `s = 1 + d^2`, gradient `d / sqrt(s)` and Hessian
/// `1 / (s sqrt(s))`.
#[derive(Clone, Copy, Debug)]
pub struct PseudoHuberObjective;

impl Default for PseudoHuberObjective {
    fn default() -> (r: Self)
        ensures
            r == PseudoHuberObjective,
    {
        PseudoHuberObjective
    }
}

/// The pseudo-Huber gradient of an instance.
pub open spec fn pseudo_huber_pair<F: Fn(Op, u64, u64) -> u64>(
    pred: Single,
    label: Single,
    w: Single,
    calc: &Calc<F>,
) -> GradPair {
    let one = Single { bits: ONE_S };
    let d = calc.minus_s(pred, label);
    let s = calc.plus_s(one, calc.times_s(d, d));
    let root = calc.root_s(s);
    GradPair {
        grad: calc.times_s(calc.over_s(d, root), w),
        hess: calc.times_s(calc.over_s(one, calc.times_s(s, root)), w),
    }
}

impl ObjectiveInfo for PseudoHuberObjective {
    open spec fn title(&self) -> Seq<char> {
        "reg:pseudohubererror"@
    }

    open spec fn outputs(&self) -> int {
        1
    }

    open spec fn metric(&self) -> Seq<char> {
        "mae"@
    }

    fn name(&self) -> (r: &str) {
        "reg:pseudohubererror"
    }

    fn n_outputs(&self) -> (r: usize) {
        1
    }

    fn default_metric(&self) -> (r: &str) {
        "mae"
    }
}

impl<F: Fn(Op, u64, u64) -> u64> Objective<F> for PseudoHuberObjective {
    open spec fn usable(&self) -> bool {
        true
    }

    open spec fn gradients(
        &self,
        preds: Seq<Single>,
        labels: Seq<Single>,
        weights: Option<Seq<Single>>,
        groups: Option<Seq<usize>>,
        calc: &Calc<F>,
    ) -> Seq<GradPair> {
        Seq::new(
            preds.len(),
            |i: int| pseudo_huber_pair(preds[i], labels[i], weight_at(weights, i), calc),
        )
    }

    open spec fn transformed(&self, preds: Seq<Single>, calc: &Calc<F>) -> Seq<Single> {
        preds
    }

    open spec fn start(
        &self,
        labels: Seq<Single>,
        weights: Option<Seq<Single>>,
        calc: &Calc<F>,
    ) -> Single {
        calc.narrowed(label_mean(labels, weights, calc))
    }

    open spec fn margin_of(&self, base_score: Single, calc: &Calc<F>) -> Single {
        base_score
    }

    fn gradient_grouped(
        &self,
        preds: &[Single],
        labels: &[Single],
        weights: Option<&[Single]>,
        group: Option<&GroupInfo>,
        out: &mut Vec<GradPair>,
        calc: &Calc<F>,
    ) {
        let ghost want = <Self as Objective<F>>::gradients(
            self,
            preds@,
            labels@,
            slice_view(weights),
            groups_of(group),
            calc,
        );
        let mut i: usize = 0;
        while i < preds.len()
            invariant
                i <= preds.len(),
                preds.len() == labels.len(),
                out.len() == preds.len(),
                weights matches Some(w) ==> w@.len() == labels.len(),
                want == <Self as Objective<F>>::gradients(
                    self,
                    preds@,
                    labels@,
                    slice_view(weights),
                    groups_of(group),
                    calc,
                ),
                forall|k: int| 0 <= k < i ==> #[trigger] out[k] == want[k],
            decreases preds.len() - i,
        {
            let w = weight_of(weights, i);
            let one = Single { bits: ONE_S };
            let d = calc.sub_s(preds[i], labels[i]);
            let s = calc.add_s(one, calc.mul_s(d, d));
            let root = calc.sqrt_s(s);
            let grad = calc.mul_s(calc.div_s(d, root), w);
            let hess = calc.mul_s(calc.div_s(one, calc.mul_s(s, root)), w);
            let pair = GradPair::new(grad, hess);
            out.set(i, pair);
            i = i + 1;
        }
        assert(out@ =~= want);
    }

    fn pred_transform(&self, preds: &mut Vec<Single>, calc: &Calc<F>) {
    }

    fn base_margin(
        &self,
        labels: &[Single],
        weights: Option<&[Single]>,
        calc: &Calc<F>,
    ) -> (r: Single) {
        calc.narrow(weighted_label_mean(labels, weights, calc))
    }

    fn prob_to_margin(&self, base_score: Single, calc: &Calc<F>) -> (r: Single) {
        base_score
    }
}

} // verus!
