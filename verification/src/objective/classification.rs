//! Classification objectives.

use vstd::prelude::*;

use crate::arith::{Calc, Op};
use crate::data::dmatrix::slice_view;
use crate::data::meta::GroupInfo;
use crate::number::{Single, Wide, ONE, ONE_S};
use crate::objective::base::{
    groups_of, label_mean, weight_at, weight_of, weighted_label_mean, Objective, ObjectiveInfo,
};
use crate::objective::pair::GradPair;

verus! {

/// The bit pattern of the least logistic Hessian, `1e-16`.
pub const MIN_HESS: u32 = 0x24e6_9595;

/// The bit pattern of the least base probability in double precision, `1e-6`.
pub const LEAST_PROB: u64 = 0x3eb0_c6f7_a0b5_ed8d;

/// The bit pattern of the greatest base probability in double precision.
pub const GREATEST_PROB: u64 = 0x3fef_fffd_e721_0be9;

/// The bit pattern of the least base probability in single precision, `1e-6`.
pub const LEAST_PROB_S: u32 = 0x3586_37bd;

/// The bit pattern of the greatest base probability in single precision.
pub const GREATEST_PROB_S: u32 = 0x3f7f_ffef;

/// The logistic sigmoid, computed so that no exponential overflows.
pub open spec fn logistic<F: Fn(Op, u64, u64) -> u64>(x: Single, calc: &Calc<F>) -> Single {
    let one = Single { bits: ONE_S };
    if (Single { bits: 0 }).le(x) {
        calc.over_s(one, calc.plus_s(one, calc.exponential_s(x.negated())))
    } else {
        let e = calc.exponential_s(x);
        calc.over_s(e, calc.plus_s(one, e))
    }
}

/// The logistic sigmoid.
pub fn sigmoid<F: Fn(Op, u64, u64) -> u64>(x: Single, calc: &Calc<F>) -> (r: Single)
    ensures
        r == logistic(x, calc),
{
    let one = Single { bits: ONE_S };
    if Single::zero().is_le(x) {
        calc.div_s(one, calc.add_s(one, calc.exp_s(x.neg())))
    } else {
        let e = calc.exp_s(x);
        calc.div_s(e, calc.add_s(one, e))
    }
}

/// Binary logistic regression: with `p` the sigmoid of the margin, gradient
/// `p - label` and Hessian `p (1 - p)`, held above zero. The loss of positive
/// instances is scaled by a weight of its own.
#[derive(Clone, Copy, Debug)]
pub struct LogisticObjective {
    scale_pos_weight: Single,
}

impl Default for LogisticObjective {
    fn default() -> (r: Self)
        ensures
            r.positive_weight() == (Single { bits: ONE_S }),
    {
        LogisticObjective { scale_pos_weight: Single { bits: ONE_S } }
    }
}

impl LogisticObjective {
    /// The weight of positive instances.
    pub closed spec fn positive_weight(&self) -> Single {
        self.scale_pos_weight
    }

    pub(crate) proof fn weighing(weight: Single) -> (r: Self)
        ensures
            r.positive_weight() == weight,
    {
        LogisticObjective { scale_pos_weight: weight }
    }

    /// A logistic objective with the given weight of positive instances.
    pub fn new(scale_pos_weight: Single) -> (r: Self)
        ensures
            r.positive_weight() == scale_pos_weight,
    {
        LogisticObjective { scale_pos_weight }
    }
}

/// The logistic gradient of an instance.
pub open spec fn logistic_pair<F: Fn(Op, u64, u64) -> u64>(
    pred: Single,
    y: Single,
    weight: Single,
    positive_weight: Single,
    calc: &Calc<F>,
) -> GradPair {
    let one = Single { bits: ONE_S };
    let p = logistic(pred, calc);
    let w = if y.same(one) { calc.times_s(weight, positive_weight) } else { weight };
    GradPair {
        grad: calc.times_s(calc.minus_s(p, y), w),
        hess: calc.times_s(
            calc.times_s(p, calc.minus_s(one, p)).greater(Single { bits: MIN_HESS }),
            w,
        ),
    }
}

/// The logit of a probability held away from zero and one.
pub open spec fn logit<F: Fn(Op, u64, u64) -> u64>(mean: Wide, calc: &Calc<F>) -> Single {
    let p = mean.clamped(Wide { bits: LEAST_PROB }, Wide { bits: GREATEST_PROB });
    calc.narrowed(calc.logarithm(calc.over(p, calc.minus(Wide { bits: ONE }, p))))
}

/// The logit of a single-precision probability held away from zero and one.
pub open spec fn logit_s<F: Fn(Op, u64, u64) -> u64>(score: Single, calc: &Calc<F>) -> Single {
    let p = score.clamped(Single { bits: LEAST_PROB_S }, Single { bits: GREATEST_PROB_S });
    calc.logarithm_s(calc.over_s(p, calc.minus_s(Single { bits: ONE_S }, p)))
}

impl ObjectiveInfo for LogisticObjective {
    open spec fn title(&self) -> Seq<char> {
        "binary:logistic"@
    }

    open spec fn outputs(&self) -> int {
        1
    }

    open spec fn metric(&self) -> Seq<char> {
        "logloss"@
    }

    fn name(&self) -> (r: &str) {
        "binary:logistic"
    }

    fn n_outputs(&self) -> (r: usize) {
        1
    }

    fn default_metric(&self) -> (r: &str) {
        "logloss"
    }
}

impl<F: Fn(Op, u64, u64) -> u64> Objective<F> for LogisticObjective {
    open spec fn usable(&self) -> bool {
        true
    }

    open spec fn gradients(
        &self,
        preds: Seq<Single>,
        labels: Seq<Single>,
        weights: Option<Seq<Single>>,
        groups: Option<Seq<usize>>,
        calc: &Calc<F>,
    ) -> Seq<GradPair> {
        Seq::new(
            preds.len(),
            |i: int| logistic_pair(
                    preds[i],
                    labels[i],
                    weight_at(weights, i),
                    self.positive_weight(),
                    calc,
                ),
        )
    }

    open spec fn transformed(&self, preds: Seq<Single>, calc: &Calc<F>) -> Seq<Single> {
        Seq::new(preds.len(), |i: int| logistic(preds[i], calc))
    }

    open spec fn start(
        &self,
        labels: Seq<Single>,
        weights: Option<Seq<Single>>,
        calc: &Calc<F>,
    ) -> Single {
        logit(label_mean(labels, weights, calc), calc)
    }

    open spec fn margin_of(&self, base_score: Single, calc: &Calc<F>) -> Single {
        logit_s(base_score, calc)
    }

    fn gradient_grouped(
        &self,
        preds: &[Single],
        labels: &[Single],
        weights: Option<&[Single]>,
        group: Option<&GroupInfo>,
        out: &mut Vec<GradPair>,
        calc: &Calc<F>,
    ) {
        let ghost want = <Self as Objective<F>>::gradients(
            self,
            preds@,
            labels@,
            slice_view(weights),
            groups_of(group),
            calc,
        );
        let mut i: usize = 0;
        while i < preds.len()
            invariant
                i <= preds.len(),
                preds.len() == labels.len(),
                out.len() == preds.len(),
                weights matches Some(w) ==> w@.len() == labels.len(),
                want == <Self as Objective<F>>::gradients(
                    self,
                    preds@,
                    labels@,
                    slice_view(weights),
                    groups_of(group),
                    calc,
                ),
                forall|k: int| 0 <= k < i ==> #[trigger] out[k] == want[k],
            decreases preds.len() - i,
        {
            let one = Single { bits: ONE_S };
            let y = labels[i];
            let p = sigmoid(preds[i], calc);
            let given = weight_of(weights, i);
            let w = if y.is_same(one) { calc.mul_s(given, self.scale_pos_weight) } else { given };
            let grad = calc.mul_s(calc.sub_s(p, y), w);
            let curve = calc.mul_s(p, calc.sub_s(one, p)).max(Single { bits: MIN_HESS });
            let hess = calc.mul_s(curve, w);
            let pair = GradPair::new(grad, hess);
            out.set(i, pair);
            i = i + 1;
        }
        assert(out@ =~= want);
    }

    fn pred_transform(&self, preds: &mut Vec<Single>, calc: &Calc<F>) {
        let ghost was = preds@;
        let mut i: usize = 0;
        while i < preds.len()
            invariant
                i <= preds.len(),
                preds.len() == was.len(),
                forall|k: int| 0 <= k < i ==> #[trigger] preds[k] == logistic(was[k], calc),
                forall|k: int| i <= k < preds.len() ==> #[trigger] preds[k] == was[k],
            decreases preds.len() - i,
        {
            let p = sigmoid(preds[i], calc);
            preds.set(i, p);
            i = i + 1;
        }
        assert(preds@ =~= <Self as Objective<F>>::transformed(self, was, calc));
    }

    fn base_margin(
        &self,
        labels: &[Single],
        weights: Option<&[Single]>,
        calc: &Calc<F>,
    ) -> (r: Single) {
        let mean = weighted_label_mean(labels, weights, calc);
        let p = mean.clamp(Wide { bits: LEAST_PROB }, Wide { bits: GREATEST_PROB });
        calc.narrow(calc.ln(calc.div(p, calc.sub(Wide { bits: ONE }, p))))
    }

    fn prob_to_margin(&self, base_score: Single, calc: &Calc<F>) -> (r: Single) {
        let p = base_score.clamp(Single { bits: LEAST_PROB_S }, Single { bits: GREATEST_PROB_S });
        calc.ln_s(calc.div_s(p, calc.sub_s(Single { bits: ONE_S }, p)))
    }
}

} // verus!
