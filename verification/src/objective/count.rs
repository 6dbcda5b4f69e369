//! Objectives for counts and positive numbers, with a logarithmic link: all of
//! them predict the exponential of the margin.

use vstd::prelude::*;

use crate::arith::{Calc, Op};
use crate::data::dmatrix::slice_view;
use crate::data::meta::GroupInfo;
use crate::number::{Single, Wide, ONE_S, TWO_S};
use crate::objective::base::{
    groups_of, label_mean, weight_at, weight_of, weighted_label_mean, Objective, ObjectiveInfo,
};
use crate::objective::pair::GradPair;

verus! {

/// The bit pattern of the least mean, `1e-6`.
pub const LEAST_MEAN: u64 = 0x3eb0_c6f7_a0b5_ed8d;

/// The bit pattern of the default step that steadies the Poisson Hessian, 0.7.
pub const POISSON_STEP: u32 = 0x3f33_3333;

/// The bit pattern of the default Tweedie variance power, 1.5.
pub const TWEEDIE_POWER: u32 = 0x3fc0_0000;

/// The logarithm of a mean held above zero.
pub open spec fn log_mean<F: Fn(Op, u64, u64) -> u64>(mean: Wide, calc: &Calc<F>) -> Single {
    calc.narrowed(calc.logarithm(mean.greater(Wide { bits: LEAST_MEAN })))
}

fn log_of_mean<F: Fn(Op, u64, u64) -> u64>(mean: Wide, calc: &Calc<F>) -> (r: Single)
    ensures
        r == log_mean(mean, calc),
{
    calc.narrow(calc.ln(mean.max(Wide { bits: LEAST_MEAN })))
}

/// Poisson regression: gradient `exp(m) - y`, Hessian `exp(m + step)`.
#[derive(Clone, Copy, Debug)]
pub struct PoissonObjective {
    max_delta_step: Single,
}

impl Default for PoissonObjective {
    fn default() -> (r: Self)
        ensures
            r.step() == (Single { bits: POISSON_STEP }),
    {
        PoissonObjective { max_delta_step: Single { bits: POISSON_STEP } }
    }
}

impl PoissonObjective {
    /// The step that steadies the Hessian.
    pub closed spec fn step(&self) -> Single {
        self.max_delta_step
    }

    pub(crate) proof fn stepping(step: Single) -> (r: Self)
        ensures
            r.step() == step,
    {
        PoissonObjective { max_delta_step: step }
    }

    /// A Poisson objective with the given step.
    pub fn new(max_delta_step: Single) -> (r: Self)
        ensures
            r.step() == max_delta_step,
    {
        PoissonObjective { max_delta_step }
    }
}

/// The Poisson gradient of an instance.
pub open spec fn poisson_pair<F: Fn(Op, u64, u64) -> u64>(
    pred: Single,
    label: Single,
    w: Single,
    step: Single,
    calc: &Calc<F>,
) -> GradPair {
    GradPair {
        grad: calc.times_s(calc.minus_s(calc.exponential_s(pred), label), w),
        hess: calc.times_s(calc.exponential_s(calc.plus_s(pred, step)), w),
    }
}

impl ObjectiveInfo for PoissonObjective {
    open spec fn title(&self) -> Seq<char> {
        "count:poisson"@
    }

    open spec fn outputs(&self) -> int {
        1
    }

    open spec fn metric(&self) -> Seq<char> {
        "poisson-nloglik"@
    }

    fn name(&self) -> (r: &str) {
        "count:poisson"
    }

    fn n_outputs(&self) -> (r: usize) {
        1
    }

    fn default_metric(&self) -> (r: &str) {
        "poisson-nloglik"
    }
}

impl<F: Fn(Op, u64, u64) -> u64> Objective<F> for PoissonObjective {
    open spec fn usable(&self) -> bool {
        true
    }

    open spec fn gradients(
        &self,
        preds: Seq<Single>,
        labels: Seq<Single>,
        weights: Option<Seq<Single>>,
        groups: Option<Seq<usize>>,
        calc: &Calc<F>,
    ) -> Seq<GradPair> {
        Seq::new(
            preds.len(),
            |i: int| poisson_pair(
                    preds[i],
                    labels[i],
                    weight_at(weights, i),
                    self.step(),
                    calc,
                ),
        )
    }

    open spec fn transformed(&self, preds: Seq<Single>, calc: &Calc<F>) -> Seq<Single> {
        Seq::new(preds.len(), |i: int| calc.exponential_s(preds[i]))
    }

    open spec fn start(
        &self,
        labels: Seq<Single>,
        weights: Option<Seq<Single>>,
        calc: &Calc<F>,
    ) -> Single {
        log_mean(label_mean(labels, weights, calc), calc)
    }

    open spec fn margin_of(&self, base_score: Single, calc: &Calc<F>) -> Single {
        log_mean(calc.widened(base_score), calc)
    }

    fn gradient_grouped(
        &self,
        preds: &[Single],
        labels: &[Single],
        weights: Option<&[Single]>,
        group: Option<&GroupInfo>,
        out: &mut Vec<GradPair>,
        calc: &Calc<F>,
    ) {
        let ghost want = <Self as Objective<F>>::gradients(
            self,
            preds@,
            labels@,
            slice_view(weights),
            groups_of(group),
            calc,
        );
        let mut i: usize = 0;
        while i < preds.len()
            invariant
                i <= preds.len(),
                preds.len() == labels.len(),
                out.len() == preds.len(),
                weights matches Some(w) ==> w@.len() == labels.len(),
                want == <Self as Objective<F>>::gradients(
                    self,
                    preds@,
                    labels@,
                    slice_view(weights),
                    groups_of(group),
                    calc,
                ),
                forall|k: int| 0 <= k < i ==> #[trigger] out[k] == want[k],
            decreases preds.len() - i,
        {
            let w = weight_of(weights, i);
            let em = calc.exp_s(preds[i]);
            let grad = calc.mul_s(calc.sub_s(em, labels[i]), w);
            let hess = calc.mul_s(calc.exp_s(calc.add_s(preds[i], self.max_delta_step)), w);
            let pair = GradPair::new(grad, hess);
            out.set(i, pair);
            i = i + 1;
        }
        assert(out@ =~= want);
    }

    fn pred_transform(&self, preds: &mut Vec<Single>, calc: &Calc<F>) {
        let ghost was = preds@;
        let mut i: usize = 0;
        while i < preds.len()
            invariant
                i <= preds.len(),
                preds.len() == was.len(),
                forall|k: int| 0 <= k < i ==> #[trigger] preds[k] == calc.exponential_s(was[k]),
                forall|k: int| i <= k < preds.len() ==> #[trigger] preds[k] == was[k],
            decreases preds.len() - i,
        {
            let p = calc.exp_s(preds[i]);
            preds.set(i, p);
            i = i + 1;
        }
        assert(preds@ =~= <Self as Objective<F>>::transformed(self, was, calc));
    }

    fn base_margin(
        &self,
        labels: &[Single],
        weights: Option<&[Single]>,
        calc: &Calc<F>,
    ) -> (r: Single) {
        log_of_mean(weighted_label_mean(labels, weights, calc), calc)
    }

    fn prob_to_margin(&self, base_score: Single, calc: &Calc<F>) -> (r: Single) {
        log_of_mean(calc.widen(base_score), calc)
    }
}

/// Gamma regression for positive targets: gradient `1 - y exp(-m)`, Hessian
/// `y exp(-m)`.
#[derive(Clone, Copy, Debug)]
pub struct GammaObjective;

impl Default for GammaObjective {
    fn default() -> (r: Self)
        ensures
            r == GammaObjective,
    {
        GammaObjective
    }
}

/// The gamma gradient of an instance.
pub open spec fn gamma_pair<F: Fn(Op, u64, u64) -> u64>(
    pred: Single,
    label: Single,
    w: Single,
    calc: &Calc<F>,
) -> GradPair {
    let part = calc.times_s(label, calc.exponential_s(pred.negated()));
    GradPair {
        grad: calc.times_s(calc.minus_s(Single { bits: ONE_S }, part), w),
        hess: calc.times_s(part, w),
    }
}

impl ObjectiveInfo for GammaObjective {
    open spec fn title(&self) -> Seq<char> {
        "reg:gamma"@
    }

    open spec fn outputs(&self) -> int {
        1
    }

    open spec fn metric(&self) -> Seq<char> {
        "gamma-nloglik"@
    }

    fn name(&self) -> (r: &str) {
        "reg:gamma"
    }

    fn n_outputs(&self) -> (r: usize) {
        1
    }

    fn default_metric(&self) -> (r: &str) {
        "gamma-nloglik"
    }
}

impl<F: Fn(Op, u64, u64) -> u64> Objective<F> for GammaObjective {
    open spec fn usable(&self) -> bool {
        true
    }

    open spec fn gradients(
        &self,
        preds: Seq<Single>,
        labels: Seq<Single>,
        weights: Option<Seq<Single>>,
        groups: Option<Seq<usize>>,
        calc: &Calc<F>,
    ) -> Seq<GradPair> {
        Seq::new(
            preds.len(),
            |i: int| gamma_pair(preds[i], labels[i], weight_at(weights, i), calc),
        )
    }

    open spec fn transformed(&self, preds: Seq<Single>, calc: &Calc<F>) -> Seq<Single> {
        Seq::new(preds.len(), |i: int| calc.exponential_s(preds[i]))
    }

    open spec fn start(
        &self,
        labels: Seq<Single>,
        weights: Option<Seq<Single>>,
        calc: &Calc<F>,
    ) -> Single {
        log_mean(label_mean(labels, weights, calc), calc)
    }

    open spec fn margin_of(&self, base_score: Single, calc: &Calc<F>) -> Single {
        log_mean(calc.widened(base_score), calc)
    }

    fn gradient_grouped(
        &self,
        preds: &[Single],
        labels: &[Single],
        weights: Option<&[Single]>,
        group: Option<&GroupInfo>,
        out: &mut Vec<GradPair>,
        calc: &Calc<F>,
    ) {
        let ghost want = <Self as Objective<F>>::gradients(
            self,
            preds@,
            labels@,
            slice_view(weights),
            groups_of(group),
            calc,
        );
        let mut i: usize = 0;
        while i < preds.len()
            invariant
                i <= preds.len(),
                preds.len() == labels.len(),
                out.len() == preds.len(),
                weights matches Some(w) ==> w@.len() == labels.len(),
                want == <Self as Objective<F>>::gradients(
                    self,
                    preds@,
                    labels@,
                    slice_view(weights),
                    groups_of(group),
                    calc,
                ),
                forall|k: int| 0 <= k < i ==> #[trigger] out[k] == want[k],
            decreases preds.len() - i,
        {
            let w = weight_of(weights, i);
            let part = calc.mul_s(labels[i], calc.exp_s(preds[i].neg()));
            let grad = calc.mul_s(calc.sub_s(Single { bits: ONE_S }, part), w);
            let hess = calc.mul_s(part, w);
            let pair = GradPair::new(grad, hess);
            out.set(i, pair);
            i = i + 1;
        }
        assert(out@ =~= want);
    }

    fn pred_transform(&self, preds: &mut Vec<Single>, calc: &Calc<F>) {
        let ghost was = preds@;
        let mut i: usize = 0;
        while i < preds.len()
            invariant
                i <= preds.len(),
                preds.len() == was.len(),
                forall|k: int| 0 <= k < i ==> #[trigger] preds[k] == calc.exponential_s(was[k]),
                forall|k: int| i <= k < preds.len() ==> #[trigger] preds[k] == was[k],
            decreases preds.len() - i,
        {
            let p = calc.exp_s(preds[i]);
            preds.set(i, p);
            i = i + 1;
        }
        assert(preds@ =~= <Self as Objective<F>>::transformed(self, was, calc));
    }

    fn base_margin(
        &self,
        labels: &[Single],
        weights: Option<&[Single]>,
        calc: &Calc<F>,
    ) -> (r: Single) {
        log_of_mean(weighted_label_mean(labels, weights, calc), calc)
    }

    fn prob_to_margin(&self, base_score: Single, calc: &Calc<F>) -> (r: Single) {
        log_of_mean(calc.widen(base_score), calc)
    }
}

/// Tweedie regression with a variance power between one and two.
#[derive(Clone, Copy, Debug)]
pub struct TweedieObjective {
    rho: Single,
}

impl Default for TweedieObjective {
    fn default() -> (r: Self)
        ensures
            r.power() == (Single { bits: TWEEDIE_POWER }),
    {
        TweedieObjective { rho: Single { bits: TWEEDIE_POWER } }
    }
}

impl TweedieObjective {
    /// The variance power.
    pub closed spec fn power(&self) -> Single {
        self.rho
    }

    pub(crate) proof fn raising(power: Single) -> (r: Self)
        ensures
            r.power() == power,
    {
        TweedieObjective { rho: power }
    }

    /// A Tweedie objective with the given variance power.
    pub fn new(rho: Single) -> (r: Self)
        ensures
            r.power() == rho,
    {
        TweedieObjective { rho }
    }
}

/// The Tweedie gradient of an instance: with `e1 = exp((1 - rho) m)` and
/// `e2 = exp((2 - rho) m)`, gradient `-y e1 + e2` and Hessian
/// `-y (1 - rho) e1 + (2 - rho) e2`.
pub open spec fn tweedie_pair<F: Fn(Op, u64, u64) -> u64>(
    m: Single,
    y: Single,
    w: Single,
    rho: Single,
    calc: &Calc<F>,
) -> GradPair {
    let r1 = calc.minus_s(Single { bits: ONE_S }, rho);
    let r2 = calc.minus_s(Single { bits: TWO_S }, rho);
    let e1 = calc.exponential_s(calc.times_s(r1, m));
    let e2 = calc.exponential_s(calc.times_s(r2, m));
    let ny = y.negated();
    let grad = calc.plus_s(calc.times_s(ny, e1), e2);
    let hess = calc.plus_s(
        calc.times_s(calc.times_s(ny, r1), e1),
        calc.times_s(r2, e2),
    );
    GradPair { grad: calc.times_s(grad, w), hess: calc.times_s(hess, w) }
}

impl ObjectiveInfo for TweedieObjective {
    open spec fn title(&self) -> Seq<char> {
        "reg:tweedie"@
    }

    open spec fn outputs(&self) -> int {
        1
    }

    open spec fn metric(&self) -> Seq<char> {
        "tweedie-nloglik"@
    }

    fn name(&self) -> (r: &str) {
        "reg:tweedie"
    }

    fn n_outputs(&self) -> (r: usize) {
        1
    }

    fn default_metric(&self) -> (r: &str) {
        "tweedie-nloglik"
    }
}

impl<F: Fn(Op, u64, u64) -> u64> Objective<F> for TweedieObjective {
    open spec fn usable(&self) -> bool {
        true
    }

    open spec fn gradients(
        &self,
        preds: Seq<Single>,
        labels: Seq<Single>,
        weights: Option<Seq<Single>>,
        groups: Option<Seq<usize>>,
        calc: &Calc<F>,
    ) -> Seq<GradPair> {
        Seq::new(
            preds.len(),
            |i: int| tweedie_pair(
                    preds[i],
                    labels[i],
                    weight_at(weights, i),
                    self.power(),
                    calc,
                ),
        )
    }

    open spec fn transformed(&self, preds: Seq<Single>, calc: &Calc<F>) -> Seq<Single> {
        Seq::new(preds.len(), |i: int| calc.exponential_s(preds[i]))
    }

    open spec fn start(
        &self,
        labels: Seq<Single>,
        weights: Option<Seq<Single>>,
        calc: &Calc<F>,
    ) -> Single {
        log_mean(label_mean(labels, weights, calc), calc)
    }

    open spec fn margin_of(&self, base_score: Single, calc: &Calc<F>) -> Single {
        log_mean(calc.widened(base_score), calc)
    }

    fn gradient_grouped(
        &self,
        preds: &[Single],
        labels: &[Single],
        weights: Option<&[Single]>,
        group: Option<&GroupInfo>,
        out: &mut Vec<GradPair>,
        calc: &Calc<F>,
    ) {
        let ghost want = <Self as Objective<F>>::gradients(
            self,
            preds@,
            labels@,
            slice_view(weights),
            groups_of(group),
            calc,
        );
        let mut i: usize = 0;
        while i < preds.len()
            invariant
                i <= preds.len(),
                preds.len() == labels.len(),
                out.len() == preds.len(),
                weights matches Some(w) ==> w@.len() == labels.len(),
                want == <Self as Objective<F>>::gradients(
                    self,
                    preds@,
                    labels@,
                    slice_view(weights),
                    groups_of(group),
                    calc,
                ),
                forall|k: int| 0 <= k < i ==> #[trigger] out[k] == want[k],
            decreases preds.len() - i,
        {
            let w = weight_of(weights, i);
            let m = preds[i];
            let r1 = calc.sub_s(Single { bits: ONE_S }, self.rho);
            let r2 = calc.sub_s(Single { bits: TWO_S }, self.rho);
            let e1 = calc.exp_s(calc.mul_s(r1, m));
            let e2 = calc.exp_s(calc.mul_s(r2, m));
            let ny = labels[i].neg();
            let grad = calc.add_s(calc.mul_s(ny, e1), e2);
            let hess = calc.add_s(calc.mul_s(calc.mul_s(ny, r1), e1), calc.mul_s(r2, e2));
            let pair = GradPair::new(calc.mul_s(grad, w), calc.mul_s(hess, w));
            out.set(i, pair);
            i = i + 1;
        }
        assert(out@ =~= want);
    }

    fn pred_transform(&self, preds: &mut Vec<Single>, calc: &Calc<F>) {
        let ghost was = preds@;
        let mut i: usize = 0;
        while i < preds.len()
            invariant
                i <= preds.len(),
                preds.len() == was.len(),
                forall|k: int| 0 <= k < i ==> #[trigger] preds[k] == calc.exponential_s(was[k]),
                forall|k: int| i <= k < preds.len() ==> #[trigger] preds[k] == was[k],
            decreases preds.len() - i,
        {
            let p = calc.exp_s(preds[i]);
            preds.set(i, p);
            i = i + 1;
        }
        assert(preds@ =~= <Self as Objective<F>>::transformed(self, was, calc));
    }

    fn base_margin(
        &self,
        labels: &[Single],
        weights: Option<&[Single]>,
        calc: &Calc<F>,
    ) -> (r: Single) {
        log_of_mean(weighted_label_mean(labels, weights, calc), calc)
    }

    fn prob_to_margin(&self, base_score: Single, calc: &Calc<F>) -> (r: Single) {
        log_of_mean(calc.widen(base_score), calc)
    }
}

} // verus!
