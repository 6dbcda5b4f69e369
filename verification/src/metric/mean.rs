//! Metrics that are weighted means over instances.

use vstd::prelude::*;

use crate::arith::{Calc, Op};
use crate::data::dmatrix::slice_view;
use crate::data::meta::GroupInfo;
use crate::metric::base::{weight_of, wide_weight, Metric, MetricInfo};
use crate::number::{Single, Wide, HALF_S, ONE, TWO};

verus! {

/// The bit pattern of the least probability, `1e-15`.
pub const LEAST_PROB: u64 = 0x3cd2_03af_9ee7_5616;

/// The bit pattern of the greatest probability, `1 - 1e-15`.
pub const GREATEST_PROB: u64 = 0x3fef_ffff_ffff_fff7;

/// The bit pattern of the least mean, `1e-8`.
pub const LEAST_MEAN: u64 = 0x3e45_798e_e230_8c3a;

/// What an instance adds to a metric.
#[derive(Clone, Copy, Debug, PartialEq, Eq, Structural)]
pub enum Loss {
    /// The squared difference.
    Squared,
    /// The absolute difference.
    Absolute,
    /// The binary logistic loss.
    Logistic,
    /// One where prediction and label lie on different sides of one half.
    Wrong,
    /// The logistic loss of the label's class among the given number.
    ClassLogistic(usize),
    /// One where the most probable class of the given number is not the label.
    ClassWrong(usize),
    /// The Poisson loss.
    Poisson,
    /// The gamma loss.
    Gamma,
    /// The Tweedie loss with the given variance power.
    Tweedie(Wide),
}

/// The most probable class among the first `n` of a row of `preds` that starts
/// at `base`; of equal ones the first.
pub open spec fn top_class(preds: Seq<Single>, base: int, n: int) -> int
    decreases n,
{
    if n <= 1 {
        0
    } else {
        let so_far = top_class(preds, base, n - 1);
        if preds[base + so_far].lt(preds[base + n - 1]) { n - 1 } else { so_far }
    }
}

/// The class that a label names.
pub open spec fn class_of(label: Single) -> int {
    label.count(usize::MAX as int)
}

impl Loss {
    /// The number of predictions per instance.
    pub open spec fn width(self) -> int {
        match self {
            Loss::ClassLogistic(k) => k as int,
            Loss::ClassWrong(k) => k as int,
            _ => 1,
        }
    }

    /// The number of instances that are looked at.
    pub open spec fn instances(self, preds: Seq<Single>, labels: Seq<Single>) -> int {
        match self {
            Loss::ClassLogistic(_) => labels.len() as int,
            Loss::ClassWrong(_) => labels.len() as int,
            _ => preds.len() as int,
        }
    }

    /// Whether predictions, labels and weights are ones that the loss can read.
    pub open spec fn accepts(
        self,
        preds: Seq<Single>,
        labels: Seq<Single>,
        weights: Option<Seq<Single>>,
    ) -> bool {
        let n = self.instances(preds, labels);
        &&& n <= labels.len()
        &&& n * self.width() <= preds.len()
        &&& weights matches Some(w) ==> n <= w.len()
        &&& 0 < self.width()
        &&& self is ClassLogistic ==> forall|i: int|
            0 <= i < labels.len() ==> class_of(#[trigger] labels[i]) < self.width()
    }

    /// What an instance adds to the metric, if anything.
    pub open spec fn part<F: Fn(Op, u64, u64) -> u64>(
        self,
        preds: Seq<Single>,
        labels: Seq<Single>,
        w: Wide,
        i: int,
        calc: &Calc<F>,
    ) -> Option<Wide> {
        let one = Wide { bits: ONE };
        let y = calc.widened(labels[i]);
        match self {
            Loss::Squared => {
                let d = calc.minus(calc.widened(preds[i]), y);
                Some(calc.times(calc.times(w, d), d))
            },
            Loss::Absolute => Some(
                calc.times(w, calc.minus(calc.widened(preds[i]), y).absolute()),
            ),
            Loss::Logistic => {
                let p = calc.widened(preds[i]).clamped(
                    Wide { bits: LEAST_PROB },
                    Wide { bits: GREATEST_PROB },
                );
                Some(
                    calc.times(
                        w,
                        calc.plus(
                            calc.times(y, calc.logarithm(p)),
                            calc.times(
                                calc.minus(one, y),
                                calc.logarithm(calc.minus(one, p)),
                            ),
                        ).negated(),
                    ),
                )
            },
            Loss::Wrong => {
                let half = Single { bits: HALF_S };
                if half.lt(preds[i]) != half.lt(labels[i]) { Some(w) } else { None }
            },
            Loss::ClassLogistic(k) => {
                let p = calc.widened(preds[i * k + class_of(labels[i])]).clamped(
                    Wide { bits: LEAST_PROB },
                    one,
                );
                Some(calc.times(w.negated(), calc.logarithm(p)))
            },
            Loss::ClassWrong(k) => if top_class(preds, i * k, k as int) != class_of(labels[i]) {
                Some(w)
            } else {
                None
            },
            Loss::Poisson => {
                let p = calc.widened(preds[i]).greater(Wide { bits: LEAST_MEAN });
                Some(calc.times(w, calc.minus(p, calc.times(y, calc.logarithm(p)))))
            },
            Loss::Gamma => {
                let mu = calc.widened(preds[i]).greater(Wide { bits: LEAST_MEAN });
                Some(calc.times(w, calc.plus(calc.over(y, mu), calc.logarithm(mu))))
            },
            Loss::Tweedie(rho) => {
                let mu = calc.widened(preds[i]).greater(Wide { bits: LEAST_MEAN });
                let r1 = calc.minus(one, rho);
                let r2 = calc.minus(Wide { bits: TWO }, rho);
                let a = calc.over(calc.times(y, calc.power(mu, r1)), r1);
                let b = calc.over(calc.power(mu, r2), r2);
                Some(calc.times(w, calc.plus(a.negated(), b)))
            },
        }
    }

    /// The sum of what the first `n` instances add, and the sum of their
    /// weights.
    pub open spec fn sums<F: Fn(Op, u64, u64) -> u64>(
        self,
        preds: Seq<Single>,
        labels: Seq<Single>,
        weights: Option<Seq<Single>>,
        n: int,
        calc: &Calc<F>,
    ) -> (Wide, Wide)
        decreases n,
    {
        if n <= 0 {
            (Wide { bits: 0 }, Wide { bits: 0 })
        } else {
            let (sum, total) = self.sums(preds, labels, weights, n - 1, calc);
            let w = wide_weight(weights, n - 1, calc);
            let more = match self.part(preds, labels, w, n - 1, calc) {
                Some(x) => calc.plus(sum, x),
                None => sum,
            };
            (more, calc.plus(total, w))
        }
    }

    /// The weighted mean, or zero where there is no weight.
    pub open spec fn mean<F: Fn(Op, u64, u64) -> u64>(
        self,
        preds: Seq<Single>,
        labels: Seq<Single>,
        weights: Option<Seq<Single>>,
        calc: &Calc<F>,
    ) -> Wide {
        let (sum, total) = self.sums(preds, labels, weights, self.instances(preds, labels), calc);
        if (Wide { bits: 0 }).lt(total) {
            if self == Loss::Squared {
                calc.root(calc.over(sum, total))
            } else {
                calc.over(sum, total)
            }
        } else {
            Wide { bits: 0 }
        }
    }
}

proof fn row_lies_within(n: int, k: int, i: int, len: int)
    requires
        0 <= i < n,
        0 < k,
        n * k <= len,
    ensures
        0 <= i * k,
        i * k + k <= len,
{
    assert(0 <= i * k && i * k + k <= n * k) by (nonlinear_arith)
        requires
            0 <= i < n,
            0 < k,
    ;
}

/// The most probable class of a row of `k` predictions from `base` on.
pub fn top(preds: &[Single], base: usize, k: usize) -> (r: usize)
    requires
        0 < k,
        base + k <= preds.len(),
    ensures
        r == top_class(preds@, base as int, k as int),
        r < k,
{
    let mut best: usize = 0;
    let mut c: usize = 1;
    while c < k
        invariant
            0 < k,
            base + k <= preds.len(),
            1 <= c <= k,
            best < c,
            best == top_class(preds@, base as int, c as int),
        decreases k - c,
    {
        if preds[base + best].is_lt(preds[base + c]) {
            best = c;
        }
        c = c + 1;
    }
    best
}

/// What an instance adds to a metric.
fn part_of<F: Fn(Op, u64, u64) -> u64>(
    loss: Loss,
    preds: &[Single],
    labels: &[Single],
    w: Wide,
    i: usize,
    calc: &Calc<F>,
) -> (r: Option<Wide>)
    requires
        i < loss.instances(preds@, labels@) <= labels.len(),
        loss.instances(preds@, labels@) * loss.width() <= preds.len(),
        0 < loss.width(),
        loss is ClassLogistic ==> class_of(labels[i as int]) < loss.width(),
    ensures
        r == loss.part(preds@, labels@, w, i as int, calc),
{
    let one = Wide { bits: ONE };
    match loss {
        Loss::Squared => {
            let d = calc.sub(calc.widen(preds[i]), calc.widen(labels[i]));
            Some(calc.mul(calc.mul(w, d), d))
        },
        Loss::Absolute => Some(
            calc.mul(w, calc.sub(calc.widen(preds[i]), calc.widen(labels[i])).abs()),
        ),
        Loss::Logistic => {
            let p = calc.widen(preds[i]).clamp(
                Wide { bits: LEAST_PROB },
                Wide { bits: GREATEST_PROB },
            );
            let y = calc.widen(labels[i]);
            let hit = calc.mul(y, calc.ln(p));
            let miss = calc.mul(calc.sub(one, y), calc.ln(calc.sub(one, p)));
            Some(calc.mul(w, calc.add(hit, miss).neg()))
        },
        Loss::Wrong => {
            let half = Single { bits: HALF_S };
            if half.is_lt(preds[i]) != half.is_lt(labels[i]) {
                Some(w)
            } else {
                None
            }
        },
        Loss::ClassLogistic(k) => {
            proof {
                row_lies_within(labels.len() as int, k as int, i as int, preds.len() as int);
            }
            let c: usize = labels[i].to_usize();
            let p = calc.widen(preds[i * k + c]).clamp(Wide { bits: LEAST_PROB }, one);
            Some(calc.mul(w.neg(), calc.ln(p)))
        },
        Loss::ClassWrong(k) => {
            proof {
                row_lies_within(labels.len() as int, k as int, i as int, preds.len() as int);
            }
            let best: usize = top(preds, i * k, k);
            if best != labels[i].to_usize() {
                Some(w)
            } else {
                None
            }
        },
        Loss::Poisson => {
            let p = calc.widen(preds[i]).max(Wide { bits: LEAST_MEAN });
            let y = calc.widen(labels[i]);
            Some(calc.mul(w, calc.sub(p, calc.mul(y, calc.ln(p)))))
        },
        Loss::Gamma => {
            let mu = calc.widen(preds[i]).max(Wide { bits: LEAST_MEAN });
            let y = calc.widen(labels[i]);
            Some(calc.mul(w, calc.add(calc.div(y, mu), calc.ln(mu))))
        },
        Loss::Tweedie(rho) => {
            let mu = calc.widen(preds[i]).max(Wide { bits: LEAST_MEAN });
            let y = calc.widen(labels[i]);
            let r1 = calc.sub(one, rho);
            let r2 = calc.sub(Wide { bits: TWO }, rho);
            let a = calc.div(calc.mul(y, calc.pow(mu, r1)), r1);
            let b = calc.div(calc.pow(mu, r2), r2);
            Some(calc.mul(w, calc.add(a.neg(), b)))
        },
    }
}

/// The weighted mean of a loss.
pub fn mean_of<F: Fn(Op, u64, u64) -> u64>(
    loss: Loss,
    preds: &[Single],
    labels: &[Single],
    weights: Option<&[Single]>,
    calc: &Calc<F>,
) -> (r: Wide)
    requires
        loss.accepts(preds@, labels@, slice_view(weights)),
    ensures
        r == loss.mean(preds@, labels@, slice_view(weights), calc),
{
    let n: usize = match loss {
        Loss::ClassLogistic(_) => labels.len(),
        Loss::ClassWrong(_) => labels.len(),
        _ => preds.len(),
    };
    let mut sum = Wide::zero();
    let mut total = Wide::zero();
    let mut i: usize = 0;
    while i < n
        invariant
            loss.accepts(preds@, labels@, slice_view(weights)),
            n == loss.instances(preds@, labels@),
            i <= n,
            (sum, total) == loss.sums(preds@, labels@, slice_view(weights), i as int, calc),
        decreases n - i,
    {
        let w = weight_of(weights, i, calc);
        if let Some(x) = part_of(loss, preds, labels, w, i, calc) {
            sum = calc.add(sum, x);
        }
        total = calc.add(total, w);
        i = i + 1;
    }
    if Wide::zero().is_lt(total) {
        let mean = calc.div(sum, total);
        if loss == Loss::Squared {
            calc.sqrt(mean)
        } else {
            mean
        }
    } else {
        Wide::zero()
    }
}

/// Root-mean-square error.
#[derive(Clone, Copy, Debug)]
pub struct Rmse;

impl Default for Rmse {
    fn default() -> (r: Self)
        ensures
            r == Rmse,
    {
        Rmse
    }
}

impl MetricInfo for Rmse {
    open spec fn title(&self) -> Seq<char> {
        "rmse"@
    }

    open spec fn rises(&self) -> bool {
        false
    }

    fn name(&self) -> (r: &str) {
        "rmse"
    }

    fn maximize(&self) -> (r: bool) {
        false
    }
}

impl<F: Fn(Op, u64, u64) -> u64> Metric<F> for Rmse {
    open spec fn accepts(
        &self,
        preds: Seq<Single>,
        labels: Seq<Single>,
        weights: Option<Seq<Single>>,
        groups: Option<Seq<usize>>,
    ) -> bool {
        Loss::Squared.accepts(preds, labels, weights)
    }

    open spec fn value(
        &self,
        preds: Seq<Single>,
        labels: Seq<Single>,
        weights: Option<Seq<Single>>,
        groups: Option<Seq<usize>>,
        calc: &Calc<F>,
    ) -> Wide {
        Loss::Squared.mean(preds, labels, weights, calc)
    }

    fn eval_grouped(
        &self,
        preds: &[Single],
        labels: &[Single],
        weights: Option<&[Single]>,
        group: Option<&GroupInfo>,
        calc: &Calc<F>,
    ) -> (r: Wide) {
        mean_of(Loss::Squared, preds, labels, weights, calc)
    }
}

/// Mean absolute error.
#[derive(Clone, Copy, Debug)]
pub struct Mae;

impl Default for Mae {
    fn default() -> (r: Self)
        ensures
            r == Mae,
    {
        Mae
    }
}

impl MetricInfo for Mae {
    open spec fn title(&self) -> Seq<char> {
        "mae"@
    }

    open spec fn rises(&self) -> bool {
        false
    }

    fn name(&self) -> (r: &str) {
        "mae"
    }

    fn maximize(&self) -> (r: bool) {
        false
    }
}

impl<F: Fn(Op, u64, u64) -> u64> Metric<F> for Mae {
    open spec fn accepts(
        &self,
        preds: Seq<Single>,
        labels: Seq<Single>,
        weights: Option<Seq<Single>>,
        groups: Option<Seq<usize>>,
    ) -> bool {
        Loss::Absolute.accepts(preds, labels, weights)
    }

    open spec fn value(
        &self,
        preds: Seq<Single>,
        labels: Seq<Single>,
        weights: Option<Seq<Single>>,
        groups: Option<Seq<usize>>,
        calc: &Calc<F>,
    ) -> Wide {
        Loss::Absolute.mean(preds, labels, weights, calc)
    }

    fn eval_grouped(
        &self,
        preds: &[Single],
        labels: &[Single],
        weights: Option<&[Single]>,
        group: Option<&GroupInfo>,
        calc: &Calc<F>,
    ) -> (r: Wide) {
        mean_of(Loss::Absolute, preds, labels, weights, calc)
    }
}

/// Binary logistic loss of probabilities.
#[derive(Clone, Copy, Debug)]
pub struct LogLoss;

impl Default for LogLoss {
    fn default() -> (r: Self)
        ensures
            r == LogLoss,
    {
        LogLoss
    }
}

impl MetricInfo for LogLoss {
    open spec fn title(&self) -> Seq<char> {
        "logloss"@
    }

    open spec fn rises(&self) -> bool {
        false
    }

    fn name(&self) -> (r: &str) {
        "logloss"
    }

    fn maximize(&self) -> (r: bool) {
        false
    }
}

impl<F: Fn(Op, u64, u64) -> u64> Metric<F> for LogLoss {
    open spec fn accepts(
        &self,
        preds: Seq<Single>,
        labels: Seq<Single>,
        weights: Option<Seq<Single>>,
        groups: Option<Seq<usize>>,
    ) -> bool {
        Loss::Logistic.accepts(preds, labels, weights)
    }

    open spec fn value(
        &self,
        preds: Seq<Single>,
        labels: Seq<Single>,
        weights: Option<Seq<Single>>,
        groups: Option<Seq<usize>>,
        calc: &Calc<F>,
    ) -> Wide {
        Loss::Logistic.mean(preds, labels, weights, calc)
    }

    fn eval_grouped(
        &self,
        preds: &[Single],
        labels: &[Single],
        weights: Option<&[Single]>,
        group: Option<&GroupInfo>,
        calc: &Calc<F>,
    ) -> (r: Wide) {
        mean_of(Loss::Logistic, preds, labels, weights, calc)
    }
}

/// Share of instances on the wrong side of one half.
#[derive(Clone, Copy, Debug)]
pub struct ErrorRate;

impl Default for ErrorRate {
    fn default() -> (r: Self)
        ensures
            r == ErrorRate,
    {
        ErrorRate
    }
}

impl MetricInfo for ErrorRate {
    open spec fn title(&self) -> Seq<char> {
        "error"@
    }

    open spec fn rises(&self) -> bool {
        false
    }

    fn name(&self) -> (r: &str) {
        "error"
    }

    fn maximize(&self) -> (r: bool) {
        false
    }
}

impl<F: Fn(Op, u64, u64) -> u64> Metric<F> for ErrorRate {
    open spec fn accepts(
        &self,
        preds: Seq<Single>,
        labels: Seq<Single>,
        weights: Option<Seq<Single>>,
        groups: Option<Seq<usize>>,
    ) -> bool {
        Loss::Wrong.accepts(preds, labels, weights)
    }

    open spec fn value(
        &self,
        preds: Seq<Single>,
        labels: Seq<Single>,
        weights: Option<Seq<Single>>,
        groups: Option<Seq<usize>>,
        calc: &Calc<F>,
    ) -> Wide {
        Loss::Wrong.mean(preds, labels, weights, calc)
    }

    fn eval_grouped(
        &self,
        preds: &[Single],
        labels: &[Single],
        weights: Option<&[Single]>,
        group: Option<&GroupInfo>,
        calc: &Calc<F>,
    ) -> (r: Wide) {
        mean_of(Loss::Wrong, preds, labels, weights, calc)
    }
}

/// Multiclass logistic loss of class probabilities.
#[derive(Clone, Copy, Debug)]
pub struct MLogLoss {
    num_class: usize,
}

impl MLogLoss {
    /// The number of classes.
    pub closed spec fn classes(&self) -> usize {
        self.num_class
    }

    /// The metric with the given setting.
    pub fn new(num_class: usize) -> (r: Self)
        ensures
            r.classes() == num_class,
    {
        MLogLoss { num_class }
    }
}

impl MetricInfo for MLogLoss {
    open spec fn title(&self) -> Seq<char> {
        "mlogloss"@
    }

    open spec fn rises(&self) -> bool {
        false
    }

    fn name(&self) -> (r: &str) {
        "mlogloss"
    }

    fn maximize(&self) -> (r: bool) {
        false
    }
}

impl<F: Fn(Op, u64, u64) -> u64> Metric<F> for MLogLoss {
    open spec fn accepts(
        &self,
        preds: Seq<Single>,
        labels: Seq<Single>,
        weights: Option<Seq<Single>>,
        groups: Option<Seq<usize>>,
    ) -> bool {
        Loss::ClassLogistic(self.classes()).accepts(preds, labels, weights)
    }

    open spec fn value(
        &self,
        preds: Seq<Single>,
        labels: Seq<Single>,
        weights: Option<Seq<Single>>,
        groups: Option<Seq<usize>>,
        calc: &Calc<F>,
    ) -> Wide {
        Loss::ClassLogistic(self.classes()).mean(preds, labels, weights, calc)
    }

    fn eval_grouped(
        &self,
        preds: &[Single],
        labels: &[Single],
        weights: Option<&[Single]>,
        group: Option<&GroupInfo>,
        calc: &Calc<F>,
    ) -> (r: Wide) {
        mean_of(Loss::ClassLogistic(self.num_class), preds, labels, weights, calc)
    }
}

/// Share of instances whose most probable class is not the label.
#[derive(Clone, Copy, Debug)]
pub struct MError {
    num_class: usize,
}

impl MError {
    /// The number of classes.
    pub closed spec fn classes(&self) -> usize {
        self.num_class
    }

    /// The metric with the given setting.
    pub fn new(num_class: usize) -> (r: Self)
        ensures
            r.classes() == num_class,
    {
        MError { num_class }
    }
}

impl MetricInfo for MError {
    open spec fn title(&self) -> Seq<char> {
        "merror"@
    }

    open spec fn rises(&self) -> bool {
        false
    }

    fn name(&self) -> (r: &str) {
        "merror"
    }

    fn maximize(&self) -> (r: bool) {
        false
    }
}

impl<F: Fn(Op, u64, u64) -> u64> Metric<F> for MError {
    open spec fn accepts(
        &self,
        preds: Seq<Single>,
        labels: Seq<Single>,
        weights: Option<Seq<Single>>,
        groups: Option<Seq<usize>>,
    ) -> bool {
        Loss::ClassWrong(self.classes()).accepts(preds, labels, weights)
    }

    open spec fn value(
        &self,
        preds: Seq<Single>,
        labels: Seq<Single>,
        weights: Option<Seq<Single>>,
        groups: Option<Seq<usize>>,
        calc: &Calc<F>,
    ) -> Wide {
        Loss::ClassWrong(self.classes()).mean(preds, labels, weights, calc)
    }

    fn eval_grouped(
        &self,
        preds: &[Single],
        labels: &[Single],
        weights: Option<&[Single]>,
        group: Option<&GroupInfo>,
        calc: &Calc<F>,
    ) -> (r: Wide) {
        mean_of(Loss::ClassWrong(self.num_class), preds, labels, weights, calc)
    }
}

/// Poisson negative log-likelihood of rates.
#[derive(Clone, Copy, Debug)]
pub struct PoissonNLogLik;

impl Default for PoissonNLogLik {
    fn default() -> (r: Self)
        ensures
            r == PoissonNLogLik,
    {
        PoissonNLogLik
    }
}

impl MetricInfo for PoissonNLogLik {
    open spec fn title(&self) -> Seq<char> {
        "poisson-nloglik"@
    }

    open spec fn rises(&self) -> bool {
        false
    }

    fn name(&self) -> (r: &str) {
        "poisson-nloglik"
    }

    fn maximize(&self) -> (r: bool) {
        false
    }
}

impl<F: Fn(Op, u64, u64) -> u64> Metric<F> for PoissonNLogLik {
    open spec fn accepts(
        &self,
        preds: Seq<Single>,
        labels: Seq<Single>,
        weights: Option<Seq<Single>>,
        groups: Option<Seq<usize>>,
    ) -> bool {
        Loss::Poisson.accepts(preds, labels, weights)
    }

    open spec fn value(
        &self,
        preds: Seq<Single>,
        labels: Seq<Single>,
        weights: Option<Seq<Single>>,
        groups: Option<Seq<usize>>,
        calc: &Calc<F>,
    ) -> Wide {
        Loss::Poisson.mean(preds, labels, weights, calc)
    }

    fn eval_grouped(
        &self,
        preds: &[Single],
        labels: &[Single],
        weights: Option<&[Single]>,
        group: Option<&GroupInfo>,
        calc: &Calc<F>,
    ) -> (r: Wide) {
        mean_of(Loss::Poisson, preds, labels, weights, calc)
    }
}

/// Gamma negative log-likelihood of means.
#[derive(Clone, Copy, Debug)]
pub struct GammaNLogLik;

impl Default for GammaNLogLik {
    fn default() -> (r: Self)
        ensures
            r == GammaNLogLik,
    {
        GammaNLogLik
    }
}

impl MetricInfo for GammaNLogLik {
    open spec fn title(&self) -> Seq<char> {
        "gamma-nloglik"@
    }

    open spec fn rises(&self) -> bool {
        false
    }

    fn name(&self) -> (r: &str) {
        "gamma-nloglik"
    }

    fn maximize(&self) -> (r: bool) {
        false
    }
}

impl<F: Fn(Op, u64, u64) -> u64> Metric<F> for GammaNLogLik {
    open spec fn accepts(
        &self,
        preds: Seq<Single>,
        labels: Seq<Single>,
        weights: Option<Seq<Single>>,
        groups: Option<Seq<usize>>,
    ) -> bool {
        Loss::Gamma.accepts(preds, labels, weights)
    }

    open spec fn value(
        &self,
        preds: Seq<Single>,
        labels: Seq<Single>,
        weights: Option<Seq<Single>>,
        groups: Option<Seq<usize>>,
        calc: &Calc<F>,
    ) -> Wide {
        Loss::Gamma.mean(preds, labels, weights, calc)
    }

    fn eval_grouped(
        &self,
        preds: &[Single],
        labels: &[Single],
        weights: Option<&[Single]>,
        group: Option<&GroupInfo>,
        calc: &Calc<F>,
    ) -> (r: Wide) {
        mean_of(Loss::Gamma, preds, labels, weights, calc)
    }
}

/// Tweedie negative log-likelihood.
#[derive(Clone, Copy, Debug)]
pub struct TweedieNLogLik {
    rho: Wide,
}

impl TweedieNLogLik {
    /// The variance power.
    pub closed spec fn power(&self) -> Wide {
        self.rho
    }

    /// The metric with the given setting.
    pub fn new(rho: Wide) -> (r: Self)
        ensures
            r.power() == rho,
    {
        TweedieNLogLik { rho }
    }
}

impl MetricInfo for TweedieNLogLik {
    open spec fn title(&self) -> Seq<char> {
        "tweedie-nloglik"@
    }

    open spec fn rises(&self) -> bool {
        false
    }

    fn name(&self) -> (r: &str) {
        "tweedie-nloglik"
    }

    fn maximize(&self) -> (r: bool) {
        false
    }
}

impl<F: Fn(Op, u64, u64) -> u64> Metric<F> for TweedieNLogLik {
    open spec fn accepts(
        &self,
        preds: Seq<Single>,
        labels: Seq<Single>,
        weights: Option<Seq<Single>>,
        groups: Option<Seq<usize>>,
    ) -> bool {
        Loss::Tweedie(self.power()).accepts(preds, labels, weights)
    }

    open spec fn value(
        &self,
        preds: Seq<Single>,
        labels: Seq<Single>,
        weights: Option<Seq<Single>>,
        groups: Option<Seq<usize>>,
        calc: &Calc<F>,
    ) -> Wide {
        Loss::Tweedie(self.power()).mean(preds, labels, weights, calc)
    }

    fn eval_grouped(
        &self,
        preds: &[Single],
        labels: &[Single],
        weights: Option<&[Single]>,
        group: Option<&GroupInfo>,
        calc: &Calc<F>,
    ) -> (r: Wide) {
        mean_of(Loss::Tweedie(self.rho), preds, labels, weights, calc)
    }
}

} // verus!
