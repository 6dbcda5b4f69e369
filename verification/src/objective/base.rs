//! What every objective offers.

use vstd::prelude::*;

use crate::arith::{Calc, Op};
use crate::data::dmatrix::slice_view;
use crate::data::meta::GroupInfo;
use crate::number::{Single, Wide, ONE_S};
use crate::objective::pair::GradPair;

verus! {

/// The boundaries of ranking groups, where there are any.
pub open spec fn groups_of(group: Option<&GroupInfo>) -> Option<Seq<usize>> {
    match group {
        Some(g) => Some(g.group_ptr@),
        None => None,
    }
}

/// Whether predictions, labels, weights and groups of a dataset fit together.
pub open spec fn data_fits(
    outputs: int,
    preds: Seq<Single>,
    labels: Seq<Single>,
    weights: Option<Seq<Single>>,
    groups: Option<Seq<usize>>,
) -> bool {
    &&& preds.len() == labels.len() * outputs
    &&& labels.len() <= u32::MAX
    &&& weights matches Some(w) ==> w.len() == labels.len()
    &&& groups matches Some(p) ==> {
        &&& p.len() > 0
        &&& p[0] == 0
        &&& forall|a: int, b: int| 0 <= a <= b < p.len() ==> p[a] <= p[b]
    }
}

/// The weight of an instance: one where no weights are given.
pub open spec fn weight_at(weights: Option<Seq<Single>>, i: int) -> Single {
    match weights {
        Some(w) => w[i],
        None => Single { bits: ONE_S },
    }
}

/// The weight of an instance.
pub fn weight_of(weights: Option<&[Single]>, i: usize) -> (r: Single)
    requires
        weights matches Some(w) ==> i < w@.len(),
    ensures
        r == weight_at(slice_view(weights), i as int),
{
    match weights {
        Some(w) => w[i],
        None => Single { bits: ONE_S },
    }
}

/// What an objective is called and reported by.
pub trait ObjectiveInfo {
    /// The objective's name.
    spec fn title(&self) -> Seq<char>;

    /// The number of raw outputs per instance.
    spec fn outputs(&self) -> int;

    /// The name of the metric that the objective is reported by.
    spec fn metric(&self) -> Seq<char>;

    /// The objective's name.
    fn name(&self) -> (r: &str)
        ensures
            r@ == self.title(),
    ;

    /// The number of raw outputs per instance.
    fn n_outputs(&self) -> (r: usize)
        ensures
            r == self.outputs(),
    ;

    /// The name of the metric that the objective is reported by.
    fn default_metric(&self) -> (r: &str)
        ensures
            r@ == self.metric(),
    ;
}

/// A differentiable learning objective.
pub trait Objective<F: Fn(Op, u64, u64) -> u64>: ObjectiveInfo {
    /// Whether the objective can be used at all.
    spec fn usable(&self) -> bool;

    /// The gradients of every instance and output.
    spec fn gradients(
        &self,
        preds: Seq<Single>,
        labels: Seq<Single>,
        weights: Option<Seq<Single>>,
        groups: Option<Seq<usize>>,
        calc: &Calc<F>,
    ) -> Seq<GradPair>;

    /// The reported predictions of margins.
    spec fn transformed(
        &self,
        preds: Seq<Single>,
        calc: &Calc<F>,
    ) -> Seq<Single>;

    /// The best constant margin.
    spec fn start(
        &self,
        labels: Seq<Single>,
        weights: Option<Seq<Single>>,
        calc: &Calc<F>,
    ) -> Single;

    /// The margin of a prediction.
    spec fn margin_of(&self, base_score: Single, calc: &Calc<F>) -> Single;

    /// The gradients of every instance and output, with ranking groups.
    fn gradient_grouped(
        &self,
        preds: &[Single],
        labels: &[Single],
        weights: Option<&[Single]>,
        group: Option<&GroupInfo>,
        out: &mut Vec<GradPair>,
        calc: &Calc<F>,
    )
        requires
            self.usable(),
            data_fits(
                self.outputs(),
                preds@,
                labels@,
                slice_view(weights),
                groups_of(group),
            ),
            old(out).len() == preds.len(),
        ensures
            final(out)@ == self.gradients(
                preds@,
                labels@,
                slice_view(weights),
                groups_of(group),
                calc,
            ),
            final(out).len() == preds.len(),
    ;

    /// The gradients of every instance and output.
    fn gradient(
        &self,
        preds: &[Single],
        labels: &[Single],
        weights: Option<&[Single]>,
        out: &mut Vec<GradPair>,
        calc: &Calc<F>,
    )
        requires
            self.usable(),
            data_fits(self.outputs(), preds@, labels@, slice_view(weights), None),
            old(out).len() == preds.len(),
        ensures
            final(out)@ == self.gradients(preds@, labels@, slice_view(weights), None, calc),
            final(out).len() == preds.len(),
    {
        self.gradient_grouped(preds, labels, weights, None, out, calc)
    }

    /// Turn margins into reported predictions.
    fn pred_transform(&self, preds: &mut Vec<Single>, calc: &Calc<F>)
        requires
            self.usable(),
        ensures
            final(preds)@ == self.transformed(old(preds)@, calc),
            final(preds).len() == old(preds).len(),
    ;

    /// The best constant margin, to start from.
    fn base_margin(
        &self,
        labels: &[Single],
        weights: Option<&[Single]>,
        calc: &Calc<F>,
    ) -> (r: Single)
        ensures
            r == self.start(labels@, slice_view(weights), calc),
    ;

    /// The margin of a prediction to start from.
    fn prob_to_margin(
        &self,
        base_score: Single,
        calc: &Calc<F>,
    ) -> (r: Single)
        ensures
            r == self.margin_of(base_score, calc),
    ;
}

/// The weighted sum of the first `n` labels, and the sum of their weights.
pub open spec fn weighted_sums<F: Fn(Op, u64, u64) -> u64>(
    labels: Seq<Single>,
    weights: Seq<Single>,
    n: int,
    calc: &Calc<F>,
) -> (Wide, Wide)
    decreases n,
{
    if n <= 0 {
        (Wide { bits: 0 }, Wide { bits: 0 })
    } else {
        let (num, den) = weighted_sums(labels, weights, n - 1, calc);
        let w = calc.widened(weights[n - 1]);
        (calc.plus(num, calc.times(calc.widened(labels[n - 1]), w)), calc.plus(den, w))
    }
}

/// The sum of the first `n` labels.
pub open spec fn label_sum<F: Fn(Op, u64, u64) -> u64>(
    labels: Seq<Single>,
    n: int,
    calc: &Calc<F>,
) -> Wide
    decreases n,
{
    if n <= 0 {
        Wide { bits: 0 }
    } else {
        calc.plus(label_sum(labels, n - 1, calc), calc.widened(labels[n - 1]))
    }
}

/// The mean of the labels, weighted if there are weights; zero where there is
/// nothing to take the mean of.
pub open spec fn label_mean<F: Fn(Op, u64, u64) -> u64>(
    labels: Seq<Single>,
    weights: Option<Seq<Single>>,
    calc: &Calc<F>,
) -> Wide {
    match weights {
        Some(w) => {
            let n = if labels.len() <= w.len() { labels.len() as int } else { w.len() as int };
            let (num, den) = weighted_sums(labels, w, n, calc);
            if (Wide { bits: 0 }).lt(den) { calc.over(num, den) } else { Wide { bits: 0 } }
        },
        None => if labels.len() == 0 {
            Wide { bits: 0 }
        } else {
            calc.over(
                label_sum(labels, labels.len() as int, calc),
                calc.of(labels.len() as int),
            )
        },
    }
}

/// The mean of the labels, weighted if there are weights.
pub fn weighted_label_mean<F: Fn(Op, u64, u64) -> u64>(
    labels: &[Single],
    weights: Option<&[Single]>,
    calc: &Calc<F>,
) -> (r: Wide)
    ensures
        r == label_mean(labels@, slice_view(weights), calc),
{
    match weights {
        Some(w) => {
            let n: usize = if labels.len() <= w.len() { labels.len() } else { w.len() };
            let mut num = Wide::zero();
            let mut den = Wide::zero();
            let mut i: usize = 0;
            while i < n
                invariant
                    n <= labels.len(),
                    n <= w.len(),
                    i <= n,
                    (num, den) == weighted_sums(labels@, w@, i as int, calc),
                decreases n - i,
            {
                let wi = calc.widen(w[i]);
                num = calc.add(num, calc.mul(calc.widen(labels[i]), wi));
                den = calc.add(den, wi);
                i = i + 1;
            }
            if Wide::zero().is_lt(den) {
                calc.div(num, den)
            } else {
                Wide::zero()
            }
        },
        None => {
            if labels.len() == 0 {
                return Wide::zero();
            }
            let mut sum = Wide::zero();
            let mut i: usize = 0;
            while i < labels.len()
                invariant
                    i <= labels.len(),
                    sum == label_sum(labels@, i as int, calc),
                decreases labels.len() - i,
            {
                sum = calc.add(sum, calc.widen(labels[i]));
                i = i + 1;
            }
            calc.div(sum, calc.of_usize(labels.len()))
        },
    }
}

} // verus!
