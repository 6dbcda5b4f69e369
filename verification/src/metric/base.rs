//! What every metric offers.

use vstd::prelude::*;

use crate::arith::{Calc, Op};
use crate::data::dmatrix::slice_view;
use crate::data::meta::GroupInfo;
use crate::number::{Single, Wide, ONE};
use crate::objective::base::groups_of;

verus! {

/// What a metric is called and which way it improves.
pub trait MetricInfo {
    /// The metric's name.
    spec fn title(&self) -> Seq<char>;

    /// Whether greater is better.
    spec fn rises(&self) -> bool;

    /// The metric's name.
    fn name(&self) -> (r: &str)
        ensures
            r@ == self.title(),
    ;

    /// Whether greater is better.
    fn maximize(&self) -> (r: bool)
        ensures
            r == self.rises(),
    ;
}

/// An evaluation metric over predictions and labels.
pub trait Metric<F: Fn(Op, u64, u64) -> u64>: MetricInfo {
    /// Whether predictions, labels, weights and ranking groups are ones that
    /// the metric can read.
    spec fn accepts(
        &self,
        preds: Seq<Single>,
        labels: Seq<Single>,
        weights: Option<Seq<Single>>,
        groups: Option<Seq<usize>>,
    ) -> bool;

    /// The metric's value.
    spec fn value(
        &self,
        preds: Seq<Single>,
        labels: Seq<Single>,
        weights: Option<Seq<Single>>,
        groups: Option<Seq<usize>>,
        calc: &Calc<F>,
    ) -> Wide;

    /// The metric's value, with ranking groups.
    fn eval_grouped(
        &self,
        preds: &[Single],
        labels: &[Single],
        weights: Option<&[Single]>,
        group: Option<&GroupInfo>,
        calc: &Calc<F>,
    ) -> (r: Wide)
        requires
            self.accepts(preds@, labels@, slice_view(weights), groups_of(group)),
        ensures
            r == self.value(preds@, labels@, slice_view(weights), groups_of(group), calc),
    ;

    /// The metric's value.
    fn eval(
        &self,
        preds: &[Single],
        labels: &[Single],
        weights: Option<&[Single]>,
        calc: &Calc<F>,
    ) -> (r: Wide)
        requires
            self.accepts(preds@, labels@, slice_view(weights), None),
        ensures
            r == self.value(preds@, labels@, slice_view(weights), None, calc),
    {
        self.eval_grouped(preds, labels, weights, None, calc)
    }
}

/// The weight of an instance in double precision: one where no weights are
/// given.
pub open spec fn wide_weight<F: Fn(Op, u64, u64) -> u64>(
    weights: Option<Seq<Single>>,
    i: int,
    calc: &Calc<F>,
) -> Wide {
    match weights {
        Some(w) => calc.widened(w[i]),
        None => Wide { bits: ONE },
    }
}

/// The weight of an instance in double precision.
pub fn weight_of<F: Fn(Op, u64, u64) -> u64>(
    weights: Option<&[Single]>,
    i: usize,
    calc: &Calc<F>,
) -> (r: Wide)
    requires
        weights matches Some(w) ==> i < w@.len(),
    ensures
        r == wide_weight(slice_view(weights), i as int, calc),
{
    match weights {
        Some(w) => calc.widen(w[i]),
        None => Wide { bits: ONE },
    }
}

} // verus!
