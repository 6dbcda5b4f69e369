//! Gradient statistics and the score of a node.

use vstd::prelude::*;

use crate::arith::{Calc, Op};
use crate::config::TrainingParams;
use crate::number::Wide;

verus! {

/// A sum of gradients and Hessians.
#[derive(Clone, Copy, Debug, PartialEq, Eq, Structural)]
pub struct GradStats {
    /// Sum of first-order gradients.
    pub grad: Wide,
    /// Sum of second-order gradients.
    pub hess: Wide,
}

/// The sum of nothing.
pub open spec fn no_stats() -> GradStats {
    GradStats { grad: Wide { bits: 0 }, hess: Wide { bits: 0 } }
}

impl Default for GradStats {
    fn default() -> (r: Self)
        ensures
            r == no_stats(),
    {
        GradStats { grad: Wide::zero(), hess: Wide::zero() }
    }
}

impl GradStats {
    /// Both sums added.
    pub open spec fn joined<F: Fn(Op, u64, u64) -> u64>(
        self,
        other: GradStats,
        calc: &Calc<F>,
    ) -> GradStats {
        GradStats {
            grad: calc.plus(self.grad, other.grad),
            hess: calc.plus(self.hess, other.hess),
        }
    }

    /// Both sums subtracted.
    pub open spec fn without<F: Fn(Op, u64, u64) -> u64>(
        self,
        other: GradStats,
        calc: &Calc<F>,
    ) -> GradStats {
        GradStats {
            grad: calc.minus(self.grad, other.grad),
            hess: calc.minus(self.hess, other.hess),
        }
    }

    /// A pair of sums.
    pub fn new(grad: Wide, hess: Wide) -> (r: Self)
        ensures
            r == (GradStats { grad, hess }),
    {
        GradStats { grad, hess }
    }

    /// Add `other` to this.
    pub fn add<F: Fn(Op, u64, u64) -> u64>(&mut self, other: GradStats, calc: &Calc<F>)
        ensures
            *final(self) == old(self).joined(other, calc),
    {
        let grad = calc.add(self.grad, other.grad);
        let hess = calc.add(self.hess, other.hess);
        *self = GradStats { grad, hess };
    }

    /// This less `other`.
    pub fn sub<F: Fn(Op, u64, u64) -> u64>(self, other: GradStats, calc: &Calc<F>) -> (r: Self)
        ensures
            r == self.without(other, calc),
    {
        GradStats { grad: calc.sub(self.grad, other.grad), hess: calc.sub(self.hess, other.hess) }
    }
}

/// Regularization of leaf weights and scores.
#[derive(Clone, Copy, Debug, PartialEq, Eq, Structural)]
pub struct RegParams {
    /// L2 regularization.
    pub lambda: Wide,
    /// L1 regularization.
    pub alpha: Wide,
    /// Greatest leaf weight; zero for no limit.
    pub max_delta_step: Wide,
    /// Least sum of Hessians in a node.
    pub min_child_weight: Wide,
}

impl RegParams {
    /// The regularization of a configuration.
    pub open spec fn of(params: &TrainingParams) -> RegParams {
        RegParams {
            lambda: params.lambda,
            alpha: params.alpha,
            max_delta_step: params.max_delta_step,
            min_child_weight: params.min_child_weight,
        }
    }

    /// The regularization of a configuration.
    pub fn from_params(params: &TrainingParams) -> (r: Self)
        ensures
            r == RegParams::of(params),
    {
        RegParams {
            lambda: params.lambda,
            alpha: params.alpha,
            max_delta_step: params.max_delta_step,
            min_child_weight: params.min_child_weight,
        }
    }
}

/// A gradient sum shrunk towards zero by `alpha`.
pub open spec fn shrunk<F: Fn(Op, u64, u64) -> u64>(g: Wide, alpha: Wide, calc: &Calc<F>) -> Wide {
    if alpha.lt(g) {
        calc.minus(g, alpha)
    } else if g.lt(alpha.negated()) {
        calc.plus(g, alpha)
    } else {
        Wide { bits: 0 }
    }
}

/// A gradient sum shrunk towards zero by `alpha`.
pub fn threshold_l1<F: Fn(Op, u64, u64) -> u64>(g: Wide, alpha: Wide, calc: &Calc<F>) -> (r: Wide)
    ensures
        r == shrunk(g, alpha, calc),
{
    if alpha.is_lt(g) {
        calc.sub(g, alpha)
    } else if g.is_lt(alpha.neg()) {
        calc.add(g, alpha)
    } else {
        Wide::zero()
    }
}

/// Whether a node has too little weight to carry a score.
pub open spec fn too_light(stats: GradStats, reg: RegParams) -> bool {
    stats.hess.lt(reg.min_child_weight) || stats.hess.le(Wide { bits: 0 })
}

/// Whether a node has too little weight to carry a score.
pub fn is_too_light(stats: GradStats, reg: &RegParams) -> (r: bool)
    ensures
        r == too_light(stats, *reg),
{
    stats.hess.is_lt(reg.min_child_weight) || stats.hess.is_le(Wide::zero())
}

/// The best leaf weight before it is held within bounds:
/// `-T(G) / (H + lambda)`, held within the greatest step if there is one.
pub open spec fn free_weight<F: Fn(Op, u64, u64) -> u64>(
    stats: GradStats,
    reg: RegParams,
    calc: &Calc<F>,
) -> Wide {
    let w = calc.over(
        shrunk(stats.grad, reg.alpha, calc).negated(),
        calc.plus(stats.hess, reg.lambda),
    );
    if (Wide { bits: 0 }).lt(reg.max_delta_step) {
        w.clamped(reg.max_delta_step.negated(), reg.max_delta_step)
    } else {
        w
    }
}

/// The best leaf weight before it is held within bounds.
pub fn unbounded_weight<F: Fn(Op, u64, u64) -> u64>(
    stats: GradStats,
    reg: &RegParams,
    calc: &Calc<F>,
) -> (r: Wide)
    ensures
        r == free_weight(stats, *reg, calc),
{
    let t = threshold_l1(stats.grad, reg.alpha, calc);
    let w = calc.div(t.neg(), calc.add(stats.hess, reg.lambda));
    if Wide::zero().is_lt(reg.max_delta_step) {
        w.clamp(reg.max_delta_step.neg(), reg.max_delta_step)
    } else {
        w
    }
}

/// The best leaf weight of a node.
pub open spec fn weight<F: Fn(Op, u64, u64) -> u64>(
    stats: GradStats,
    reg: RegParams,
    calc: &Calc<F>,
) -> Wide {
    if too_light(stats, reg) { Wide { bits: 0 } } else { free_weight(stats, reg, calc) }
}

/// The best leaf weight of a node.
pub fn calc_weight<F: Fn(Op, u64, u64) -> u64>(
    stats: GradStats,
    reg: &RegParams,
    calc: &Calc<F>,
) -> (r: Wide)
    ensures
        r == weight(stats, *reg, calc),
{
    if is_too_light(stats, reg) { Wide::zero() } else { unbounded_weight(stats, reg, calc) }
}

/// The score of a node at its best weight: `T(G)^2 / (H + lambda)`.
pub open spec fn score<F: Fn(Op, u64, u64) -> u64>(
    stats: GradStats,
    reg: RegParams,
    calc: &Calc<F>,
) -> Wide {
    if too_light(stats, reg) {
        Wide { bits: 0 }
    } else {
        let t = shrunk(stats.grad, reg.alpha, calc);
        calc.over(calc.times(t, t), calc.plus(stats.hess, reg.lambda))
    }
}

/// The score of a node at its best weight.
pub fn calc_gain<F: Fn(Op, u64, u64) -> u64>(
    stats: GradStats,
    reg: &RegParams,
    calc: &Calc<F>,
) -> (r: Wide)
    ensures
        r == score(stats, *reg, calc),
{
    if is_too_light(stats, reg) {
        Wide::zero()
    } else {
        let t = threshold_l1(stats.grad, reg.alpha, calc);
        calc.div(calc.mul(t, t), calc.add(stats.hess, reg.lambda))
    }
}

} // verus!
