//! Which open node growth takes up next, and where it splits.

use vstd::prelude::*;

use crate::arith::{Calc, Op};
use crate::config::GrowPolicy;
use crate::exact::singles_halve;
use crate::number::{Single, Wide, HALF_S};
use crate::tree::builder::exact::Pass;
use crate::tree::builder::growth::{Best, Target};
use crate::tree::builder::hist::{Plan, Step};
use crate::tree::gain::RegParams;

verus! {

/// Growth that is guided by loss takes up an open node whose best split reduces the loss
/// no less than that of any other; growth by level takes up the node that has waited
/// longest.
pub proof fn growth_takes_up_the_best_or_the_first<F: Fn(Op, u64, u64) -> u64>(
    plan: Plan,
    s: Step,
    i: int,
    j: int,
    calc: &Calc<F>,
)
    requires
        plan.may_pick(s, i, calc),
        0 <= j < s.open.len(),
    ensures
        0 <= i < s.open.len(),
        plan.policy == GrowPolicy::DepthWise ==> i <= j,
        plan.policy == GrowPolicy::LossGuide ==> !plan.best(s.g, s.open[i], calc).loss_chg.lt(
            plan.best(s.g, s.open[j], calc).loss_chg,
        ),
{
    let this = plan.best(s.g, s.open[i], calc).loss_chg;
    let other = plan.best(s.g, s.open[j], calc).loss_chg;
    if plan.policy == GrowPolicy::LossGuide {
        assert(other.rank() <= this.rank());
    }
}

/// The threshold of a split over values lies halfway between two values of the node that
/// follow each other.
pub proof fn thresholds_lie_halfway<F: Fn(Op, u64, u64) -> u64>(
    c: Pass,
    nid: int,
    best: Best,
    target: Target,
    dir: i8,
    f: u32,
    n: int,
    reg: RegParams,
    val: spec_fn(Wide) -> Option<real>,
    calc: &Calc<F>,
)
    requires
        singles_halve(val, calc),
        0 < n,
        ({
            let after = c.scan(nid, best, target, dir, f, n, reg, calc).best;
            &&& after != c.scan(nid, best, target, dir, f, n - 1, reg, calc).best
            &&& val(calc.widened(after.threshold)) is Some
        }),
    ensures
        ({
            let before = c.scan(nid, best, target, dir, f, n - 1, reg, calc);
            let after = c.scan(nid, best, target, dir, f, n, reg, calc);
            let t = val(calc.widened(after.best.threshold))->0;
            &&& before.has
            &&& t - val(calc.widened(before.last))->0 == val(calc.widened(c.col[n - 1].1))->0 - t
            &&& after.last == c.col[n - 1].1
            &&& after.best.feature == f
        }),
{
    let before = c.scan(nid, best, target, dir, f, n - 1, reg, calc);
    let sum = calc.plus_s(before.last, c.col[n - 1].1);
    let half = calc.times_s(Single { bits: HALF_S }, sum);
    let after = c.scan(nid, best, target, dir, f, n, reg, calc);
    assert(after.best.threshold == half);
    assert(val(calc.widened(sum)) is Some);
}

} // verus!
