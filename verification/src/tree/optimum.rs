//! Which leaf weights score best.

use vstd::prelude::*;

use crate::arith::{Calc, Op};
use crate::exact::{gather, is_exact, shift, spread, swap, undivided};
use crate::number::{Wide, TWO};
use crate::tree::constraints::{bounded_weight, score_at, Bounds};
use crate::tree::gain::{free_weight, shrunk, too_light, GradStats, RegParams};

verus! {

/// The score `-(2 t w + h w^2)`.
pub(crate) open spec fn peaked(t: real, h: real, w: real) -> real {
    0real - ((2real * t) * w + (h * w) * w)
}

proof fn products_are_not_negative(a: real, b: real)
    requires
        (a >= 0real && b >= 0real) || (a <= 0real && b <= 0real),
    ensures
        a * b >= 0real,
{
    assert(a * b >= 0real) by (nonlinear_arith)
        requires
            (a >= 0real && b >= 0real) || (a <= 0real && b <= 0real),
    ;
}

/// The score falls from its peak to either side.
pub(crate) proof fn scores_fall_from_the_peak(t: real, h: real, peak: real, near: real, far: real)
    requires
        h > 0real,
        peak * h == 0real - t,
        (peak <= near && near <= far) || (far <= near && near <= peak),
    ensures
        peaked(t, h, far) <= peaked(t, h, near),
{
    let d = far - near;
    let e = (far - peak) + (near - peak);
    products_are_not_negative(d, e);
    products_are_not_negative(h, d * e);
    // `h d e` is the difference of the two scores.
    let two_p = peak + peak;
    assert(e == (far + near) - two_p);
    spread(d, far + near, two_p);
    spread(h, d * (far + near), d * two_p);
    // `h d (far + near)` is the difference of the squares.
    gather(far, near, far + near);
    spread(far, far, near);
    spread(near, far, near);
    swap(far, near);
    assert(d * (far + near) == far * far - near * near);
    spread(h, far * far, near * near);
    shift(h, far, far);
    shift(h, near, near);
    // `h d 2 peak` is the difference of the linear parts.
    shift(h, d, two_p);
    swap(h, d);
    shift(d, h, two_p);
    spread(h, peak, peak);
    swap(h, peak);
    assert(h * two_p == 0real - (t + t));
    let tt = 2real * t;
    assert(tt == t + t) by (nonlinear_arith)
        requires
            tt == 2real * t,
    ;
    spread(d, 0real, tt);
    assert(d * 0real == 0real) by (nonlinear_arith);
    gather(far, near, tt);
    swap(far, tt);
    swap(near, tt);
}

/// In an arithmetic that does not round, no weight within the bounds, and within
/// the greatest step if there is one, scores better than the bounded weight does.
pub proof fn bounded_weights_score_best<F: Fn(Op, u64, u64) -> u64>(
    stats: GradStats,
    reg: RegParams,
    bounds: Bounds,
    w: Wide,
    val: spec_fn(Wide) -> Option<real>,
    calc: &Calc<F>,
)
    requires
        is_exact(val, calc),
        !too_light(stats, reg),
        val(calc.plus(stats.hess, reg.lambda)) is Some,
        val(calc.plus(stats.hess, reg.lambda))->0 > 0real,
        val(
            calc.over(
                shrunk(stats.grad, reg.alpha, calc).negated(),
                calc.plus(stats.hess, reg.lambda),
            ),
        ) is Some,
        val(reg.max_delta_step) is Some,
        val(reg.max_delta_step.negated()) is Some,
        (Wide { bits: 0 }).lt(reg.max_delta_step) ==> reg.max_delta_step.negated().le(w) && w.le(
            reg.max_delta_step,
        ),
        bounds.holds(w),
        val(score_at(stats, reg, w, calc)) is Some,
        val(score_at(stats, reg, bounded_weight(stats, reg, bounds, calc), calc)) is Some,
    ensures
        val(score_at(stats, reg, w, calc))->0 <= val(
            score_at(stats, reg, bounded_weight(stats, reg, bounds, calc), calc),
        )->0,
{
    let best = bounded_weight(stats, reg, bounds, calc);
    let t = shrunk(stats.grad, reg.alpha, calc);
    let h = calc.plus(stats.hess, reg.lambda);
    let free = calc.over(t.negated(), h);
    scores_stand(stats, reg, w, val, calc);
    scores_stand(stats, reg, best, val, calc);
    let tv = val(t)->0;
    let hv = val(h)->0;
    let peak = val(free)->0;
    undivided(0real - tv, hv);
    let step = free_weight(stats, reg, calc);
    assert(best == step.clamped(bounds.lower, bounds.upper));
    scores_fall_from_the_peak(tv, hv, peak, val(best)->0, val(w)->0);
}

pub(crate) proof fn scores_stand<F: Fn(Op, u64, u64) -> u64>(
    stats: GradStats,
    reg: RegParams,
    w: Wide,
    val: spec_fn(Wide) -> Option<real>,
    calc: &Calc<F>,
)
    requires
        is_exact(val, calc),
        !too_light(stats, reg),
        val(score_at(stats, reg, w, calc)) is Some,
    ensures
        val(w) is Some,
        val(shrunk(stats.grad, reg.alpha, calc)) is Some,
        val(score_at(stats, reg, w, calc))->0 == peaked(
            val(shrunk(stats.grad, reg.alpha, calc))->0,
            val(calc.plus(stats.hess, reg.lambda))->0,
            val(w)->0,
        ),
{
    let t = shrunk(stats.grad, reg.alpha, calc);
    let h = calc.plus(stats.hess, reg.lambda);
    let tt = calc.times(Wide { bits: TWO }, t);
    let linear = calc.times(tt, w);
    let hw = calc.times(h, w);
    let square = calc.times(hw, w);
    let sum = calc.plus(linear, square);
    assert(score_at(stats, reg, w, calc) == sum.negated());
    assert(val(sum) is Some);
    assert(val(linear) is Some && val(square) is Some);
    assert(val(tt) is Some && val(hw) is Some);
}

} // verus!
