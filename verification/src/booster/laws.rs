//! What the steps of coordinate descent achieve.

use vstd::prelude::*;

use crate::arith::{Calc, Op};
use crate::booster::gblinear::{weight_step, LEAST_SUM};
use crate::exact::{gather, is_exact, shift, spread, swap, turn, undivided, vanish};
use crate::number::Wide;

verus! {

/// The magnitude of a number.
pub open spec fn magnitude(x: real) -> real {
    if x >= 0real { x } else { 0real - x }
}

/// Twice the loss of a weight `w` after a step, to second order, with L2 and L1
/// penalties: `2 G d + H d^2 + lambda (w + d)^2 + 2 alpha |w + d|`.
pub open spec fn penalized(
    sum_grad: real,
    sum_hess: real,
    w: real,
    alpha: real,
    lambda: real,
    d: real,
) -> real {
    (sum_grad * d + sum_grad * d) + (sum_hess * d) * d + (lambda * (w + d)) * (w + d) + (alpha
        * magnitude(w + d) + alpha * magnitude(w + d))
}

/// The part of the loss that is smooth in the step.
pub(crate) open spec fn smooth(g: real, h: real, d: real) -> real {
    (g * d + g * d) + (h * d) * d
}

pub(crate) proof fn penalties_join_the_loss(
    sum_grad: real,
    sum_hess: real,
    w: real,
    alpha: real,
    lambda: real,
    d: real,
)
    ensures
        penalized(sum_grad, sum_hess, w, alpha, lambda, d) == (lambda * w) * w + smooth(
            sum_grad + lambda * w,
            sum_hess + lambda,
            d,
        ) + (alpha * magnitude(w + d) + alpha * magnitude(w + d)),
{
    let lw = lambda * w;
    let ld = lambda * d;
    spread(lambda, w, d);
    gather(lw, ld, w + d);
    spread(lw, w, d);
    spread(ld, w, d);
    turn(lambda, d, w);
    gather(sum_grad, lw, d);
    gather(sum_hess, lambda, d);
    gather(sum_hess * d, ld, d);
}

proof fn smooth_around(g: real, h: real, e: real, t: real)
    ensures
        smooth(g, h, e + t) == smooth(g, h, e) + ((g + h * e) * t + (g + h * e) * t) + (h * t) * t,
{
    spread(g, e, t);
    spread(h, e, t);
    gather(h * e, h * t, e + t);
    spread(h * e, e, t);
    spread(h * t, e, t);
    turn(h, e, t);
    gather(g, h * e, t);
}

proof fn not_negative(a: real, b: real)
    requires
        (a >= 0real && b >= 0real) || (a <= 0real && b <= 0real),
    ensures
        a * b >= 0real,
{
    assert(a * b >= 0real) by (nonlinear_arith)
        requires
            (a >= 0real && b >= 0real) || (a <= 0real && b <= 0real),
    ;
}

/// A step at which the slope is met by the L1 penalty is the best one.
pub(crate) proof fn balanced_steps_are_best(
    sum_grad: real,
    sum_hess: real,
    w: real,
    alpha: real,
    lambda: real,
    e: real,
    d: real,
)
    requires
        sum_hess + lambda > 0real,
        alpha >= 0real,
        ({
            let k = (sum_grad + lambda * w) + (sum_hess + lambda) * e;
            &&& w + e > 0real ==> k == 0real - alpha
            &&& w + e < 0real ==> k == alpha
            &&& w + e == 0real ==> 0real - alpha <= k && k <= alpha
        }),
    ensures
        penalized(sum_grad, sum_hess, w, alpha, lambda, e) <= penalized(
            sum_grad,
            sum_hess,
            w,
            alpha,
            lambda,
            d,
        ),
{
    let g = sum_grad + lambda * w;
    let h = sum_hess + lambda;
    let k = g + h * e;
    let t = d - e;
    let u = w + d;
    let v = w + e;
    let mu = magnitude(u);
    let mv = magnitude(v);
    penalties_join_the_loss(sum_grad, sum_hess, w, alpha, lambda, e);
    penalties_join_the_loss(sum_grad, sum_hess, w, alpha, lambda, d);
    smooth_around(g, h, e, t);
    assert(e + t == d);
    not_negative(t, t);
    not_negative(h, t * t);
    shift(h, t, t);
    assert(t == u - v);
    // The penalty gives at least what the slope takes.
    assert(alpha * mu - alpha * mv + k * t >= 0real) by {
        if v > 0real {
            assert(k * t == 0real - alpha * t) by {
                gather(0real, alpha, t);
                vanish(t);
            }
            spread(alpha, mu, mv);
            spread(alpha, mu - mv, t);
            not_negative(alpha, mu - mv - t);
        } else if v < 0real {
            spread(alpha, mu, mv);
            spread(alpha, mu - mv, t);
            not_negative(alpha, mu - mv + t);
        } else {
            vanish(alpha);
            if u >= 0real {
                gather(alpha, k, u);
                not_negative(alpha + k, u);
            } else {
                gather(alpha, k, 0real - u);
                not_negative(alpha - k, 0real - u);
                spread(k, 0real, u);
                vanish(k);
            }
        }
    }
}

/// In an arithmetic that does not round, the step of a weight is the best one: no
/// other gives a lesser loss, to second order and with its penalties.
pub proof fn weight_steps_minimize_the_loss<F: Fn(Op, u64, u64) -> u64>(
    sum_grad: Wide,
    sum_hess: Wide,
    w: Wide,
    alpha: Wide,
    lambda: Wide,
    d: real,
    val: spec_fn(Wide) -> Option<real>,
    calc: &Calc<F>,
)
    requires
        is_exact(val, calc),
        !sum_hess.lt(Wide { bits: LEAST_SUM }),
        val(alpha) is Some,
        val(alpha)->0 >= 0real,
        ({
            let g = calc.plus(sum_grad, calc.times(lambda, w));
            let h = calc.plus(sum_hess, lambda);
            &&& val(h) is Some
            &&& val(h)->0 > 0real
            &&& val(calc.minus(w, calc.over(g, h))) is Some
            &&& val(calc.over(calc.plus(g, alpha).negated(), h)) is Some
            &&& val(calc.over(calc.minus(g, alpha).negated(), h)) is Some
        }),
        val(w.negated()) is Some,
    ensures
        ({
            let step = weight_step(sum_grad, sum_hess, w, alpha, lambda, calc);
            &&& val(step) is Some
            &&& penalized(
                val(sum_grad)->0,
                val(sum_hess)->0,
                val(w)->0,
                val(alpha)->0,
                val(lambda)->0,
                val(step)->0,
            ) <= penalized(
                val(sum_grad)->0,
                val(sum_hess)->0,
                val(w)->0,
                val(alpha)->0,
                val(lambda)->0,
                d,
            )
        }),
{
    let zero = Wide { bits: 0 };
    let lw = calc.times(lambda, w);
    let g = calc.plus(sum_grad, lw);
    let h = calc.plus(sum_hess, lambda);
    let free = calc.over(g, h);
    let tmp = calc.minus(w, free);
    let up = calc.over(calc.plus(g, alpha).negated(), h);
    let down = calc.over(calc.minus(g, alpha).negated(), h);
    let back = w.negated();
    let step = weight_step(sum_grad, sum_hess, w, alpha, lambda, calc);
    assert(val(calc.plus(g, alpha).negated()) is Some);
    assert(val(calc.plus(g, alpha)) is Some);
    assert(val(g) is Some);
    assert(val(lw) is Some);
    assert(val(calc.minus(g, alpha).negated()) is Some);
    assert(val(calc.minus(g, alpha)) is Some);
    assert(val(free) is Some);
    let gv = val(g)->0;
    let hv = val(h)->0;
    let wv = val(w)->0;
    let av = val(alpha)->0;
    assert(gv == val(sum_grad)->0 + val(lambda)->0 * wv);
    assert(hv == val(sum_hess)->0 + val(lambda)->0);
    assert(val(back)->0 == 0real - wv);
    assert(up.le(up) && down.le(down) && back.le(back));
    assert(zero.le(tmp) <==> 0real <= val(tmp)->0);
    undivided(gv, hv);
    undivided(0real - (gv + av), hv);
    undivided(0real - (gv - av), hv);
    let fv = val(free)->0;
    let e = val(step)->0;
    swap(hv, val(up)->0);
    swap(hv, val(down)->0);
    swap(hv, 0real - wv);
    // How a bound on a number bounds its multiple.
    if wv - fv >= 0real {
        not_negative(wv - fv, hv);
        gather(wv, fv, hv);
        if val(up)->0 < 0real - wv {
            not_negative((0real - wv) - val(up)->0, hv);
            gather(0real - wv, val(up)->0, hv);
        }
    } else {
        not_negative(fv - wv, hv);
        gather(fv, wv, hv);
        if 0real - wv < val(down)->0 {
            not_negative(val(down)->0 - (0real - wv), hv);
            gather(val(down)->0, 0real - wv, hv);
        }
    }
    gather(0real, wv, hv);
    vanish(hv);
    balanced_steps_are_best(
        val(sum_grad)->0,
        val(sum_hess)->0,
        wv,
        av,
        val(lambda)->0,
        e,
        d,
    );
}

} // verus!
