//! Gradients are those of the losses that objectives stand for.
//!
//! A gradient is the slope of the only line that touches a convex loss at the margin
//! and lies nowhere above it; this is how the laws tell which loss a gradient
//! belongs to. They speak of arithmetics that do not round.

use vstd::prelude::*;

use crate::arith::{Calc, Op};
use crate::exact::{
    above_zero, equal_factors, gather, not_below_zero, once, shift, singles_are_exact, spread,
    swap, turn, undivided, vanish,
};
use crate::exponential::{
    exponential_of_zero, exponentials_are_positive, exponentiates, is_exponential, multiplies,
    tangents_lie_below,
};
use crate::number::{Single, Wide, ONE_S, TWO_S};
use crate::objective::base::{weight_at, Objective};
use crate::objective::classification::{logistic, LogisticObjective, MIN_HESS};
use crate::objective::count::{GammaObjective, PoissonObjective, TweedieObjective};
use crate::objective::regression::{PseudoHuberObjective, SquaredErrorObjective};

verus! {

/// What a number in single precision stands for.
pub open spec fn number<F: Fn(Op, u64, u64) -> u64>(
    x: Single,
    val: spec_fn(Wide) -> Option<real>,
    calc: &Calc<F>,
) -> real {
    val(calc.widened(x))->0
}

/// Whether a number in single precision stands for one.
pub open spec fn is_number<F: Fn(Op, u64, u64) -> u64>(
    x: Single,
    val: spec_fn(Wide) -> Option<real>,
    calc: &Calc<F>,
) -> bool {
    val(calc.widened(x)) is Some
}

/// Whether a line through a loss at `at` with the given slope lies nowhere above the
/// loss.
pub open spec fn touches(loss: spec_fn(real) -> real, at: real, slope: real) -> bool {
    forall|m: real| #[trigger] loss(m) >= loss(at) + slope * (m - at)
}

proof fn scaled_lines(w: real, above: real, at: real, g: real, d: real)
    requires
        w >= 0real,
        above >= at + g * d,
    ensures
        w * above >= w * at + (g * w) * d,
{
    not_below_zero(w, above - (at + g * d));
    spread(w, above, at + g * d);
    spread(w, at, g * d);
    shift(w, g, d);
    swap(w, g);
}

/// The squared error.
pub open spec fn squared_loss(y: real, w: real) -> spec_fn(real) -> real {
    |m: real| w * ((m - y) * (m - y) / 2real)
}

/// Squared-error gradients are those of half the squared error, and its curvature is
/// the weight.
pub proof fn squared_error_gradients_touch<F: Fn(Op, u64, u64) -> u64>(
    o: SquaredErrorObjective,
    preds: Seq<Single>,
    labels: Seq<Single>,
    weights: Option<Seq<Single>>,
    groups: Option<Seq<usize>>,
    i: int,
    val: spec_fn(Wide) -> Option<real>,
    calc: &Calc<F>,
)
    requires
        singles_are_exact(val, calc),
        0 <= i < preds.len(),
        is_number(o.gradients(preds, labels, weights, groups, calc)[i].grad, val, calc),
        number(weight_at(weights, i), val, calc) >= 0real,
    ensures
        ({
            let pair = o.gradients(preds, labels, weights, groups, calc)[i];
            let w = number(weight_at(weights, i), val, calc);
            &&& touches(
                squared_loss(number(labels[i], val, calc), w),
                number(preds[i], val, calc),
                number(pair.grad, val, calc),
            )
            &&& number(pair.hess, val, calc) == w
        }),
{
    let pair = o.gradients(preds, labels, weights, groups, calc)[i];
    let w = number(weight_at(weights, i), val, calc);
    let y = number(labels[i], val, calc);
    let p = number(preds[i], val, calc);
    let loss = squared_loss(y, w);
    let g = p - y;
    assert(is_number(calc.minus_s(preds[i], labels[i]), val, calc));
    once(g);
    assert(number(pair.grad, val, calc) == g * w);
    assert forall|m: real| #[trigger] loss(m) >= loss(p) + number(pair.grad, val, calc) * (m
        - p) by {
        let d = m - p;
        let above = (m - y) * (m - y) / 2real;
        let at = g * g / 2real;
        spread(m - y, g, d);
        gather(g, d, g);
        gather(g, d, d);
        swap(g, d);
        not_below_zero(d, d);
        assert((m - y) * (m - y) == g * g + g * d + g * d + d * d);
        scaled_lines(w, above, at, g, d);
    }
}

/// The Poisson loss, up to a constant.
pub open spec fn poisson_loss(e: spec_fn(real) -> real, y: real, w: real) -> spec_fn(real) -> real {
    |m: real| w * (e(m) - y * m)
}

/// Poisson gradients are those of the Poisson loss, and the Hessian is its curvature
/// one step further on.
pub proof fn poisson_gradients_touch<F: Fn(Op, u64, u64) -> u64>(
    o: PoissonObjective,
    preds: Seq<Single>,
    labels: Seq<Single>,
    weights: Option<Seq<Single>>,
    groups: Option<Seq<usize>>,
    i: int,
    e: spec_fn(real) -> real,
    val: spec_fn(Wide) -> Option<real>,
    calc: &Calc<F>,
)
    requires
        singles_are_exact(val, calc),
        exponentiates(e, val, calc),
        0 <= i < preds.len(),
        is_number(o.gradients(preds, labels, weights, groups, calc)[i].grad, val, calc),
        is_number(o.gradients(preds, labels, weights, groups, calc)[i].hess, val, calc),
        number(weight_at(weights, i), val, calc) >= 0real,
    ensures
        ({
            let pair = o.gradients(preds, labels, weights, groups, calc)[i];
            let w = number(weight_at(weights, i), val, calc);
            let y = number(labels[i], val, calc);
            let g = number(pair.grad, val, calc);
            &&& touches(poisson_loss(e, y, w), number(preds[i], val, calc), g)
            &&& number(pair.hess, val, calc) == e(number(o.step(), val, calc)) * (g + y * w)
            &&& w > 0real ==> (g < 0real <==> e(number(preds[i], val, calc)) < y)
        }),
{
    let pair = o.gradients(preds, labels, weights, groups, calc)[i];
    let w = number(weight_at(weights, i), val, calc);
    let y = number(labels[i], val, calc);
    let p = number(preds[i], val, calc);
    let step = number(o.step(), val, calc);
    let loss = poisson_loss(e, y, w);
    assert(is_number(calc.minus_s(calc.exponential_s(preds[i]), labels[i]), val, calc));
    assert(is_number(calc.exponential_s(preds[i]), val, calc));
    assert(is_number(calc.exponential_s(calc.plus_s(preds[i], o.step())), val, calc));
    assert(is_number(calc.plus_s(preds[i], o.step()), val, calc));
    let g = e(p) - y;
    assert(number(pair.grad, val, calc) == g * w);
    assert forall|m: real| #[trigger] loss(m) >= loss(p) + number(pair.grad, val, calc) * (m
        - p) by {
        tangents_lie_below(e, p, m);
        spread(y, m, p);
        gather(e(p), y, m - p);
        scaled_lines(w, e(m) - y * m, e(p) - y * p, g, m - p);
    }
    assert(multiplies(e, p, step));
    gather(e(p), y, w);
    swap(e(p), e(step));
    shift(e(step), e(p), w);
    signs_follow(g, w);
}

proof fn signs_follow(g: real, w: real)
    ensures
        w > 0real ==> (g * w < 0real <==> g < 0real) && (g * w > 0real <==> g > 0real),
{
    if w > 0real {
        if g > 0real {
            above_zero(g, w);
        } else if g < 0real {
            above_zero(0real - g, w);
            gather(0real, g, w);
            vanish(w);
        } else {
            vanish(w);
        }
    }
}

/// The gamma loss, up to a constant.
pub open spec fn gamma_loss(e: spec_fn(real) -> real, y: real, w: real) -> spec_fn(real) -> real {
    |m: real| w * (y * e(0real - m) + m)
}

/// Gamma gradients are those of the gamma loss, gradient and Hessian add up to the
/// weight, and the gradient has the sign of the error.
pub proof fn gamma_gradients_touch<F: Fn(Op, u64, u64) -> u64>(
    o: GammaObjective,
    preds: Seq<Single>,
    labels: Seq<Single>,
    weights: Option<Seq<Single>>,
    groups: Option<Seq<usize>>,
    i: int,
    e: spec_fn(real) -> real,
    val: spec_fn(Wide) -> Option<real>,
    calc: &Calc<F>,
)
    requires
        singles_are_exact(val, calc),
        exponentiates(e, val, calc),
        0 <= i < preds.len(),
        is_number(o.gradients(preds, labels, weights, groups, calc)[i].grad, val, calc),
        is_number(o.gradients(preds, labels, weights, groups, calc)[i].hess, val, calc),
        number(weight_at(weights, i), val, calc) >= 0real,
        number(labels[i], val, calc) >= 0real,
    ensures
        ({
            let pair = o.gradients(preds, labels, weights, groups, calc)[i];
            let w = number(weight_at(weights, i), val, calc);
            let y = number(labels[i], val, calc);
            let p = number(preds[i], val, calc);
            let g = number(pair.grad, val, calc);
            &&& touches(gamma_loss(e, y, w), p, g)
            &&& g + number(pair.hess, val, calc) == w
            &&& w > 0real ==> (g < 0real <==> e(p) < y) && (g > 0real <==> e(p) > y)
        }),
{
    let pair = o.gradients(preds, labels, weights, groups, calc)[i];
    let w = number(weight_at(weights, i), val, calc);
    let y = number(labels[i], val, calc);
    let p = number(preds[i], val, calc);
    let loss = gamma_loss(e, y, w);
    let ex = calc.exponential_s(preds[i].negated());
    let part_s = calc.times_s(labels[i], ex);
    assert(is_number(part_s, val, calc));
    assert(is_number(ex, val, calc));
    assert(is_number(preds[i].negated(), val, calc));
    let inv = e(0real - p);
    let part = y * inv;
    let g = 1real - part;
    assert(number(part_s, val, calc) == part);
    assert(is_number(calc.minus_s(Single { bits: ONE_S }, part_s), val, calc));
    assert(number(pair.grad, val, calc) == g * w);
    assert forall|m: real| #[trigger] loss(m) >= loss(p) + number(pair.grad, val, calc) * (m
        - p) by {
        tangents_lie_below(e, 0real - p, 0real - m);
        let d = p - m;
        assert((0real - m) - (0real - p) == d);
        not_below_zero(y, e(0real - m) - (inv + inv * d));
        spread(y, e(0real - m), inv + inv * d);
        spread(y, inv, inv * d);
        shift(y, inv, d);
        gather(1real, part, m - p);
        once(m - p);
        spread(part, m, p);
        spread(part, p, m);
        scaled_lines(w, y * e(0real - m) + m, part + p, g, m - p);
    }
    gather(1real, part, w);
    once(w);
    signs_follow(g, w);
    // One times the exponential is the label times its inverse.
    exponentials_are_positive(e, p);
    gather(1real, part, e(p));
    shift(y, inv, e(p));
    swap(inv, e(p));
    once(y);
    once(e(p));
    signs_follow(g, e(p));
    assert(g * e(p) == e(p) - y);
}

/// The Tweedie loss, up to a constant and the positive factor `(rho - 1) (2 - rho)`.
pub open spec fn tweedie_loss(
    e: spec_fn(real) -> real,
    y: real,
    w: real,
    rho: real,
) -> spec_fn(real) -> real {
    |m: real|
        w * ((2real - rho) * (y * e((1real - rho) * m)) + (rho - 1real) * e((2real - rho) * m))
}

proof fn tweedie_parts<F: Fn(Op, u64, u64) -> u64>(
    o: TweedieObjective,
    preds: Seq<Single>,
    labels: Seq<Single>,
    weights: Option<Seq<Single>>,
    groups: Option<Seq<usize>>,
    i: int,
    e: spec_fn(real) -> real,
    val: spec_fn(Wide) -> Option<real>,
    calc: &Calc<F>,
)
    requires
        singles_are_exact(val, calc),
        exponentiates(e, val, calc),
        0 <= i < preds.len(),
        is_number(o.gradients(preds, labels, weights, groups, calc)[i].grad, val, calc),
        is_number(o.gradients(preds, labels, weights, groups, calc)[i].hess, val, calc),
    ensures
        ({
            let pair = o.gradients(preds, labels, weights, groups, calc)[i];
            let w = number(weight_at(weights, i), val, calc);
            let y = number(labels[i], val, calc);
            let p = number(preds[i], val, calc);
            let rho = number(o.power(), val, calc);
            let e1 = e((1real - rho) * p);
            let e2 = e((2real - rho) * p);
            &&& number(pair.grad, val, calc) == (e2 - y * e1) * w
            &&& number(pair.hess, val, calc) == ((2real - rho) * e2 - (1real - rho) * (y * e1)) * w
        }),
{
    let pair = o.gradients(preds, labels, weights, groups, calc)[i];
    let w = number(weight_at(weights, i), val, calc);
    let y = number(labels[i], val, calc);
    let p = number(preds[i], val, calc);
    let rho = number(o.power(), val, calc);
    let r1s = calc.minus_s(Single { bits: ONE_S }, o.power());
    let r2s = calc.minus_s(Single { bits: TWO_S }, o.power());
    let e1s = calc.exponential_s(calc.times_s(r1s, preds[i]));
    let e2s = calc.exponential_s(calc.times_s(r2s, preds[i]));
    let ny = labels[i].negated();
    let a = calc.times_s(ny, e1s);
    let gs = calc.plus_s(a, e2s);
    let b = calc.times_s(ny, r1s);
    let c = calc.times_s(b, e1s);
    let d = calc.times_s(r2s, e2s);
    let hs = calc.plus_s(c, d);
    assert(pair.grad == calc.times_s(gs, weight_at(weights, i)));
    assert(pair.hess == calc.times_s(hs, weight_at(weights, i)));
    assert(is_number(gs, val, calc) && is_number(hs, val, calc));
    assert(is_number(a, val, calc) && is_number(e2s, val, calc));
    assert(is_number(c, val, calc) && is_number(d, val, calc) && is_number(b, val, calc));
    assert(is_number(e1s, val, calc) && is_number(ny, val, calc));
    assert(is_number(calc.times_s(r1s, preds[i]), val, calc));
    assert(is_number(calc.times_s(r2s, preds[i]), val, calc));
    assert(is_number(r1s, val, calc) && is_number(r2s, val, calc));
    let e1 = e((1real - rho) * p);
    let e2 = e((2real - rho) * p);
    let r1 = 1real - rho;
    gather(0real, y, e1);
    vanish(e1);
    gather(0real, y, r1);
    vanish(r1);
    gather(0real, y * r1, e1);
    swap(y, r1);
    shift(r1, y, e1);
}

/// Tweedie gradients are those of the Tweedie loss, and the Hessian is its curvature:
/// the part without the label grows by the factor `2 - rho` with the margin, the rest
/// by `1 - rho`.
pub proof fn tweedie_gradients_touch<F: Fn(Op, u64, u64) -> u64>(
    o: TweedieObjective,
    preds: Seq<Single>,
    labels: Seq<Single>,
    unlabeled: Seq<Single>,
    weights: Option<Seq<Single>>,
    groups: Option<Seq<usize>>,
    i: int,
    e: spec_fn(real) -> real,
    val: spec_fn(Wide) -> Option<real>,
    calc: &Calc<F>,
)
    requires
        singles_are_exact(val, calc),
        exponentiates(e, val, calc),
        0 <= i < preds.len(),
        is_number(o.gradients(preds, labels, weights, groups, calc)[i].grad, val, calc),
        is_number(o.gradients(preds, labels, weights, groups, calc)[i].hess, val, calc),
        is_number(o.gradients(preds, unlabeled, weights, groups, calc)[i].grad, val, calc),
        is_number(o.gradients(preds, unlabeled, weights, groups, calc)[i].hess, val, calc),
        number(unlabeled[i], val, calc) == 0real,
        number(weight_at(weights, i), val, calc) >= 0real,
        number(labels[i], val, calc) >= 0real,
        1real <= number(o.power(), val, calc) <= 2real,
    ensures
        ({
            let pair = o.gradients(preds, labels, weights, groups, calc)[i];
            let w = number(weight_at(weights, i), val, calc);
            let y = number(labels[i], val, calc);
            let p = number(preds[i], val, calc);
            let rho = number(o.power(), val, calc);
            let g = number(pair.grad, val, calc);
            let bare = number(
                o.gradients(preds, unlabeled, weights, groups, calc)[i].grad,
                val,
                calc,
            );
            &&& touches(tweedie_loss(e, y, w, rho), p, ((rho - 1real) * (2real - rho)) * g)
            &&& number(pair.hess, val, calc) == (2real - rho) * bare + (1real - rho) * (g - bare)
            &&& w > 0real ==> (g < 0real <==> e(p) < y)
        }),
{
    tweedie_parts(o, preds, labels, weights, groups, i, e, val, calc);
    tweedie_parts(o, preds, unlabeled, weights, groups, i, e, val, calc);
    let pair = o.gradients(preds, labels, weights, groups, calc)[i];
    let w = number(weight_at(weights, i), val, calc);
    let y = number(labels[i], val, calc);
    let p = number(preds[i], val, calc);
    let rho = number(o.power(), val, calc);
    let r1 = 1real - rho;
    let r2 = 2real - rho;
    let e1 = e(r1 * p);
    let e2 = e(r2 * p);
    let slope = e2 - y * e1;
    let g = slope * w;
    let bare = e2 * w;
    vanish(e1);
    // The Hessian is the curvature.
    gather(e2, y * e1, w);
    shift(r2, e2, w);
    shift(r1, y * e1, w);
    gather(r2 * e2, r1 * (y * e1), w);
    spread(r1, g, bare);
    gather(0real, y * e1, w);
    vanish(w);
    spread(r1, 0real, (y * e1) * w);
    vanish(r1);
    // The line touches.
    let k = (rho - 1real) * r2;
    let loss = tweedie_loss(e, y, w, rho);
    assert forall|m: real| #[trigger] loss(m) >= loss(p) + (k * number(pair.grad, val, calc)) * (m
        - p) by {
        let d = m - p;
        tangents_lie_below(e, r1 * p, r1 * m);
        tangents_lie_below(e, r2 * p, r2 * m);
        spread(r1, m, p);
        spread(r2, m, p);
        let f1 = e(r1 * m);
        let f2 = e(r2 * m);
        // r2 y f1 >= r2 y (e1 + e1 (r1 d))
        not_below_zero(y, f1 - (e1 + e1 * (r1 * d)));
        spread(y, f1, e1 + e1 * (r1 * d));
        not_below_zero(r2, y * f1 - y * (e1 + e1 * (r1 * d)));
        spread(r2, y * f1, y * (e1 + e1 * (r1 * d)));
        spread(y, e1, e1 * (r1 * d));
        shift(y, e1, r1 * d);
        spread(r2, y * e1, (y * e1) * (r1 * d));
        // (rho - 1) f2 >= (rho - 1) (e2 + e2 (r2 d))
        not_below_zero(rho - 1real, f2 - (e2 + e2 * (r2 * d)));
        spread(rho - 1real, f2, e2 + e2 * (r2 * d));
        spread(rho - 1real, e2, e2 * (r2 * d));
        // What the two slopes come to.
        let a = r2 * ((y * e1) * (r1 * d));
        let b = (rho - 1real) * (e2 * (r2 * d));
        slopes_combine(rho - 1real, r2, y * e1, e2, d);
        scaled_lines(
            w,
            r2 * (y * f1) + (rho - 1real) * f2,
            r2 * (y * e1) + (rho - 1real) * e2,
            k * slope,
            d,
        );
        shift(k, slope, w);
    }
    // The sign is that of the error.
    signs_follow(slope, w);
    assert(r2 * p == r1 * p + p) by {
        gather(r1, 1real, p);
        once(p);
    }
    assert(multiplies(e, r1 * p, p));
    exponentials_are_positive(e, r1 * p);
    swap(e1, e(p));
    gather(e(p), y, e1);
    signs_follow(e(p) - y, e1);
}

proof fn slopes_combine(a: real, b: real, u: real, v: real, d: real)
    ensures
        b * (u * ((0real - a) * d)) + a * (v * (b * d)) == ((a * b) * (v - u)) * d,
{
    let ad = a * d;
    gather(0real, a, d);
    vanish(d);
    spread(u, 0real, ad);
    vanish(u);
    spread(b, 0real, u * ad);
    vanish(b);
    // b (u (a d)) == (a b) u d
    shift(a * b, v - u, d);
    gather(v, u, d);
    spread(a * b, v * d, u * d);
    shift(a, b, v * d);
    shift(b, v, d);
    swap(b, v);
    shift(v, b, d);
    swap(a, b);
    shift(b, a, u * d);
    shift(a, u, d);
    swap(a, u);
    shift(u, a, d);
}

proof fn roots_are_ordered(a: real, b: real)
    requires
        a >= 0real,
        a * a >= b * b,
    ensures
        a >= b,
{
    if a < b {
        assert(a * a < b * b) by (nonlinear_arith)
            requires
                0real <= a < b,
        ;
    }
}

proof fn lengths_exceed_products(d: real, f: real, r: real, q: real)
    requires
        r >= 0real,
        q >= 0real,
        r * r == 1real + d * d,
        q * q == 1real + f * f,
    ensures
        q * r >= 1real + d * f,
{
    not_below_zero(q, r);
    let x = d * f;
    assert((q * r) * (q * r) == (q * q) * (r * r)) by {
        shift(q, r, q * r);
        shift(r, q, r);
        swap(r, q);
        shift(q, r, r);
        shift(q, q, r * r);
    }
    assert((1real + f * f) * (1real + d * d) == 1real + d * d + f * f + x * x) by {
        gather(1real, f * f, 1real + d * d);
        once(1real + d * d);
        spread(f * f, 1real, d * d);
        once(f * f);
        shift(f, f, d * d);
        shift(f, d, d);
        swap(f, d);
        shift(d, f, d);
        shift(x, d, f);
        swap(d, f);
        shift(f, f * d, d);
        shift(f, d, d);
        swap(f, x);
        shift(d, f, f * d);
        shift(f, f, d * d);
        assert((f * f) * (d * d) == x * x) by (nonlinear_arith)
            requires
                x == d * f,
        ;
    }
    assert((1real + x) * (1real + x) == 1real + x + x + x * x) by {
        gather(1real, x, 1real + x);
        once(1real + x);
        spread(x, 1real, x);
        once(x);
    }
    not_below_zero(d - f, d - f);
    assert((d - f) * (d - f) == d * d - x - x + f * f) by {
        gather(d, f, d - f);
        spread(d, d, f);
        spread(f, d, f);
        swap(d, f);
    }
    roots_are_ordered(q * r, 1real + x);
}

/// Pseudo-Huber gradients are those of the loss `sqrt(1 + d^2)` of the error `d`, and
/// the Hessian is its curvature. `root` is the loss at the margin, `other` that at
/// any other margin `m`.
pub proof fn pseudo_huber_gradients_touch<F: Fn(Op, u64, u64) -> u64>(
    o: PseudoHuberObjective,
    preds: Seq<Single>,
    labels: Seq<Single>,
    weights: Option<Seq<Single>>,
    groups: Option<Seq<usize>>,
    i: int,
    root: real,
    m: real,
    other: real,
    val: spec_fn(Wide) -> Option<real>,
    calc: &Calc<F>,
)
    requires
        singles_are_exact(val, calc),
        0 <= i < preds.len(),
        is_number(o.gradients(preds, labels, weights, groups, calc)[i].grad, val, calc),
        is_number(o.gradients(preds, labels, weights, groups, calc)[i].hess, val, calc),
        number(weight_at(weights, i), val, calc) >= 0real,
        root >= 0real,
        root * root == 1real + (number(preds[i], val, calc) - number(labels[i], val, calc)) * (
        number(preds[i], val, calc) - number(labels[i], val, calc)),
        other >= 0real,
        other * other == 1real + (m - number(labels[i], val, calc)) * (m - number(
            labels[i],
            val,
            calc,
        )),
    ensures
        ({
            let pair = o.gradients(preds, labels, weights, groups, calc)[i];
            let w = number(weight_at(weights, i), val, calc);
            let p = number(preds[i], val, calc);
            let g = number(pair.grad, val, calc);
            &&& w * other >= w * root + g * (m - p)
            &&& number(pair.hess, val, calc) * (root * (root * root)) == w
        }),
{
    let pair = o.gradients(preds, labels, weights, groups, calc)[i];
    let w = number(weight_at(weights, i), val, calc);
    let y = number(labels[i], val, calc);
    let p = number(preds[i], val, calc);
    let one = Single { bits: ONE_S };
    let ds = calc.minus_s(preds[i], labels[i]);
    let sq = calc.times_s(ds, ds);
    let ss = calc.plus_s(one, sq);
    let rs = calc.root_s(ss);
    let ratio = calc.over_s(ds, rs);
    let cube = calc.times_s(ss, rs);
    let inv = calc.over_s(one, cube);
    assert(is_number(ratio, val, calc) && is_number(inv, val, calc));
    assert(is_number(rs, val, calc) && is_number(ds, val, calc) && is_number(cube, val, calc));
    assert(is_number(ss, val, calc) && is_number(sq, val, calc));
    let d = p - y;
    let f = m - y;
    let r = number(rs, val, calc);
    let q = other;
    not_below_zero(d, d);
    assert(r * r == 1real + d * d);
    roots_are_ordered(r, root);
    roots_are_ordered(root, r);
    assert(r == root);
    lengths_exceed_products(d, f, r, q);
    if r == 0real {
        vanish(r);
    }
    let c = d / r;
    undivided(d, r);
    let t = f - d;
    // r (q - r - c t) is not below zero, so neither is q - r - c t.
    spread(r, q - r, c * t);
    spread(r, q, r);
    swap(q, r);
    swap(c, r);
    shift(r, c, t);
    spread(d, f, d);
    if q - r - c * t < 0real {
        above_zero(r, r + c * t - q);
        spread(r, r + c * t, q);
        spread(r, r, c * t);
    }
    scaled_lines(w, q, r, c, t);
    assert(number(pair.grad, val, calc) == c * w);
    // The curvature.
    let s = r * r;
    let hv = 1real / (s * r);
    undivided(1real, s * r);
    swap(s, r);
    assert(number(pair.hess, val, calc) == hv * w);
    turn(hv, w, r * s);
    once(w);
}

/// Whether `q` is the derivative of the sigmoid where the odds are `odds`.
pub open spec fn is_sigmoid_slope(q: real, odds: real) -> bool {
    q * ((1real + odds) * (1real + odds)) == odds
}

proof fn sigmoids_have_their_odds<F: Fn(Op, u64, u64) -> u64>(
    x: Single,
    e: spec_fn(real) -> real,
    val: spec_fn(Wide) -> Option<real>,
    calc: &Calc<F>,
)
    requires
        singles_are_exact(val, calc),
        exponentiates(e, val, calc),
        is_number(logistic(x, calc), val, calc),
    ensures
        is_number(x, val, calc),
        number(logistic(x, calc), val, calc) * (1real + e(number(x, val, calc))) == e(
            number(x, val, calc),
        ),
        0real < number(logistic(x, calc), val, calc) < 1real,
{
    let one = Single { bits: ONE_S };
    let m = number(x, val, calc);
    let p = number(logistic(x, calc), val, calc);
    exponentials_are_positive(e, m);
    if (Single { bits: 0 }).le(x) {
        let ex = calc.exponential_s(x.negated());
        assert(is_number(calc.plus_s(one, ex), val, calc));
        assert(is_number(ex, val, calc));
        assert(is_number(x.negated(), val, calc));
        let inv = e(0real - m);
        undivided(1real, 1real + inv);
        assert(p * (1real + inv) == 1real);
        shift(p, 1real + inv, e(m));
        gather(1real, inv, e(m));
        once(e(m));
        swap(inv, e(m));
    } else {
        let ex = calc.exponential_s(x);
        assert(is_number(calc.plus_s(one, ex), val, calc));
        undivided(e(m), 1real + e(m));
    }
    let s = 1real + e(m);
    if p <= 0real {
        not_below_zero(0real - p, s);
        gather(0real, p, s);
        vanish(s);
    }
    if p >= 1real {
        not_below_zero(p - 1real, s);
        gather(p, 1real, s);
        once(s);
    }
}

/// Reported probabilities have the exponentials of their margins as odds, and lie
/// between zero and one.
pub proof fn logistic_predictions_have_their_odds<F: Fn(Op, u64, u64) -> u64>(
    o: LogisticObjective,
    preds: Seq<Single>,
    i: int,
    e: spec_fn(real) -> real,
    val: spec_fn(Wide) -> Option<real>,
    calc: &Calc<F>,
)
    requires
        singles_are_exact(val, calc),
        exponentiates(e, val, calc),
        0 <= i < preds.len(),
        is_number(o.transformed(preds, calc)[i], val, calc),
    ensures
        ({
            let p = number(o.transformed(preds, calc)[i], val, calc);
            &&& p == e(number(preds[i], val, calc)) * (1real - p)
            &&& 0real < p < 1real
        }),
{
    sigmoids_have_their_odds(preds[i], e, val, calc);
    let p = number(o.transformed(preds, calc)[i], val, calc);
    let odds = e(number(preds[i], val, calc));
    spread(p, 1real, odds);
    once(p);
    spread(odds, 1real, p);
    once(odds);
    swap(p, odds);
}

/// The weight of an instance in the logistic loss: that of positive instances is
/// scaled.
pub open spec fn logistic_weight<F: Fn(Op, u64, u64) -> u64>(
    o: LogisticObjective,
    label: Single,
    weight: Single,
    val: spec_fn(Wide) -> Option<real>,
    calc: &Calc<F>,
) -> real {
    number(weight, val, calc) * if label.same(Single { bits: ONE_S }) {
        number(o.positive_weight(), val, calc)
    } else {
        1real
    }
}

/// Logistic gradients are those of the logistic loss `ln(1 + exp(m)) - y m`, and the
/// Hessian is its curvature, held above the least one. The loss is compared by its
/// exponential, which the tangent's exponential nowhere exceeds.
pub proof fn logistic_gradients_touch<F: Fn(Op, u64, u64) -> u64>(
    o: LogisticObjective,
    preds: Seq<Single>,
    labels: Seq<Single>,
    weights: Option<Seq<Single>>,
    groups: Option<Seq<usize>>,
    i: int,
    q: real,
    m: real,
    e: spec_fn(real) -> real,
    val: spec_fn(Wide) -> Option<real>,
    calc: &Calc<F>,
)
    requires
        singles_are_exact(val, calc),
        exponentiates(e, val, calc),
        0 <= i < preds.len(),
        is_number(o.gradients(preds, labels, weights, groups, calc)[i].grad, val, calc),
        is_number(o.gradients(preds, labels, weights, groups, calc)[i].hess, val, calc),
        is_number(
            calc.times_s(
                o.transformed(preds, calc)[i],
                calc.minus_s(
                    Single { bits: ONE_S },
                    o.transformed(preds, calc)[i],
                ),
            ),
            val,
            calc,
        ),
        is_number(Single { bits: MIN_HESS }, val, calc),
        is_sigmoid_slope(q, e(number(preds[i], val, calc))),
    ensures
        ({
            let pair = o.gradients(preds, labels, weights, groups, calc)[i];
            let w = logistic_weight(o, labels[i], weight_at(weights, i), val, calc);
            let y = number(labels[i], val, calc);
            let p = number(preds[i], val, calc);
            let g = number(pair.grad, val, calc);
            let least = number(Single { bits: MIN_HESS }, val, calc);
            &&& (g + y * w) * (1real + e(p)) == e(p) * w
            &&& number(pair.hess, val, calc) == w * if q < least { least } else { q }
            &&& w == 1real ==> (1real + e(m)) * e(0real - y * m) >= ((1real + e(p)) * e(
                0real - y * p,
            )) * e(g * (m - p))
        }),
{
    let pair = o.gradients(preds, labels, weights, groups, calc)[i];
    let one = Single { bits: ONE_S };
    let ps = logistic(preds[i], calc);
    let p = number(preds[i], val, calc);
    let prob = number(ps, val, calc);
    let y = number(labels[i], val, calc);
    let least = number(Single { bits: MIN_HESS }, val, calc);
    assert(o.transformed(preds, calc)[i] == ps);
    let rest = calc.minus_s(one, ps);
    let curve = calc.times_s(ps, rest);
    assert(is_number(curve, val, calc));
    assert(is_number(ps, val, calc));
    assert(is_number(rest, val, calc));
    sigmoids_have_their_odds(preds[i], e, val, calc);
    let weight = weight_at(weights, i);
    let ws = if labels[i].same(one) {
        calc.times_s(weight, o.positive_weight())
    } else {
        weight
    };
    let held = curve.greater(Single { bits: MIN_HESS });
    assert(pair.grad == calc.times_s(calc.minus_s(ps, labels[i]), ws));
    assert(pair.hess == calc.times_s(held, ws));
    assert(is_number(ws, val, calc) && is_number(calc.minus_s(ps, labels[i]), val, calc));
    assert(is_number(held, val, calc));
    let w = number(ws, val, calc);
    once(number(weight, val, calc));
    assert(w == logistic_weight(o, labels[i], weight, val, calc));
    let odds = e(p);
    let s = 1real + odds;
    exponentials_are_positive(e, p);
    // The gradient.
    let g = number(pair.grad, val, calc);
    gather(prob, y, w);
    assert(g + y * w == prob * w);
    turn(prob, w, s);
    // The Hessian.
    let c = prob * (1real - prob);
    spread(s, 1real, prob);
    once(s);
    swap(s, prob);
    swap(s, 1real - prob);
    assert((1real - prob) * s == 1real);
    assert(c * (s * s) == odds) by {
        shift(prob, 1real - prob, s * s);
        shift(1real - prob, s, s);
        once(s);
    }
    above_zero(s, s);
    equal_factors(c, q, s * s);
    assert(curve.le(curve));
    swap(w, if q < least { least } else { q });
    if w == 1real {
        once(prob - y);
        logistic_losses_touch(e, y, p, m, prob);
    }
}

/// The logarithm of a sum of exponentials lies above its tangents.
proof fn logistic_losses_touch(e: spec_fn(real) -> real, y: real, p: real, m: real, prob: real)
    requires
        is_exponential(e),
        prob * (1real + e(p)) == e(p),
        0real < prob < 1real,
    ensures
        (1real + e(m)) * e(0real - y * m) >= ((1real + e(p)) * e(0real - y * p)) * e(
            (prob - y) * (m - p),
        ),
{
    let d = m - p;
    let s = 1real + e(p);
    let t = prob * d;
    exponentials_are_positive(e, p);
    // e(d) >= e(t) (1 + (1 - prob) d) and 1 >= e(t) (1 - t).
    tangents_lie_below(e, t, d);
    tangents_lie_below(e, t, 0real);
    exponential_of_zero(e);
    let a = e(t);
    assert(d - t == (1real - prob) * d) by {
        gather(1real, prob, d);
        once(d);
    }
    assert(a * (0real - t) == 0real - a * t) by {
        spread(a, 0real, t);
        vanish(a);
    }
    // (1 - prob) + prob e(d) >= e(t).
    not_below_zero(1real - prob, 1real - (a - a * t));
    spread(1real - prob, 1real, a - a * t);
    once(1real - prob);
    not_below_zero(prob, e(d) - (a + a * (d - t)));
    spread(prob, e(d), a + a * (d - t));
    let left = (1real - prob) * (a - a * t) + prob * (a + a * (d - t));
    assert(left == a) by {
        gather(1real, prob, a - a * t);
        once(a - a * t);
        spread(prob, a, a * t);
        spread(prob, a, a * (d - t));
        spread(a, d, t);
        spread(prob, a * d, a * t);
        swap(prob, a);
        shift(prob, a, d);
        swap(a, d);
        shift(prob, d, a);
        swap(t, a);
    }
    assert((1real - prob) + prob * e(d) >= a);
    // Times s: 1 + e(m) >= s e(t).
    not_below_zero(s, ((1real - prob) + prob * e(d)) - a);
    spread(s, (1real - prob) + prob * e(d), a);
    spread(s, 1real - prob, prob * e(d));
    spread(s, 1real, prob);
    once(s);
    swap(s, prob);
    shift(s, prob, e(d));
    assert(multiplies(e, p, d));
    assert(p + d == m);
    assert(1real + e(m) >= s * a);
    // Times e(-y m).
    let lm = e(0real - y * m);
    let lp = e(0real - y * p);
    let ld = e(0real - y * d);
    exponentials_are_positive(e, 0real - y * m);
    not_below_zero(lm, (1real + e(m)) - s * a);
    spread(lm, 1real + e(m), s * a);
    swap(lm, 1real + e(m));
    spread(y, p, d);
    assert(multiplies(e, 0real - y * p, 0real - y * d));
    assert((0real - y * p) + (0real - y * d) == 0real - y * m);
    assert(multiplies(e, t, 0real - y * d));
    gather(prob, y, d);
    assert(t + (0real - y * d) == (prob - y) * d);
    // lm (s a) == (s lp) e((prob - y) d)
    swap(lm, s * a);
    shift(s, a, lm);
    shift(s, lp, a * ld);
    shift(a, lp, ld);
    swap(a, lp);
    shift(lp, a, ld);
}

} // verus!
