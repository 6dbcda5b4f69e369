//! What metrics say of predictions, in arithmetics that do not round.

use vstd::prelude::*;

use crate::arith::{Calc, Op};
use crate::exact::{
    above_zero, distance_from_zero, equal_factors, gather, is_exact, not_below_zero, once,
    quotient, shift, singles_are_exact, spread, swap, takes_roots_exactly,
    undivided, vanish,
};
use crate::exponential::{
    exponential_of_zero, exponentials_are_positive, exponentials_of_differences, exponentials_rise,
    exponentiates,
    is_exponential, multiplies,
};
use crate::metric::base::wide_weight;
use crate::metric::mean::{
    class_of, top_class, Loss, GREATEST_PROB, LEAST_MEAN, LEAST_PROB,
};
use crate::number::{Single, Wide, HALF_S, ONE, TWO};

verus! {

/// The sum of what the first `n` instances add to a metric.
pub open spec fn part_sum<F: Fn(Op, u64, u64) -> u64>(
    loss: Loss,
    preds: Seq<Single>,
    labels: Seq<Single>,
    weights: Option<Seq<Single>>,
    n: int,
    val: spec_fn(Wide) -> Option<real>,
    calc: &Calc<F>,
) -> real
    decreases n,
{
    if n <= 0 {
        0real
    } else {
        part_sum(loss, preds, labels, weights, n - 1, val, calc) + match loss.part(
            preds,
            labels,
            wide_weight(weights, n - 1, calc),
            n - 1,
            calc,
        ) {
            Some(x) => val(x)->0,
            None => 0real,
        }
    }
}

/// The sum of the weights of the first `n` instances.
pub open spec fn weight_sum<F: Fn(Op, u64, u64) -> u64>(
    weights: Option<Seq<Single>>,
    n: int,
    val: spec_fn(Wide) -> Option<real>,
    calc: &Calc<F>,
) -> real
    decreases n,
{
    if n <= 0 {
        0real
    } else {
        weight_sum(weights, n - 1, val, calc) + val(wide_weight(weights, n - 1, calc))->0
    }
}

proof fn sums_are_sums<F: Fn(Op, u64, u64) -> u64>(
    loss: Loss,
    preds: Seq<Single>,
    labels: Seq<Single>,
    weights: Option<Seq<Single>>,
    n: int,
    val: spec_fn(Wide) -> Option<real>,
    calc: &Calc<F>,
)
    requires
        is_exact(val, calc),
    ensures
        ({
            let (sum, total) = loss.sums(preds, labels, weights, n, calc);
            &&& val(sum) is Some ==> val(sum)->0 == part_sum(
                loss,
                preds,
                labels,
                weights,
                n,
                val,
                calc,
            )
            &&& val(total) is Some ==> val(total)->0 == weight_sum(weights, n, val, calc)
        }),
    decreases n,
{
    if n > 0 {
        sums_are_sums(loss, preds, labels, weights, n - 1, val, calc);
    }
}

/// A metric is a mean: times the sum of the weights it is the sum of what the instances
/// add. Of the squared difference it is the root of the mean.
pub proof fn metrics_are_means<F: Fn(Op, u64, u64) -> u64>(
    loss: Loss,
    preds: Seq<Single>,
    labels: Seq<Single>,
    weights: Option<Seq<Single>>,
    val: spec_fn(Wide) -> Option<real>,
    calc: &Calc<F>,
)
    requires
        is_exact(val, calc),
        takes_roots_exactly(val, calc),
        val(loss.mean(preds, labels, weights, calc)) is Some,
        val(
            loss.sums(preds, labels, weights, loss.instances(preds, labels), calc).1,
        ) is Some,
        weight_sum(weights, loss.instances(preds, labels), val, calc) > 0real,
    ensures
        ({
            let n = loss.instances(preds, labels);
            let m = val(loss.mean(preds, labels, weights, calc))->0;
            let w = weight_sum(weights, n, val, calc);
            let sum = part_sum(loss, preds, labels, weights, n, val, calc);
            if loss == Loss::Squared {
                m >= 0real && (m * m) * w == sum
            } else {
                m * w == sum
            }
        }),
{
    let n = loss.instances(preds, labels);
    sums_are_sums(loss, preds, labels, weights, n, val, calc);
    let (sum, total) = loss.sums(preds, labels, weights, n, calc);
    let mean = calc.over(sum, total);
    assert(val(mean) is Some);
    undivided(val(sum)->0, val(total)->0);
}

/// The squared error adds the weight times the square of the error, the absolute error
/// the weight times its magnitude.
pub proof fn errors_are_distances<F: Fn(Op, u64, u64) -> u64>(
    preds: Seq<Single>,
    labels: Seq<Single>,
    w: Wide,
    i: int,
    val: spec_fn(Wide) -> Option<real>,
    calc: &Calc<F>,
)
    requires
        is_exact(val, calc),
        takes_roots_exactly(val, calc),
    ensures
        ({
            let d = val(calc.widened(preds[i]))->0 - val(calc.widened(labels[i]))->0;
            let square = Loss::Squared.part(preds, labels, w, i, calc);
            let distance = Loss::Absolute.part(preds, labels, w, i, calc);
            &&& square matches Some(x) && (val(x) is Some ==> val(x)->0 == val(w)->0 * (d * d))
            &&& distance matches Some(x) && (val(x) is Some ==> val(x)->0 == val(w)->0
                * distance_from_zero(d))
        }),
{
    let d = val(calc.widened(preds[i]))->0 - val(calc.widened(labels[i]))->0;
    shift(val(w)->0, d, d);
}

proof fn means_are_kept<F: Fn(Op, u64, u64) -> u64>(
    x: Wide,
    val: spec_fn(Wide) -> Option<real>,
    calc: &Calc<F>,
)
    requires
        (Wide { bits: LEAST_MEAN }).le(x),
    ensures
        x.greater(Wide { bits: LEAST_MEAN }) == x,
{
}

/// What the Poisson metric says of two predictions for one label differs by the
/// difference of the predictions, less the label times the logarithm of their
/// quotient; and no prediction scores less than the label itself.
pub proof fn poisson_values_are_least_at_the_truth<F: Fn(Op, u64, u64) -> u64>(
    preds: Seq<Single>,
    others: Seq<Single>,
    labels: Seq<Single>,
    w: Wide,
    i: int,
    u: real,
    e: spec_fn(real) -> real,
    val: spec_fn(Wide) -> Option<real>,
    calc: &Calc<F>,
)
    requires
        is_exact(val, calc),
        exponentiates(e, val, calc),
        (Wide { bits: LEAST_MEAN }).le(calc.widened(preds[i])),
        (Wide { bits: LEAST_MEAN }).le(calc.widened(others[i])),
        Loss::Poisson.part(preds, labels, w, i, calc) matches Some(x) && val(x) is Some,
        Loss::Poisson.part(others, labels, w, i, calc) matches Some(x) && val(x) is Some,
        e(u) * val(calc.widened(others[i]))->0 == val(calc.widened(preds[i]))->0,
    ensures
        ({
            let a = val(Loss::Poisson.part(preds, labels, w, i, calc)->0)->0;
            let b = val(Loss::Poisson.part(others, labels, w, i, calc)->0)->0;
            let p = val(calc.widened(preds[i]))->0;
            let q = val(calc.widened(others[i]))->0;
            let y = val(calc.widened(labels[i]))->0;
            &&& a - b == val(w)->0 * ((p - q) - y * u)
            &&& u == 0real ==> a == b
            &&& q == y && val(w)->0 >= 0real ==> b <= a
        }),
{
    let ps = calc.widened(preds[i]);
    let qs = calc.widened(others[i]);
    means_are_kept(ps, val, calc);
    means_are_kept(qs, val, calc);
    let ys = calc.widened(labels[i]);
    let lp = calc.logarithm(ps);
    let lq = calc.logarithm(qs);
    let a1 = calc.times(ys, lp);
    let b1 = calc.times(ys, lq);
    let a2 = calc.minus(ps, a1);
    let b2 = calc.minus(qs, b1);
    assert(val(a2) is Some && val(b2) is Some);
    assert(val(a1) is Some && val(b1) is Some);
    assert(val(lp) is Some && val(lq) is Some);
    let p = val(ps)->0;
    let q = val(qs)->0;
    let y = val(ys)->0;
    let wv = val(w)->0;
    logarithms_of_quotients(e, val(lp)->0, val(lq)->0, u);
    spread(y, val(lq)->0, u);
    spread(wv, val(a2)->0, val(b2)->0);
    vanish(y);
    if u == 0real {
        exponential_of_zero(e);
        once(q);
        vanish(wv);
    }
    if q == y && wv >= 0real {
        exponentials_are_positive(e, val(lq)->0);
        assert(e(u) >= 1real + u);
        not_below_zero(y, e(u) - (1real + u));
        spread(y, e(u), 1real + u);
        spread(y, 1real, u);
        once(y);
        swap(y, e(u));
        not_below_zero(wv, (p - q) - y * u);
    }
}

proof fn logarithms_of_quotients(e: spec_fn(real) -> real, lp: real, lq: real, u: real)
    requires
        is_exponential(e),
        e(u) * e(lq) == e(lp),
    ensures
        lp == lq + u,
{
    assert(multiplies(e, u, lq));
    exponentials_rise(e, u + lq, lp);
}

/// What the gamma metric says of two predictions for one label differs by the
/// difference of the label's quotients with them, plus the logarithm of their own
/// quotient; and no prediction scores less than the label itself.
pub proof fn gamma_values_are_least_at_the_truth<F: Fn(Op, u64, u64) -> u64>(
    preds: Seq<Single>,
    others: Seq<Single>,
    labels: Seq<Single>,
    w: Wide,
    i: int,
    u: real,
    e: spec_fn(real) -> real,
    val: spec_fn(Wide) -> Option<real>,
    calc: &Calc<F>,
)
    requires
        is_exact(val, calc),
        exponentiates(e, val, calc),
        (Wide { bits: LEAST_MEAN }).le(calc.widened(preds[i])),
        (Wide { bits: LEAST_MEAN }).le(calc.widened(others[i])),
        Loss::Gamma.part(preds, labels, w, i, calc) matches Some(x) && val(x) is Some,
        Loss::Gamma.part(others, labels, w, i, calc) matches Some(x) && val(x) is Some,
        e(u) * val(calc.widened(others[i]))->0 == val(calc.widened(preds[i]))->0,
    ensures
        ({
            let a = val(Loss::Gamma.part(preds, labels, w, i, calc)->0)->0;
            let b = val(Loss::Gamma.part(others, labels, w, i, calc)->0)->0;
            let p = val(calc.widened(preds[i]))->0;
            let q = val(calc.widened(others[i]))->0;
            let y = val(calc.widened(labels[i]))->0;
            &&& a - b == val(w)->0 * ((y / p - y / q) + u)
            &&& q == y && val(w)->0 >= 0real ==> b <= a
        }),
{
    let ps = calc.widened(preds[i]);
    let qs = calc.widened(others[i]);
    means_are_kept(ps, val, calc);
    means_are_kept(qs, val, calc);
    let ys = calc.widened(labels[i]);
    let lp = calc.logarithm(ps);
    let lq = calc.logarithm(qs);
    let a1 = calc.over(ys, ps);
    let b1 = calc.over(ys, qs);
    let a2 = calc.plus(a1, lp);
    let b2 = calc.plus(b1, lq);
    assert(val(a2) is Some && val(b2) is Some);
    assert(val(a1) is Some && val(b1) is Some);
    assert(val(lp) is Some && val(lq) is Some);
    let p = val(ps)->0;
    let q = val(qs)->0;
    let y = val(ys)->0;
    let wv = val(w)->0;
    logarithms_of_quotients(e, val(lp)->0, val(lq)->0, u);
    spread(wv, val(a2)->0, val(b2)->0);
    if q == y && wv >= 0real {
        exponentials_are_positive(e, u);
        exponentials_are_positive(e, val(lq)->0);
        exponentials_are_positive(e, val(lp)->0);
        // The label over the prediction is the exponential of the opposite.
        let inv = e(0real - u);
        shift(inv, e(u), y);
        swap(inv, e(u));
        once(y);
        assert(inv * p == y);
        quotient(y, p, inv);
        quotient(y, q, 1real);
        assert(e(0real - u) >= 1real + (0real - u));
        not_below_zero(wv, (y / p - y / q) + u);
    }
}

/// The Tweedie metric in terms of exponentials: `l` is the logarithm of the prediction.
/// No prediction scores less than the label itself.
pub proof fn tweedie_values_are_least_at_the_truth<F: Fn(Op, u64, u64) -> u64>(
    preds: Seq<Single>,
    others: Seq<Single>,
    labels: Seq<Single>,
    rho: Wide,
    w: Wide,
    i: int,
    l: real,
    k: real,
    e: spec_fn(real) -> real,
    val: spec_fn(Wide) -> Option<real>,
    calc: &Calc<F>,
)
    requires
        is_exact(val, calc),
        exponentiates(e, val, calc),
        (Wide { bits: LEAST_MEAN }).le(calc.widened(preds[i])),
        (Wide { bits: LEAST_MEAN }).le(calc.widened(others[i])),
        Loss::Tweedie(rho).part(preds, labels, w, i, calc) matches Some(x) && val(x) is Some,
        Loss::Tweedie(rho).part(others, labels, w, i, calc) matches Some(x) && val(x) is Some,
        e(l) == val(calc.widened(preds[i]))->0,
        e(k) == val(calc.widened(others[i]))->0,
        1real < val(rho)->0 < 2real,
    ensures
        ({
            let a = val(Loss::Tweedie(rho).part(preds, labels, w, i, calc)->0)->0;
            let b = val(Loss::Tweedie(rho).part(others, labels, w, i, calc)->0)->0;
            let y = val(calc.widened(labels[i]))->0;
            let r1 = 1real - val(rho)->0;
            let r2 = 2real - val(rho)->0;
            &&& a == val(w)->0 * (e(r2 * l) / r2 - (y * e(r1 * l)) / r1)
            &&& e(k) == y && val(w)->0 >= 0real ==> b <= a
        }),
{
    tweedie_values(preds, labels, rho, w, i, l, e, val, calc);
    tweedie_values(others, labels, rho, w, i, k, e, val, calc);
    let y = val(calc.widened(labels[i]))->0;
    let wv = val(w)->0;
    let r1 = 1real - val(rho)->0;
    let r2 = 2real - val(rho)->0;
    if e(k) == y && wv >= 0real {
        let t = l - k;
        // With c = y e(r1 k) = e(r2 k), the values are c (e(r2 t) / r2 - e(r1 t) / r1)
        // and c (1 / r2 - 1 / r1).
        let c = e(r2 * k);
        assert(r2 * k == r1 * k + k) by {
            gather(r1, 1real, k);
            once(k);
        }
        assert(multiplies(e, r1 * k, k));
        swap(e(r1 * k), y);
        assert(c == y * e(r1 * k));
        exponentials_are_positive(e, r2 * k);
        spread(r1, k, t);
        spread(r2, k, t);
        assert(k + t == l);
        assert(multiplies(e, r1 * k, r1 * t));
        assert(multiplies(e, r2 * k, r2 * t));
        let x1 = e(r1 * t);
        let x2 = e(r2 * t);
        shift(y, e(r1 * k), x1);
        assert(y * e(r1 * l) == c * x1);
        assert(e(r2 * l) == c * x2);
        assert(x1 >= 1real + r1 * t);
        assert(x2 >= 1real + r2 * t);
        // Divided by the exponents.
        let q2 = (c * x2) / r2;
        let q1 = (c * x1) / r1;
        let z2 = c / r2;
        let z1 = c / r1;
        undivided(c * x2, r2);
        undivided(c * x1, r1);
        undivided(c, r2);
        undivided(c, r1);
        // q2 >= z2 + c t and - q1 >= - z1 - c t.
        let ct = c * t;
        not_below_zero(c, x2 - (1real + r2 * t));
        spread(c, x2, 1real + r2 * t);
        spread(c, 1real, r2 * t);
        once(c);
        swap(r2, t);
        shift(c, t, r2);
        gather(q2, z2, r2);
        gather(q2 - z2, ct, r2);
        if q2 - z2 - ct < 0real {
            above_zero(ct - (q2 - z2), r2);
            gather(ct, q2 - z2, r2);
        }
        not_below_zero(c, x1 - (1real + r1 * t));
        spread(c, x1, 1real + r1 * t);
        spread(c, 1real, r1 * t);
        swap(r1, t);
        shift(c, t, r1);
        gather(q1, z1, r1);
        gather(q1 - z1, ct, r1);
        if q1 - z1 - ct > 0real {
            above_zero(q1 - z1 - ct, 0real - r1);
            spread(q1 - z1 - ct, 0real, r1);
            vanish(q1 - z1 - ct);
        }
        not_below_zero(wv, (q2 - q1) - (z2 - z1));
        spread(wv, q2 - q1, z2 - z1);
    }
}

proof fn tweedie_values<F: Fn(Op, u64, u64) -> u64>(
    preds: Seq<Single>,
    labels: Seq<Single>,
    rho: Wide,
    w: Wide,
    i: int,
    l: real,
    e: spec_fn(real) -> real,
    val: spec_fn(Wide) -> Option<real>,
    calc: &Calc<F>,
)
    requires
        is_exact(val, calc),
        exponentiates(e, val, calc),
        (Wide { bits: LEAST_MEAN }).le(calc.widened(preds[i])),
        Loss::Tweedie(rho).part(preds, labels, w, i, calc) matches Some(x) && val(x) is Some,
        e(l) == val(calc.widened(preds[i]))->0,
        1real < val(rho)->0 < 2real,
    ensures
        val(Loss::Tweedie(rho).part(preds, labels, w, i, calc)->0)->0 == val(w)->0 * (e(
            (2real - val(rho)->0) * l,
        ) / (2real - val(rho)->0) - (val(calc.widened(labels[i]))->0 * e(
            (1real - val(rho)->0) * l,
        )) / (1real - val(rho)->0)),
{
    let one = Wide { bits: ONE };
    let two = Wide { bits: TWO };
    let mu = calc.widened(preds[i]);
    let y = calc.widened(labels[i]);
    means_are_kept(mu, val, calc);
    let r1 = calc.minus(one, rho);
    let r2 = calc.minus(two, rho);
    let p1 = calc.power(mu, r1);
    let p2 = calc.power(mu, r2);
    let n1 = calc.times(y, p1);
    let a = calc.over(n1, r1);
    let b = calc.over(p2, r2);
    let sum = calc.plus(a.negated(), b);
    assert(val(sum) is Some);
    assert(val(a.negated()) is Some && val(b) is Some);
    assert(val(a) is Some);
    assert(val(n1) is Some && val(r1) is Some && val(p2) is Some && val(r2) is Some);
    assert(val(p1) is Some);
    assert(e(l) == val(mu)->0);
}

/// The logistic metric of a positive instance is the weight times the negative logarithm
/// of the probability, that of a negative one of what is left to one; probabilities are
/// held within their bounds.
pub proof fn logistic_values_are_likelihoods<F: Fn(Op, u64, u64) -> u64>(
    preds: Seq<Single>,
    labels: Seq<Single>,
    w: Wide,
    i: int,
    u: real,
    e: spec_fn(real) -> real,
    val: spec_fn(Wide) -> Option<real>,
    calc: &Calc<F>,
)
    requires
        is_exact(val, calc),
        exponentiates(e, val, calc),
        Loss::Logistic.part(preds, labels, w, i, calc) matches Some(x) && val(x) is Some,
        val(w)->0 != 0real,
        val(w)->0 * u == val(Loss::Logistic.part(preds, labels, w, i, calc)->0)->0,
    ensures
        ({
            let p = calc.widened(preds[i]).clamped(
                Wide { bits: LEAST_PROB },
                Wide { bits: GREATEST_PROB },
            );
            let y = val(calc.widened(labels[i]))->0;
            &&& val(p) is Some
            &&& y == 1real ==> e(0real - u) == val(p)->0
            &&& y == 0real ==> e(0real - u) == 1real - val(p)->0
        }),
{
    let one = Wide { bits: ONE };
    let p = calc.widened(preds[i]).clamped(
        Wide { bits: LEAST_PROB },
        Wide { bits: GREATEST_PROB },
    );
    let ys = calc.widened(labels[i]);
    let lp = calc.logarithm(p);
    let rest = calc.minus(one, p);
    let lr = calc.logarithm(rest);
    let hit = calc.times(ys, lp);
    let left = calc.minus(one, ys);
    let miss = calc.times(left, lr);
    let sum = calc.plus(hit, miss);
    assert(val(sum.negated()) is Some);
    assert(val(sum) is Some);
    assert(val(hit) is Some && val(miss) is Some);
    assert(val(lp) is Some && val(lr) is Some && val(left) is Some);
    assert(val(rest) is Some);
    let y = val(ys)->0;
    let wv = val(w)->0;
    let s = val(sum)->0;
    swap(wv, u);
    swap(wv, 0real - s);
    equal_factors(u, 0real - s, wv);
    vanish(val(lp)->0);
    vanish(val(lr)->0);
    once(val(lp)->0);
    once(val(lr)->0);
}

/// No probability within its bounds scores less in the logistic metric than the label
/// itself does.
pub proof fn logistic_values_are_least_at_the_truth<F: Fn(Op, u64, u64) -> u64>(
    preds: Seq<Single>,
    truth: Seq<Single>,
    labels: Seq<Single>,
    w: Wide,
    i: int,
    e: spec_fn(real) -> real,
    val: spec_fn(Wide) -> Option<real>,
    calc: &Calc<F>,
)
    requires
        is_exact(val, calc),
        exponentiates(e, val, calc),
        Loss::Logistic.part(preds, labels, w, i, calc) matches Some(x) && val(x) is Some,
        Loss::Logistic.part(truth, labels, w, i, calc) matches Some(x) && val(x) is Some,
        val(w)->0 >= 0real,
        truth[i] == labels[i],
        (Wide { bits: LEAST_PROB }).le(calc.widened(truth[i])),
        calc.widened(truth[i]).le(Wide { bits: GREATEST_PROB }),
    ensures
        val(Loss::Logistic.part(truth, labels, w, i, calc)->0)->0 <= val(
            Loss::Logistic.part(preds, labels, w, i, calc)->0,
        )->0,
{
    let one = Wide { bits: ONE };
    let low = Wide { bits: LEAST_PROB };
    let high = Wide { bits: GREATEST_PROB };
    let ps = calc.widened(preds[i]).clamped(low, high);
    let ts = calc.widened(truth[i]).clamped(low, high);
    let ys = calc.widened(labels[i]);
    assert(ts == ys);
    let rest = calc.minus(one, ps);
    let left = calc.minus(one, ys);
    let lp = calc.logarithm(ps);
    let lr = calc.logarithm(rest);
    let ly = calc.logarithm(ys);
    let ll = calc.logarithm(left);
    let a = calc.plus(calc.times(ys, lp), calc.times(left, lr));
    let b = calc.plus(calc.times(ys, ly), calc.times(left, ll));
    assert(val(a.negated()) is Some && val(b.negated()) is Some);
    assert(val(a) is Some && val(b) is Some);
    assert(val(calc.times(ys, lp)) is Some && val(calc.times(left, lr)) is Some);
    assert(val(calc.times(ys, ly)) is Some && val(calc.times(left, ll)) is Some);
    assert(val(lp) is Some && val(lr) is Some && val(ly) is Some && val(ll) is Some);
    let y = val(ys)->0;
    let p = val(ps)->0;
    let wv = val(w)->0;
    exponentials_are_positive(e, val(ly)->0);
    exponentials_are_positive(e, val(ll)->0);
    shares_lose_likelihood(e, y, p, val(lp)->0, val(ly)->0);
    shares_lose_likelihood(e, 1real - y, 1real - p, val(lr)->0, val(ll)->0);
    not_below_zero(wv, val(b)->0 - val(a)->0);
    spread(wv, val(b)->0, val(a)->0);
    spread(wv, 0real, val(b)->0);
    spread(wv, 0real, val(a)->0);
    vanish(wv);
}

/// `y (ln p - ln y) <= p - y`.
proof fn shares_lose_likelihood(
    e: spec_fn(real) -> real,
    y: real,
    p: real,
    lp: real,
    ly: real,
)
    requires
        is_exponential(e),
        e(lp) == p,
        e(ly) == y,
    ensures
        y * lp - y * ly <= p - y,
{
    let u = lp - ly;
    exponentials_are_positive(e, ly);
    exponentials_of_differences(e, lp, ly);
    assert(e(u) >= 1real + u);
    not_below_zero(y, e(u) - (1real + u));
    spread(y, e(u), 1real + u);
    spread(y, 1real, u);
    once(y);
    swap(y, e(u));
    spread(y, lp, ly);
}

/// The class metric is the weight times the negative logarithm of the probability of the
/// label's class, held above the least one.
pub proof fn class_values_are_likelihoods<F: Fn(Op, u64, u64) -> u64>(
    k: usize,
    preds: Seq<Single>,
    labels: Seq<Single>,
    w: Wide,
    i: int,
    u: real,
    e: spec_fn(real) -> real,
    val: spec_fn(Wide) -> Option<real>,
    calc: &Calc<F>,
)
    requires
        is_exact(val, calc),
        exponentiates(e, val, calc),
        Loss::ClassLogistic(k).part(preds, labels, w, i, calc) matches Some(x) && val(x) is Some,
        val(w)->0 != 0real,
        val(w)->0 * u == val(Loss::ClassLogistic(k).part(preds, labels, w, i, calc)->0)->0,
    ensures
        e(0real - u) == val(
            calc.widened(preds[i * k + class_of(labels[i])]).clamped(
                Wide { bits: LEAST_PROB },
                Wide { bits: ONE },
            ),
        )->0,
{
    let p = calc.widened(preds[i * k + class_of(labels[i])]).clamped(
        Wide { bits: LEAST_PROB },
        Wide { bits: ONE },
    );
    let lp = calc.logarithm(p);
    assert(val(w.negated()) is Some && val(lp) is Some);
    let wv = val(w)->0;
    let l = val(lp)->0;
    gather(0real, wv, l);
    vanish(l);
    swap(wv, l);
    swap(wv, u);
    gather(0real, l, wv);
    vanish(wv);
    equal_factors(u, 0real - l, wv);
}

/// The most probable class has the greatest probability, and is the first of equals.
pub proof fn top_classes_are_greatest(preds: Seq<Single>, base: int, n: int, c: int)
    requires
        0 <= c < n,
        0 <= base,
        base + n <= preds.len(),
        forall|k: int| base <= k < base + n ==> !(#[trigger] preds[k]).nan(),
    ensures
        0 <= top_class(preds, base, n) < n,
        preds[base + c].le(preds[base + top_class(preds, base, n)]),
        c < top_class(preds, base, n) ==> preds[base + c].lt(
            preds[base + top_class(preds, base, n)],
        ),
    decreases n,
{
    assert(!preds[base + c].nan());
    if n > 1 {
        let so_far = top_class(preds, base, n - 1);
        top_classes_are_greatest(preds, base, n - 1, if c < n - 1 { c } else { 0 });
        assert(!preds[base + n - 1].nan());
        assert(!preds[base + so_far].nan());
    }
}

/// The error metric adds the weight of an instance whose prediction and label lie on
/// different sides of one half, and nothing for others; that over classes adds the
/// weight of an instance whose most probable class is not the label.
pub proof fn errors_are_counted<F: Fn(Op, u64, u64) -> u64>(
    k: usize,
    preds: Seq<Single>,
    labels: Seq<Single>,
    w: Wide,
    i: int,
    val: spec_fn(Wide) -> Option<real>,
    calc: &Calc<F>,
)
    requires
        singles_are_exact(val, calc),
        val(calc.widened(Single { bits: HALF_S })) == Some((1real / 2real)),
        val(calc.widened(preds[i])) is Some,
        val(calc.widened(labels[i])) is Some,
    ensures
        Loss::Wrong.part(preds, labels, w, i, calc) == if (val(calc.widened(preds[i]))->0
            > (1real / 2real)) == (val(calc.widened(labels[i]))->0 > (1real / 2real)) {
            None
        } else {
            Some(w)
        },
        Loss::ClassWrong(k).part(preds, labels, w, i, calc) is Some <==> top_class(
            preds,
            i * k,
            k as int,
        ) != class_of(labels[i]),
        Loss::ClassWrong(k).part(preds, labels, w, i, calc) matches Some(x) ==> x == w,
{
}

/// Predictions beyond their bounds count as the bounds do: counts below the least mean,
/// probabilities below the least or above the greatest one. Two that lie beyond the same
/// bound add the same.
pub proof fn extreme_predictions_count_alike<F: Fn(Op, u64, u64) -> u64>(
    a: Seq<Single>,
    b: Seq<Single>,
    labels: Seq<Single>,
    rho: Wide,
    k: usize,
    w: Wide,
    i: int,
    calc: &Calc<F>,
)
    ensures
        calc.widened(a[i]).lt(Wide { bits: LEAST_MEAN }) && calc.widened(b[i]).lt(
            Wide { bits: LEAST_MEAN },
        ) ==> {
            &&& Loss::Poisson.part(a, labels, w, i, calc) == Loss::Poisson.part(
                b,
                labels,
                w,
                i,
                calc,
            )
            &&& Loss::Gamma.part(a, labels, w, i, calc) == Loss::Gamma.part(b, labels, w, i, calc)
            &&& Loss::Tweedie(rho).part(a, labels, w, i, calc) == Loss::Tweedie(rho).part(
                b,
                labels,
                w,
                i,
                calc,
            )
        },
        calc.widened(a[i]).lt(Wide { bits: LEAST_PROB }) && calc.widened(b[i]).lt(
            Wide { bits: LEAST_PROB },
        ) ==> Loss::Logistic.part(a, labels, w, i, calc) == Loss::Logistic.part(
            b,
            labels,
            w,
            i,
            calc,
        ),
        !calc.widened(a[i]).lt(Wide { bits: LEAST_PROB }) && !calc.widened(b[i]).lt(
            Wide { bits: LEAST_PROB },
        ) && (Wide { bits: GREATEST_PROB }).lt(calc.widened(a[i])) && (Wide {
            bits: GREATEST_PROB,
        }).lt(calc.widened(b[i])) ==> Loss::Logistic.part(a, labels, w, i, calc)
            == Loss::Logistic.part(b, labels, w, i, calc),
        ({
            let at = i * k + class_of(labels[i]);
            calc.widened(a[at]).lt(Wide { bits: LEAST_PROB }) && calc.widened(b[at]).lt(
                Wide { bits: LEAST_PROB },
            ) ==> Loss::ClassLogistic(k).part(a, labels, w, i, calc) == Loss::ClassLogistic(k).part(
                b,
                labels,
                w,
                i,
                calc,
            )
        }),
{
}

} // verus!
