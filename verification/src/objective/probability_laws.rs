//! Class probabilities, base scores and the margins they stand for, in arithmetics that
//! do not round.

use vstd::prelude::*;

use crate::arith::{Calc, Op};
use crate::exact::{
    gather, is_exact, once, shift, singles_are_exact, spread, swap, turn, undivided, vanish,
};
use crate::exponential::{exponentials_are_positive, exponentials_of_differences, exponentiates};
use crate::layout::entry_place;
use crate::number::{Single, Wide, ONE, ONE_S, TWO_S};
use crate::objective::base::{label_mean, label_sum, weight_at, weighted_sums, Objective};
use crate::objective::classification::{
    LogisticObjective, GREATEST_PROB, GREATEST_PROB_S, LEAST_PROB, LEAST_PROB_S,
};
use crate::objective::count::{GammaObjective, PoissonObjective, TweedieObjective, LEAST_MEAN};
use crate::objective::loss_laws::{is_number, number};
use crate::objective::multiclass::{
    exp_sum, greatest_margin, margins_of, shifted_exp, softmax, softmax_pair, SoftmaxObjective,
    MIN_HESS,
};
use crate::objective::regression::{PseudoHuberObjective, SquaredErrorObjective};

verus! {

/// The sum of the first `n` of a list of numbers.
pub open spec fn total_of<F: Fn(Op, u64, u64) -> u64>(
    list: Seq<Single>,
    n: int,
    val: spec_fn(Wide) -> Option<real>,
    calc: &Calc<F>,
) -> real
    decreases n,
{
    if n <= 0 {
        0real
    } else {
        total_of(list, n - 1, val, calc) + number(list[n - 1], val, calc)
    }
}

proof fn scaled_sums<F: Fn(Op, u64, u64) -> u64>(
    row: Seq<Single>,
    scale: Single,
    list: Seq<Single>,
    n: int,
    val: spec_fn(Wide) -> Option<real>,
    calc: &Calc<F>,
)
    requires
        singles_are_exact(val, calc),
        0 <= n <= list.len(),
        forall|c: int|
            0 <= c < list.len() ==> #[trigger] list[c] == calc.times_s(
                shifted_exp(row, c, calc),
                scale,
            ) && is_number(list[c], val, calc),
        is_number(exp_sum(row, n, calc), val, calc),
    ensures
        total_of(list, n, val, calc) == number(exp_sum(row, n, calc), val, calc) * number(
            scale,
            val,
            calc,
        ),
    decreases n,
{
    vanish(number(scale, val, calc));
    if n > 0 {
        assert(is_number(exp_sum(row, n - 1, calc), val, calc));
        scaled_sums(row, scale, list, n - 1, val, calc);
        assert(is_number(list[n - 1], val, calc));
        gather(
            number(exp_sum(row, n - 1, calc), val, calc),
            number(shifted_exp(row, n - 1, calc), val, calc),
            number(scale, val, calc),
        );
    }
}

/// Class probabilities add up to one, and any two of them relate as the exponentials of
/// their margins.
pub proof fn softmax_gives_probabilities<F: Fn(Op, u64, u64) -> u64>(
    row: Seq<Single>,
    c: int,
    d: int,
    e: spec_fn(real) -> real,
    val: spec_fn(Wide) -> Option<real>,
    calc: &Calc<F>,
)
    requires
        singles_are_exact(val, calc),
        exponentiates(e, val, calc),
        0 <= c < row.len(),
        0 <= d < row.len(),
        forall|i: int|
            0 <= i < row.len() ==> is_number(#[trigger] softmax(row, calc)[i], val, calc),
    ensures
        total_of(softmax(row, calc), row.len() as int, val, calc) == 1real,
        number(softmax(row, calc)[c], val, calc) * e(number(row[d], val, calc)) == number(
            softmax(row, calc)[d],
            val,
            calc,
        ) * e(number(row[c], val, calc)),
{
    let n = row.len() as int;
    let p = softmax(row, calc);
    let sum = exp_sum(row, n, calc);
    let scale = calc.over_s(Single { bits: ONE_S }, sum);
    assert(is_number(p[c], val, calc) && is_number(p[d], val, calc));
    assert(p[c] == calc.times_s(shifted_exp(row, c, calc), scale));
    assert(p[d] == calc.times_s(shifted_exp(row, d, calc), scale));
    assert(is_number(scale, val, calc));
    assert(is_number(sum, val, calc));
    undivided(1real, number(sum, val, calc));
    scaled_sums(row, scale, p, n, val, calc);
    swap(number(sum, val, calc), number(scale, val, calc));
    let top = greatest_margin(row, n);
    assert(is_number(calc.minus_s(row[c], top), val, calc));
    assert(is_number(calc.minus_s(row[d], top), val, calc));
    let m = number(top, val, calc);
    let x = number(row[c], val, calc);
    let y = number(row[d], val, calc);
    let s = number(scale, val, calc);
    let a = e(x - m);
    let b = e(y - m);
    exponentials_of_differences(e, x, m);
    exponentials_of_differences(e, y, m);
    exponentials_are_positive(e, m);
    // a e(y) == b e(x)
    shift(a, b, e(m));
    shift(b, a, e(m));
    swap(a, b);
    turn(a, s, e(y));
    turn(b, s, e(x));
}

/// What is predicted for the classes of a row adds up to one, and any two of them relate as
/// the exponentials of their margins.
pub proof fn predictions_are_probabilities<F: Fn(Op, u64, u64) -> u64>(
    o: SoftmaxObjective,
    preds: Seq<Single>,
    n: int,
    i: int,
    c: int,
    d: int,
    e: spec_fn(real) -> real,
    val: spec_fn(Wide) -> Option<real>,
    calc: &Calc<F>,
)
    requires
        singles_are_exact(val, calc),
        exponentiates(e, val, calc),
        preds.len() == n * o.classes(),
        0 <= i < n,
        0 <= c < o.classes(),
        0 <= d < o.classes(),
        forall|j: int|
            0 <= j < preds.len() ==> is_number(#[trigger] o.transformed(preds, calc)[j], val, calc),
    ensures
        ({
            let k = o.classes();
            let p = o.transformed(preds, calc);
            &&& total_of(p.subrange(i * k, i * k + k), k, val, calc) == 1real
            &&& number(p[i * k + c], val, calc) * e(number(preds[i * k + d], val, calc)) == number(
                p[i * k + d],
                val,
                calc,
            ) * e(number(preds[i * k + c], val, calc))
        }),
{
    let k = o.classes();
    let p = o.transformed(preds, calc);
    entry_place(n, k, i, 0);
    entry_place(n, k, i, k - 1);
    entry_place(n, k, i, c);
    entry_place(n, k, i, d);
    let row = preds.subrange(i * k, i * k + k);
    let probs = softmax(row, calc);
    assert forall|j: int| 0 <= j < k implies probs[j] == #[trigger] p[i * k + j] by {
        entry_place(n, k, i, j);
    }
    assert forall|j: int| 0 <= j < k implies is_number(#[trigger] probs[j], val, calc) by {
        entry_place(n, k, i, j);
        assert(probs[j] == p[i * k + j]);
    }
    softmax_gives_probabilities(row, c, d, e, val, calc);
    assert(p.subrange(i * k, i * k + k) =~= probs) by {
        assert forall|j: int| 0 <= j < k implies p.subrange(i * k, i * k + k)[j]
            == #[trigger] probs[j] by {
            assert(probs[j] == p[i * k + j]);
        }
    }
    assert(row[c] == preds[i * k + c] && row[d] == preds[i * k + d]);
}

/// One for the class of the label, zero for the others.
pub open spec fn target(labels: Seq<Single>, i: int, c: int) -> real {
    if labels[i].count(usize::MAX as int) == c { 1real } else { 0real }
}

/// The gradients of a row's classes relate as the softmax loss has it: each, plus the
/// weight for the class of the label, is the weight times the class probability, so that
/// any two relate as the exponentials of their margins. The Hessian is twice the
/// probability times what is left to one, times the weight, held above the least one.
pub proof fn softmax_gradients_are_probabilities<F: Fn(Op, u64, u64) -> u64>(
    o: SoftmaxObjective,
    preds: Seq<Single>,
    labels: Seq<Single>,
    weights: Option<Seq<Single>>,
    groups: Option<Seq<usize>>,
    i: int,
    c: int,
    d: int,
    e: spec_fn(real) -> real,
    val: spec_fn(Wide) -> Option<real>,
    calc: &Calc<F>,
)
    requires
        singles_are_exact(val, calc),
        exponentiates(e, val, calc),
        preds.len() == labels.len() * o.classes(),
        0 <= i < labels.len(),
        0 <= c < o.classes(),
        0 <= d < o.classes(),
        forall|j: int|
            0 <= j < o.classes() ==> is_number(
                #[trigger] softmax(margins_of(preds, o.classes(), i), calc)[j],
                val,
                calc,
            ),
        is_number(
            o.gradients(preds, labels, weights, groups, calc)[i * o.classes() + c].grad,
            val,
            calc,
        ),
        is_number(
            o.gradients(preds, labels, weights, groups, calc)[i * o.classes() + d].grad,
            val,
            calc,
        ),
        is_number(Single { bits: MIN_HESS }, val, calc),
        ({
            let p = softmax(margins_of(preds, o.classes(), i), calc)[c];
            let one = Single { bits: ONE_S };
            is_number(
                calc.times_s(
                    calc.times_s(calc.times_s(Single { bits: TWO_S }, p), calc.minus_s(one, p)),
                    weight_at(weights, i),
                ),
                val,
                calc,
            )
        }),
    ensures
        ({
            let k = o.classes();
            let all = o.gradients(preds, labels, weights, groups, calc);
            let w = number(weight_at(weights, i), val, calc);
            let a = number(all[i * k + c].grad, val, calc) + target(labels, i, c) * w;
            let b = number(all[i * k + d].grad, val, calc) + target(labels, i, d) * w;
            let p = number(softmax(margins_of(preds, k, i), calc)[c], val, calc);
            let least = number(Single { bits: MIN_HESS }, val, calc);
            let curve = (2real * (p * (1real - p))) * w;
            &&& a == p * w
            &&& a * e(number(preds[i * k + d], val, calc)) == b * e(
                number(preds[i * k + c], val, calc),
            )
            &&& number(all[i * k + c].hess, val, calc) == if curve < least { least } else { curve }
        }),
{
    let k = o.classes();
    let n = labels.len() as int;
    let all = o.gradients(preds, labels, weights, groups, calc);
    entry_place(n, k, i, c);
    entry_place(n, k, i, d);
    entry_place(n, k, i, k - 1);
    let row = margins_of(preds, k, i);
    let probs = softmax(row, calc);
    softmax_gives_probabilities(row, c, d, e, val, calc);
    let ws = weight_at(weights, i);
    let w = number(ws, val, calc);
    let label = labels[i].count(usize::MAX as int);
    assert(all[i * k + c] == softmax_pair(probs[c], c, label, ws, calc));
    assert(all[i * k + d] == softmax_pair(probs[d], d, label, ws, calc));
    assert(is_number(probs[c], val, calc) && is_number(probs[d], val, calc));
    let one = Single { bits: ONE_S };
    let tc = if c == label { one } else { Single { bits: 0 } };
    let td = if d == label { one } else { Single { bits: 0 } };
    assert(is_number(calc.minus_s(probs[c], tc), val, calc));
    assert(is_number(calc.minus_s(probs[d], td), val, calc));
    let p = number(probs[c], val, calc);
    let q = number(probs[d], val, calc);
    gather(p, target(labels, i, c), w);
    gather(q, target(labels, i, d), w);
    assert(row[c] == preds[i * k + c] && row[d] == preds[i * k + d]);
    let ec = e(number(row[c], val, calc));
    let ed = e(number(row[d], val, calc));
    turn(p, w, ed);
    turn(q, w, ec);
    // The Hessian.
    let two_p = calc.times_s(Single { bits: TWO_S }, probs[c]);
    let rest = calc.minus_s(one, probs[c]);
    let bent = calc.times_s(two_p, rest);
    let curve = calc.times_s(bent, ws);
    assert(is_number(bent, val, calc));
    assert(is_number(two_p, val, calc) && is_number(rest, val, calc));
    shift(2real, p, 1real - p);
    assert(curve.le(curve));
}

/// What the labels of the first `n` instances leave of a number, weighted.
pub open spec fn residual<F: Fn(Op, u64, u64) -> u64>(
    labels: Seq<Single>,
    weights: Option<Seq<Single>>,
    at: real,
    n: int,
    val: spec_fn(Wide) -> Option<real>,
    calc: &Calc<F>,
) -> real
    decreases n,
{
    if n <= 0 {
        0real
    } else {
        let w = match weights {
            Some(w) => number(w[n - 1], val, calc),
            None => 1real,
        };
        residual(labels, weights, at, n - 1, val, calc) + w * (at - number(
            labels[n - 1],
            val,
            calc,
        ))
    }
}

proof fn weighted_residuals<F: Fn(Op, u64, u64) -> u64>(
    labels: Seq<Single>,
    weights: Seq<Single>,
    at: real,
    n: int,
    val: spec_fn(Wide) -> Option<real>,
    calc: &Calc<F>,
)
    requires
        is_exact(val, calc),
        val(weighted_sums(labels, weights, n, calc).0) is Some,
        val(weighted_sums(labels, weights, n, calc).1) is Some,
    ensures
        residual(labels, Some(weights), at, n, val, calc) == at * val(
            weighted_sums(labels, weights, n, calc).1,
        )->0 - val(weighted_sums(labels, weights, n, calc).0)->0,
    decreases n,
{
    vanish(at);
    if n > 0 {
        let (num, den) = weighted_sums(labels, weights, n - 1, calc);
        let ws = calc.widened(weights[n - 1]);
        let ys = calc.widened(labels[n - 1]);
        assert(val(calc.plus(num, calc.times(ys, ws))) is Some);
        assert(val(calc.times(ys, ws)) is Some);
        weighted_residuals(labels, weights, at, n - 1, val, calc);
        let w = val(ws)->0;
        let y = val(ys)->0;
        spread(w, at, y);
        spread(at, val(den)->0, w);
        swap(w, at);
        swap(w, y);
    }
}

proof fn plain_residuals<F: Fn(Op, u64, u64) -> u64>(
    labels: Seq<Single>,
    at: real,
    n: int,
    val: spec_fn(Wide) -> Option<real>,
    calc: &Calc<F>,
)
    requires
        is_exact(val, calc),
        0 <= n,
        val(label_sum(labels, n, calc)) is Some,
    ensures
        residual(labels, None, at, n, val, calc) == at * (n as real) - val(
            label_sum(labels, n, calc),
        )->0,
    decreases n,
{
    vanish(at);
    if n > 0 {
        plain_residuals(labels, at, n - 1, val, calc);
        once(at - val(calc.widened(labels[n - 1]))->0);
        spread(at, (n - 1) as real, 1real);
        once(at);
    }
}

/// The mean of the labels leaves no residual: the weighted differences between it and the
/// labels add up to zero.
pub proof fn means_leave_no_residual<F: Fn(Op, u64, u64) -> u64>(
    labels: Seq<Single>,
    weights: Option<Seq<Single>>,
    val: spec_fn(Wide) -> Option<real>,
    calc: &Calc<F>,
)
    requires
        is_exact(val, calc),
        0 < labels.len() <= u32::MAX,
        weights matches Some(w) ==> w.len() == labels.len() && (Wide { bits: 0 }).lt(
            weighted_sums(labels, w, labels.len() as int, calc).1,
        ),
        val(label_mean(labels, weights, calc)) is Some,
    ensures
        residual(
            labels,
            weights,
            val(label_mean(labels, weights, calc))->0,
            labels.len() as int,
            val,
            calc,
        ) == 0real,
{
    let n = labels.len() as int;
    let mean = val(label_mean(labels, weights, calc))->0;
    match weights {
        Some(w) => {
            let (num, den) = weighted_sums(labels, w, n, calc);
            assert(val(num) is Some && val(den) is Some);
            undivided(val(num)->0, val(den)->0);
            weighted_residuals(labels, w, mean, n, val, calc);
        },
        None => {
            let sum = label_sum(labels, n, calc);
            assert(val(sum) is Some && val(calc.of(n)) is Some);
            undivided(val(sum)->0, n as real);
            plain_residuals(labels, mean, n, val, calc);
        },
    }
}

/// The number held within bounds.
pub open spec fn held(x: real, low: real, high: real) -> real {
    if x < low {
        low
    } else if high < x {
        high
    } else {
        x
    }
}

/// Base margins stand for the mean of the labels: regression starts at the mean, counts at
/// its logarithm, and classification at its logit, the mean being held within its bounds.
pub proof fn base_margins_stand_for_the_mean<F: Fn(Op, u64, u64) -> u64>(
    poisson: PoissonObjective,
    tweedie: TweedieObjective,
    logistic: LogisticObjective,
    labels: Seq<Single>,
    weights: Option<Seq<Single>>,
    e: spec_fn(real) -> real,
    val: spec_fn(Wide) -> Option<real>,
    calc: &Calc<F>,
)
    requires
        is_exact(val, calc),
        singles_are_exact(val, calc),
        exponentiates(e, val, calc),
        val(label_mean(labels, weights, calc)) is Some,
        val(Wide { bits: LEAST_MEAN }) is Some,
        val(Wide { bits: LEAST_PROB }) is Some,
        val(Wide { bits: GREATEST_PROB }) is Some,
    ensures
        ({
            let mean = val(label_mean(labels, weights, calc))->0;
            let least = val(Wide { bits: LEAST_MEAN })->0;
            let low = val(Wide { bits: LEAST_PROB })->0;
            let high = val(Wide { bits: GREATEST_PROB })->0;
            let p = held(mean, low, high);
            let squared = SquaredErrorObjective.start(labels, weights, calc);
            let huber = PseudoHuberObjective.start(labels, weights, calc);
            let counts = poisson.start(labels, weights, calc);
            let gammas = GammaObjective.start(labels, weights, calc);
            let mixed = tweedie.start(labels, weights, calc);
            let odds = logistic.start(labels, weights, calc);
            &&& is_number(squared, val, calc) ==> number(squared, val, calc) == mean
            &&& is_number(huber, val, calc) ==> number(huber, val, calc) == mean
            &&& is_number(counts, val, calc) ==> e(number(counts, val, calc)) == if mean < least {
                least
            } else {
                mean
            }
            &&& gammas == counts && mixed == counts
            &&& is_number(odds, val, calc) ==> e(number(odds, val, calc)) * (1real - p) == p
        }),
{
    let mean = label_mean(labels, weights, calc);
    let counted = mean.greater(Wide { bits: LEAST_MEAN });
    assert(mean.le(mean));
    let ls = calc.logarithm(counted);
    let counts = calc.narrowed(ls);
    assert(poisson.start(labels, weights, calc) == counts);
    if is_number(counts, val, calc) {
        assert(val(ls) is Some);
    }
    let p = mean.clamped(Wide { bits: LEAST_PROB }, Wide { bits: GREATEST_PROB });
    let rest = calc.minus(Wide { bits: ONE }, p);
    let ratio = calc.over(p, rest);
    let lr = calc.logarithm(ratio);
    let odds = calc.narrowed(lr);
    assert(logistic.start(labels, weights, calc) == odds);
    if is_number(odds, val, calc) {
        assert(val(lr) is Some);
        assert(val(ratio) is Some);
        assert(val(rest) is Some);
        undivided(val(p)->0, val(rest)->0);
    }
}

/// The margin of a base score is what the objective's transform takes back to it: its
/// logarithm for counts, its logit for classification, the score being held within its
/// bounds.
pub proof fn margins_stand_for_base_scores<F: Fn(Op, u64, u64) -> u64>(
    poisson: PoissonObjective,
    tweedie: TweedieObjective,
    logistic: LogisticObjective,
    score: Single,
    e: spec_fn(real) -> real,
    val: spec_fn(Wide) -> Option<real>,
    calc: &Calc<F>,
)
    requires
        is_exact(val, calc),
        singles_are_exact(val, calc),
        exponentiates(e, val, calc),
        is_number(score, val, calc),
        val(Wide { bits: LEAST_MEAN }) is Some,
        is_number(Single { bits: LEAST_PROB_S }, val, calc),
        is_number(Single { bits: GREATEST_PROB_S }, val, calc),
    ensures
        ({
            let s = number(score, val, calc);
            let least = val(Wide { bits: LEAST_MEAN })->0;
            let p = held(
                s,
                number(Single { bits: LEAST_PROB_S }, val, calc),
                number(Single { bits: GREATEST_PROB_S }, val, calc),
            );
            let counts = poisson.margin_of(score, calc);
            let odds = logistic.margin_of(score, calc);
            &&& SquaredErrorObjective.margin_of(score, calc) == score
            &&& PseudoHuberObjective.margin_of(score, calc) == score
            &&& is_number(counts, val, calc) ==> e(number(counts, val, calc)) == if s < least {
                least
            } else {
                s
            }
            &&& GammaObjective.margin_of(score, calc) == counts
            &&& tweedie.margin_of(score, calc) == counts
            &&& is_number(odds, val, calc) ==> e(number(odds, val, calc)) * (1real - p) == p
        }),
{
    let wide = calc.widened(score);
    assert(wide.le(wide));
    let ls = calc.logarithm(wide.greater(Wide { bits: LEAST_MEAN }));
    let counts = calc.narrowed(ls);
    assert(poisson.margin_of(score, calc) == counts);
    if is_number(counts, val, calc) {
        assert(val(ls) is Some);
    }
    let p = score.clamped(Single { bits: LEAST_PROB_S }, Single { bits: GREATEST_PROB_S });
    let rest = calc.minus_s(Single { bits: ONE_S }, p);
    let ratio = calc.over_s(p, rest);
    let odds = calc.logarithm_s(ratio);
    assert(logistic.margin_of(score, calc) == odds);
    if is_number(odds, val, calc) {
        assert(is_number(ratio, val, calc));
        assert(is_number(rest, val, calc));
        undivided(number(p, val, calc), number(rest, val, calc));
    }
}

/// Counts are predicted by the exponentials of their margins, regression by the margins
/// themselves.
pub proof fn predictions_are_exponentials<F: Fn(Op, u64, u64) -> u64>(
    poisson: PoissonObjective,
    tweedie: TweedieObjective,
    preds: Seq<Single>,
    i: int,
    e: spec_fn(real) -> real,
    val: spec_fn(Wide) -> Option<real>,
    calc: &Calc<F>,
)
    requires
        exponentiates(e, val, calc),
        0 <= i < preds.len(),
    ensures
        ({
            let counts = poisson.transformed(preds, calc)[i];
            let gammas = GammaObjective.transformed(preds, calc)[i];
            let mixed = tweedie.transformed(preds, calc)[i];
            let p = e(number(preds[i], val, calc));
            &&& is_number(counts, val, calc) ==> number(counts, val, calc) == p
            &&& is_number(gammas, val, calc) ==> number(gammas, val, calc) == p
            &&& is_number(mixed, val, calc) ==> number(mixed, val, calc) == p
            &&& SquaredErrorObjective.transformed(preds, calc)[i] == preds[i]
            &&& PseudoHuberObjective.transformed(preds, calc)[i] == preds[i]
        }),
{
}

} // verus!
