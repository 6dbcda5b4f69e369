//! What coordinate descent keeps up, in arithmetics that do not round: gradients follow
//! margins, and every step goes towards the least loss.

use vstd::prelude::*;

use crate::arith::{Calc, Op};
use crate::booster::gblinear::{
    bias_step, column_sums, nonzero_column, output_sums, weight_step, Fit, LEAST_SUM,
};
use crate::booster::laws::{
    balanced_steps_are_best, magnitude, penalized, penalties_join_the_loss, smooth,
    weight_steps_minimize_the_loss,
};
use crate::config::TrainingParams;
use crate::data::dmatrix::DMatrix;
use crate::exact::{
    gather, is_exact, not_below_zero, once, shift, singles_are_exact, spread, swap, undivided,
    vanish,
};
use crate::layout::entry_place;
use crate::number::{Single, Wide};
use crate::objective::loss_laws::{is_number, number};
use crate::objective::pair::GradPair;

verus! {

/// Whether gradients moved with their margins from one state of a fit to another: by the
/// Hessian times what the margin moved. Hessians stay.
pub open spec fn gradients_follow<F: Fn(Op, u64, u64) -> u64>(
    a: Fit,
    b: Fit,
    val: spec_fn(Wide) -> Option<real>,
    calc: &Calc<F>,
) -> bool {
    &&& a.gp.len() == b.gp.len()
    &&& a.margin.len() == b.margin.len()
    &&& a.gp.len() == a.margin.len()
    &&& forall|j: int|
        0 <= j < a.gp.len() ==> {
            &&& (#[trigger] b.gp[j]).hess == a.gp[j].hess
            &&& is_number(b.gp[j].grad, val, calc) ==> is_number(a.gp[j].grad, val, calc)
            &&& is_number(b.margin[j], val, calc) ==> is_number(a.margin[j], val, calc)
            &&& is_number(b.gp[j].grad, val, calc) && is_number(b.margin[j], val, calc) ==> number(
                b.gp[j].grad,
                val,
                calc,
            ) - number(a.gp[j].grad, val, calc) == number(a.gp[j].hess, val, calc) * (number(
                b.margin[j],
                val,
                calc,
            ) - number(a.margin[j], val, calc))
        }
}

proof fn nothing_moves<F: Fn(Op, u64, u64) -> u64>(
    a: Fit,
    val: spec_fn(Wide) -> Option<real>,
    calc: &Calc<F>,
)
    requires
        a.gp.len() == a.margin.len(),
    ensures
        gradients_follow(a, a, val, calc),
{
    assert forall|j: int| 0 <= j < a.gp.len() implies number((#[trigger] a.gp[j]).hess, val, calc)
        * (number(a.margin[j], val, calc) - number(a.margin[j], val, calc)) == 0real by {
        vanish(number(a.gp[j].hess, val, calc));
    }
}

proof fn moves_add_up<F: Fn(Op, u64, u64) -> u64>(
    a: Fit,
    b: Fit,
    c: Fit,
    val: spec_fn(Wide) -> Option<real>,
    calc: &Calc<F>,
)
    requires
        gradients_follow(a, b, val, calc),
        gradients_follow(b, c, val, calc),
    ensures
        gradients_follow(a, c, val, calc),
{
    assert forall|j: int| 0 <= j < a.gp.len() implies {
        &&& (#[trigger] c.gp[j]).hess == a.gp[j].hess
        &&& is_number(c.gp[j].grad, val, calc) ==> is_number(a.gp[j].grad, val, calc)
        &&& is_number(c.margin[j], val, calc) ==> is_number(a.margin[j], val, calc)
        &&& is_number(c.gp[j].grad, val, calc) && is_number(c.margin[j], val, calc) ==> number(
            c.gp[j].grad,
            val,
            calc,
        ) - number(a.gp[j].grad, val, calc) == number(a.gp[j].hess, val, calc) * (number(
            c.margin[j],
            val,
            calc,
        ) - number(a.margin[j], val, calc))
    } by {
        assert(b.gp[j].hess == a.gp[j].hess);
        assert(c.gp[j].hess == b.gp[j].hess);
        spread(
            number(a.gp[j].hess, val, calc),
            number(c.margin[j], val, calc) - number(b.margin[j], val, calc),
            number(b.margin[j], val, calc) - number(a.margin[j], val, calc),
        );
    }
}

proof fn one_margin_moves<F: Fn(Op, u64, u64) -> u64>(
    a: Fit,
    b: Fit,
    at: int,
    grad: Single,
    margin: Single,
    val: spec_fn(Wide) -> Option<real>,
    calc: &Calc<F>,
)
    requires
        a.gp.len() == a.margin.len(),
        0 <= at < a.gp.len(),
        b.gp == a.gp.update(at, GradPair { grad, ..a.gp[at] }),
        b.margin == a.margin.update(at, margin),
        is_number(grad, val, calc) ==> is_number(a.gp[at].grad, val, calc),
        is_number(margin, val, calc) ==> is_number(a.margin[at], val, calc),
        is_number(grad, val, calc) && is_number(margin, val, calc) ==> number(grad, val, calc)
            - number(a.gp[at].grad, val, calc) == number(a.gp[at].hess, val, calc) * (number(
            margin,
            val,
            calc,
        ) - number(a.margin[at], val, calc)),
    ensures
        gradients_follow(a, b, val, calc),
{
    assert forall|j: int| 0 <= j < a.gp.len() implies {
        &&& (#[trigger] b.gp[j]).hess == a.gp[j].hess
        &&& is_number(b.gp[j].grad, val, calc) ==> is_number(a.gp[j].grad, val, calc)
        &&& is_number(b.margin[j], val, calc) ==> is_number(a.margin[j], val, calc)
        &&& is_number(b.gp[j].grad, val, calc) && is_number(b.margin[j], val, calc) ==> number(
            b.gp[j].grad,
            val,
            calc,
        ) - number(a.gp[j].grad, val, calc) == number(a.gp[j].hess, val, calc) * (number(
            b.margin[j],
            val,
            calc,
        ) - number(a.margin[j], val, calc))
    } by {
        vanish(number(a.gp[j].hess, val, calc));
    }
}

proof fn bias_rows_follow<F: Fn(Op, u64, u64) -> u64>(
    s: Fit,
    data: &DMatrix,
    k: int,
    out: int,
    db: Single,
    n: int,
    val: spec_fn(Wide) -> Option<real>,
    calc: &Calc<F>,
)
    requires
        singles_are_exact(val, calc),
        s.fits(data, k),
        0 <= out < k,
        0 <= n <= data.height(),
    ensures
        gradients_follow(s, s.with_bias_rows(k, out, db, n, calc), val, calc),
        s.with_bias_rows(k, out, db, n, calc).fits(data, k),
        s.with_bias_rows(k, out, db, n, calc).w == s.w,
        s.with_bias_rows(k, out, db, n, calc).bias == s.bias,
    decreases n,
{
    if n <= 0 {
        nothing_moves(s, val, calc);
    } else {
        bias_rows_follow(s, data, k, out, db, n - 1, val, calc);
        let a = s.with_bias_rows(k, out, db, n - 1, calc);
        let b = s.with_bias_rows(k, out, db, n, calc);
        let at = (n - 1) * k + out;
        entry_place(data.height(), k, n - 1, out);
        let p = a.gp[at];
        let by = calc.times_s(p.hess, db);
        one_margin_moves(
            a,
            b,
            at,
            calc.plus_s(p.grad, by),
            calc.plus_s(a.margin[at], db),
            val,
            calc,
        );
        moves_add_up(s, a, b, val, calc);
    }
}

proof fn columns_name_rows(data: &DMatrix, f: int, n: int)
    requires
        n <= u32::MAX,
    ensures
        forall|j: int|
            0 <= j < nonzero_column(data, f, n).len() ==> (#[trigger] nonzero_column(
                data,
                f,
                n,
            )[j]).0 < n,
    decreases n,
{
    if n > 0 {
        columns_name_rows(data, f, n - 1);
        let rest = nonzero_column(data, f, n - 1);
        let col = nonzero_column(data, f, n);
        assert forall|j: int| 0 <= j < col.len() implies (#[trigger] col[j]).0 < n by {
            if j < rest.len() {
                assert(col[j] == rest[j]);
            }
        }
    }
}

proof fn column_rows_follow<F: Fn(Op, u64, u64) -> u64>(
    s: Fit,
    data: &DMatrix,
    col: Seq<(u32, Single)>,
    k: int,
    out: int,
    dw: Single,
    n: int,
    val: spec_fn(Wide) -> Option<real>,
    calc: &Calc<F>,
)
    requires
        singles_are_exact(val, calc),
        s.fits(data, k),
        0 <= out < k,
        0 <= n <= col.len(),
        forall|j: int| 0 <= j < col.len() ==> (#[trigger] col[j]).0 < data.height(),
    ensures
        gradients_follow(s, s.with_column_rows(col, k, out, dw, n, calc), val, calc),
        s.with_column_rows(col, k, out, dw, n, calc).fits(data, k),
        s.with_column_rows(col, k, out, dw, n, calc).w == s.w,
        s.with_column_rows(col, k, out, dw, n, calc).bias == s.bias,
    decreases n,
{
    if n <= 0 {
        nothing_moves(s, val, calc);
    } else {
        column_rows_follow(s, data, col, k, out, dw, n - 1, val, calc);
        let a = s.with_column_rows(col, k, out, dw, n - 1, calc);
        let b = s.with_column_rows(col, k, out, dw, n, calc);
        let r = col[n - 1].0 as int;
        let at = r * k + out;
        entry_place(data.height(), k, r, out);
        let x = col[n - 1].1;
        let p = a.gp[at];
        let hx = calc.times_s(p.hess, x);
        let by = calc.times_s(hx, dw);
        let step = calc.times_s(x, dw);
        let grad = calc.plus_s(p.grad, by);
        let margin = calc.plus_s(a.margin[at], step);
        if is_number(grad, val, calc) && is_number(margin, val, calc) {
            assert(is_number(by, val, calc) && is_number(step, val, calc));
            assert(is_number(hx, val, calc));
            shift(number(p.hess, val, calc), number(x, val, calc), number(dw, val, calc));
        }
        one_margin_moves(a, b, at, grad, margin, val, calc);
        moves_add_up(s, a, b, val, calc);
    }
}

proof fn feature_follows<F: Fn(Op, u64, u64) -> u64>(
    s: Fit,
    data: &DMatrix,
    k: int,
    out: int,
    f: int,
    params: TrainingParams,
    val: spec_fn(Wide) -> Option<real>,
    calc: &Calc<F>,
)
    requires
        singles_are_exact(val, calc),
        s.fits(data, k),
        0 <= data.height() <= u32::MAX,
        0 <= out < k,
        0 <= f < data.width(),
    ensures
        ({
            let b = s.with_feature(
                nonzero_column(data, f, data.height()),
                k,
                out,
                f,
                params,
                calc,
            );
            gradients_follow(s, b, val, calc) && b.fits(data, k)
        }),
{
    let col = nonzero_column(data, f, data.height());
    columns_name_rows(data, f, data.height());
    entry_place(data.width(), k, f, out);
    nothing_moves(s, val, calc);
    let (g, h) = column_sums(s.gp, col, k, out, col.len() as int, calc);
    let w = calc.widened(s.w[f * k + out]);
    let step = calc.times(params.eta, weight_step(g, h, w, params.alpha, params.lambda, calc));
    let dw = calc.narrowed(step);
    column_rows_follow(s, data, col, k, out, dw, col.len() as int, val, calc);
    let a = s.with_column_rows(col, k, out, dw, col.len() as int, calc);
    let b = s.with_feature(col, k, out, f, params, calc);
    assert(gradients_follow(s, b, val, calc));
}

proof fn features_follow<F: Fn(Op, u64, u64) -> u64>(
    s: Fit,
    data: &DMatrix,
    k: int,
    out: int,
    n: int,
    params: TrainingParams,
    val: spec_fn(Wide) -> Option<real>,
    calc: &Calc<F>,
)
    requires
        singles_are_exact(val, calc),
        s.fits(data, k),
        0 <= data.height() <= u32::MAX,
        0 <= out < k,
        0 <= n <= data.width(),
    ensures
        gradients_follow(s, s.with_features(data, k, out, n, params, calc), val, calc),
        s.with_features(data, k, out, n, params, calc).fits(data, k),
    decreases n,
{
    if n <= 0 {
        nothing_moves(s, val, calc);
    } else {
        features_follow(s, data, k, out, n - 1, params, val, calc);
        let a = s.with_features(data, k, out, n - 1, params, calc);
        feature_follows(a, data, k, out, n - 1, params, val, calc);
        moves_add_up(s, a, s.with_features(data, k, out, n, params, calc), val, calc);
    }
}

proof fn bias_follows<F: Fn(Op, u64, u64) -> u64>(
    s: Fit,
    data: &DMatrix,
    k: int,
    out: int,
    params: TrainingParams,
    val: spec_fn(Wide) -> Option<real>,
    calc: &Calc<F>,
)
    requires
        singles_are_exact(val, calc),
        s.fits(data, k),
        0 <= data.height(),
        0 <= out < k,
    ensures
        gradients_follow(s, s.with_bias(k, out, data.height(), params, calc), val, calc),
        s.with_bias(k, out, data.height(), params, calc).fits(data, k),
{
    let n = data.height();
    nothing_moves(s, val, calc);
    let (g, h) = output_sums(s.gp, k, out, n, calc);
    let step = calc.times(params.eta, bias_step(g, h, calc));
    bias_rows_follow(s, data, k, out, calc.narrowed(step), n, val, calc);
}

/// Within a round gradients follow margins: after the steps of any number of outputs, and
/// of the bias and any number of features of the next, every gradient has moved by its
/// Hessian times what its margin has moved.
pub proof fn gradients_follow_margins<F: Fn(Op, u64, u64) -> u64>(
    s: Fit,
    data: &DMatrix,
    k: int,
    n: int,
    features: int,
    params: TrainingParams,
    val: spec_fn(Wide) -> Option<real>,
    calc: &Calc<F>,
)
    requires
        singles_are_exact(val, calc),
        s.fits(data, k),
        0 <= data.height() <= u32::MAX,
        0 <= data.width(),
        0 <= n <= k,
        0 <= features <= data.width(),
    ensures
        gradients_follow(s, s.with_outputs(data, k, n, params, calc), val, calc),
        s.with_outputs(data, k, n, params, calc).fits(data, k),
        n < k ==> gradients_follow(
            s,
            s.with_outputs(data, k, n, params, calc).with_bias(
                k,
                n,
                data.height(),
                params,
                calc,
            ).with_features(data, k, n, features, params, calc),
            val,
            calc,
        ),
    decreases n,
{
    if n <= 0 {
        nothing_moves(s, val, calc);
    } else {
        gradients_follow_margins(s, data, k, n - 1, data.width(), params, val, calc);
    }
    let a = s.with_outputs(data, k, n, params, calc);
    if n > 0 {
        let before = s.with_outputs(data, k, n - 1, params, calc);
        bias_follows(before, data, k, n - 1, params, val, calc);
        let mid = before.with_bias(k, n - 1, data.height(), params, calc);
        features_follow(mid, data, k, n - 1, data.width(), params, val, calc);
        moves_add_up(before, mid, a, val, calc);
        moves_add_up(s, before, a, val, calc);
    }
    if n < k {
        bias_follows(a, data, k, n, params, val, calc);
        let mid = a.with_bias(k, n, data.height(), params, calc);
        features_follow(mid, data, k, n, features, params, val, calc);
        let b = mid.with_features(data, k, n, features, params, calc);
        moves_add_up(a, mid, b, val, calc);
        moves_add_up(s, a, b, val, calc);
    }
}

/// What a row has of a feature: zero where it has no value.
pub open spec fn cell_value<F: Fn(Op, u64, u64) -> u64>(
    data: &DMatrix,
    r: int,
    f: int,
    val: spec_fn(Wide) -> Option<real>,
    calc: &Calc<F>,
) -> real {
    match data.cell(r, f) {
        Some(x) => if x.same(Single { bits: 0 }) { 0real } else { number(x, val, calc) },
        None => 0real,
    }
}

/// The sum over the first `n` rows of gradients times values.
pub open spec fn slope_sum<F: Fn(Op, u64, u64) -> u64>(
    gp: Seq<GradPair>,
    data: &DMatrix,
    f: int,
    k: int,
    out: int,
    n: int,
    val: spec_fn(Wide) -> Option<real>,
    calc: &Calc<F>,
) -> real
    decreases n,
{
    if n <= 0 {
        0real
    } else {
        slope_sum(gp, data, f, k, out, n - 1, val, calc) + number(
            gp[(n - 1) * k + out].grad,
            val,
            calc,
        ) * cell_value(data, n - 1, f, val, calc)
    }
}

/// The sum over the first `n` rows of Hessians times squared values.
pub open spec fn curve_sum<F: Fn(Op, u64, u64) -> u64>(
    gp: Seq<GradPair>,
    data: &DMatrix,
    f: int,
    k: int,
    out: int,
    n: int,
    val: spec_fn(Wide) -> Option<real>,
    calc: &Calc<F>,
) -> real
    decreases n,
{
    if n <= 0 {
        0real
    } else {
        let x = cell_value(data, n - 1, f, val, calc);
        curve_sum(gp, data, f, k, out, n - 1, val, calc) + number(
            gp[(n - 1) * k + out].hess,
            val,
            calc,
        ) * (x * x)
    }
}

proof fn sums_of_a_prefix<F: Fn(Op, u64, u64) -> u64>(
    gp: Seq<GradPair>,
    col: Seq<(u32, Single)>,
    e: (u32, Single),
    k: int,
    out: int,
    n: int,
    calc: &Calc<F>,
)
    requires
        n <= col.len(),
    ensures
        column_sums(gp, col.push(e), k, out, n, calc) == column_sums(gp, col, k, out, n, calc),
    decreases n,
{
    if n > 0 {
        sums_of_a_prefix(gp, col, e, k, out, n - 1, calc);
    }
}

proof fn column_sums_are_sums<F: Fn(Op, u64, u64) -> u64>(
    gp: Seq<GradPair>,
    data: &DMatrix,
    f: int,
    k: int,
    out: int,
    n: int,
    val: spec_fn(Wide) -> Option<real>,
    calc: &Calc<F>,
)
    requires
        is_exact(val, calc),
        0 <= n <= u32::MAX,
    ensures
        ({
            let col = nonzero_column(data, f, n);
            let (g, h) = column_sums(gp, col, k, out, col.len() as int, calc);
            &&& val(g) is Some ==> val(g)->0 == slope_sum(gp, data, f, k, out, n, val, calc)
            &&& val(h) is Some ==> val(h)->0 == curve_sum(gp, data, f, k, out, n, val, calc)
        }),
    decreases n,
{
    if n > 0 {
        column_sums_are_sums(gp, data, f, k, out, n - 1, val, calc);
        let rest = nonzero_column(data, f, n - 1);
        let col = nonzero_column(data, f, n);
        let p = gp[(n - 1) * k + out];
        vanish(number(p.grad, val, calc));
        vanish(number(p.hess, val, calc));
        vanish(0real);
        if col != rest {
            let x = data.cell(n - 1, f)->0;
            let e = ((n - 1) as u32, x);
            assert(col == rest.push(e));
            sums_of_a_prefix(gp, rest, e, k, out, rest.len() as int, calc);
            assert(col[col.len() - 1] == e);
            shift(number(p.hess, val, calc), number(x, val, calc), number(x, val, calc));
        } else {
            match data.cell(n - 1, f) {
                Some(x) => {
                    if !x.same(Single { bits: 0 }) {
                        assert(rest.push(((n - 1) as u32, x)).len() == rest.len() + 1);
                    }
                },
                None => {},
            }
        }
    }
}

proof fn parts_of_steps(
    sum_grad: real,
    sum_hess: real,
    w: real,
    alpha: real,
    lambda: real,
    d: real,
    eta: real,
)
    requires
        0real <= eta <= 1real,
        alpha >= 0real,
        sum_hess + lambda >= 0real,
        penalized(sum_grad, sum_hess, w, alpha, lambda, d) <= penalized(
            sum_grad,
            sum_hess,
            w,
            alpha,
            lambda,
            0real,
        ),
    ensures
        penalized(sum_grad, sum_hess, w, alpha, lambda, eta * d) <= penalized(
            sum_grad,
            sum_hess,
            w,
            alpha,
            lambda,
            0real,
        ),
{
    let g = sum_grad + lambda * w;
    let h = sum_hess + lambda;
    let z = eta * d;
    penalties_join_the_loss(sum_grad, sum_hess, w, alpha, lambda, z);
    penalties_join_the_loss(sum_grad, sum_hess, w, alpha, lambda, d);
    penalties_join_the_loss(sum_grad, sum_hess, w, alpha, lambda, 0real);
    vanish(g);
    vanish(h);
    vanish(0real);
    // The smooth part of a part of a step is at most that part of the smooth part.
    let gd = g * d;
    let hdd = (h * d) * d;
    swap(eta, d);
    shift(g, d, eta);
    swap(gd, eta);
    assert(g * z == eta * gd);
    shift(h, d, eta);
    assert(h * z == (h * d) * eta);
    shift(h * d, eta, z);
    shift(eta, d, eta);
    swap(eta, z);
    assert((h * z) * z == (eta * eta) * hdd) by {
        shift(h * d, eta, d * eta);
        shift(eta, d, eta);
        swap(eta, d);
        shift(d, eta, eta);
        shift(h * d, d, eta * eta);
        swap(hdd, eta * eta);
        swap(eta, d * eta);
        shift(d, eta, eta);
    }
    not_below_zero(d, d);
    not_below_zero(h, d * d);
    shift(h, d, d);
    not_below_zero(eta, 1real - eta);
    spread(eta, 1real, eta);
    once(eta);
    not_below_zero(eta - eta * eta, hdd);
    gather(eta, eta * eta, hdd);
    // So is the magnitude.
    let m0 = magnitude(w + 0real);
    let m1 = magnitude(w + d);
    let mz = magnitude(w + z);
    assert(mz <= (m0 - eta * m0) + eta * m1) by {
        gather(1real, eta, w);
        once(w);
        spread(eta, w, d);
        not_below_zero(1real - eta, m0 - w);
        not_below_zero(1real - eta, m0 + w);
        spread(1real - eta, m0, w);
        gather(1real, eta, m0);
        once(m0);
        not_below_zero(eta, m1 - (w + d));
        not_below_zero(eta, m1 + (w + d));
        spread(eta, m1, w + d);
    }
    not_below_zero(alpha, ((m0 - eta * m0) + eta * m1) - mz);
    spread(alpha, (m0 - eta * m0) + eta * m1, mz);
    spread(alpha, m0 - eta * m0, eta * m1);
    spread(alpha, m0, eta * m0);
    shift(alpha, eta, m0);
    shift(alpha, eta, m1);
    swap(alpha, eta);
    shift(eta, alpha, m0);
    shift(eta, alpha, m1);
    // Together.
    let at = smooth(g, h, d) + (alpha * m1 + alpha * m1);
    let from = alpha * m0 + alpha * m0;
    assert(at <= from);
    not_below_zero(eta, from - at);
    spread(eta, from, at);
    spread(eta, smooth(g, h, d), alpha * m1 + alpha * m1);
    spread(eta, gd + gd, hdd);
    spread(eta, gd, gd);
    spread(eta, alpha * m1, alpha * m1);
    spread(eta, alpha * m0, alpha * m0);
}

/// No step of a weight raises the loss of the round at the current weights: the gradients
/// and Hessians of all rows, to second order and with its penalties. The gradients are
/// weighed by the values of the feature, the Hessians by their squares.
pub proof fn feature_steps_never_raise_the_loss<F: Fn(Op, u64, u64) -> u64>(
    s: Fit,
    data: &DMatrix,
    k: int,
    out: int,
    f: int,
    params: TrainingParams,
    val: spec_fn(Wide) -> Option<real>,
    calc: &Calc<F>,
)
    requires
        is_exact(val, calc),
        singles_are_exact(val, calc),
        s.fits(data, k),
        0 <= data.height() <= u32::MAX,
        0 <= out < k,
        0 <= f < data.width(),
        ({
            let col = nonzero_column(data, f, data.height());
            let (g, h) = column_sums(s.gp, col, k, out, col.len() as int, calc);
            let w = calc.widened(s.w[f * k + out]);
            let sg = calc.plus(g, calc.times(params.lambda, w));
            let sh = calc.plus(h, params.lambda);
            &&& val(g) is Some
            &&& val(h) is Some
            &&& !h.lt(Wide { bits: LEAST_SUM })
            &&& val(sh) is Some
            &&& val(sh)->0 > 0real
            &&& val(calc.minus(w, calc.over(sg, sh))) is Some
            &&& val(calc.over(calc.plus(sg, params.alpha).negated(), sh)) is Some
            &&& val(calc.over(calc.minus(sg, params.alpha).negated(), sh)) is Some
            &&& val(w.negated()) is Some
        }),
        val(params.alpha) is Some,
        val(params.alpha)->0 >= 0real,
        0real <= val(params.eta)->0 <= 1real,
        is_number(
            s.with_feature(
                nonzero_column(data, f, data.height()),
                k,
                out,
                f,
                params,
                calc,
            ).w[f * k + out],
            val,
            calc,
        ),
    ensures
        ({
            let n = data.height();
            let after = s.with_feature(nonzero_column(data, f, n), k, out, f, params, calc);
            let g = slope_sum(s.gp, data, f, k, out, n, val, calc);
            let h = curve_sum(s.gp, data, f, k, out, n, val, calc);
            let w = number(s.w[f * k + out], val, calc);
            let d = number(after.w[f * k + out], val, calc) - w;
            penalized(g, h, w, val(params.alpha)->0, val(params.lambda)->0, d) <= penalized(
                g,
                h,
                w,
                val(params.alpha)->0,
                val(params.lambda)->0,
                0real,
            )
        }),
{
    let n = data.height();
    let col = nonzero_column(data, f, n);
    column_sums_are_sums(s.gp, data, f, k, out, n, val, calc);
    let (gs, hs) = column_sums(s.gp, col, k, out, col.len() as int, calc);
    let ws = calc.widened(s.w[f * k + out]);
    let best = weight_step(gs, hs, ws, params.alpha, params.lambda, calc);
    let step = calc.times(params.eta, best);
    weight_steps_minimize_the_loss(
        gs,
        hs,
        ws,
        params.alpha,
        params.lambda,
        0real,
        val,
        calc,
    );
    let after = s.with_feature(col, k, out, f, params, calc);
    let dw = calc.narrowed(step);
    entry_place(data.width(), k, f, out);
    let w = number(s.w[f * k + out], val, calc);
    let d = number(after.w[f * k + out], val, calc) - w;
    if !step.same(Wide { bits: 0 }) {
        columns_name_rows(data, f, n);
        column_rows_follow(s, data, col, k, out, dw, col.len() as int, val, calc);
        assert(after.w[f * k + out] == calc.plus_s(s.w[f * k + out], dw));
        assert(is_number(dw, val, calc));
        assert(val(step) is Some);
        assert(d == val(params.eta)->0 * val(best)->0);
        parts_of_steps(
            val(gs)->0,
            val(hs)->0,
            w,
            val(params.alpha)->0,
            val(params.lambda)->0,
            val(best)->0,
            val(params.eta)->0,
        );
    } else {
        assert(after == s);
        assert(d == 0real);
    }
}

/// The step of a bias is the best one: no other gives a lesser loss, to second order.
pub proof fn bias_steps_minimize_the_loss<F: Fn(Op, u64, u64) -> u64>(
    sum_grad: Wide,
    sum_hess: Wide,
    d: real,
    val: spec_fn(Wide) -> Option<real>,
    calc: &Calc<F>,
)
    requires
        is_exact(val, calc),
        !sum_hess.lt(Wide { bits: LEAST_SUM }),
        val(sum_hess) is Some,
        val(sum_hess)->0 > 0real,
        val(bias_step(sum_grad, sum_hess, calc)) is Some,
    ensures
        penalized(
            val(sum_grad)->0,
            val(sum_hess)->0,
            0real,
            0real,
            0real,
            val(bias_step(sum_grad, sum_hess, calc))->0,
        ) <= penalized(val(sum_grad)->0, val(sum_hess)->0, 0real, 0real, 0real, d),
{
    let step = val(bias_step(sum_grad, sum_hess, calc))->0;
    let g = val(sum_grad)->0;
    let h = val(sum_hess)->0;
    assert(val(sum_grad.negated()) is Some);
    undivided(0real - g, h);
    swap(step, h);
    vanish(0real);
    vanish(h);
    vanish(g);
    balanced_steps_are_best(g, h, 0real, 0real, 0real, step, d);
}

/// A step of a weight goes the learning rate's part of the way to the best weight: the one
/// that no other gives a lesser penalized loss than.
pub proof fn feature_steps_go_towards_the_best<F: Fn(Op, u64, u64) -> u64>(
    s: Fit,
    data: &DMatrix,
    k: int,
    out: int,
    f: int,
    params: TrainingParams,
    val: spec_fn(Wide) -> Option<real>,
    calc: &Calc<F>,
) -> (best: real)
    requires
        is_exact(val, calc),
        singles_are_exact(val, calc),
        s.fits(data, k),
        0 <= data.height() <= u32::MAX,
        0 <= out < k,
        0 <= f < data.width(),
        ({
            let col = nonzero_column(data, f, data.height());
            let (g, h) = column_sums(s.gp, col, k, out, col.len() as int, calc);
            let w = calc.widened(s.w[f * k + out]);
            let sg = calc.plus(g, calc.times(params.lambda, w));
            let sh = calc.plus(h, params.lambda);
            &&& val(g) is Some
            &&& val(h) is Some
            &&& !h.lt(Wide { bits: LEAST_SUM })
            &&& val(sh) is Some
            &&& val(sh)->0 > 0real
            &&& val(calc.minus(w, calc.over(sg, sh))) is Some
            &&& val(calc.over(calc.plus(sg, params.alpha).negated(), sh)) is Some
            &&& val(calc.over(calc.minus(sg, params.alpha).negated(), sh)) is Some
            &&& val(w.negated()) is Some
        }),
        val(params.alpha) is Some,
        val(params.alpha)->0 >= 0real,
        is_number(
            s.with_feature(
                nonzero_column(data, f, data.height()),
                k,
                out,
                f,
                params,
                calc,
            ).w[f * k + out],
            val,
            calc,
        ),
    ensures
        ({
            let n = data.height();
            let after = s.with_feature(nonzero_column(data, f, n), k, out, f, params, calc);
            let g = slope_sum(s.gp, data, f, k, out, n, val, calc);
            let h = curve_sum(s.gp, data, f, k, out, n, val, calc);
            let w = number(s.w[f * k + out], val, calc);
            let alpha = val(params.alpha)->0;
            let lambda = val(params.lambda)->0;
            &&& number(after.w[f * k + out], val, calc) - w == val(params.eta)->0 * best
            &&& forall|d: real|
                penalized(g, h, w, alpha, lambda, best) <= #[trigger] penalized(
                    g,
                    h,
                    w,
                    alpha,
                    lambda,
                    d,
                )
        }),
{
    let n = data.height();
    let col = nonzero_column(data, f, n);
    column_sums_are_sums(s.gp, data, f, k, out, n, val, calc);
    let (gs, hs) = column_sums(s.gp, col, k, out, col.len() as int, calc);
    let ws = calc.widened(s.w[f * k + out]);
    let best = weight_step(gs, hs, ws, params.alpha, params.lambda, calc);
    let step = calc.times(params.eta, best);
    let g = slope_sum(s.gp, data, f, k, out, n, val, calc);
    let h = curve_sum(s.gp, data, f, k, out, n, val, calc);
    let w = number(s.w[f * k + out], val, calc);
    let alpha = val(params.alpha)->0;
    let lambda = val(params.lambda)->0;
    assert forall|d: real|
        penalized(g, h, w, alpha, lambda, val(best)->0) <= #[trigger] penalized(
            g,
            h,
            w,
            alpha,
            lambda,
            d,
        ) by {
        weight_steps_minimize_the_loss(gs, hs, ws, params.alpha, params.lambda, d, val, calc);
    }
    let after = s.with_feature(col, k, out, f, params, calc);
    let dw = calc.narrowed(step);
    entry_place(data.width(), k, f, out);
    if !step.same(Wide { bits: 0 }) {
        columns_name_rows(data, f, n);
        column_rows_follow(s, data, col, k, out, dw, col.len() as int, val, calc);
        assert(after.w[f * k + out] == calc.plus_s(s.w[f * k + out], dw));
        assert(is_number(dw, val, calc));
        assert(val(step) is Some);
    } else {
        assert(after == s);
        assert(val(step) == Some(0real));
    }
    val(best)->0
}

/// The sum of the gradients of an output over the first `n` rows.
pub open spec fn output_slope<F: Fn(Op, u64, u64) -> u64>(
    gp: Seq<GradPair>,
    k: int,
    out: int,
    n: int,
    val: spec_fn(Wide) -> Option<real>,
    calc: &Calc<F>,
) -> real
    decreases n,
{
    if n <= 0 {
        0real
    } else {
        output_slope(gp, k, out, n - 1, val, calc) + number(gp[(n - 1) * k + out].grad, val, calc)
    }
}

/// The sum of the Hessians of an output over the first `n` rows.
pub open spec fn output_curve<F: Fn(Op, u64, u64) -> u64>(
    gp: Seq<GradPair>,
    k: int,
    out: int,
    n: int,
    val: spec_fn(Wide) -> Option<real>,
    calc: &Calc<F>,
) -> real
    decreases n,
{
    if n <= 0 {
        0real
    } else {
        output_curve(gp, k, out, n - 1, val, calc) + number(gp[(n - 1) * k + out].hess, val, calc)
    }
}

proof fn output_sums_are_sums<F: Fn(Op, u64, u64) -> u64>(
    gp: Seq<GradPair>,
    k: int,
    out: int,
    n: int,
    val: spec_fn(Wide) -> Option<real>,
    calc: &Calc<F>,
)
    requires
        is_exact(val, calc),
        val(output_sums(gp, k, out, n, calc).0) is Some,
        val(output_sums(gp, k, out, n, calc).1) is Some,
    ensures
        val(output_sums(gp, k, out, n, calc).0)->0 == output_slope(gp, k, out, n, val, calc),
        val(output_sums(gp, k, out, n, calc).1)->0 == output_curve(gp, k, out, n, val, calc),
    decreases n,
{
    if n > 0 {
        output_sums_are_sums(gp, k, out, n - 1, val, calc);
    }
}

/// A step of a bias goes the learning rate's part of the way to the best bias: the one that
/// no other gives a lesser loss than.
pub proof fn bias_steps_go_towards_the_best<F: Fn(Op, u64, u64) -> u64>(
    s: Fit,
    data: &DMatrix,
    k: int,
    out: int,
    params: TrainingParams,
    val: spec_fn(Wide) -> Option<real>,
    calc: &Calc<F>,
) -> (best: real)
    requires
        is_exact(val, calc),
        singles_are_exact(val, calc),
        s.fits(data, k),
        0 <= data.height(),
        0 <= out < k,
        ({
            let (g, h) = output_sums(s.gp, k, out, data.height(), calc);
            &&& val(g) is Some
            &&& val(h) is Some
            &&& val(h)->0 > 0real
            &&& !h.lt(Wide { bits: LEAST_SUM })
            &&& val(calc.over(g.negated(), h)) is Some
        }),
        is_number(
            s.with_bias(k, out, data.height(), params, calc).bias[out],
            val,
            calc,
        ),
    ensures
        ({
            let n = data.height();
            let after = s.with_bias(k, out, n, params, calc);
            let g = output_slope(s.gp, k, out, n, val, calc);
            let h = output_curve(s.gp, k, out, n, val, calc);
            &&& number(after.bias[out], val, calc) - number(s.bias[out], val, calc) == val(
                params.eta,
            )->0 * best
            &&& forall|d: real|
                penalized(g, h, 0real, 0real, 0real, best) <= #[trigger] penalized(
                    g,
                    h,
                    0real,
                    0real,
                    0real,
                    d,
                )
        }),
{
    let n = data.height();
    let (gs, hs) = output_sums(s.gp, k, out, n, calc);
    output_sums_are_sums(s.gp, k, out, n, val, calc);
    let best = bias_step(gs, hs, calc);
    let step = calc.times(params.eta, best);
    let g = output_slope(s.gp, k, out, n, val, calc);
    let h = output_curve(s.gp, k, out, n, val, calc);
    assert(best == calc.over(gs.negated(), hs));
    assert forall|d: real|
        penalized(g, h, 0real, 0real, 0real, val(best)->0) <= #[trigger] penalized(
            g,
            h,
            0real,
            0real,
            0real,
            d,
        ) by {
        bias_steps_minimize_the_loss(gs, hs, d, val, calc);
    }
    let after = s.with_bias(k, out, n, params, calc);
    let db = calc.narrowed(step);
    if !step.same(Wide { bits: 0 }) {
        bias_rows_follow(s, data, k, out, db, n, val, calc);
        assert(after.bias[out] == calc.plus_s(s.bias[out], db));
        assert(is_number(db, val, calc));
        assert(val(step) is Some);
    } else {
        assert(after == s);
        assert(val(step) == Some(0real));
    }
    val(best)->0
}

} // verus!
