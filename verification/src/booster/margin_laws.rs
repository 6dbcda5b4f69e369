//! Margins follow weights: in arithmetics that do not round, the margins of a linear model
//! as it is being fit are those that its weights and biases give.

use vstd::prelude::*;

use crate::arith::{Calc, Op};
use crate::booster::descent_laws::cell_value;
use crate::booster::gblinear::{
    bias_step, column_sums, fit_after, fit_start, nonzero_column, output_sums, weight_step, Fit,
};
use crate::config::TrainingParams;
use crate::data::dmatrix::DMatrix;
use crate::exact::{gather, singles_are_exact, swap, vanish};
use crate::layout::entry_place;
use crate::learner::boost::gradients_at;
use crate::learner::ensemble_laws::{feature_total, linear_margins_are_sums};
use crate::learner::margin::start_margins;
use crate::learner::model::dot;
use crate::learner::train::{is_linear_trained, TrainResult};
use crate::learner::watch::EvalSet;
use crate::metric::base::Metric;
use crate::number::{Single, Wide};
use crate::objective::base::Objective;
use crate::objective::create::outputs_named;
use crate::objective::loss_laws::{is_number, number};

verus! {

/// The sum over the first `n` features of a row's values times their weights in an output.
pub open spec fn weighted_cells<F: Fn(Op, u64, u64) -> u64>(
    w: Seq<Single>,
    data: &DMatrix,
    r: int,
    c: int,
    k: int,
    n: int,
    val: spec_fn(Wide) -> Option<real>,
    calc: &Calc<F>,
) -> real
    decreases n,
{
    if n <= 0 {
        0real
    } else {
        weighted_cells(w, data, r, c, k, n - 1, val, calc) + number(
            w[(n - 1) * k + c],
            val,
            calc,
        ) * cell_value(data, r, n - 1, val, calc)
    }
}

/// Whether the weights and the bias of an output stand for numbers.
pub open spec fn output_stands<F: Fn(Op, u64, u64) -> u64>(
    s: Fit,
    data: &DMatrix,
    c: int,
    k: int,
    val: spec_fn(Wide) -> Option<real>,
    calc: &Calc<F>,
) -> bool {
    &&& is_number(s.bias[c], val, calc)
    &&& forall|f: int|
        0 <= f < data.width() ==> is_number(#[trigger] s.w[f * k + c], val, calc)
}

/// Whether a margin is what the weights and the bias of its output give, on top of the base
/// score, as long as all of them stand for numbers.
pub open spec fn margin_adds_up<F: Fn(Op, u64, u64) -> u64>(
    s: Fit,
    data: &DMatrix,
    base: Single,
    r: int,
    c: int,
    k: int,
    val: spec_fn(Wide) -> Option<real>,
    calc: &Calc<F>,
) -> bool {
    is_number(s.margin[r * k + c], val, calc) && output_stands(s, data, c, k, val, calc) ==> number(
        s.margin[r * k + c],
        val,
        calc,
    ) == number(base, val, calc) + number(s.bias[c], val, calc) + weighted_cells(
        s.w,
        data,
        r,
        c,
        k,
        data.width(),
        val,
        calc,
    )
}

/// Whether every margin adds up.
pub open spec fn margins_add_up<F: Fn(Op, u64, u64) -> u64>(
    s: Fit,
    data: &DMatrix,
    base: Single,
    k: int,
    val: spec_fn(Wide) -> Option<real>,
    calc: &Calc<F>,
) -> bool {
    forall|r: int, c: int|
        0 <= r < data.height() && 0 <= c < k ==> #[trigger] margin_adds_up(
            s,
            data,
            base,
            r,
            c,
            k,
            val,
            calc,
        )
}

proof fn nothing_weighs<F: Fn(Op, u64, u64) -> u64>(
    w: Seq<Single>,
    data: &DMatrix,
    r: int,
    c: int,
    k: int,
    n: int,
    val: spec_fn(Wide) -> Option<real>,
    calc: &Calc<F>,
)
    requires
        singles_are_exact(val, calc),
        0 <= c < k,
        0 <= n <= data.width(),
        w.len() == data.width() * k,
        forall|i: int| 0 <= i < w.len() ==> #[trigger] w[i] == (Single { bits: 0 }),
    ensures
        weighted_cells(w, data, r, c, k, n, val, calc) == 0real,
    decreases n,
{
    if n > 0 {
        nothing_weighs(w, data, r, c, k, n - 1, val, calc);
        entry_place(data.width(), k, n - 1, c);
        vanish(cell_value(data, r, n - 1, val, calc));
    }
}

proof fn one_weight_moves<F: Fn(Op, u64, u64) -> u64>(
    w: Seq<Single>,
    v: Single,
    data: &DMatrix,
    f: int,
    out: int,
    r: int,
    c: int,
    k: int,
    n: int,
    val: spec_fn(Wide) -> Option<real>,
    calc: &Calc<F>,
)
    requires
        0 <= c < k,
        0 <= out < k,
        0 <= f < data.width(),
        0 <= n <= data.width(),
        w.len() == data.width() * k,
    ensures
        weighted_cells(w.update(f * k + out, v), data, r, c, k, n, val, calc) == weighted_cells(
            w,
            data,
            r,
            c,
            k,
            n,
            val,
            calc,
        ) + if c == out && f < n {
            (number(v, val, calc) - number(w[f * k + out], val, calc)) * cell_value(
                data,
                r,
                f,
                val,
                calc,
            )
        } else {
            0real
        },
    decreases n,
{
    if n > 0 {
        one_weight_moves(w, v, data, f, out, r, c, k, n - 1, val, calc);
        entry_place(data.width(), k, n - 1, c);
        entry_place(data.width(), k, f, out);
        gather(
            number(v, val, calc),
            number(w[f * k + out], val, calc),
            cell_value(data, r, f, val, calc),
        );
    }
}

proof fn columns_list_values(data: &DMatrix, f: int, n: int)
    requires
        0 <= n <= u32::MAX,
    ensures
        ({
            let col = nonzero_column(data, f, n);
            &&& forall|j: int|
                0 <= j < col.len() ==> {
                    &&& (#[trigger] col[j]).0 < n
                    &&& data.cell(col[j].0 as int, f) == Some(col[j].1)
                    &&& !col[j].1.same(Single { bits: 0 })
                }
            &&& forall|i: int, j: int|
                0 <= i < j < col.len() ==> (#[trigger] col[i]).0 < (#[trigger] col[j]).0
            &&& forall|r: int|
                0 <= r < n && (forall|j: int| 0 <= j < col.len() ==> (#[trigger] col[j]).0 != r)
                    ==> match #[trigger] data.cell(r, f) {
                    Some(x) => x.same(Single { bits: 0 }),
                    None => true,
                }
        }),
    decreases n,
{
    if n > 0 {
        columns_list_values(data, f, n - 1);
        let rest = nonzero_column(data, f, n - 1);
        let col = nonzero_column(data, f, n);
        assert forall|j: int| 0 <= j < col.len() implies {
            &&& (#[trigger] col[j]).0 < n
            &&& data.cell(col[j].0 as int, f) == Some(col[j].1)
            &&& !col[j].1.same(Single { bits: 0 })
        } by {
            if j < rest.len() {
                assert(col[j] == rest[j]);
            }
        }
        assert forall|i: int, j: int| 0 <= i < j < col.len() implies (#[trigger] col[i]).0
            < (#[trigger] col[j]).0 by {
            assert(col[i] == rest[i]);
            if j < rest.len() {
                assert(col[j] == rest[j]);
            }
        }
        assert forall|r: int|
            0 <= r < n && (forall|j: int| 0 <= j < col.len() ==> (#[trigger] col[j]).0
                != r) implies match #[trigger] data.cell(r, f) {
            Some(x) => x.same(Single { bits: 0 }),
            None => true,
        } by {
            assert forall|j: int| 0 <= j < rest.len() implies (#[trigger] rest[j]).0 != r by {
                assert(col[j] == rest[j]);
            }
            if r == n - 1 && col.len() > rest.len() {
                assert(col[rest.len() as int].0 == r);
            }
        }
    }
}

proof fn bias_rows_move<F: Fn(Op, u64, u64) -> u64>(
    s: Fit,
    data: &DMatrix,
    k: int,
    out: int,
    db: Single,
    n: int,
    calc: &Calc<F>,
)
    requires
        s.fits(data, k),
        0 <= out < k,
        0 <= n <= data.height(),
    ensures
        ({
            let b = s.with_bias_rows(k, out, db, n, calc);
            &&& b.fits(data, k)
            &&& b.w == s.w
            &&& b.bias == s.bias
            &&& forall|r: int, c: int|
                0 <= r < data.height() && 0 <= c < k ==> #[trigger] b.margin[r * k + c] == if c
                    == out && r < n {
                    calc.plus_s(s.margin[r * k + c], db)
                } else {
                    s.margin[r * k + c]
                }
        }),
    decreases n,
{
    if n > 0 {
        bias_rows_move(s, data, k, out, db, n - 1, calc);
        let a = s.with_bias_rows(k, out, db, n - 1, calc);
        let b = s.with_bias_rows(k, out, db, n, calc);
        entry_place(data.height(), k, n - 1, out);
        assert forall|r: int, c: int|
            0 <= r < data.height() && 0 <= c < k implies #[trigger] b.margin[r * k + c] == if c
            == out && r < n {
            calc.plus_s(s.margin[r * k + c], db)
        } else {
            s.margin[r * k + c]
        } by {
            entry_place(data.height(), k, r, c);
            assert(a.margin[r * k + c] == a.margin[r * k + c]);
        }
    }
}

/// Where an entry of a column stands for a row, among the first `n`.
spec fn listed(col: Seq<(u32, Single)>, r: int, n: int) -> bool {
    exists|j: int| 0 <= j < n && (#[trigger] col[j]).0 == r
}

proof fn column_rows_move<F: Fn(Op, u64, u64) -> u64>(
    s: Fit,
    data: &DMatrix,
    f: int,
    col: Seq<(u32, Single)>,
    k: int,
    out: int,
    dw: Single,
    n: int,
    calc: &Calc<F>,
)
    requires
        s.fits(data, k),
        0 <= out < k,
        0 <= n <= col.len(),
        forall|j: int|
            0 <= j < col.len() ==> (#[trigger] col[j]).0 < data.height() && data.cell(
                col[j].0 as int,
                f,
            ) == Some(col[j].1),
        forall|i: int, j: int|
            0 <= i < j < col.len() ==> (#[trigger] col[i]).0 < (#[trigger] col[j]).0,
    ensures
        ({
            let b = s.with_column_rows(col, k, out, dw, n, calc);
            &&& b.fits(data, k)
            &&& b.w == s.w
            &&& b.bias == s.bias
            &&& forall|r: int, c: int|
                0 <= r < data.height() && 0 <= c < k ==> #[trigger] b.margin[r * k + c] == if c
                    == out && listed(col, r, n) {
                    calc.plus_s(s.margin[r * k + c], calc.times_s(data.cell(r, f)->0, dw))
                } else {
                    s.margin[r * k + c]
                }
        }),
    decreases n,
{
    if n > 0 {
        column_rows_move(s, data, f, col, k, out, dw, n - 1, calc);
        let a = s.with_column_rows(col, k, out, dw, n - 1, calc);
        let b = s.with_column_rows(col, k, out, dw, n, calc);
        let row = col[n - 1].0 as int;
        entry_place(data.height(), k, row, out);
        assert forall|r: int, c: int|
            0 <= r < data.height() && 0 <= c < k implies #[trigger] b.margin[r * k + c] == if c
            == out && listed(col, r, n) {
            calc.plus_s(s.margin[r * k + c], calc.times_s(data.cell(r, f)->0, dw))
        } else {
            s.margin[r * k + c]
        } by {
            entry_place(data.height(), k, r, c);
            assert(a.margin[r * k + c] == a.margin[r * k + c]);
            if listed(col, r, n - 1) {
                let j = choose|j: int| 0 <= j < n - 1 && (#[trigger] col[j]).0 == r;
                assert(col[j].0 < col[n - 1].0);
                assert(listed(col, r, n));
            }
            if r == row {
                assert(col[n - 1].0 == r);
                assert(listed(col, r, n));
            } else if listed(col, r, n) {
                let j = choose|j: int| 0 <= j < n && (#[trigger] col[j]).0 == r;
                assert(j < n - 1);
                assert(listed(col, r, n - 1));
            }
        }
    }
}

proof fn bias_steps_add_up<F: Fn(Op, u64, u64) -> u64>(
    s: Fit,
    data: &DMatrix,
    base: Single,
    k: int,
    out: int,
    params: TrainingParams,
    val: spec_fn(Wide) -> Option<real>,
    calc: &Calc<F>,
)
    requires
        singles_are_exact(val, calc),
        s.fits(data, k),
        0 <= data.height(),
        0 <= out < k,
        margins_add_up(s, data, base, k, val, calc),
    ensures
        s.with_bias(k, out, data.height(), params, calc).fits(data, k),
        margins_add_up(
            s.with_bias(k, out, data.height(), params, calc),
            data,
            base,
            k,
            val,
            calc,
        ),
{
    let n = data.height();
    let (g, h) = output_sums(s.gp, k, out, n, calc);
    let step = calc.times(params.eta, bias_step(g, h, calc));
    if !step.same(Wide { bits: 0 }) {
        let db = calc.narrowed(step);
        bias_rows_move(s, data, k, out, db, n, calc);
        let b = s.with_bias(k, out, n, params, calc);
        assert forall|r: int, c: int| 0 <= r < n && 0 <= c < k implies #[trigger] margin_adds_up(
            b,
            data,
            base,
            r,
            c,
            k,
            val,
            calc,
        ) by {
            assert(margin_adds_up(s, data, base, r, c, k, val, calc));
            let rows = s.with_bias_rows(k, out, db, n, calc);
            assert(rows.margin[r * k + c] == b.margin[r * k + c]);
            if output_stands(b, data, c, k, val, calc) {
                assert forall|f: int| 0 <= f < data.width() implies is_number(
                    #[trigger] s.w[f * k + c],
                    val,
                    calc,
                ) by {
                    assert(is_number(b.w[f * k + c], val, calc));
                }
            }
        }
    }
}

proof fn feature_steps_add_up<F: Fn(Op, u64, u64) -> u64>(
    s: Fit,
    data: &DMatrix,
    base: Single,
    k: int,
    out: int,
    f: int,
    params: TrainingParams,
    val: spec_fn(Wide) -> Option<real>,
    calc: &Calc<F>,
)
    requires
        singles_are_exact(val, calc),
        s.fits(data, k),
        0 <= data.height() <= u32::MAX,
        0 <= out < k,
        0 <= f < data.width(),
        margins_add_up(s, data, base, k, val, calc),
    ensures
        ({
            let col = nonzero_column(data, f, data.height());
            let b = s.with_feature(col, k, out, f, params, calc);
            b.fits(data, k) && margins_add_up(b, data, base, k, val, calc)
        }),
{
    let n = data.height();
    let col = nonzero_column(data, f, n);
    let (g, h) = column_sums(s.gp, col, k, out, col.len() as int, calc);
    let w = calc.widened(s.w[f * k + out]);
    let step = calc.times(params.eta, weight_step(g, h, w, params.alpha, params.lambda, calc));
    if !step.same(Wide { bits: 0 }) {
        let dw = calc.narrowed(step);
        columns_list_values(data, f, n);
        column_rows_move(s, data, f, col, k, out, dw, col.len() as int, calc);
        entry_place(data.width(), k, f, out);
        let b = s.with_feature(col, k, out, f, params, calc);
        let rows = s.with_column_rows(col, k, out, dw, col.len() as int, calc);
        let moved = calc.plus_s(s.w[f * k + out], dw);
        assert(b.w == s.w.update(f * k + out, moved));
        assert forall|r: int, c: int| 0 <= r < n && 0 <= c < k implies #[trigger] margin_adds_up(
            b,
            data,
            base,
            r,
            c,
            k,
            val,
            calc,
        ) by {
            assert(margin_adds_up(s, data, base, r, c, k, val, calc));
            assert(rows.margin[r * k + c] == b.margin[r * k + c]);
            one_weight_moves(s.w, moved, data, f, out, r, c, k, data.width(), val, calc);
            if is_number(b.margin[r * k + c], val, calc) && output_stands(
                b,
                data,
                c,
                k,
                val,
                calc,
            ) {
                assert forall|i: int| 0 <= i < data.width() implies is_number(
                    #[trigger] s.w[i * k + c],
                    val,
                    calc,
                ) by {
                    entry_place(data.width(), k, i, c);
                    assert(is_number(b.w[i * k + c], val, calc));
                }
                assert(output_stands(s, data, c, k, val, calc));
                if c == out {
                    assert(is_number(b.w[f * k + c], val, calc));
                    vanish(number(dw, val, calc));
                    if listed(col, r, col.len() as int) {
                        let j = choose|j: int| 0 <= j < col.len() && (#[trigger] col[j]).0 == r;
                        let x = col[j].1;
                        assert(data.cell(r, f) == Some(x));
                        assert(is_number(calc.times_s(x, dw), val, calc));
                        swap(number(x, val, calc), number(dw, val, calc));
                    } else {
                        assert(cell_value(data, r, f, val, calc) == 0real);
                    }
                }
            }
        }
    }
}

proof fn all_feature_steps_add_up<F: Fn(Op, u64, u64) -> u64>(
    s: Fit,
    data: &DMatrix,
    base: Single,
    k: int,
    out: int,
    n: int,
    params: TrainingParams,
    val: spec_fn(Wide) -> Option<real>,
    calc: &Calc<F>,
)
    requires
        singles_are_exact(val, calc),
        s.fits(data, k),
        0 <= data.height() <= u32::MAX,
        0 <= out < k,
        0 <= n <= data.width(),
        margins_add_up(s, data, base, k, val, calc),
    ensures
        s.with_features(data, k, out, n, params, calc).fits(data, k),
        margins_add_up(s.with_features(data, k, out, n, params, calc), data, base, k, val, calc),
    decreases n,
{
    if n > 0 {
        all_feature_steps_add_up(s, data, base, k, out, n - 1, params, val, calc);
        let a = s.with_features(data, k, out, n - 1, params, calc);
        feature_steps_add_up(a, data, base, k, out, n - 1, params, val, calc);
    }
}

proof fn output_steps_add_up<F: Fn(Op, u64, u64) -> u64>(
    s: Fit,
    data: &DMatrix,
    base: Single,
    k: int,
    n: int,
    params: TrainingParams,
    val: spec_fn(Wide) -> Option<real>,
    calc: &Calc<F>,
)
    requires
        singles_are_exact(val, calc),
        s.fits(data, k),
        0 <= data.height() <= u32::MAX,
        0 <= data.width(),
        0 <= n <= k,
        margins_add_up(s, data, base, k, val, calc),
    ensures
        s.with_outputs(data, k, n, params, calc).fits(data, k),
        margins_add_up(s.with_outputs(data, k, n, params, calc), data, base, k, val, calc),
    decreases n,
{
    if n > 0 {
        output_steps_add_up(s, data, base, k, n - 1, params, val, calc);
        let a = s.with_outputs(data, k, n - 1, params, calc);
        bias_steps_add_up(a, data, base, k, n - 1, params, val, calc);
        let b = a.with_bias(k, n - 1, data.height(), params, calc);
        all_feature_steps_add_up(b, data, base, k, n - 1, data.width(), params, val, calc);
    }
}

/// After any number of rounds the margins are those that the weights and the biases give,
/// on top of the base score.
pub proof fn margins_follow_weights<F: Fn(Op, u64, u64) -> u64, O: Objective<F>>(
    params: TrainingParams,
    data: &DMatrix,
    o: &O,
    base: Single,
    k: int,
    rounds: int,
    val: spec_fn(Wide) -> Option<real>,
    calc: &Calc<F>,
)
    requires
        singles_are_exact(val, calc),
        0 <= data.height() <= u32::MAX,
        0 <= data.width(),
        0 < k,
        forall|m: Seq<Single>|
            m.len() == data.height() * k ==> (#[trigger] gradients_at(o, data, m, calc)).len()
                == m.len(),
    ensures
        fit_after(params, data, o, base, k, rounds, calc).fits(data, k),
        margins_add_up(
            fit_after(params, data, o, base, k, rounds, calc),
            data,
            base,
            k,
            val,
            calc,
        ),
    decreases rounds,
{
    if rounds <= 0 {
        let s = fit_start(data, k, base);
        assert(0 <= data.height() * k && 0 <= data.width() * k) by (nonlinear_arith)
            requires
                0 <= data.height(),
                0 <= data.width(),
                0 < k,
        ;
        assert forall|r: int, c: int|
            0 <= r < data.height() && 0 <= c < k implies #[trigger] margin_adds_up(
            s,
            data,
            base,
            r,
            c,
            k,
            val,
            calc,
        ) by {
            entry_place(data.height(), k, r, c);
            nothing_weighs(s.w, data, r, c, k, data.width(), val, calc);
        }
    } else {
        margins_follow_weights(params, data, o, base, k, rounds - 1, val, calc);
        let a = fit_after(params, data, o, base, k, rounds - 1, calc);
        let graded = Fit { gp: gradients_at(o, data, a.margin, calc), ..a };
        assert(margins_add_up(graded, data, base, k, val, calc)) by {
            assert forall|r: int, c: int|
                0 <= r < data.height() && 0 <= c < k implies #[trigger] margin_adds_up(
                graded,
                data,
                base,
                r,
                c,
                k,
                val,
                calc,
            ) by {
                assert(margin_adds_up(a, data, base, r, c, k, val, calc));
                if output_stands(graded, data, c, k, val, calc) {
                    assert forall|f: int| 0 <= f < data.width() implies is_number(
                        #[trigger] a.w[f * k + c],
                        val,
                        calc,
                    ) by {
                        assert(is_number(graded.w[f * k + c], val, calc));
                    }
                }
            }
        }
        output_steps_add_up(graded, data, base, k, k, params, val, calc);
    }
}

proof fn totals_agree<F: Fn(Op, u64, u64) -> u64>(
    w: Seq<Single>,
    data: &DMatrix,
    from: Single,
    r: int,
    c: int,
    k: int,
    n: int,
    val: spec_fn(Wide) -> Option<real>,
    calc: &Calc<F>,
)
    requires
        singles_are_exact(val, calc),
        is_number(dot(w, data, r, c, k, from, n, calc), val, calc),
    ensures
        feature_total(w, data, r, c, k, n, val, calc) == weighted_cells(
            w,
            data,
            r,
            c,
            k,
            n,
            val,
            calc,
        ),
    decreases n,
{
    if n > 0 {
        let x = data.cell(r, n - 1);
        vanish(number(w[(n - 1) * k + c], val, calc));
        if let Some(x) = x {
            assert(is_number(calc.times_s(x, w[(n - 1) * k + c]), val, calc));
            assert(is_number(x, val, calc));
            let zero = Single { bits: 0 };
            assert(x.le(zero) <==> number(x, val, calc) <= 0real);
            assert(zero.le(x) <==> 0real <= number(x, val, calc));
        }
        totals_agree(w, data, from, r, c, k, n - 1, val, calc);
    }
}

/// A trained linear model predicts, for the rows that it was fit to, the margins that the
/// fit ended with.
pub proof fn linear_models_predict_their_margins<
    F: Fn(Op, u64, u64) -> u64,
    O: Objective<F>,
    M: Metric<F>,
>(
    params: TrainingParams,
    data: &DMatrix,
    o: &O,
    metrics: Seq<M>,
    evals: Seq<EvalSet>,
    num_rounds: int,
    patience: Option<usize>,
    rounds: int,
    result: TrainResult,
    r: int,
    c: int,
    val: spec_fn(Wide) -> Option<real>,
    calc: &Calc<F>,
)
    requires
        singles_are_exact(val, calc),
        is_linear_trained(
            params,
            data,
            o,
            metrics,
            evals,
            num_rounds,
            patience,
            rounds,
            result,
            calc,
        ),
        o.outputs() == outputs_named(params.objective@, params.num_class),
        data.margin_list() is None,
        0 <= data.height() <= u32::MAX,
        0 <= data.width(),
        0 <= r < data.height(),
        0 <= c < o.outputs(),
        forall|m: Seq<Single>|
            m.len() == data.height() * o.outputs() ==> (#[trigger] gradients_at(
                o,
                data,
                m,
                calc,
            )).len() == m.len(),
        ({
            let k = o.outputs();
            let s = fit_after(params, data, o, result.model.base(), k, rounds, calc);
            &&& is_number(s.margin[r * k + c], val, calc)
            &&& output_stands(s, data, c, k, val, calc)
        }),
        is_number(
            result.model.margins(data, 0, calc)[r * o.outputs() + c],
            val,
            calc,
        ),
    ensures
        ({
            let k = o.outputs();
            let s = fit_after(params, data, o, result.model.base(), k, rounds, calc);
            number(result.model.margins(data, 0, calc)[r * k + c], val, calc) == number(
                s.margin[r * k + c],
                val,
                calc,
            )
        }),
{
    let k = o.outputs();
    let base = result.model.base();
    let s = fit_after(params, data, o, base, k, rounds, calc);
    margins_follow_weights(params, data, o, base, k, rounds, val, calc);
    assert(margin_adds_up(s, data, base, r, c, k, val, calc));
    linear_margins_are_sums(s.w, s.bias, data, base, r, c, k, data.width(), val, calc);
    entry_place(data.height(), k, r, c);
    let start = start_margins(data, base, k);
    assert(start[r * k + c] == base);
    let from = calc.plus_s(start[r * k + c], s.bias[c]);
    totals_agree(s.w, data, from, r, c, k, data.width(), val, calc);
}

} // verus!
