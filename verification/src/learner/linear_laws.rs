//! What linear models promise.

use vstd::prelude::*;

use crate::arith::{Calc, Op};
use crate::booster::gblinear::{fit_after, nonzero_column, Fit};
use crate::config::TrainingParams;
use crate::data::dmatrix::DMatrix;
use crate::exact::{adds_exactly, singles_add};
use crate::layout::entry_place;
use crate::learner::additivity::{all_stand, sum_of};
use crate::learner::alike::{alike, cells_are_alike};
use crate::learner::boost::gradients_at;
use crate::learner::contribs::{base_row, row_contribs};
use crate::learner::model::{dot, BoostedModel};
use crate::number::{Single, Wide};
use crate::objective::base::Objective;

verus! {

proof fn columns_stay(da: &DMatrix, db: &DMatrix, f: int, n: int)
    requires
        alike(da, db),
    ensures
        nonzero_column(da, f, n) == nonzero_column(db, f, n),
    decreases n,
{
    if n > 0 {
        columns_stay(da, db, f, n - 1);
        cells_are_alike(da, db, n - 1, f);
    }
}

proof fn features_stay<F: Fn(Op, u64, u64) -> u64>(
    s: Fit,
    params: TrainingParams,
    da: &DMatrix,
    db: &DMatrix,
    k: int,
    out: int,
    n: int,
    calc: &Calc<F>,
)
    requires
        alike(da, db),
    ensures
        s.with_features(da, k, out, n, params, calc) == s.with_features(
            db,
            k,
            out,
            n,
            params,
            calc,
        ),
    decreases n,
{
    if n > 0 {
        features_stay(s, params, da, db, k, out, n - 1, calc);
        columns_stay(da, db, n - 1, da.height());
    }
}

proof fn outputs_stay<F: Fn(Op, u64, u64) -> u64>(
    s: Fit,
    params: TrainingParams,
    da: &DMatrix,
    db: &DMatrix,
    k: int,
    n: int,
    calc: &Calc<F>,
)
    requires
        alike(da, db),
    ensures
        s.with_outputs(da, k, n, params, calc) == s.with_outputs(db, k, n, params, calc),
    decreases n,
{
    if n > 0 {
        outputs_stay(s, params, da, db, k, n - 1, calc);
        let t = s.with_outputs(da, k, n - 1, params, calc).with_bias(
            k,
            n - 1,
            da.height(),
            params,
            calc,
        );
        features_stay(t, params, da, db, k, n - 1, da.width(), calc);
    }
}

/// Two fits of a linear model under the same parameters on datasets that are
/// alike lead to the same model, round by round.
pub proof fn linear_fits_are_reproducible<F: Fn(Op, u64, u64) -> u64, O: Objective<F>>(
    params: TrainingParams,
    da: &DMatrix,
    db: &DMatrix,
    o: &O,
    base: Single,
    k: int,
    rounds: int,
    calc: &Calc<F>,
)
    requires
        alike(da, db),
    ensures
        fit_after(params, da, o, base, k, rounds, calc) == fit_after(
            params,
            db,
            o,
            base,
            k,
            rounds,
            calc,
        ),
    decreases rounds,
{
    if rounds > 0 {
        linear_fits_are_reproducible(params, da, db, o, base, k, rounds - 1, calc);
        let s = fit_after(params, da, o, base, k, rounds - 1, calc);
        let gp = gradients_at(o, da, s.margin, calc);
        assert(gp == gradients_at(o, db, s.margin, calc));
        outputs_stay(Fit { gp, ..s }, params, da, db, k, k, calc);
    }
}

proof fn dots_add_up<F: Fn(Op, u64, u64) -> u64>(
    model: &BoostedModel,
    data: &DMatrix,
    row: int,
    c: int,
    from: Single,
    n: int,
    val: spec_fn(Wide) -> Option<real>,
    calc: &Calc<F>,
)
    requires
        singles_add(val, calc),
        val(Wide { bits: 0 }) == Some(0real),
        model.linear_part() is Some,
        0 <= c < model.outputs(),
        0 <= n <= model.width(),
    ensures
        ({
            let width = model.width() + 1;
            let x = calc.widened(
                dot(
                    model.linear_part()->0.coefficients(),
                    data,
                    row,
                    c,
                    model.outputs(),
                    from,
                    n,
                    calc,
                ),
            );
            val(x) is Some ==> val(calc.widened(from)) is Some && val(x)->0 == val(
                calc.widened(from),
            )->0 + sum_of(base_row(model, data, row, calc), c * width, n, val)
        }),
    decreases n,
{
    if n > 0 {
        dots_add_up(model, data, row, c, from, n - 1, val, calc);
        entry_place(model.outputs(), model.width() + 1, c, n - 1);
    }
}

/// In an arithmetic that does not round sums, the contributions of a row to an
/// output of a linear model, that of the bias among them, add up to the row's
/// margin.
pub proof fn linear_contributions_add_up<F: Fn(Op, u64, u64) -> u64>(
    model: &BoostedModel,
    data: &DMatrix,
    row: int,
    c: int,
    val: spec_fn(Wide) -> Option<real>,
    calc: &Calc<F>,
)
    requires
        adds_exactly(val, calc),
        singles_add(val, calc),
        model.linear_part() is Some,
        model.tree_list().len() == 0,
        data.margin_list() is None,
        0 <= model.width(),
        0 <= row < data.height(),
        0 <= c < model.outputs(),
        all_stand(
            row_contribs(model, data, row, calc),
            c * (model.width() + 1),
            model.width() + 1,
            val,
        ),
        val(calc.widened(model.margins(data, 0, calc)[row * model.outputs() + c])) is Some,
    ensures
        sum_of(
            row_contribs(model, data, row, calc),
            c * (model.width() + 1),
            model.width() + 1,
            val,
        ) == val(calc.widened(model.margins(data, 0, calc)[row * model.outputs() + c]))->0,
{
    let k = model.outputs();
    let nf = model.width();
    let width = nf + 1;
    let l = model.linear_part()->0;
    let start = base_row(model, data, row, calc);
    assert(row_contribs(model, data, row, calc) == start);
    entry_place(data.height(), k, row, c);
    entry_place(k, width, c, nf);
    let from = calc.plus_s(model.base(), l.biases()[c]);
    dots_add_up(model, data, row, c, from, nf, val, calc);
    assert(start[c * width + nf] == calc.plus(
        calc.widened(l.biases()[c]),
        calc.widened(model.base()),
    ));
    assert(val(start[c * width + nf]) is Some);
}

} // verus!
