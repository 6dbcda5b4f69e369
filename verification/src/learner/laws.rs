//! What holds of every trained model.

use vstd::prelude::*;

use crate::arith::{Calc, Op};
use crate::booster::gblinear::fit_after;
use crate::config::TrainingParams;
use crate::data::dmatrix::DMatrix;
use crate::layout::{entry_place, rows_fit_within};
use crate::learner::boost::{
    data_groups, drops_trees, labels_or_none, weights_after, weights_are_counted,
};
use crate::learner::margin::{margins_of_a_prefix, start_margins};
use crate::learner::model::{weighted_margins, BoostedModel};
use crate::learner::prepare::Prepared;
use crate::learner::train::{
    base_of, is_linear_trained, is_trained, linear_scores_after, upward, TrainResult,
};
use crate::learner::watch::{
    all_scores, dataset_scores, improves, last_value, margins_after, score_at, scores_after,
    scores_are_counted, scores_view, watch_is_sound, watched, watched_values, EvalSet,
};
use crate::metric::base::Metric;
use crate::number::{Single, ONE_S};
use crate::objective::base::Objective;
use crate::objective::create::outputs_named;

verus! {

/// Unless trees are dropped, every tree has weight one.
pub proof fn plain_trees_have_weight_one<F: Fn(Op, u64, u64) -> u64>(
    params: TrainingParams,
    k: int,
    rounds: int,
    t: int,
    calc: &Calc<F>,
)
    requires
        !drops_trees(params),
        0 <= k,
        0 <= rounds,
        0 <= t < rounds * k,
    ensures
        weights_after(params, k, rounds, calc)[t] == (Single { bits: ONE_S }),
    decreases rounds,
{
    if rounds <= 0 {
        assert(0 * k == 0) by (nonlinear_arith);
    } else {
        weights_are_counted(params, k, rounds - 1, calc);
        if t < (rounds - 1) * k {
            plain_trees_have_weight_one(params, k, rounds - 1, t, calc);
        } else {
            assert((rounds - 1) * k + k == rounds * k) by (nonlinear_arith);
        }
    }
}

/// A model without trees predicts the margins that boosting starts from: the
/// dataset's own base margins, or else the base score.
pub proof fn models_without_trees_predict_the_start<F: Fn(Op, u64, u64) -> u64>(
    model: &BoostedModel,
    data: &DMatrix,
    calc: &Calc<F>,
)
    requires
        model.tree_list().len() == 0,
        model.linear_part() is None,
    ensures
        model.margins(data, 0, calc) == start_margins(data, model.base(), model.outputs()),
{
}

/// The margins that a trained model predicts are those that its last round was
/// scored at.
pub proof fn models_predict_what_was_scored<
    F: Fn(Op, u64, u64) -> u64,
    O: Objective<F>,
    M: Metric<F>,
>(
    params: TrainingParams,
    data: &DMatrix,
    prepared: &Prepared,
    o: &O,
    metrics: Seq<M>,
    evals: Seq<EvalSet>,
    num_rounds: int,
    patience: Option<usize>,
    rounds: int,
    result: TrainResult,
    other: &DMatrix,
    calc: &Calc<F>,
)
    requires
        is_trained(
            params,
            data,
            prepared,
            o,
            metrics,
            evals,
            num_rounds,
            patience,
            rounds,
            result,
            calc,
        ),
        o.outputs() == outputs_named(params.objective@, params.num_class),
    ensures
        result.model.margins(other, 0, calc) == margins_after(
            params,
            base_of(params, data, o, calc),
            result.model.tree_list(),
            other,
            o.outputs(),
            rounds,
            calc,
        ),
{
}

/// Unless trees are dropped, the predictions of the first rounds of a trained
/// model are those that the model had after these rounds.
pub proof fn first_rounds_predict_as_they_did<
    F: Fn(Op, u64, u64) -> u64,
    O: Objective<F>,
    M: Metric<F>,
>(
    params: TrainingParams,
    data: &DMatrix,
    prepared: &Prepared,
    o: &O,
    metrics: Seq<M>,
    evals: Seq<EvalSet>,
    num_rounds: int,
    patience: Option<usize>,
    rounds: int,
    result: TrainResult,
    other: &DMatrix,
    r: int,
    calc: &Calc<F>,
)
    requires
        is_trained(
            params,
            data,
            prepared,
            o,
            metrics,
            evals,
            num_rounds,
            patience,
            rounds,
            result,
            calc,
        ),
        o.outputs() == outputs_named(params.objective@, params.num_class),
        !drops_trees(params),
        0 < r <= rounds,
    ensures
        result.model.margins(other, r, calc) == margins_after(
            params,
            base_of(params, data, o, calc),
            result.model.tree_list(),
            other,
            o.outputs(),
            r,
            calc,
        ),
{
    let k = o.outputs();
    let trees = result.model.tree_list();
    let some = weights_after(params, k, r, calc);
    let all = weights_after(params, k, rounds, calc);
    rows_fit_within(r, rounds, k);
    weights_are_counted(params, k, r, calc);
    weights_are_counted(params, k, rounds, calc);
    assert forall|t: int| 0 <= t < r * k implies #[trigger] some[t] == all[t] by {
        plain_trees_have_weight_one(params, k, r, t, calc);
        plain_trees_have_weight_one(params, k, rounds, t, calc);
    }
    margins_of_a_prefix(
        trees,
        some,
        trees,
        all,
        Seq::empty(),
        other,
        base_of(params, data, o, calc),
        k,
        r * k,
        calc,
    );
}

/// Where training stopped early, the model notes a round whose watched score no
/// other round improves on: the last score of a round, the greater the better for a metric
/// that is to be raised, the lesser the better for others.
pub proof fn the_noted_round_is_the_best<
    F: Fn(Op, u64, u64) -> u64,
    O: Objective<F>,
    M: Metric<F>,
>(
    params: TrainingParams,
    data: &DMatrix,
    prepared: &Prepared,
    o: &O,
    metrics: Seq<M>,
    evals: Seq<EvalSet>,
    num_rounds: int,
    patience: Option<usize>,
    rounds: int,
    result: TrainResult,
    r: int,
    calc: &Calc<F>,
)
    requires
        is_trained(
            params,
            data,
            prepared,
            o,
            metrics,
            evals,
            num_rounds,
            patience,
            rounds,
            result,
            calc,
        ),
        num_rounds <= usize::MAX,
        result.model.best() is Some,
        watched(watched_values(result.history@), upward(metrics), rounds).stale < rounds,
        0 <= r < rounds,
    ensures
        ({
            let values = watched_values(result.history@);
            let best = result.model.best()->0 as int;
            &&& 0 <= best < rounds
            &&& !improves(values[r], values[best], upward(metrics))
            &&& rounds - 1 - best >= patience->0
            &&& result.history@[r].scores@.len() > 0 && result.history@[best].scores@.len() > 0
                && metrics.len() > 0 ==> {
                let noted = result.history@[best].scores@.last().2;
                let other = result.history@[r].scores@.last().2;
                if metrics.last().rises() { !noted.lt(other) } else { !other.lt(noted) }
            }
        }),
{
    let values = watched_values(result.history@);
    watch_is_sound(values, upward(metrics), rounds);
    assert(!improves(values[r], watched(values, upward(metrics), rounds).best, upward(metrics)));
    let best = result.model.best()->0 as int;
    assert(values[r] == last_value(scores_view(result.history@[r].scores@)));
    assert(values[best] == last_value(scores_view(result.history@[best].scores@)));
}

proof fn dataset_scores_at<F: Fn(Op, u64, u64) -> u64, O: Objective<F>, M: Metric<F>>(
    o: &O,
    metrics: Seq<M>,
    data: &DMatrix,
    name: Seq<char>,
    margins: Seq<Single>,
    n: int,
    j: int,
    calc: &Calc<F>,
)
    requires
        0 <= j < n,
    ensures
        dataset_scores(o, metrics, data, name, margins, n, calc)[j] == (
            name,
            metrics[j].title(),
            score_at(o, &metrics[j], data, margins, calc),
        ),
    decreases n,
{
    scores_are_counted(o, metrics, data, name, margins, n - 1, calc);
    if j < n - 1 {
        dataset_scores_at(o, metrics, data, name, margins, n - 1, j, calc);
    }
}

proof fn all_scores_at<F: Fn(Op, u64, u64) -> u64, O: Objective<F>, M: Metric<F>>(
    o: &O,
    metrics: Seq<M>,
    evals: Seq<EvalSet>,
    margins: Seq<Seq<Single>>,
    n: int,
    d: int,
    j: int,
    calc: &Calc<F>,
)
    requires
        0 <= d < n,
        0 <= j < metrics.len(),
    ensures
        all_scores(o, metrics, evals, margins, n, calc).len() == n * metrics.len(),
        all_scores(o, metrics, evals, margins, n, calc)[d * metrics.len() + j] == (
            evals[d].1@,
            metrics[j].title(),
            score_at(o, &metrics[j], evals[d].0, margins[d], calc),
        ),
    decreases n,
{
    let m = metrics.len() as int;
    let last = n - 1;
    scores_are_counted(o, metrics, evals[last].0, evals[last].1@, margins[last], m, calc);
    dataset_scores_at(o, metrics, evals[last].0, evals[last].1@, margins[last], m, j, calc);
    assert((n - 1) * m + m == n * m) by (nonlinear_arith);
    if last > 0 {
        all_scores_at(
            o,
            metrics,
            evals,
            margins,
            last,
            if d < last {
                d
            } else {
                0
            },
            j,
            calc,
        );
    } else {
        assert(last * m == 0) by (nonlinear_arith)
            requires
                last == 0,
        ;
        assert(all_scores(o, metrics, evals, margins, last, calc).len() == 0);
    }
    if d < last {
        entry_place(last, m, d, j);
    }
}

/// The scores that training notes last are those of what the trained model predicts: for
/// every evaluation dataset and metric, the metric's value of the objective's predictions at
/// the model's margins, against the dataset's labels.
pub proof fn last_scores_are_of_the_predictions<
    F: Fn(Op, u64, u64) -> u64,
    O: Objective<F>,
    M: Metric<F>,
>(
    params: TrainingParams,
    data: &DMatrix,
    prepared: &Prepared,
    o: &O,
    metrics: Seq<M>,
    evals: Seq<EvalSet>,
    num_rounds: int,
    patience: Option<usize>,
    rounds: int,
    result: TrainResult,
    d: int,
    j: int,
    calc: &Calc<F>,
)
    requires
        is_trained(
            params,
            data,
            prepared,
            o,
            metrics,
            evals,
            num_rounds,
            patience,
            rounds,
            result,
            calc,
        ),
        o.outputs() == outputs_named(params.objective@, params.num_class),
        0 < rounds,
        0 <= d < evals.len(),
        0 <= j < metrics.len(),
    ensures
        ({
            let other = evals[d].0;
            let scores = scores_view(result.history@[rounds - 1].scores@);
            let value = metrics[j].value(
                o.transformed(result.model.margins(other, 0, calc), calc),
                labels_or_none(other),
                other.weight_list(),
                data_groups(other),
                calc,
            );
            scores[d * metrics.len() + j] == (evals[d].1@, metrics[j].title(), value)
        }),
{
    models_predict_what_was_scored(
        params,
        data,
        prepared,
        o,
        metrics,
        evals,
        num_rounds,
        patience,
        rounds,
        result,
        evals[d].0,
        calc,
    );
    let base = base_of(params, data, o, calc);
    let trees = result.model.tree_list();
    let k = o.outputs();
    let margins = Seq::new(
        evals.len(),
        |i: int| margins_after(params, base, trees, evals[i].0, k, rounds, calc),
    );
    assert(result.history@[rounds - 1].iteration == rounds - 1);
    assert(scores_after(params, o, base, metrics, evals, trees, k, rounds, calc) == all_scores(
        o,
        metrics,
        evals,
        margins,
        evals.len() as int,
        calc,
    ));
    all_scores_at(o, metrics, evals, margins, evals.len() as int, d, j, calc);
}

/// The scores that the fit of a linear model notes last are those of what the model
/// predicts.
pub proof fn last_linear_scores_are_of_the_predictions<
    F: Fn(Op, u64, u64) -> u64,
    O: Objective<F>,
    M: Metric<F>,
>(
    params: TrainingParams,
    data: &DMatrix,
    o: &O,
    metrics: Seq<M>,
    evals: Seq<EvalSet>,
    num_rounds: int,
    patience: Option<usize>,
    rounds: int,
    result: TrainResult,
    d: int,
    j: int,
    calc: &Calc<F>,
)
    requires
        is_linear_trained(
            params,
            data,
            o,
            metrics,
            evals,
            num_rounds,
            patience,
            rounds,
            result,
            calc,
        ),
        o.outputs() == outputs_named(params.objective@, params.num_class),
        0 < rounds,
        0 <= d < evals.len(),
        0 <= j < metrics.len(),
    ensures
        ({
            let other = evals[d].0;
            let scores = scores_view(result.history@[rounds - 1].scores@);
            let value = metrics[j].value(
                o.transformed(result.model.margins(other, 0, calc), calc),
                labels_or_none(other),
                other.weight_list(),
                data_groups(other),
                calc,
            );
            scores[d * metrics.len() + j] == (evals[d].1@, metrics[j].title(), value)
        }),
{
    let base = base_of(params, data, o, calc);
    let k = o.outputs();
    let s = fit_after(params, data, o, base, k, rounds, calc);
    let margins = Seq::new(
        evals.len(),
        |e: int| weighted_margins(s.w, s.bias, evals[e].0, base, k, data.width(), calc),
    );
    assert(result.history@[rounds - 1].iteration == rounds - 1);
    assert(linear_scores_after(params, data, o, base, metrics, evals, rounds, calc) == all_scores(
        o,
        metrics,
        evals,
        margins,
        evals.len() as int,
        calc,
    ));
    all_scores_at(o, metrics, evals, margins, evals.len() as int, d, j, calc);
}

} // verus!
