//! Cross-validation.

use vstd::prelude::*;

use crate::arith::{Calc, Op};
use crate::config::TrainingParams;
use crate::data::dmatrix::{gathered, listed_in, DMatrix};
use crate::error::SequoiaError;
use crate::learner::folds::{
    deal, fold, fold_rows_exist, folds_have_all_rows, folds_take_equal_shares, other_folds,
    other_folds_are_counted, rest_of,
};
use crate::learner::train::{
    has_objective, is_named_outcome, nameable, names_parameter, own_metric, train_with_eval,
    training_error, TrainResult,
};
use crate::learner::watch::{
    all_scores, scores_are_counted, scores_view, EvalSet, RoundEval,
};
use crate::metric::create::{base_name, metric_names, own_name, AnyMetric};
use crate::number::{Single, Wide};
use crate::objective::base::ObjectiveInfo;
use crate::objective::create::{create_objective, kind_named, objective_error, AnyObjective};
use crate::random::{drawn_order, is_permutation, shuffled_places, Random};
use crate::text::{
    is_before, precedes, precedes_is_total, precedes_is_transitive, same_text, Precision, Reader,
};

verus! {

/// The history of a metric over the rounds, across folds.
#[derive(Clone, Debug)]
pub struct CvResult {
    /// Metric name.
    pub metric: String,
    /// Mean of the metric on held-out rows, per round.
    pub test_mean: Vec<Wide>,
    /// Standard deviation of the metric on held-out rows, per round.
    pub test_std: Vec<Wide>,
}

/// The values among the first `n` scores that are under a metric, where score
/// after score is under the metric of the name that stands at its place.
pub open spec fn values_named(
    scores: Seq<(String, String, Wide)>,
    names: Seq<Seq<char>>,
    name: Seq<char>,
    n: int,
) -> Seq<Wide>
    decreases n,
{
    if n <= 0 {
        Seq::empty()
    } else {
        let rest = values_named(scores, names, name, n - 1);
        if names[n - 1] == name { rest.push(scores[n - 1].2) } else { rest }
    }
}

/// The values of a metric in round `r` of the first `n` folds.
pub open spec fn collected(
    histories: Seq<Vec<RoundEval>>,
    names: Seq<Seq<char>>,
    name: Seq<char>,
    r: int,
    n: int,
) -> Seq<Wide>
    decreases n,
{
    if n <= 0 {
        Seq::empty()
    } else {
        collected(histories, names, name, r, n - 1) + values_named(
            histories[n - 1][r].scores@,
            names,
            name,
            names.len() as int,
        )
    }
}

/// Whether a history has the given number of rounds, with as many scores each
/// as there are metrics.
pub open spec fn has_scores(history: Seq<RoundEval>, rounds: int, metrics: int) -> bool {
    &&& history.len() == rounds
    &&& forall|r: int|
        0 <= r < history.len() ==> (#[trigger] history[r]).scores.len() == metrics
}

/// The sum of the first `n` values.
pub open spec fn sum_to<F: Fn(Op, u64, u64) -> u64>(
    values: Seq<Wide>,
    n: int,
    calc: &Calc<F>,
) -> Wide
    decreases n,
{
    if n <= 0 { Wide { bits: 0 } } else { calc.plus(sum_to(values, n - 1, calc), values[n - 1]) }
}

/// The sum of the squared distances of the first `n` values from a number.
pub open spec fn spread_to<F: Fn(Op, u64, u64) -> u64>(
    values: Seq<Wide>,
    from: Wide,
    n: int,
    calc: &Calc<F>,
) -> Wide
    decreases n,
{
    if n <= 0 {
        Wide { bits: 0 }
    } else {
        let d = calc.minus(values[n - 1], from);
        calc.plus(spread_to(values, from, n - 1, calc), calc.times(d, d))
    }
}

/// What sums are divided by: the number of values, and one where there are
/// none.
pub open spec fn divisor<F: Fn(Op, u64, u64) -> u64>(values: Seq<Wide>, calc: &Calc<F>) -> Wide {
    calc.of(if values.len() == 0 { 1 } else { values.len() as int })
}

/// The mean of values.
pub open spec fn mean<F: Fn(Op, u64, u64) -> u64>(values: Seq<Wide>, calc: &Calc<F>) -> Wide {
    calc.over(sum_to(values, values.len() as int, calc), divisor(values, calc))
}

/// The standard deviation of values.
pub open spec fn deviation<F: Fn(Op, u64, u64) -> u64>(values: Seq<Wide>, calc: &Calc<F>) -> Wide {
    calc.root(
        calc.over(
            spread_to(values, mean(values, calc), values.len() as int, calc),
            divisor(values, calc),
        ),
    )
}

/// The names of results.
pub open spec fn result_names(results: Seq<CvResult>) -> Seq<Seq<char>> {
    Seq::new(results.len(), |i: int| results[i].metric@)
}

/// Whether names stand in order, none of them twice.
pub open spec fn in_name_order(names: Seq<Seq<char>>) -> bool {
    forall|i: int, j: int|
        0 <= i < j < names.len() ==> precedes(#[trigger] names[i], #[trigger] names[j])
}

/// Whether results are the means and deviations, round after round, of every
/// metric of the given names, in the order of the names.
pub open spec fn is_summary<F: Fn(Op, u64, u64) -> u64>(
    results: Seq<CvResult>,
    histories: Seq<Vec<RoundEval>>,
    names: Seq<Seq<char>>,
    rounds: int,
    calc: &Calc<F>,
) -> bool {
    let n = histories.len() as int;
    &&& in_name_order(result_names(results))
    &&& forall|name: Seq<char>| #[trigger]
        result_names(results).contains(name) <==> names.contains(name)
    &&& forall|i: int|
        0 <= i < results.len() ==> {
            &&& (#[trigger] results[i]).test_mean@ == Seq::new(
                rounds as nat,
                |r: int| mean(collected(histories, names, results[i].metric@, r, n), calc),
            )
            &&& results[i].test_std@ == Seq::new(
                rounds as nat,
                |r: int| deviation(collected(histories, names, results[i].metric@, r, n), calc),
            )
        }
}

/// The texts of a list of names.
pub open spec fn name_list(names: Seq<String>) -> Seq<Seq<char>> {
    Seq::new(names.len(), |i: int| names[i]@)
}

/// Add a name at its place, unless it is there.
fn insert_name(names: &mut Vec<String>, name: &str)
    requires
        in_name_order(name_list(old(names)@)),
    ensures
        in_name_order(name_list(final(names)@)),
        forall|s: Seq<char>| #[trigger]
            name_list(final(names)@).contains(s) <==> (name_list(old(names)@).contains(s) || s
                == name@),
{
    let ghost before = name_list(names@);
    let mut p: usize = 0;
    while p < names.len() && is_before(names[p].as_str(), name)
        invariant
            before == name_list(names@),
            p <= names.len(),
            forall|i: int| 0 <= i < p ==> precedes(#[trigger] before[i], name@),
        decreases names.len() - p,
    {
        assert(before[p as int] == names[p as int]@);
        p = p + 1;
    }
    if p < names.len() && same_text(names[p].as_str(), name) {
        assert(before[p as int] == name@);
        return ;
    }
    proof {
        if p < names.len() {
            assert(before[p as int] == names[p as int]@);
            if !precedes(name@, before[p as int]) {
                precedes_is_total(before[p as int], name@);
            }
        }
        assert forall|i: int| p <= i < before.len() implies precedes(name@, #[trigger] before[i]) by {
            if i > p {
                assert(precedes(before[p as int], before[i]));
                precedes_is_transitive(name@, before[p as int], before[i]);
            }
        }
    }
    names.insert(p, name.to_owned());
    proof {
        let after = name_list(names@);
        assert(after =~= before.insert(p as int, name@));
        assert forall|i: int, j: int| 0 <= i < j < after.len() implies precedes(
            #[trigger] after[i],
            #[trigger] after[j],
        ) by {
            if i < p && j > p {
                assert(precedes(before[i], before[j - 1]));
            } else if i < p && j < p {
                assert(precedes(before[i], before[j]));
            } else if i > p {
                assert(precedes(before[i - 1], before[j - 1]));
            } else if i == p {
                assert(precedes(name@, before[j - 1]));
            } else {
                assert(precedes(before[i], name@));
            }
        }
        assert forall|s: Seq<char>| #[trigger] after.contains(s) <==> (before.contains(s) || s
            == name@) by {
            if after.contains(s) {
                let i = choose|i: int| 0 <= i < after.len() && after[i] == s;
                if i < p {
                    assert(before[i] == s);
                } else if i > p {
                    assert(before[i - 1] == s);
                }
            }
            if before.contains(s) {
                let i = choose|i: int| 0 <= i < before.len() && before[i] == s;
                if i < p {
                    assert(after[i] == s);
                } else {
                    assert(after[i + 1] == s);
                }
            }
            if s == name@ {
                assert(after[p as int] == s);
            }
        }
    }
}

/// Names in order, each once.
fn sorted_names(names: &Vec<String>) -> (r: Vec<String>)
    ensures
        in_name_order(name_list(r@)),
        forall|s: Seq<char>| #[trigger]
            name_list(r@).contains(s) <==> name_list(names@).contains(s),
{
    let mut out: Vec<String> = Vec::new();
    let mut i: usize = 0;
    while i < names.len()
        invariant
            i <= names.len(),
            in_name_order(name_list(out@)),
            forall|s: Seq<char>| #[trigger]
                name_list(out@).contains(s) <==> name_list(names@).take(i as int).contains(s),
        decreases names.len() - i,
    {
        let ghost was = name_list(out@);
        insert_name(&mut out, names[i].as_str());
        proof {
            let all = name_list(names@);
            assert(all.take(i + 1) =~= all.take(i as int).push(all[i as int]));
            assert forall|s: Seq<char>| #[trigger]
                name_list(out@).contains(s) <==> all.take(i + 1).contains(s) by {
                assert(was.contains(s) <==> all.take(i as int).contains(s));
                if all.take(i as int).contains(s) {
                    let j = choose|j: int| 0 <= j < i && all.take(i as int)[j] == s;
                    assert(all.take(i + 1)[j] == s);
                }
                if s == all[i as int] {
                    assert(all.take(i + 1)[i as int] == s);
                }
            }
        }
        i = i + 1;
    }
    assert(name_list(names@).take(i as int) =~= name_list(names@));
    out
}

fn collect(
    histories: &Vec<Vec<RoundEval>>,
    names: &Vec<String>,
    name: &str,
    r: usize,
    rounds: Ghost<int>,
) -> (v: Vec<Wide>)
    requires
        r < rounds@,
        forall|f: int|
            0 <= f < histories.len() ==> has_scores(
                (#[trigger] histories[f])@,
                rounds@,
                names.len() as int,
            ),
    ensures
        v@ == collected(
            histories@,
            name_list(names@),
            name@,
            r as int,
            histories.len() as int,
        ),
{
    let ghost all = name_list(names@);
    let mut out: Vec<Wide> = Vec::new();
    let mut f: usize = 0;
    while f < histories.len()
        invariant
            r < rounds@,
            forall|g: int|
                0 <= g < histories.len() ==> has_scores(
                    (#[trigger] histories[g])@,
                    rounds@,
                    names.len() as int,
                ),
            all == name_list(names@),
            f <= histories.len(),
            out@ == collected(histories@, all, name@, r as int, f as int),
        decreases histories.len() - f,
    {
        assert(has_scores(histories[f as int]@, rounds@, names.len() as int));
        let scores = &histories[f][r].scores;
        let ghost before = out@;
        let mut i: usize = 0;
        assert(before + values_named(scores@, all, name@, 0) =~= before);
        while i < names.len()
            invariant
                scores.len() == names.len(),
                all == name_list(names@),
                i <= names.len(),
                out@ == before + values_named(scores@, all, name@, i as int),
            decreases names.len() - i,
        {
            assert(all[i as int] == names[i as int]@);
            if same_text(names[i].as_str(), name) {
                out.push(scores[i].2);
            }
            i = i + 1;
            assert(out@ =~= before + values_named(scores@, all, name@, i as int));
        }
        f = f + 1;
    }
    out
}

fn mean_of<F: Fn(Op, u64, u64) -> u64>(values: &Vec<Wide>, calc: &Calc<F>) -> (r: Wide)
    ensures
        r == mean(values@, calc),
{
    let mut sum = Wide::zero();
    let mut i: usize = 0;
    while i < values.len()
        invariant
            i <= values.len(),
            sum == sum_to(values@, i as int, calc),
        decreases values.len() - i,
    {
        sum = calc.add(sum, values[i]);
        i = i + 1;
    }
    let n: usize = if values.len() == 0 { 1 } else { values.len() };
    calc.div(sum, calc.of_usize(n))
}

fn deviation_of<F: Fn(Op, u64, u64) -> u64>(values: &Vec<Wide>, from: Wide, calc: &Calc<F>) -> (r:
    Wide)
    requires
        from == mean(values@, calc),
    ensures
        r == deviation(values@, calc),
{
    let mut sum = Wide::zero();
    let mut i: usize = 0;
    while i < values.len()
        invariant
            i <= values.len(),
            sum == spread_to(values@, from, i as int, calc),
        decreases values.len() - i,
    {
        let d = calc.sub(values[i], from);
        sum = calc.add(sum, calc.mul(d, d));
        i = i + 1;
    }
    let n: usize = if values.len() == 0 { 1 } else { values.len() };
    calc.sqrt(calc.div(sum, calc.of_usize(n)))
}

/// The means and deviations of every metric over the folds.
pub fn summarize<F: Fn(Op, u64, u64) -> u64>(
    histories: &Vec<Vec<RoundEval>>,
    metrics: &Vec<String>,
    rounds: usize,
    calc: &Calc<F>,
) -> (r: Vec<CvResult>)
    requires
        forall|f: int|
            0 <= f < histories.len() ==> has_scores(
                (#[trigger] histories[f])@,
                rounds as int,
                metrics.len() as int,
            ),
    ensures
        is_summary(r@, histories@, name_list(metrics@), rounds as int, calc),
{
    let names = sorted_names(metrics);
    let ghost listed = name_list(metrics@);
    let ghost all = name_list(names@);
    let ghost n = histories.len() as int;
    let mut out: Vec<CvResult> = Vec::new();
    let mut k: usize = 0;
    while k < names.len()
        invariant
            forall|f: int|
                0 <= f < histories.len() ==> has_scores(
                    (#[trigger] histories[f])@,
                    rounds as int,
                    metrics.len() as int,
                ),
            listed == name_list(metrics@),
            all == name_list(names@),
            n == histories.len(),
            k <= names.len(),
            out.len() == k,
            forall|i: int| 0 <= i < k ==> (#[trigger] out[i]).metric@ == all[i],
            forall|i: int|
                0 <= i < k ==> {
                    &&& (#[trigger] out[i]).test_mean@ == Seq::new(
                        rounds as nat,
                        |r: int| mean(collected(histories@, listed, out[i].metric@, r, n), calc),
                    )
                    &&& out[i].test_std@ == Seq::new(
                        rounds as nat,
                        |r: int| deviation(collected(histories@, listed, out[i].metric@, r, n), calc),
                    )
                },
        decreases names.len() - k,
    {
        let name = names[k].as_str();
        let mut means: Vec<Wide> = Vec::new();
        let mut stds: Vec<Wide> = Vec::new();
        let mut r: usize = 0;
        while r < rounds
            invariant
                forall|f: int|
                    0 <= f < histories.len() ==> has_scores(
                        (#[trigger] histories[f])@,
                        rounds as int,
                        metrics.len() as int,
                    ),
                listed == name_list(metrics@),
                n == histories.len(),
                r <= rounds,
                means.len() == r,
                stds.len() == r,
                forall|q: int|
                    0 <= q < r ==> #[trigger] means[q] == mean(
                        collected(histories@, listed, name@, q, n),
                        calc,
                    ),
                forall|q: int|
                    0 <= q < r ==> #[trigger] stds[q] == deviation(
                        collected(histories@, listed, name@, q, n),
                        calc,
                    ),
            decreases rounds - r,
        {
            let values = collect(histories, metrics, name, r, Ghost(rounds as int));
            let m = mean_of(&values, calc);
            means.push(m);
            stds.push(deviation_of(&values, m, calc));
            r = r + 1;
        }
        proof {
            assert(means@ =~= Seq::new(
                rounds as nat,
                |r: int| mean(collected(histories@, listed, name@, r, n), calc),
            ));
            assert(stds@ =~= Seq::new(
                rounds as nat,
                |r: int| deviation(collected(histories@, listed, name@, r, n), calc),
            ));
        }
        out.push(CvResult { metric: name.to_owned(), test_mean: means, test_std: stds });
        k = k + 1;
    }
    assert(result_names(out@) =~= all);
    out
}

/// Whether a matrix is a selection of rows of another.
pub open spec fn is_selection(m: &DMatrix, data: &DMatrix, rows: Seq<usize>) -> bool {
    &&& m.well_formed()
    &&& m.readable()
    &&& m.height() == rows.len()
    &&& m.width() == data.width()
    &&& m.sentinel().nan()
    &&& forall|i: int|
        0 <= i < rows.len() ==> #[trigger] m.stored(i) == data.entries(rows[i] as int)
    &&& m.label_list() == match data.label_list() {
        Some(l) => Some(gathered(l, rows)),
        None => None,
    }
    &&& m.weight_list() == match data.weight_list() {
        Some(w) => Some(gathered(w, rows)),
        None => None,
    }
    &&& m.margin_list() == match data.margin_list() {
        Some(b) => Some(gathered(b, rows)),
        None => None,
    }
    &&& m.group_info() is None
    &&& m.types() == data.types()
    &&& m.names() == data.names()
}

/// Whether rows can be taken from a dataset.
pub open spec fn selectable(data: &DMatrix, rows: Seq<usize>) -> bool {
    &&& 0 < rows.len() <= data.height()
    &&& forall|i: int| 0 <= i < rows.len() ==> #[trigger] rows[i] < data.height()
}

/// Whether a model can be trained on any part of a dataset while another part
/// is watched.
pub open spec fn splittable<
    F: Fn(Op, u64, u64) -> u64,
    P: Fn(Precision, &str) -> Option<u64>,
>(
    params: TrainingParams,
    data: &DMatrix,
    reader: &Reader<P>,
    calc: &Calc<F>,
) -> bool {
    &&& data.well_formed()
    &&& data.readable()
    &&& data.height() < usize::MAX
    &&& data.margin_list() matches Some(b) ==> data.height() <= b.len()
    &&& forall|rows: Seq<usize>| #[trigger]
        selectable(data, rows) ==> listed_in(data, rows, rows.len() as int) <= usize::MAX
    &&& forall|m: DMatrix, t: DMatrix, a: Seq<usize>, b: Seq<usize>, name: &str|
        #![trigger is_selection(&m, data, a), is_selection(&t, data, b), name@]
        selectable(data, a) && selectable(data, b) && is_selection(&m, data, a) && is_selection(
            &t,
            data,
            b,
        ) ==> nameable(params, &m, seq![(&t, name)], reader, calc)
}

/// Whether a history is that of training on all folds but one while that one is
/// watched.
pub open spec fn is_fold_history<
    F: Fn(Op, u64, u64) -> u64,
    P: Fn(Precision, &str) -> Option<u64>,
>(
    params: TrainingParams,
    data: &DMatrix,
    order: Seq<usize>,
    nfold: int,
    f: int,
    num_rounds: int,
    reader: &Reader<P>,
    history: Seq<RoundEval>,
    calc: &Calc<F>,
) -> bool {
    exists|m: DMatrix, t: DMatrix, o: AnyObjective, metrics: Seq<AnyMetric>, result: TrainResult|
        is_selection(&m, data, other_folds(order, nfold, f, nfold)) && is_selection(
            &t,
            data,
            fold(order, nfold, f, order.len() as int),
        ) && result.history@ == history && #[trigger] is_named_outcome(
            params,
            &m,
            o,
            metrics,
            seq![(&t, "test")],
            num_rounds,
            None,
            reader,
            result,
            calc,
        )
}

/// What the metrics that training reports are called: the listed ones, or else
/// the one of the objective that the parameters name.
pub open spec fn reported_names(params: TrainingParams) -> Seq<Seq<char>> {
    let names = metric_names(params.eval_metric@, own_metric(kind_named(params.objective@)->0));
    Seq::new(names.len(), |i: int| base_name(names[i]))
}

/// What the metrics that training reports are called.
fn list_reported<F: Fn(Op, u64, u64) -> u64>(params: &TrainingParams, calc: &Calc<F>) -> (r: Result<
    Vec<String>,
    SequoiaError,
>)
    ensures
        match r {
            Ok(names) => has_objective(*params) && name_list(names@) == reported_names(*params),
            Err(e) => !has_objective(*params) && objective_error(
                e,
                params.objective@,
                params.num_class,
            ),
        },
{
    let objective = match create_objective(params, calc) {
        Ok(o) => o,
        Err(e) => {
            return Err(e);
        },
    };
    proof {
        assert(objective.metric() == own_metric(kind_named(params.objective@)->0));
    }
    let mut names: Vec<String> = Vec::new();
    if params.eval_metric.len() == 0 {
        names.push(own_name(objective.default_metric()).to_owned());
    } else {
        let mut i: usize = 0;
        while i < params.eval_metric.len()
            invariant
                i <= params.eval_metric.len(),
                names.len() == i,
                forall|j: int|
                    0 <= j < i ==> (#[trigger] names[j])@ == base_name(params.eval_metric[j]@),
            decreases params.eval_metric.len() - i,
        {
            names.push(own_name(params.eval_metric[i].as_str()).to_owned());
            i = i + 1;
        }
    }
    assert(name_list(names@) =~= reported_names(*params));
    Ok(names)
}

/// Whether results summarize the folds of the given order.
pub open spec fn is_validation<
    F: Fn(Op, u64, u64) -> u64,
    P: Fn(Precision, &str) -> Option<u64>,
>(
    params: TrainingParams,
    data: &DMatrix,
    order: Seq<usize>,
    nfold: int,
    num_rounds: int,
    histories: Seq<Vec<RoundEval>>,
    results: Seq<CvResult>,
    reader: &Reader<P>,
    calc: &Calc<F>,
) -> bool {
    &&& is_permutation(order, data.height())
    &&& has_objective(params)
    &&& histories.len() == nfold
    &&& forall|f: int|
        0 <= f < nfold ==> is_fold_history(
            params,
            data,
            order,
            nfold,
            f,
            num_rounds,
            reader,
            (#[trigger] histories[f])@,
            calc,
        )
    &&& is_summary(results, histories, reported_names(params), num_rounds, calc)
}

/// Whether an order is the one that a seed shuffles rows into.
pub open spec fn is_drawn(order: Seq<usize>, seed: u64) -> bool {
    forall|i: int|
        0 <= i < order.len() ==> #[trigger] order[i] == drawn_order(
            seed,
            Seq::empty(),
            order.len(),
        )[i]
}

/// Whether results summarize the folds that a seed deals rows out to.
pub open spec fn is_cross_validated<
    F: Fn(Op, u64, u64) -> u64,
    P: Fn(Precision, &str) -> Option<u64>,
>(
    params: TrainingParams,
    data: &DMatrix,
    seed: u64,
    nfold: int,
    num_rounds: int,
    results: Seq<CvResult>,
    reader: &Reader<P>,
    calc: &Calc<F>,
) -> bool {
    exists|order: Seq<usize>, histories: Seq<Vec<RoundEval>>|
        is_drawn(order, seed) && #[trigger] is_validation(
            params,
            data,
            order,
            nfold,
            num_rounds,
            histories,
            results,
            reader,
            calc,
        )
}

/// Training that watches one dataset and does not stop early scores it under
/// every reported metric after every round.
pub proof fn every_round_is_scored<
    F: Fn(Op, u64, u64) -> u64,
    P: Fn(Precision, &str) -> Option<u64>,
>(
    params: TrainingParams,
    data: &DMatrix,
    watched: &DMatrix,
    o: AnyObjective,
    metrics: Seq<AnyMetric>,
    num_rounds: int,
    reader: &Reader<P>,
    result: TrainResult,
    calc: &Calc<F>,
)
    requires
        is_named_outcome(
            params,
            data,
            o,
            metrics,
            seq![(watched, "test")],
            num_rounds,
            None,
            reader,
            result,
            calc,
        ),
    ensures
        has_scores(result.history@, num_rounds, reported_names(params).len() as int),
{
    let evals = seq![(watched, "test")];
    let history = result.history@;
    assert forall|r: int| 0 <= r < history.len() implies (#[trigger] history[r]).scores.len()
        == metrics.len() by {
        let scores = scores_view(history[r].scores@);
        let n = metrics.len() as int;
        assert(exists|margins: Seq<Seq<Single>>|
            scores == #[trigger] all_scores(&o, metrics, evals, margins, 1, calc));
        let margins = choose|margins: Seq<Seq<Single>>|
            scores == #[trigger] all_scores(&o, metrics, evals, margins, 1, calc);
        assert(all_scores(&o, metrics, evals, margins, 0, calc).len() == 0);
        scores_are_counted(&o, metrics, evals[0].0, evals[0].1@, margins[0], n, calc);
    }
}

/// The history of training on all folds but one.
fn run_fold<F: Fn(Op, u64, u64) -> u64 + Sync, P: Fn(Precision, &str) -> Option<u64>>(
    params: &TrainingParams,
    data: &DMatrix,
    num_boost_round: usize,
    folds: &Vec<Vec<usize>>,
    f: usize,
    order: Ghost<Seq<usize>>,
    reader: &Reader<P>,
    calc: &Calc<F>,
) -> (r: Result<Vec<RoundEval>, SequoiaError>)
    requires
        splittable(*params, data, reader, calc),
        is_permutation(order@, data.height()),
        2 <= folds.len() <= data.height(),
        f < folds.len(),
        forall|g: int|
            0 <= g < folds.len() ==> (#[trigger] folds[g])@ == fold(
                order@,
                folds.len() as int,
                g,
                order@.len() as int,
            ),
    ensures
        match r {
            Ok(h) => {
                &&& has_scores(
                    h@,
                    num_boost_round as int,
                    reported_names(*params).len() as int,
                )
                &&& is_fold_history(
                    *params,
                    data,
                    order@,
                    folds.len() as int,
                    f as int,
                    num_boost_round as int,
                    reader,
                    h@,
                    calc,
                )
            },
            Err(e) => training_error(e, *params, data, reader),
        },
{
    let ghost nfold = folds.len() as int;
    let ghost n = order@.len() as int;
    let test_rows = &folds[f];
    let train_rows = rest_of(folds, f, order);
    proof {
        fold_rows_exist(order@, nfold, f as int, n, n);
        other_folds_are_counted(order@, nfold, f as int, nfold, n);
        folds_have_all_rows(order@, nfold, n);
        folds_take_equal_shares(order@, nfold, f as int, n);
        assert(folds[f as int]@ == fold(order@, nfold, f as int, n));
        fold_is_proper(n, nfold, f as int);
        assert(selectable(data, test_rows@));
        assert(selectable(data, train_rows@));
        assert forall|i: int| 0 <= i < train_rows.len() implies data.readable_row(
            #[trigger] train_rows[i] as int,
        ) by {
            assert(train_rows@[i] < data.height());
        }
        assert forall|i: int| 0 <= i < test_rows.len() implies data.readable_row(
            #[trigger] test_rows[i] as int,
        ) by {
            assert(test_rows@[i] < data.height());
        }
    }
    let dtrain = match data.select_rows(train_rows.as_slice()) {
        Ok(d) => d,
        Err(e) => {
            return Err(e);
        },
    };
    let dtest = match data.select_rows(test_rows.as_slice()) {
        Ok(d) => d,
        Err(e) => {
            return Err(e);
        },
    };
    let name = "test";
    let mut evals: Vec<EvalSet> = Vec::new();
    evals.push((&dtest, name));
    proof {
        assert(is_selection(&dtrain, data, train_rows@));
        assert(is_selection(&dtest, data, test_rows@));
        assert(evals@ =~= seq![(&dtest, name)]);
        assert(name@ == name@);
    }
    match train_with_eval(params, &dtrain, num_boost_round, evals.as_slice(), None, reader, calc) {
        Ok(t) => {
            proof {
                let (o, metrics) = choose|o: AnyObjective, metrics: Seq<AnyMetric>| #[trigger]
                    is_named_outcome(
                        *params,
                        &dtrain,
                        o,
                        metrics,
                        evals@,
                        num_boost_round as int,
                        None,
                        reader,
                        t,
                        calc,
                    );
                assert(is_named_outcome(
                    *params,
                    &dtrain,
                    o,
                    metrics,
                    seq![(&dtest, "test")],
                    num_boost_round as int,
                    None,
                    reader,
                    t,
                    calc,
                ));
                every_round_is_scored(
                    *params,
                    &dtrain,
                    &dtest,
                    o,
                    metrics,
                    num_boost_round as int,
                    reader,
                    t,
                    calc,
                );
            }
            Ok(t.history)
        },
        Err(e) => Err(e),
    }
}

proof fn fold_is_proper(n: int, nfold: int, f: int)
    requires
        2 <= nfold <= n,
        0 <= f < nfold,
    ensures
        0 < n / nfold + (if f < n % nfold {
            1int
        } else {
            0
        }) < n,
{
    assert(0 < n / nfold && 2 * (n / nfold) <= n) by (nonlinear_arith)
        requires
            2 <= nfold <= n,
    ;
    if n / nfold == 1 && n == 2 {
        assert(n % nfold == 0) by (nonlinear_arith)
            requires
                n == 2,
                nfold == 2,
        ;
    }
}

/// No deviation that cross-validation reports is below zero, as long as no square
/// root is.
pub proof fn deviations_are_not_negative<F: Fn(Op, u64, u64) -> u64>(
    results: Seq<CvResult>,
    histories: Seq<Vec<RoundEval>>,
    names: Seq<Seq<char>>,
    rounds: int,
    i: int,
    r: int,
    calc: &Calc<F>,
)
    requires
        is_summary(results, histories, names, rounds, calc),
        forall|x: Wide| !(#[trigger] calc.root(x)).lt(Wide { bits: 0 }),
        0 <= i < results.len(),
        0 <= r < rounds,
    ensures
        results[i].test_mean.len() == rounds,
        results[i].test_std.len() == rounds,
        !results[i].test_std[r].lt(Wide { bits: 0 }),
{
    assert(results[i].test_std@[r] == deviation(
        collected(histories, names, results[i].metric@, r, histories.len() as int),
        calc,
    ));
}

/// Cross-validate: part the rows into folds, train on all but one for the full
/// number of rounds while that one is watched, and summarize every metric over
/// the folds.
pub fn cv<F: Fn(Op, u64, u64) -> u64 + Sync, P: Fn(Precision, &str) -> Option<u64>>(
    params: &TrainingParams,
    data: &DMatrix,
    num_boost_round: usize,
    nfold: usize,
    seed: u64,
    reader: &Reader<P>,
    calc: &Calc<F>,
) -> (r: Result<Vec<CvResult>, SequoiaError>)
    requires
        splittable(*params, data, reader, calc),
    ensures
        match r {
            Ok(results) => {
                &&& 2 <= nfold <= data.height()
                &&& is_cross_validated(
                    *params,
                    data,
                    seed,
                    nfold as int,
                    num_boost_round as int,
                    results@,
                    reader,
                    calc,
                )
            },
            Err(e) => if nfold < 2 {
                names_parameter(e, "nfold"@, "must be >= 2"@)
            } else if data.height() < nfold {
                names_parameter(e, "nfold"@, "more folds than rows"@)
            } else {
                training_error(e, *params, data, reader)
            },
        },
{
    if nfold < 2 {
        return Err(SequoiaError::invalid_param("nfold", "must be >= 2".to_owned()));
    }
    let n: usize = data.n_rows();
    if n < nfold {
        return Err(SequoiaError::invalid_param("nfold", "more folds than rows".to_owned()));
    }
    let names = match list_reported(params, calc) {
        Ok(names) => names,
        Err(e) => {
            return Err(e);
        },
    };
    let mut rng = Random::from_seed(seed);
    let order = shuffled_places(&mut rng, n);
    let folds = deal(&order, nfold);
    let mut histories: Vec<Vec<RoundEval>> = Vec::new();
    let mut f: usize = 0;
    while f < nfold
        invariant
            splittable(*params, data, reader, calc),
            is_permutation(order@, data.height()),
            2 <= nfold <= data.height(),
            name_list(names@) == reported_names(*params),
            folds.len() == nfold,
            forall|g: int|
                0 <= g < nfold ==> (#[trigger] folds[g])@ == fold(
                    order@,
                    nfold as int,
                    g,
                    order@.len() as int,
                ),
            f <= nfold,
            histories.len() == f,
            forall|g: int|
                0 <= g < f ==> has_scores(
                    (#[trigger] histories[g])@,
                    num_boost_round as int,
                    names.len() as int,
                ),
            forall|g: int|
                0 <= g < f ==> is_fold_history(
                    *params,
                    data,
                    order@,
                    nfold as int,
                    g,
                    num_boost_round as int,
                    reader,
                    (#[trigger] histories[g])@,
                    calc,
                ),
        decreases nfold - f,
    {
        match run_fold(
            params,
            data,
            num_boost_round,
            &folds,
            f,
            Ghost(order@),
            reader,
            calc,
        ) {
            Ok(h) => histories.push(h),
            Err(e) => {
                return Err(e);
            },
        }
        f = f + 1;
    }
    let results = summarize(&histories, &names, num_boost_round, calc);
    proof {
        assert(is_drawn(order@, seed));
        assert(is_validation(
            *params,
            data,
            order@,
            nfold as int,
            num_boost_round as int,
            histories@,
            results@,
            reader,
            calc,
        ));
        assert(is_cross_validated(
            *params,
            data,
            seed,
            nfold as int,
            num_boost_round as int,
            results@,
            reader,
            calc,
        ));
    }
    Ok(results)
}

} // verus!
