//! Scores of evaluation datasets, and when training stops early.

use vstd::prelude::*;

use crate::arith::{Calc, Op};
use crate::config::TrainingParams;
use crate::data::dmatrix::DMatrix;
use crate::learner::boost::{data_groups, labels_or_none, weights_after, weights_are_counted};
use crate::learner::margin::{margins_of, margins_of_a_prefix};
use crate::metric::base::Metric;
use crate::number::{Single, Wide};
use crate::objective::base::Objective;
use crate::tree::regtree::RegTree;

verus! {

/// A named evaluation dataset watched during training.
pub type EvalSet<'a> = (&'a DMatrix, &'a str);

/// The metric values at the end of a boosting round.
#[derive(Clone, Debug)]
pub struct RoundEval {
    /// The boosting iteration, from zero.
    pub iteration: usize,
    /// Dataset name, metric name and value.
    pub scores: Vec<(String, String, Wide)>,
}

/// Scores, as contracts speak of them.
pub open spec fn scores_view(scores: Seq<(String, String, Wide)>) -> Seq<
    (Seq<char>, Seq<char>, Wide),
> {
    Seq::new(scores.len(), |i: int| (scores[i].0@, scores[i].1@, scores[i].2))
}

/// The value of a metric on a dataset with the given margins.
pub open spec fn score_at<F: Fn(Op, u64, u64) -> u64, O: Objective<F>, M: Metric<F>>(
    o: &O,
    metric: &M,
    data: &DMatrix,
    margins: Seq<Single>,
    calc: &Calc<F>,
) -> Wide {
    metric.value(
        o.transformed(margins, calc),
        labels_or_none(data),
        data.weight_list(),
        data_groups(data),
        calc,
    )
}

/// The scores of a dataset under the first `n` metrics.
pub open spec fn dataset_scores<F: Fn(Op, u64, u64) -> u64, O: Objective<F>, M: Metric<F>>(
    o: &O,
    metrics: Seq<M>,
    data: &DMatrix,
    name: Seq<char>,
    margins: Seq<Single>,
    n: int,
    calc: &Calc<F>,
) -> Seq<(Seq<char>, Seq<char>, Wide)>
    decreases n,
{
    if n <= 0 {
        Seq::empty()
    } else {
        dataset_scores(o, metrics, data, name, margins, n - 1, calc).push(
            (
                name,
                metrics[n - 1].title(),
                score_at(o, &metrics[n - 1], data, margins, calc),
            ),
        )
    }
}

/// The scores of the first `n` datasets under all metrics.
pub open spec fn all_scores<F: Fn(Op, u64, u64) -> u64, O: Objective<F>, M: Metric<F>>(
    o: &O,
    metrics: Seq<M>,
    evals: Seq<EvalSet>,
    margins: Seq<Seq<Single>>,
    n: int,
    calc: &Calc<F>,
) -> Seq<(Seq<char>, Seq<char>, Wide)>
    decreases n,
{
    if n <= 0 {
        Seq::empty()
    } else {
        all_scores(o, metrics, evals, margins, n - 1, calc) + dataset_scores(
            o,
            metrics,
            evals[n - 1].0,
            evals[n - 1].1@,
            margins[n - 1],
            metrics.len() as int,
            calc,
        )
    }
}

/// A dataset has a score under every metric.
pub proof fn scores_are_counted<F: Fn(Op, u64, u64) -> u64, O: Objective<F>, M: Metric<F>>(
    o: &O,
    metrics: Seq<M>,
    data: &DMatrix,
    name: Seq<char>,
    margins: Seq<Single>,
    n: int,
    calc: &Calc<F>,
)
    requires
        0 <= n,
    ensures
        dataset_scores(o, metrics, data, name, margins, n, calc).len() == n,
    decreases n,
{
    if n > 0 {
        scores_are_counted(o, metrics, data, name, margins, n - 1, calc);
    }
}

/// The margins of an evaluation dataset after the given number of rounds.
pub open spec fn margins_after<F: Fn(Op, u64, u64) -> u64>(
    params: TrainingParams,
    base: Single,
    trees: Seq<RegTree>,
    data: &DMatrix,
    k: int,
    rounds: int,
    calc: &Calc<F>,
) -> Seq<Single> {
    margins_of(
        trees,
        weights_after(params, k, rounds, calc),
        Seq::empty(),
        data,
        base,
        k,
        rounds * k,
        calc,
    )
}

/// The scores of all datasets after the given number of rounds.
pub open spec fn scores_after<F: Fn(Op, u64, u64) -> u64, O: Objective<F>, M: Metric<F>>(
    params: TrainingParams,
    o: &O,
    base: Single,
    metrics: Seq<M>,
    evals: Seq<EvalSet>,
    trees: Seq<RegTree>,
    k: int,
    rounds: int,
    calc: &Calc<F>,
) -> Seq<(Seq<char>, Seq<char>, Wide)> {
    all_scores(
        o,
        metrics,
        evals,
        Seq::new(
            evals.len(),
            |e: int| margins_after(params, base, trees, evals[e].0, k, rounds, calc),
        ),
        evals.len() as int,
        calc,
    )
}

/// The scores after some rounds do not depend on the trees of later ones.
pub proof fn scores_of_a_prefix<F: Fn(Op, u64, u64) -> u64, O: Objective<F>, M: Metric<F>>(
    params: TrainingParams,
    o: &O,
    base: Single,
    metrics: Seq<M>,
    evals: Seq<EvalSet>,
    trees: Seq<RegTree>,
    more: Seq<RegTree>,
    k: int,
    rounds: int,
    calc: &Calc<F>,
)
    requires
        0 < k,
        0 <= rounds,
        rounds * k <= trees.len() <= more.len(),
        forall|t: int| 0 <= t < trees.len() ==> #[trigger] trees[t] == more[t],
    ensures
        scores_after(params, o, base, metrics, evals, trees, k, rounds, calc) == scores_after(
            params,
            o,
            base,
            metrics,
            evals,
            more,
            k,
            rounds,
            calc,
        ),
{
    let w = weights_after(params, k, rounds, calc);
    weights_are_counted(params, k, rounds, calc);
    assert forall|e: int| 0 <= e < evals.len() implies #[trigger] margins_after(
        params,
        base,
        trees,
        evals[e].0,
        k,
        rounds,
        calc,
    ) == margins_after(params, base, more, evals[e].0, k, rounds, calc) by {
        margins_of_a_prefix(
            trees,
            w,
            more,
            w,
            Seq::empty(),
            evals[e].0,
            base,
            k,
            rounds * k,
            calc,
        );
    }
    assert(Seq::new(
        evals.len(),
        |e: int| margins_after(params, base, trees, evals[e].0, k, rounds, calc),
    ) =~= Seq::new(
        evals.len(),
        |e: int| margins_after(params, base, more, evals[e].0, k, rounds, calc),
    ));
}

/// Whether every metric can read every dataset, whatever is predicted.
pub open spec fn metrics_accept<F: Fn(Op, u64, u64) -> u64, M: Metric<F>>(
    metrics: Seq<M>,
    evals: Seq<EvalSet>,
    k: int,
) -> bool {
    forall|m: int, e: int, p: Seq<Single>|
        0 <= m < metrics.len() && 0 <= e < evals.len() && p.len() == evals[e].0.height() * k
            ==> #[trigger] metrics[m].accepts(
            p,
            labels_or_none(evals[e].0),
            evals[e].0.weight_list(),
            data_groups(evals[e].0),
        )
}

/// The value of the last score; zero where there is none.
pub open spec fn last_value(scores: Seq<(Seq<char>, Seq<char>, Wide)>) -> Wide {
    if scores.len() == 0 { Wide { bits: 0 } } else { scores.last().2 }
}

/// Score every dataset under every metric. Also gives the last score.
pub fn evaluate<F: Fn(Op, u64, u64) -> u64, O: Objective<F>, M: Metric<F>>(
    objective: &O,
    metrics: &Vec<M>,
    evals: &[EvalSet],
    margins: &Vec<Vec<Single>>,
    n_out: usize,
    calc: &Calc<F>,
) -> (r: (Vec<(String, String, Wide)>, Wide))
    requires
        objective.usable(),
        margins.len() == evals.len(),
        forall|e: int|
            0 <= e < evals.len() ==> (#[trigger] margins[e]).len() == evals[e].0.height() * n_out,
        metrics_accept(metrics@, evals@, n_out as int),
    ensures
        scores_view(r.0@) == all_scores(
            objective,
            metrics@,
            evals@,
            Seq::new(evals@.len(), |e: int| margins[e]@),
            evals.len() as int,
            calc,
        ),
        r.1 == last_value(scores_view(r.0@)),
{
    let ghost ms = Seq::new(evals@.len(), |e: int| margins[e]@);
    let mut scores: Vec<(String, String, Wide)> = Vec::new();
    let mut last = Wide::zero();
    let mut e: usize = 0;
    assert(scores_view(scores@) =~= Seq::empty());
    while e < evals.len()
        invariant
            objective.usable(),
            margins.len() == evals.len(),
            forall|i: int|
                0 <= i < evals.len() ==> (#[trigger] margins[i]).len() == evals[i].0.height()
                    * n_out,
            metrics_accept(metrics@, evals@, n_out as int),
            ms == Seq::new(evals@.len(), |i: int| margins[i]@),
            e <= evals.len(),
            scores_view(scores@) == all_scores(
                objective,
                metrics@,
                evals@,
                ms,
                e as int,
                calc,
            ),
            last == last_value(scores_view(scores@)),
        decreases evals.len() - e,
    {
        let (d, name) = evals[e];
        let mut preds = vstd::slice::slice_to_vec(margins[e].as_slice());
        assert(preds@ == ms[e as int]);
        assert(margins[e as int].len() == evals[e as int].0.height() * n_out);
        objective.pred_transform(&mut preds, calc);
        let none: Vec<Single> = Vec::new();
        assert(none@ =~= Seq::<Single>::empty());
        let labels: &[Single] = match d.labels() {
            Some(l) => l,
            None => none.as_slice(),
        };
        assert(labels@ == labels_or_none(d));
        let ghost before = scores_view(scores@);
        let mut m: usize = 0;
        assert(before + dataset_scores(
            objective,
            metrics@,
            d,
            name@,
            ms[e as int],
            0,
            calc,
        ) =~= before);
        while m < metrics.len()
            invariant
                metrics_accept(metrics@, evals@, n_out as int),
                e < evals.len(),
                evals[e as int] == (d, name),
                preds.len() == d.height() * n_out,
                preds@ == objective.transformed(ms[e as int], calc),
                labels@ == labels_or_none(d),
                m <= metrics.len(),
                scores_view(scores@) == before + dataset_scores(
                    objective,
                    metrics@,
                    d,
                    name@,
                    ms[e as int],
                    m as int,
                    calc,
                ),
                last == last_value(scores_view(scores@)),
            decreases metrics.len() - m,
        {
            assert(metrics@[m as int].accepts(
                preds@,
                labels_or_none(evals@[e as int].0),
                evals@[e as int].0.weight_list(),
                data_groups(evals@[e as int].0),
            ));
            let v = metrics[m].eval_grouped(
                preds.as_slice(),
                labels,
                d.weights(),
                d.group(),
                calc,
            );
            let ghost was = scores@;
            scores.push((name.to_owned(), metrics[m].name().to_owned(), v));
            last = v;
            proof {
                let entry = (name@, metrics@[m as int].title(), v);
                assert(scores_view(scores@) =~= scores_view(was).push(entry));
                assert(scores_view(scores@) =~= before + dataset_scores(
                    objective,
                    metrics@,
                    d,
                    name@,
                    ms[e as int],
                    m + 1,
                    calc,
                ));
            }
            m = m + 1;
        }
        e = e + 1;
    }
    (scores, last)
}

/// How the watched score has gone: its best value, the round of it, and the
/// number of rounds since.
pub struct Watch {
    /// The best value.
    pub best: Wide,
    /// The round of the best value.
    pub at: int,
    /// The number of rounds since.
    pub stale: int,
}

/// Whether a value is better than the best so far.
pub open spec fn improves(value: Wide, best: Wide, upward: bool) -> bool {
    if upward { best.lt(value) } else { value.lt(best) }
}

/// The worst value that a score can have.
pub open spec fn worst(upward: bool) -> Wide {
    if upward {
        Wide { bits: 0xfff0_0000_0000_0000 }
    } else {
        Wide { bits: 0x7ff0_0000_0000_0000 }
    }
}

/// How the watched score has gone after `n` rounds.
pub open spec fn watched(values: Seq<Wide>, upward: bool, n: int) -> Watch
    decreases n,
{
    if n <= 0 {
        Watch { best: worst(upward), at: 0, stale: 0 }
    } else {
        let w = watched(values, upward, n - 1);
        if improves(values[n - 1], w.best, upward) {
            Watch { best: values[n - 1], at: n - 1, stale: 0 }
        } else {
            Watch { stale: w.stale + 1, ..w }
        }
    }
}

/// Whether training stops after `n` rounds: the last one brought no
/// improvement, and there was none for as many rounds as patience lasts.
pub open spec fn stops_after(values: Seq<Wide>, upward: bool, patience: usize, n: int) -> bool {
    &&& n > 0
    &&& !improves(values[n - 1], watched(values, upward, n - 1).best, upward)
    &&& watched(values, upward, n).stale >= patience
}

/// The watched scores of a history.
pub open spec fn watched_values(history: Seq<RoundEval>) -> Seq<Wide> {
    Seq::new(history.len(), |r: int| last_value(scores_view(history[r].scores@)))
}

/// The watch does not depend on values of later rounds.
pub proof fn watch_of_a_prefix(values: Seq<Wide>, more: Seq<Wide>, upward: bool, n: int)
    requires
        n <= values.len() <= more.len(),
        forall|r: int| 0 <= r < n ==> #[trigger] values[r] == more[r],
    ensures
        watched(values, upward, n) == watched(more, upward, n),
    decreases n,
{
    if n > 0 {
        watch_of_a_prefix(values, more, upward, n - 1);
        assert(values[n - 1] == more[n - 1]);
    }
}

/// The watch stays within the rounds that there were, and its best value is
/// that of a round, where any round improved.
pub proof fn watch_is_sound(values: Seq<Wide>, upward: bool, n: int)
    requires
        0 <= n <= values.len(),
    ensures
        0 <= watched(values, upward, n).stale <= n,
        0 <= watched(values, upward, n).at,
        watched(values, upward, n).at < n || watched(values, upward, n).at == 0,
        watched(values, upward, n).stale < n ==> watched(values, upward, n).best
            == values[watched(values, upward, n).at],
        watched(values, upward, n).stale < n ==> watched(values, upward, n).at + watched(
            values,
            upward,
            n,
        ).stale == n - 1,
        forall|r: int|
            0 <= r < n ==> !improves(
                #[trigger] values[r],
                watched(values, upward, n).best,
                upward,
            ),
    decreases n,
{
    if n > 0 {
        watch_is_sound(values, upward, n - 1);
        let w = watched(values, upward, n - 1);
        let v = watched(values, upward, n);
        assert forall|r: int| 0 <= r < n implies !improves(
            #[trigger] values[r],
            v.best,
            upward,
        ) by {
            if r < n - 1 {
                assert(!improves(values[r], w.best, upward));
            }
        }
    }
}

} // verus!
