//! The training loop.

use vstd::prelude::*;

use crate::arith::{Calc, Op};
use crate::booster::gblinear::{fit_after, LinearFit};
use crate::config::{complaint, BoosterKind, TrainingParams};
use crate::data::dmatrix::DMatrix;
use crate::error::SequoiaError;
use crate::layout::{entry_place, rows_fit_within};
use crate::learner::boost::{
    boosted, data_groups, drop_factor, drops_in, drops_trees, fit_round, fitted, gradients_at,
    is_fit, labels_or_none, margins_in, new_weight, rescaled, rounds_keep_their_trees, rows_in,
    sampling_in, seed_of, weights_after, weights_are_counted,
};
use crate::learner::margin::{
    add_tree, init_margin, margins_fill_the_table, margins_of, margins_of_a_prefix, walkable,
    with_tree,
};
use crate::learner::model::{linear_margins, weighted_margins, BoostedModel};
use crate::learner::prepare::{
    bins_fit, exact_by_loss, growable, prepare_builder, Prepared,
};
use crate::learner::sample::{draw_drops, drop_count};
use crate::learner::watch::{
    all_scores, evaluate, margins_after, metrics_accept, scores_after, scores_of_a_prefix,
    scores_view, stops_after, watch_of_a_prefix, watched, watched_values, EvalSet, RoundEval,
};
use crate::metric::base::Metric;
use crate::metric::create::{
    create_metrics, first_unknown, metric_named, metric_names, metrics_named, AnyMetric,
};
use crate::number::{Single, Wide, ONE_S};
use crate::objective::base::{Objective, ObjectiveInfo};
use crate::objective::create::{
    create_objective, is_kind, kind_named, kinds_have_their_outputs, objective_error,
    outputs_named, too_few_classes, AnyObjective, ObjectiveKind,
};
use crate::objective::pair::GradPair;
use crate::objective::ranking::RankMode;
use crate::random::Random;
use crate::text::{Precision, Reader};
use crate::tree::regtree::RegTree;

verus! {

/// The result of training: the model, and the evaluation history.
#[derive(Debug)]
pub struct TrainResult {
    /// The trained model.
    pub model: BoostedModel,
    /// The scores of every round; empty where nothing was watched.
    pub history: Vec<RoundEval>,
}

/// The base score that training starts from: the given one or the objective's
/// own, in margin space; zero for several outputs.
pub open spec fn base_of<F: Fn(Op, u64, u64) -> u64, O: Objective<F>>(
    params: TrainingParams,
    data: &DMatrix,
    o: &O,
    calc: &Calc<F>,
) -> Single {
    if o.outputs() == 1 {
        match params.base_score {
            Some(b) => o.margin_of(calc.narrowed(b), calc),
            None => o.start(labels_or_none(data), data.weight_list(), calc),
        }
    } else {
        Single { bits: 0 }
    }
}

/// Whether evaluation datasets can be predicted by trees over `width` features.
pub open spec fn evals_fit(evals: Seq<EvalSet>, width: int, k: int) -> bool {
    forall|e: int|
        0 <= e < evals.len() ==> {
            let d = #[trigger] evals[e].0;
            &&& d.well_formed()
            &&& d.readable()
            &&& width <= d.width()
            &&& d.height() * k <= usize::MAX
        }
}

/// Whether trees are all laid out as growth lays them out.
pub open spec fn all_grown(trees: Seq<RegTree>) -> bool {
    forall|t: int| 0 <= t < trees.len() ==> (#[trigger] trees[t]).grown()
}

proof fn one_more_grown(trees: Seq<RegTree>, tree: RegTree)
    requires
        all_grown(trees),
        tree.grown(),
    ensures
        all_grown(trees.push(tree)),
{
    assert forall|t: int| 0 <= t < trees.len() + 1 implies (#[trigger] trees.push(
        tree,
    )[t]).grown() by {
        if t < trees.len() {
            assert(trees[t].grown());
        }
    }
}

/// Whether the history holds the scores after each of the rounds.
pub open spec fn is_history<F: Fn(Op, u64, u64) -> u64, O: Objective<F>, M: Metric<F>>(
    params: TrainingParams,
    o: &O,
    base: Single,
    metrics: Seq<M>,
    evals: Seq<EvalSet>,
    trees: Seq<RegTree>,
    k: int,
    history: Seq<RoundEval>,
    calc: &Calc<F>,
) -> bool {
    forall|r: int|
        0 <= r < history.len() ==> {
            &&& (#[trigger] history[r]).iteration == r
            &&& scores_view(history[r].scores@) == scores_after(
                params,
                o,
                base,
                metrics,
                evals,
                trees,
                k,
                r + 1,
                calc,
            )
        }
}

/// Whether the last metric is better when greater.
pub open spec fn upward<F: Fn(Op, u64, u64) -> u64, M: Metric<F>>(metrics: Seq<M>) -> bool {
    metrics.len() > 0 && metrics.last().rises()
}

/// Whether training stops early after `rounds` rounds.
pub open spec fn stopped(
    values: Seq<Wide>,
    up: bool,
    watching: bool,
    patience: Option<usize>,
    rounds: int,
) -> bool {
    watching && (patience matches Some(p) && stops_after(values, up, p, rounds))
}

/// Whether a result is one that training may give after `rounds` of at most
/// `num_rounds` rounds.
pub open spec fn is_trained<F: Fn(Op, u64, u64) -> u64, O: Objective<F>, M: Metric<F>>(
    params: TrainingParams,
    data: &DMatrix,
    prepared: &Prepared,
    o: &O,
    metrics: Seq<M>,
    evals: Seq<EvalSet>,
    num_rounds: int,
    patience: Option<usize>,
    rounds: int,
    result: TrainResult,
    calc: &Calc<F>,
) -> bool {
    let k = o.outputs();
    let base = base_of(params, data, o, calc);
    let trees = result.model.tree_list();
    let values = watched_values(result.history@);
    let up = upward(metrics);
    let watching = evals.len() > 0;
    &&& prepared.fits(params, data, calc)
    &&& boosted(params, data, prepared, o, base, trees, k, rounds, calc)
    &&& result.model.weight_list() == weights_after(params, k, rounds, calc)
    &&& result.model.base() == base
    &&& result.model.objective_name() == params.objective@
    &&& result.model.classes() == params.num_class
    &&& result.model.width() == data.width()
    &&& result.model.linear_part() is None
    &&& result.history.len() == if watching {
        rounds
    } else {
        0
    }
    &&& is_history(params, o, base, metrics, evals, trees, k, result.history@, calc)
    &&& 0 <= rounds <= num_rounds
    &&& rounds < num_rounds ==> stopped(values, up, watching, patience, rounds)
    &&& forall|r: int| 0 <= r < rounds ==> !#[trigger] stopped(values, up, watching, patience, r)
    &&& result.model.best() == if stopped(values, up, watching, patience, rounds) {
        Some(watched(values, up, rounds).at as usize)
    } else {
        None
    }
}

/// The margins after one more tree of weight one.
proof fn one_more_tree<F: Fn(Op, u64, u64) -> u64>(
    trees: Seq<RegTree>,
    weights: Seq<Single>,
    tree: RegTree,
    data: &DMatrix,
    base: Single,
    k: int,
    calc: &Calc<F>,
)
    requires
        trees.len() == weights.len(),
        0 < k,
    ensures
        ({
            let n = trees.len() as int;
            let one = Single { bits: ONE_S };
            margins_of(
                trees.push(tree),
                weights.push(one),
                Seq::empty(),
                data,
                base,
                k,
                n + 1,
                calc,
            ) == with_tree(
                margins_of(trees, weights, Seq::empty(), data, base, k, n, calc),
                &tree,
                one,
                data,
                n % k,
                k,
                calc,
            )
        }),
{
    let n = trees.len() as int;
    let one = Single { bits: ONE_S };
    margins_of_a_prefix(
        trees,
        weights,
        trees.push(tree),
        weights.push(one),
        Seq::empty(),
        data,
        base,
        k,
        n,
        calc,
    );
}

/// Add a tree of weight one to the margins of every dataset.
fn add_to_all<F: Fn(Op, u64, u64) -> u64>(
    margins: &mut Vec<Vec<Single>>,
    tree: &RegTree,
    evals: &[EvalSet],
    out: usize,
    n_out: usize,
    width: Ghost<int>,
    calc: &Calc<F>,
)
    requires
        old(margins).len() == evals.len(),
        evals_fit(evals@, width@, n_out as int),
        walkable(tree, width@),
        out < n_out,
        forall|e: int|
            0 <= e < evals.len() ==> (#[trigger] old(margins)[e]).len() == evals[e].0.height()
                * n_out,
    ensures
        final(margins).len() == evals.len(),
        forall|e: int|
            0 <= e < evals.len() ==> (#[trigger] final(margins)[e])@ == with_tree(
                old(margins)[e]@,
                tree,
                Single { bits: ONE_S },
                evals[e].0,
                out as int,
                n_out as int,
                calc,
            ),
{
    let mut e: usize = 0;
    while e < evals.len()
        invariant
            margins.len() == evals.len(),
            old(margins).len() == evals.len(),
            evals_fit(evals@, width@, n_out as int),
            walkable(tree, width@),
            out < n_out,
            forall|i: int|
                0 <= i < evals.len() ==> (#[trigger] old(margins)[i]).len()
                    == evals[i].0.height() * n_out,
            e <= evals.len(),
            forall|i: int|
                0 <= i < e ==> (#[trigger] margins[i])@ == with_tree(
                    old(margins)[i]@,
                    tree,
                    Single { bits: ONE_S },
                    evals[i].0,
                    out as int,
                    n_out as int,
                    calc,
                ),
            forall|i: int| e <= i < evals.len() ==> #[trigger] margins[i] == old(margins)[i],
        decreases evals.len() - e,
    {
        let d = evals[e].0;
        assert(evals@[e as int].0.well_formed());
        assert(old(margins)[e as int].len() == evals[e as int].0.height() * n_out);
        add_tree(&mut margins[e], tree, Single { bits: ONE_S }, d, out, n_out, calc);
        e = e + 1;
    }
}

/// One round that drops no trees: fit a tree per output at the margins of the
/// training data, and add them to the model and to all margins.
fn gbtree_round<F: Fn(Op, u64, u64) -> u64 + Sync, O: Objective<F>>(
    model: &mut BoostedModel,
    params: &TrainingParams,
    dtrain: &DMatrix,
    prepared: &Prepared,
    objective: &O,
    labels: &[Single],
    round: usize,
    n_out: usize,
    gpair: &mut Vec<GradPair>,
    train_margin: &mut Vec<Single>,
    evals: &[EvalSet],
    eval_margins: &mut Vec<Vec<Single>>,
    calc: &Calc<F>,
)
    requires
        !drops_trees(*params),
        growable(dtrain),
        bins_fit(*params, dtrain, calc),
        prepared.fits(*params, dtrain, calc),
        1 <= params.max_bin,
        objective.usable(),
        objective.outputs() == n_out,
        1 <= n_out,
        dtrain.label_list() == Some(labels@),
        old(gpair).len() == dtrain.height() * n_out,
        evals_fit(evals@, dtrain.width(), n_out as int),
        old(model).well_formed(),
        all_grown(old(model).tree_list()),
        old(model).width() == dtrain.width(),
        old(model).linear_part() is None,
        boosted(
            *params,
            dtrain,
            prepared,
            objective,
            old(model).base(),
            old(model).tree_list(),
            n_out as int,
            round as int,
            calc,
        ),
        old(model).weight_list() == weights_after(*params, n_out as int, round as int, calc),
        old(train_margin)@ == margins_after(
            *params,
            old(model).base(),
            old(model).tree_list(),
            dtrain,
            n_out as int,
            round as int,
            calc,
        ),
        old(train_margin).len() == dtrain.height() * n_out,
        old(eval_margins).len() == evals.len(),
        forall|e: int|
            0 <= e < evals.len() ==> (#[trigger] old(eval_margins)[e])@ == margins_after(
                *params,
                old(model).base(),
                old(model).tree_list(),
                evals[e].0,
                n_out as int,
                round as int,
                calc,
            ),
    ensures
        final(gpair).len() == old(gpair).len(),
        final(model).well_formed(),
        all_grown(final(model).tree_list()),
        final(model).width() == old(model).width(),
        final(model).base() == old(model).base(),
        final(model).objective_name() == old(model).objective_name(),
        final(model).classes() == old(model).classes(),
        final(model).best() == old(model).best(),
        final(model).linear_part() is None,
        old(model).tree_list().len() <= final(model).tree_list().len(),
        forall|t: int|
            0 <= t < old(model).tree_list().len() ==> #[trigger] old(model).tree_list()[t]
                == final(model).tree_list()[t],
        boosted(
            *params,
            dtrain,
            prepared,
            objective,
            final(model).base(),
            final(model).tree_list(),
            n_out as int,
            round + 1,
            calc,
        ),
        final(model).weight_list() == weights_after(*params, n_out as int, round + 1, calc),
        final(train_margin)@ == margins_after(
            *params,
            final(model).base(),
            final(model).tree_list(),
            dtrain,
            n_out as int,
            round + 1,
            calc,
        ),
        final(train_margin).len() == dtrain.height() * n_out,
        final(eval_margins).len() == evals.len(),
        forall|e: int|
            0 <= e < evals.len() ==> (#[trigger] final(eval_margins)[e])@ == margins_after(
                *params,
                final(model).base(),
                final(model).tree_list(),
                evals[e].0,
                n_out as int,
                round + 1,
                calc,
            ),
{
    let ghost k = n_out as int;
    let ghost r = round as int;
    let ghost base = model.base();
    let ghost t0 = model.tree_list();
    let ghost w0 = model.weight_list();
    let ghost width = dtrain.width();
    let ghost margin0 = train_margin@;
    let mut rng = Random::from_seed(
        params.seed ^ (round as u64).wrapping_mul(0x9E37_79B9),
    );
    let mut trees = fit_round(
        params,
        dtrain,
        prepared,
        objective,
        labels,
        train_margin,
        &mut rng,
        round,
        n_out,
        gpair,
        calc,
    );
    let ghost fresh = trees@;
    proof {
        weights_are_counted(*params, k, r, calc);
        assert(t0 + fresh.take(0) =~= t0);
        assert(w0 + Seq::new(0, |i: int| Single { bits: ONE_S }) =~= w0);
        assert(r * k + 0 == r * k);
        assert forall|e: int| 0 <= e < evals.len() implies (
        #[trigger] eval_margins[e]).len() == evals[e].0.height() * n_out by {
            assert(evals@[e].0.well_formed());
            evals[e].0.shape();
            rows_fit_within(0, evals[e].0.height(), k);
            margins_fill_the_table(
                t0,
                w0,
                Seq::empty(),
                evals[e].0,
                base,
                k,
                r * k,
                calc,
            );
            assert(eval_margins[e]@ == margins_after(*params, base, t0, evals[e].0, k, r, calc));
        }
    }
    let mut out: usize = 0;
    while out < n_out
        invariant
            !drops_trees(*params),
            growable(dtrain),
            k == n_out,
            r == round,
            1 <= n_out,
            width == dtrain.width(),
            evals_fit(evals@, width, k),
            w0.len() == r * k,
            t0.len() == r * k,
            out <= n_out,
            fresh.len() == n_out,
            trees@ == fresh.skip(out as int),
            forall|j: int| 0 <= j < n_out ==> walkable(#[trigger] &fresh[j], width),
            forall|j: int| 0 <= j < n_out ==> (#[trigger] fresh[j]).grown(),
            model.well_formed(),
            all_grown(model.tree_list()),
            model.width() == width,
            model.base() == base,
            model.objective_name() == old(model).objective_name(),
            model.classes() == old(model).classes(),
            model.best() == old(model).best(),
            model.linear_part() is None,
            model.tree_list() == t0 + fresh.take(out as int),
            model.weight_list() == w0 + Seq::new(out as nat, |i: int| Single { bits: ONE_S }),
            train_margin.len() == dtrain.height() * n_out,
            train_margin@ == margins_of(
                model.tree_list(),
                model.weight_list(),
                Seq::empty(),
                dtrain,
                base,
                k,
                r * k + out,
                calc,
            ),
            eval_margins.len() == evals.len(),
            forall|e: int|
                0 <= e < evals.len() ==> (#[trigger] eval_margins[e]).len()
                    == evals[e].0.height() * n_out,
            forall|e: int|
                0 <= e < evals.len() ==> (#[trigger] eval_margins[e])@ == margins_of(
                    model.tree_list(),
                    model.weight_list(),
                    Seq::empty(),
                    evals[e].0,
                    base,
                    k,
                    r * k + out,
                    calc,
                ),
        decreases n_out - out,
    {
        let ghost tl = model.tree_list();
        let ghost wl = model.weight_list();
        let ghost before = eval_margins@;
        let tree = trees.remove(0);
        proof {
            assert(tree == fresh[out as int]);
            assert(walkable(&fresh[out as int], width));
            assert(trees@ =~= fresh.skip(out + 1));
            entry_place(r + 1, k, r, out as int);
            assert(tl.len() == r * k + out);
            one_more_tree(tl, wl, tree, dtrain, base, k, calc);
            assert forall|e: int| 0 <= e < evals.len() implies margins_of(
                tl.push(tree),
                wl.push(Single { bits: ONE_S }),
                Seq::empty(),
                (#[trigger] evals[e]).0,
                base,
                k,
                r * k + out + 1,
                calc,
            ) == with_tree(
                before[e]@,
                &tree,
                Single { bits: ONE_S },
                evals[e].0,
                out as int,
                k,
                calc,
            ) by {
                one_more_tree(tl, wl, tree, evals[e].0, base, k, calc);
                assert(eval_margins[e]@ == margins_of(
                    tl,
                    wl,
                    Seq::empty(),
                    evals[e].0,
                    base,
                    k,
                    r * k + out,
                    calc,
                ));
            }
        }
        add_tree(train_margin, &tree, Single { bits: ONE_S }, dtrain, out, n_out, calc);
        add_to_all(eval_margins, &tree, evals, out, n_out, Ghost(width), calc);
        model.push_tree(tree);
        proof {
            assert(model.tree_list() =~= t0 + fresh.take(out + 1));
            assert(model.weight_list() =~= w0 + Seq::new(
                (out + 1) as nat,
                |i: int| Single { bits: ONE_S },
            ));
            assert(model.well_formed()) by {
                assert forall|t: int| 0 <= t < model.tree_list().len() implies walkable(
                    #[trigger] &model.tree_list()[t],
                    model.width(),
                ) by {
                    if t < tl.len() {
                        assert(model.tree_list()[t] == tl[t]);
                        assert(walkable(&tl[t], width));
                    }
                }
            }
            one_more_grown(tl, tree);
            assert forall|e: int| 0 <= e < evals.len() implies (#[trigger] eval_margins[e])@
                == margins_of(
                model.tree_list(),
                model.weight_list(),
                Seq::empty(),
                evals[e].0,
                base,
                k,
                r * k + out + 1,
                calc,
            ) && eval_margins[e].len() == evals[e].0.height() * n_out by {
                assert(before[e].len() == evals[e].0.height() * n_out);
                assert(evals@[e].0.well_formed());
            }
        }
        out = out + 1;
    }
    proof {
        assert(fresh.take(k) =~= fresh);
        assert((r + 1) * k == r * k + k) by (nonlinear_arith);
        let all = model.tree_list();
        let seed = seed_of(*params, r);
        assert(model.weight_list() =~= weights_after(*params, k, r + 1, calc));
        rounds_keep_their_trees(*params, dtrain, prepared, objective, base, t0, all, k, r, calc);
        margins_of_a_prefix(
            t0,
            w0,
            all,
            w0,
            Seq::empty(),
            dtrain,
            base,
            k,
            r * k,
            calc,
        );
        assert forall|q: int, j: int| 0 <= q < r + 1 && 0 <= j < k implies #[trigger] fitted(
            *params,
            dtrain,
            prepared,
            objective,
            base,
            all,
            k,
            q,
            j,
            calc,
        ) by {
            if q == r {
                assert(all[r * k + j] == fresh[j]);
                assert(is_fit(
                    prepared,
                    *params,
                    dtrain,
                    gradients_at(objective, dtrain, margin0, calc),
                    k,
                    j,
                    rows_in(*params, dtrain.height(), k, r, calc),
                    sampling_in(*params, dtrain.height(), width, k, r, j, calc),
                    &fresh[j],
                    calc,
                ));
                assert(margin0 == margins_in(*params, dtrain, base, all, k, r, calc));
            }
        }
    }
}

/// The number of trees that are dropped.
fn count_drops(drops: &Vec<bool>) -> (r: usize)
    ensures
        r == drop_count(drops@, drops.len() as int),
{
    let mut n: usize = 0;
    let mut i: usize = 0;
    while i < drops.len()
        invariant
            i <= drops.len(),
            n <= i,
            n == drop_count(drops@, i as int),
        decreases drops.len() - i,
    {
        if drops[i] {
            n = n + 1;
        }
        i = i + 1;
    }
    n
}

/// One round that drops trees: fit a tree per output at the margins of the
/// trees that are not dropped, and rebalance the weights.
fn dart_round<F: Fn(Op, u64, u64) -> u64 + Sync, O: Objective<F>>(
    model: &mut BoostedModel,
    params: &TrainingParams,
    dtrain: &DMatrix,
    prepared: &Prepared,
    objective: &O,
    labels: &[Single],
    round: usize,
    n_out: usize,
    gpair: &mut Vec<GradPair>,
    calc: &Calc<F>,
)
    requires
        drops_trees(*params),
        growable(dtrain),
        bins_fit(*params, dtrain, calc),
        prepared.fits(*params, dtrain, calc),
        1 <= params.max_bin,
        objective.usable(),
        objective.outputs() == n_out,
        1 <= n_out,
        dtrain.label_list() == Some(labels@),
        dtrain.height() * n_out <= usize::MAX,
        old(gpair).len() == dtrain.height() * n_out,
        old(model).well_formed(),
        all_grown(old(model).tree_list()),
        old(model).outputs() == n_out,
        old(model).width() == dtrain.width(),
        old(model).linear_part() is None,
        boosted(
            *params,
            dtrain,
            prepared,
            objective,
            old(model).base(),
            old(model).tree_list(),
            n_out as int,
            round as int,
            calc,
        ),
        old(model).weight_list() == weights_after(*params, n_out as int, round as int, calc),
    ensures
        final(gpair).len() == old(gpair).len(),
        final(model).well_formed(),
        all_grown(final(model).tree_list()),
        final(model).width() == old(model).width(),
        final(model).base() == old(model).base(),
        final(model).objective_name() == old(model).objective_name(),
        final(model).classes() == old(model).classes(),
        final(model).best() == old(model).best(),
        final(model).linear_part() is None,
        old(model).tree_list().len() <= final(model).tree_list().len(),
        forall|t: int|
            0 <= t < old(model).tree_list().len() ==> #[trigger] old(model).tree_list()[t]
                == final(model).tree_list()[t],
        boosted(
            *params,
            dtrain,
            prepared,
            objective,
            final(model).base(),
            final(model).tree_list(),
            n_out as int,
            round + 1,
            calc,
        ),
        final(model).weight_list() == weights_after(*params, n_out as int, round + 1, calc),
{
    let ghost k = n_out as int;
    let ghost r = round as int;
    let ghost base = model.base();
    let ghost t0 = model.tree_list();
    let ghost w0 = model.weight_list();
    let ghost width = dtrain.width();
    let mut rng = Random::from_seed(
        params.seed ^ (round as u64).wrapping_mul(0x9E37_79B9) ^ 0x0DA27,
    );
    let existing: usize = model.num_trees();
    let drops = draw_drops(params, existing, &mut rng, calc);
    let dropped: usize = count_drops(&drops);
    let margin = model.predict_margin_dropout(dtrain, drops.as_slice(), calc);
    assert(drops@ == drops_in(*params, k, r, calc));
    assert(margin@ == margins_in(*params, dtrain, base, t0, k, r, calc));
    let mut trees = fit_round(
        params,
        dtrain,
        prepared,
        objective,
        labels,
        &margin,
        &mut rng,
        round,
        n_out,
        gpair,
        calc,
    );
    let ghost fresh = trees@;
    let one = Single { bits: ONE_S };
    let kd = calc.of_usize_s(dropped);
    let weight = calc.div_s(one, calc.add_s(kd, one));
    let factor = calc.div_s(kd, calc.add_s(kd, one));
    let ghost rest = rescaled(w0, drops@, factor, calc);
    let mut out: usize = 0;
    proof {
        assert(t0 + fresh.take(0) =~= t0);
        assert(w0 + Seq::new(0, |i: int| weight) =~= w0);
    }
    while out < n_out
        invariant
            out <= n_out,
            width == dtrain.width(),
            fresh.len() == n_out,
            trees@ == fresh.skip(out as int),
            forall|j: int| 0 <= j < n_out ==> walkable(#[trigger] &fresh[j], width),
            forall|j: int| 0 <= j < n_out ==> (#[trigger] fresh[j]).grown(),
            model.well_formed(),
            all_grown(model.tree_list()),
            model.width() == width,
            model.base() == base,
            model.objective_name() == old(model).objective_name(),
            model.classes() == old(model).classes(),
            model.best() == old(model).best(),
            model.linear_part() is None,
            model.tree_list() == t0 + fresh.take(out as int),
            model.weight_list() == w0 + Seq::new(out as nat, |i: int| weight),
        decreases n_out - out,
    {
        let ghost tl = model.tree_list();
        let tree = trees.remove(0);
        proof {
            assert(tree == fresh[out as int]);
            assert(walkable(&fresh[out as int], width));
            assert(trees@ =~= fresh.skip(out + 1));
        }
        model.push_tree_weighted(tree, weight);
        proof {
            assert(model.tree_list() =~= t0 + fresh.take(out + 1));
            assert(model.weight_list() =~= w0 + Seq::new((out + 1) as nat, |i: int| weight));
            assert forall|t: int| 0 <= t < model.tree_list().len() implies walkable(
                #[trigger] &model.tree_list()[t],
                model.width(),
            ) by {
                if t < tl.len() {
                    assert(model.tree_list()[t] == tl[t]);
                    assert(walkable(&tl[t], width));
                }
            }
            one_more_grown(tl, tree);
        }
        out = out + 1;
    }
    let ghost all = model.tree_list();
    let mut i: usize = 0;
    while i < existing
        invariant
            i <= existing,
            existing == w0.len(),
            drops.len() == existing,
            rest == rescaled(w0, drops@, factor, calc),
            model.well_formed(),
            all_grown(all),
            model.width() == width,
            model.base() == base,
            model.objective_name() == old(model).objective_name(),
            model.classes() == old(model).classes(),
            model.best() == old(model).best(),
            model.linear_part() is None,
            model.tree_list() == all,
            model.weight_list().len() == w0.len() + n_out,
            forall|t: int|
                0 <= t < model.weight_list().len() ==> #[trigger] model.weight_list()[t] == (if t
                    < i {
                    rest[t]
                } else if t < w0.len() {
                    w0[t]
                } else {
                    weight
                }),
        decreases existing - i,
    {
        if drops[i] {
            model.scale_tree_weight(i, factor, calc);
        }
        i = i + 1;
    }
    proof {
        weights_are_counted(*params, k, r, calc);
        assert(fresh.take(k) =~= fresh);
        assert((r + 1) * k == r * k + k) by (nonlinear_arith);
        assert(weight == new_weight(dropped as int, calc));
        assert(factor == drop_factor(dropped as int, calc));
        assert(model.weight_list() =~= weights_after(*params, k, r + 1, calc));
        rounds_keep_their_trees(*params, dtrain, prepared, objective, base, t0, all, k, r, calc);
        margins_of_a_prefix(
            t0,
            w0,
            all,
            w0,
            drops@,
            dtrain,
            base,
            k,
            r * k,
            calc,
        );
        assert forall|q: int, j: int| 0 <= q < r + 1 && 0 <= j < k implies #[trigger] fitted(
            *params,
            dtrain,
            prepared,
            objective,
            base,
            all,
            k,
            q,
            j,
            calc,
        ) by {
            if q == r {
                assert(all[r * k + j] == fresh[j]);
                assert(is_fit(
                    prepared,
                    *params,
                    dtrain,
                    gradients_at(objective, dtrain, margin@, calc),
                    k,
                    j,
                    rows_in(*params, dtrain.height(), k, r, calc),
                    sampling_in(*params, dtrain.height(), width, k, r, j, calc),
                    &fresh[j],
                    calc,
                ));
                assert(margin@ == margins_in(*params, dtrain, base, all, k, r, calc));
            }
        }
    }
}

/// The margins of every dataset under a model of `rounds` rounds.
fn predict_all<F: Fn(Op, u64, u64) -> u64>(
    model: &BoostedModel,
    params: &TrainingParams,
    evals: &[EvalSet],
    n_out: usize,
    rounds: Ghost<int>,
    calc: &Calc<F>,
) -> (r: Vec<Vec<Single>>)
    requires
        model.well_formed(),
        model.outputs() == n_out,
        model.linear_part() is None,
        evals_fit(evals@, model.width(), n_out as int),
        model.tree_list().len() == rounds@ * n_out,
        model.weight_list() == weights_after(*params, n_out as int, rounds@, calc),
    ensures
        r.len() == evals.len(),
        forall|e: int|
            0 <= e < evals.len() ==> (#[trigger] r[e])@ == margins_after(
                *params,
                model.base(),
                model.tree_list(),
                evals[e].0,
                n_out as int,
                rounds@,
                calc,
            ),
{
    let mut out: Vec<Vec<Single>> = Vec::new();
    let mut e: usize = 0;
    while e < evals.len()
        invariant
            model.well_formed(),
            model.outputs() == n_out,
            model.linear_part() is None,
            evals_fit(evals@, model.width(), n_out as int),
            model.tree_list().len() == rounds@ * n_out,
            model.weight_list() == weights_after(*params, n_out as int, rounds@, calc),
            e <= evals.len(),
            out.len() == e,
            forall|i: int|
                0 <= i < e ==> (#[trigger] out[i])@ == margins_after(
                    *params,
                    model.base(),
                    model.tree_list(),
                    evals[i].0,
                    n_out as int,
                    rounds@,
                    calc,
                ),
        decreases evals.len() - e,
    {
        let d = evals[e].0;
        assert(evals@[e as int].0.well_formed());
        out.push(model.predict_margin_limited(d, 0, calc));
        e = e + 1;
    }
    out
}

proof fn stops_of_a_prefix(
    values: Seq<Wide>,
    more: Seq<Wide>,
    up: bool,
    watching: bool,
    patience: Option<usize>,
    n: int,
)
    requires
        n <= values.len() <= more.len(),
        forall|r: int| 0 <= r < values.len() ==> #[trigger] values[r] == more[r],
    ensures
        stopped(values, up, watching, patience, n) == stopped(more, up, watching, patience, n),
        watched(values, up, n) == watched(more, up, n),
{
    watch_of_a_prefix(values, more, up, n);
    if n > 0 {
        watch_of_a_prefix(values, more, up, n - 1);
        assert(values[n - 1] == more[n - 1]);
    }
}

/// Whether a history still holds when rounds add trees.
proof fn history_of_a_prefix<F: Fn(Op, u64, u64) -> u64, O: Objective<F>, M: Metric<F>>(
    params: TrainingParams,
    o: &O,
    base: Single,
    metrics: Seq<M>,
    evals: Seq<EvalSet>,
    trees: Seq<RegTree>,
    more: Seq<RegTree>,
    k: int,
    history: Seq<RoundEval>,
    calc: &Calc<F>,
)
    requires
        is_history(params, o, base, metrics, evals, trees, k, history, calc),
        0 < k,
        history.len() * k <= trees.len() <= more.len(),
        forall|t: int| 0 <= t < trees.len() ==> #[trigger] trees[t] == more[t],
    ensures
        is_history(params, o, base, metrics, evals, more, k, history, calc),
{
    assert forall|r: int| 0 <= r < history.len() implies {
        &&& (#[trigger] history[r]).iteration == r
        &&& scores_view(history[r].scores@) == scores_after(
            params,
            o,
            base,
            metrics,
            evals,
            more,
            k,
            r + 1,
            calc,
        )
    } by {
        rows_fit_within(r + 1, history.len() as int, k);
        scores_of_a_prefix(params, o, base, metrics, evals, trees, more, k, r + 1, calc);
    }
}

/// Boost for the given number of rounds, or until the watched score stops
/// improving.
fn boost<F: Fn(Op, u64, u64) -> u64 + Sync, O: Objective<F>, M: Metric<F>>(
    params: &TrainingParams,
    dtrain: &DMatrix,
    prepared: &Prepared,
    labels: &[Single],
    num_boost_round: usize,
    evals: &[EvalSet],
    early_stopping_rounds: Option<usize>,
    objective: &O,
    metrics: &Vec<M>,
    base_margin: Single,
    calc: &Calc<F>,
) -> (r: TrainResult)
    requires
        growable(dtrain),
        bins_fit(*params, dtrain, calc),
        prepared.fits(*params, dtrain, calc),
        1 <= params.max_bin,
        objective.usable(),
        1 <= objective.outputs(),
        objective.outputs() == outputs_named(params.objective@, params.num_class),
        dtrain.label_list() == Some(labels@),
        dtrain.height() * objective.outputs() <= usize::MAX,
        base_margin == base_of(*params, dtrain, objective, calc),
        evals_fit(evals@, dtrain.width(), objective.outputs()),
        metrics_accept(metrics@, evals@, objective.outputs()),
    ensures
        r.model.well_formed(),
        r.model.laid_out(),
        exists|rounds: int| #[trigger]
            is_trained(
                *params,
                dtrain,
                prepared,
                objective,
                metrics@,
                evals@,
                num_boost_round as int,
                early_stopping_rounds,
                rounds,
                r,
                calc,
            ),
{
    let n_out: usize = objective.n_outputs();
    let n: usize = dtrain.n_rows();
    let ghost k = n_out as int;
    let ghost base = base_margin;
    let mut model = BoostedModel::new(
        base_margin,
        params.objective.clone(),
        params.num_class,
        dtrain.n_cols(),
    );
    proof {
        dtrain.shape();
        rows_fit_within(0, dtrain.height(), k);
        assert(0 * k == 0) by (nonlinear_arith);
    }
    let mut train_margin = init_margin(dtrain, base_margin, n_out);
    let mut eval_margins: Vec<Vec<Single>> = predict_all(
        &model,
        params,
        evals,
        n_out,
        Ghost(0),
        calc,
    );
    let mut gpair: Vec<GradPair> = vec![GradPair::default(); n * n_out];
    let mut history: Vec<RoundEval> = Vec::new();
    let up = if metrics.len() > 0 { metrics[metrics.len() - 1].maximize() } else { false };
    let watching = evals.len() > 0;
    let mut best_score = if up { Wide::neg_infinity() } else { Wide::infinity() };
    let mut best_iter: usize = 0;
    let mut since: usize = 0;
    let is_dart = params.booster == BoosterKind::Dart;
    let mut done = false;
    let mut round: usize = 0;
    while round < num_boost_round && !done
        invariant
            growable(dtrain),
            bins_fit(*params, dtrain, calc),
            prepared.fits(*params, dtrain, calc),
            1 <= params.max_bin,
            objective.usable(),
            objective.outputs() == n_out,
            1 <= n_out,
            k == n_out,
            dtrain.label_list() == Some(labels@),
            dtrain.height() * n_out <= usize::MAX,
            evals_fit(evals@, dtrain.width(), k),
            metrics_accept(metrics@, evals@, k),
            gpair.len() == dtrain.height() * n_out,
            up == upward(metrics@),
            watching == (evals@.len() > 0),
            is_dart == drops_trees(*params),
            round <= num_boost_round,
            model.well_formed(),
            all_grown(model.tree_list()),
            model.outputs() == n_out,
            model.width() == dtrain.width(),
            model.base() == base,
            model.objective_name() == params.objective@,
            model.classes() == params.num_class,
            model.linear_part() is None,
            boosted(
                *params,
                dtrain,
                prepared,
                objective,
                base,
                model.tree_list(),
                k,
                round as int,
                calc,
            ),
            model.weight_list() == weights_after(*params, k, round as int, calc),
            !is_dart ==> train_margin@ == margins_after(
                *params,
                base,
                model.tree_list(),
                dtrain,
                k,
                round as int,
                calc,
            ),
            train_margin.len() == dtrain.height() * n_out,
            eval_margins.len() == evals.len(),
            forall|e: int|
                0 <= e < evals.len() ==> (#[trigger] eval_margins[e])@ == margins_after(
                    *params,
                    base,
                    model.tree_list(),
                    evals[e].0,
                    k,
                    round as int,
                    calc,
                ),
            history.len() == if watching {
                round as int
            } else {
                0
            },
            is_history(
                *params,
                objective,
                base,
                metrics@,
                evals@,
                model.tree_list(),
                k,
                history@,
                calc,
            ),
            since <= round,
            watching && early_stopping_rounds is Some ==> ({
                let w = watched(watched_values(history@), up, round as int);
                w.best == best_score && w.at == best_iter && w.stale == since
            }),
            forall|q: int|
                0 <= q < round ==> !#[trigger] stopped(
                    watched_values(history@),
                    up,
                    watching,
                    early_stopping_rounds,
                    q,
                ),
            done == stopped(
                watched_values(history@),
                up,
                watching,
                early_stopping_rounds,
                round as int,
            ),
            model.best() == if done {
                Some(best_iter)
            } else {
                None
            },
        decreases num_boost_round - round,
    {
        let ghost t0 = model.tree_list();
        let ghost h0 = history@;
        let ghost v0 = watched_values(h0);
        if is_dart {
            dart_round(
                &mut model,
                params,
                dtrain,
                prepared,
                objective,
                labels,
                round,
                n_out,
                &mut gpair,
                calc,
            );
            eval_margins = predict_all(&model, params, evals, n_out, Ghost(round + 1), calc);
        } else {
            gbtree_round(
                &mut model,
                params,
                dtrain,
                prepared,
                objective,
                labels,
                round,
                n_out,
                &mut gpair,
                &mut train_margin,
                evals,
                &mut eval_margins,
                calc,
            );
        }
        let ghost t1 = model.tree_list();
        proof {
            if !watching {
                assert(0 * k == 0) by (nonlinear_arith);
            }
            history_of_a_prefix(
                *params,
                objective,
                base,
                metrics@,
                evals@,
                t0,
                t1,
                k,
                h0,
                calc,
            );
        }
        if watching {
            proof {
                assert forall|e: int| 0 <= e < evals.len() implies (
                #[trigger] eval_margins[e]).len() == evals[e].0.height() * n_out by {
                    assert(evals@[e].0.well_formed());
                    evals[e].0.shape();
                    rows_fit_within(0, evals[e].0.height(), k);
                    margins_fill_the_table(
                        t1,
                        weights_after(*params, k, round + 1, calc),
                        Seq::empty(),
                        evals[e].0,
                        base,
                        k,
                        (round + 1) * k,
                        calc,
                    );
                }
            }
            let (scores, last) = evaluate(objective, metrics, evals, &eval_margins, n_out, calc);
            proof {
                assert(Seq::new(evals@.len(), |e: int| eval_margins[e]@) =~= Seq::new(
                    evals@.len(),
                    |e: int|
                        margins_after(*params, base, t1, evals@[e].0, k, round + 1, calc),
                ));
            }
            history.push(RoundEval { iteration: round, scores });
            let ghost values = watched_values(history@);
            proof {
                assert(values.len() == round + 1);
                assert(values[round as int] == last);
                assert forall|q: int| 0 <= q < v0.len() implies #[trigger] v0[q] == values[q] by {
                    assert(history[q] == h0[q]);
                }
                assert forall|q: int| 0 <= q <= round implies !#[trigger] stopped(
                    values,
                    up,
                    watching,
                    early_stopping_rounds,
                    q,
                ) by {
                    stops_of_a_prefix(v0, values, up, watching, early_stopping_rounds, q);
                    assert(!stopped(v0, up, watching, early_stopping_rounds, q));
                }
                stops_of_a_prefix(v0, values, up, watching, early_stopping_rounds, round as int);
                assert forall|q: int| 0 <= q < history.len() implies {
                    &&& (#[trigger] history[q]).iteration == q
                    &&& scores_view(history[q].scores@) == scores_after(
                        *params,
                        objective,
                        base,
                        metrics@,
                        evals@,
                        t1,
                        k,
                        q + 1,
                        calc,
                    )
                } by {
                    if q < round {
                        assert(history[q] == h0[q]);
                    }
                }
            }
            if let Some(patience) = early_stopping_rounds {
                let improved = if up { best_score.is_lt(last) } else { last.is_lt(best_score) };
                if improved {
                    best_score = last;
                    best_iter = round;
                    since = 0;
                } else {
                    since = since + 1;
                    if since >= patience {
                        model.set_best_iteration(Some(best_iter));
                        done = true;
                    }
                }
            }
        } else {
            assert(watched_values(history@) =~= v0);
        }
        round = round + 1;
    }
    proof {
        model.grown_models_are_laid_out();
    }
    let r = TrainResult { model, history };
    proof {
        assert(is_trained(
            *params,
            dtrain,
            prepared,
            objective,
            metrics@,
            evals@,
            num_boost_round as int,
            early_stopping_rounds,
            round as int,
            r,
            calc,
        ));
    }
    r
}

/// The scores of all datasets after the given number of rounds of fitting a
/// linear model.
pub open spec fn linear_scores_after<F: Fn(Op, u64, u64) -> u64, O: Objective<F>, M: Metric<F>>(
    params: TrainingParams,
    data: &DMatrix,
    o: &O,
    base: Single,
    metrics: Seq<M>,
    evals: Seq<EvalSet>,
    rounds: int,
    calc: &Calc<F>,
) -> Seq<(Seq<char>, Seq<char>, Wide)> {
    let k = o.outputs();
    let s = fit_after(params, data, o, base, k, rounds, calc);
    all_scores(
        o,
        metrics,
        evals,
        Seq::new(
            evals.len(),
            |e: int|
                weighted_margins(s.w, s.bias, evals[e].0, base, k, data.width(), calc),
        ),
        evals.len() as int,
        calc,
    )
}

/// Whether the history holds the scores after each of the rounds of fitting a
/// linear model.
pub open spec fn is_linear_history<F: Fn(Op, u64, u64) -> u64, O: Objective<F>, M: Metric<F>>(
    params: TrainingParams,
    data: &DMatrix,
    o: &O,
    base: Single,
    metrics: Seq<M>,
    evals: Seq<EvalSet>,
    history: Seq<RoundEval>,
    calc: &Calc<F>,
) -> bool {
    forall|r: int|
        0 <= r < history.len() ==> {
            &&& (#[trigger] history[r]).iteration == r
            &&& scores_view(history[r].scores@) == linear_scores_after(
                params,
                data,
                o,
                base,
                metrics,
                evals,
                r + 1,
                calc,
            )
        }
}

/// Whether a result is that of fitting a linear model for `rounds` of at most
/// `num_rounds` rounds.
pub open spec fn is_linear_trained<F: Fn(Op, u64, u64) -> u64, O: Objective<F>, M: Metric<F>>(
    params: TrainingParams,
    data: &DMatrix,
    o: &O,
    metrics: Seq<M>,
    evals: Seq<EvalSet>,
    num_rounds: int,
    patience: Option<usize>,
    rounds: int,
    result: TrainResult,
    calc: &Calc<F>,
) -> bool {
    let base = base_of(params, data, o, calc);
    let s = fit_after(params, data, o, base, o.outputs(), rounds, calc);
    let values = watched_values(result.history@);
    let up = upward(metrics);
    let watching = evals.len() > 0;
    &&& result.model.tree_list().len() == 0
    &&& result.model.base() == base
    &&& result.model.objective_name() == params.objective@
    &&& result.model.classes() == params.num_class
    &&& result.model.width() == data.width()
    &&& result.model.linear_part() is Some
    &&& result.model.linear_part()->0.coefficients() == s.w
    &&& result.model.linear_part()->0.biases() == s.bias
    &&& result.history.len() == if watching {
        rounds
    } else {
        0
    }
    &&& is_linear_history(params, data, o, base, metrics, evals, result.history@, calc)
    &&& 0 <= rounds <= num_rounds
    &&& rounds < num_rounds ==> stopped(values, up, watching, patience, rounds)
    &&& forall|r: int| 0 <= r < rounds ==> !#[trigger] stopped(values, up, watching, patience, r)
    &&& result.model.best() == if stopped(values, up, watching, patience, rounds) {
        Some(watched(values, up, rounds).at as usize)
    } else {
        None
    }
}

/// The margins of every dataset under a linear model.
fn predict_each<F: Fn(Op, u64, u64) -> u64>(
    model: &BoostedModel,
    evals: &[EvalSet],
    n_out: usize,
    calc: &Calc<F>,
) -> (r: Vec<Vec<Single>>)
    requires
        model.well_formed(),
        model.outputs() == n_out,
        model.linear_part() is Some,
        model.width() <= u32::MAX,
        evals_fit(evals@, model.width(), n_out as int),
    ensures
        r.len() == evals.len(),
        forall|e: int|
            0 <= e < evals.len() ==> {
                &&& (#[trigger] r[e])@ == linear_margins(
                    &model.linear_part()->0,
                    evals[e].0,
                    model.base(),
                    n_out as int,
                    model.width(),
                    calc,
                )
                &&& r[e].len() == evals[e].0.height() * n_out
            },
{
    let mut out: Vec<Vec<Single>> = Vec::new();
    let mut e: usize = 0;
    while e < evals.len()
        invariant
            model.well_formed(),
            model.outputs() == n_out,
            model.linear_part() is Some,
            model.width() <= u32::MAX,
            evals_fit(evals@, model.width(), n_out as int),
            e <= evals.len(),
            out.len() == e,
            forall|i: int|
                0 <= i < e ==> {
                    &&& (#[trigger] out[i])@ == linear_margins(
                        &model.linear_part()->0,
                        evals[i].0,
                        model.base(),
                        n_out as int,
                        model.width(),
                        calc,
                    )
                    &&& out[i].len() == evals[i].0.height() * n_out
                },
        decreases evals.len() - e,
    {
        let d = evals[e].0;
        assert(evals@[e as int].0.well_formed());
        out.push(model.predict_margin(d, calc));
        e = e + 1;
    }
    out
}

/// The linear model of a fit as it stands.
fn linear_model(
    params: &TrainingParams,
    dtrain: &DMatrix,
    fit: &LinearFit,
    base_margin: Single,
    n_out: usize,
) -> (r: BoostedModel)
    requires
        fit.fits(dtrain, n_out as int),
        n_out == outputs_named(params.objective@, params.num_class),
    ensures
        r.well_formed(),
        r.laid_out(),
        r.outputs() == n_out,
        r.tree_list().len() == 0,
        r.base() == base_margin,
        r.objective_name() == params.objective@,
        r.classes() == params.num_class,
        r.width() == dtrain.width(),
        r.best() is None,
        r.linear_part() is Some,
        r.linear_part()->0.coefficients() == fit.state().w,
        r.linear_part()->0.biases() == fit.state().bias,
{
    proof {
        fit.has_its_shape(dtrain, n_out as int);
    }
    BoostedModel::new(
        base_margin,
        params.objective.clone(),
        params.num_class,
        dtrain.n_cols(),
    ).with_linear(fit.model())
}

/// Fit a linear model for the given number of rounds, or until the watched score
/// stops improving.
fn fit_linear<F: Fn(Op, u64, u64) -> u64, O: Objective<F>, M: Metric<F>>(
    params: &TrainingParams,
    dtrain: &DMatrix,
    labels: &[Single],
    num_boost_round: usize,
    evals: &[EvalSet],
    early_stopping_rounds: Option<usize>,
    objective: &O,
    metrics: &Vec<M>,
    base_margin: Single,
    calc: &Calc<F>,
) -> (r: TrainResult)
    requires
        dtrain.well_formed(),
        dtrain.readable(),
        dtrain.height() <= u32::MAX,
        dtrain.width() <= u32::MAX,
        objective.usable(),
        1 <= objective.outputs(),
        objective.outputs() == outputs_named(params.objective@, params.num_class),
        dtrain.label_list() == Some(labels@),
        dtrain.height() * objective.outputs() <= usize::MAX,
        dtrain.width() * objective.outputs() <= usize::MAX,
        base_margin == base_of(*params, dtrain, objective, calc),
        evals_fit(evals@, dtrain.width(), objective.outputs()),
        metrics_accept(metrics@, evals@, objective.outputs()),
    ensures
        r.model.well_formed(),
        r.model.laid_out(),
        exists|rounds: int| #[trigger]
            is_linear_trained(
                *params,
                dtrain,
                objective,
                metrics@,
                evals@,
                num_boost_round as int,
                early_stopping_rounds,
                rounds,
                r,
                calc,
            ),
{
    let n_out: usize = objective.n_outputs();
    let ghost k = n_out as int;
    let ghost base = base_margin;
    let mut fit = LinearFit::start(dtrain, n_out, base_margin);
    let mut history: Vec<RoundEval> = Vec::new();
    let up = if metrics.len() > 0 { metrics[metrics.len() - 1].maximize() } else { false };
    let watching = evals.len() > 0;
    let mut best_score = if up { Wide::neg_infinity() } else { Wide::infinity() };
    let mut best_iter: usize = 0;
    let mut since: usize = 0;
    let mut done = false;
    let mut round: usize = 0;
    while round < num_boost_round && !done
        invariant
            dtrain.well_formed(),
            dtrain.height() <= u32::MAX,
            dtrain.width() <= u32::MAX,
            objective.usable(),
            objective.outputs() == n_out,
            n_out == outputs_named(params.objective@, params.num_class),
            k == n_out,
            base == base_margin,
            dtrain.label_list() == Some(labels@),
            evals_fit(evals@, dtrain.width(), k),
            metrics_accept(metrics@, evals@, k),
            up == upward(metrics@),
            watching == (evals@.len() > 0),
            round <= num_boost_round,
            fit.fits(dtrain, k),
            fit.state() == fit_after(
                *params,
                dtrain,
                objective,
                base,
                k,
                round as int,
                calc,
            ),
            history.len() == if watching {
                round as int
            } else {
                0
            },
            is_linear_history(
                *params,
                dtrain,
                objective,
                base,
                metrics@,
                evals@,
                history@,
                calc,
            ),
            since <= round,
            watching && early_stopping_rounds is Some ==> ({
                let w = watched(watched_values(history@), up, round as int);
                w.best == best_score && w.at == best_iter && w.stale == since
            }),
            forall|q: int|
                0 <= q < round ==> !#[trigger] stopped(
                    watched_values(history@),
                    up,
                    watching,
                    early_stopping_rounds,
                    q,
                ),
            done == stopped(
                watched_values(history@),
                up,
                watching,
                early_stopping_rounds,
                round as int,
            ),
        decreases num_boost_round - round,
    {
        let ghost h0 = history@;
        let ghost v0 = watched_values(h0);
        fit.step_round(params, dtrain, labels, n_out, objective, calc);
        if watching {
            let model = linear_model(params, dtrain, &fit, base_margin, n_out);
            let margins = predict_each(&model, evals, n_out, calc);
            let (scores, last) = evaluate(objective, metrics, evals, &margins, n_out, calc);
            proof {
                let s = fit.state();
                assert(Seq::new(evals@.len(), |e: int| margins[e]@) =~= Seq::new(
                    evals@.len(),
                    |e: int|
                        weighted_margins(
                            s.w,
                            s.bias,
                            evals@[e].0,
                            base,
                            k,
                            dtrain.width(),
                            calc,
                        ),
                ));
            }
            history.push(RoundEval { iteration: round, scores });
            let ghost values = watched_values(history@);
            proof {
                assert(values.len() == round + 1);
                assert(values[round as int] == last);
                assert forall|q: int| 0 <= q < v0.len() implies #[trigger] v0[q] == values[q] by {
                    assert(history[q] == h0[q]);
                }
                assert forall|q: int| 0 <= q <= round implies !#[trigger] stopped(
                    values,
                    up,
                    watching,
                    early_stopping_rounds,
                    q,
                ) by {
                    stops_of_a_prefix(v0, values, up, watching, early_stopping_rounds, q);
                    assert(!stopped(v0, up, watching, early_stopping_rounds, q));
                }
                stops_of_a_prefix(v0, values, up, watching, early_stopping_rounds, round as int);
                assert forall|q: int| 0 <= q < history.len() implies {
                    &&& (#[trigger] history[q]).iteration == q
                    &&& scores_view(history[q].scores@) == linear_scores_after(
                        *params,
                        dtrain,
                        objective,
                        base,
                        metrics@,
                        evals@,
                        q + 1,
                        calc,
                    )
                } by {
                    if q < round {
                        assert(history[q] == h0[q]);
                    }
                }
            }
            if let Some(patience) = early_stopping_rounds {
                let improved = if up { best_score.is_lt(last) } else { last.is_lt(best_score) };
                if improved {
                    best_score = last;
                    best_iter = round;
                    since = 0;
                } else {
                    since = since + 1;
                    done = since >= patience;
                }
            }
        } else {
            assert(watched_values(history@) =~= v0);
        }
        round = round + 1;
    }
    let mut model = linear_model(params, dtrain, &fit, base_margin, n_out);
    if done {
        model.set_best_iteration(Some(best_iter));
    }
    let r = TrainResult { model, history };
    proof {
        assert(is_linear_trained(
            *params,
            dtrain,
            objective,
            metrics@,
            evals@,
            num_boost_round as int,
            early_stopping_rounds,
            round as int,
            r,
            calc,
        ));
    }
    r
}

/// Whether training fits a linear model.
pub open spec fn fits_linear(params: TrainingParams) -> bool {
    params.booster == BoosterKind::GbLinear
}

/// Whether an error is one that names a parameter and says why it is refused.
pub open spec fn names_parameter(e: SequoiaError, n: Seq<char>, why: Seq<char>) -> bool {
    e matches SequoiaError::InvalidParameter { name, reason } && name@ == n && reason@ == why
}

/// Whether an error is the one that training is refused with before any metric
/// is looked up: a parameter outside its range, missing labels, or exact search
/// that is to grow trees by loss.
pub open spec fn is_refused(e: SequoiaError, params: TrainingParams, data: &DMatrix) -> bool {
    match complaint(params) {
        Some((n, why)) => names_parameter(e, n, why),
        None => if data.label_list() is None {
            e == SequoiaError::EmptyDataset("train: dtrain has no labels")
        } else {
            !fits_linear(params) && exact_by_loss(params) && names_parameter(
                e,
                "grow_policy"@,
                "`lossguide` growth requires `tree_method=hist`"@,
            )
        },
    }
}

/// Whether training is not refused before any metric is looked up.
pub open spec fn is_admitted(params: TrainingParams, data: &DMatrix) -> bool {
    &&& complaint(params) is None
    &&& data.label_list() is Some
    &&& fits_linear(params) || !exact_by_loss(params)
}

/// Whether a dataset and an objective can be trained on.
pub open spec fn trainable<F: Fn(Op, u64, u64) -> u64, O: Objective<F>>(
    params: TrainingParams,
    data: &DMatrix,
    o: &O,
    evals: Seq<EvalSet>,
    calc: &Calc<F>,
) -> bool {
    &&& growable(data)
    &&& bins_fit(params, data, calc)
    &&& o.usable()
    &&& 1 <= o.outputs()
    &&& o.outputs() == outputs_named(params.objective@, params.num_class)
    &&& data.height() * o.outputs() <= usize::MAX
    &&& data.width() * o.outputs() <= usize::MAX
    &&& evals_fit(evals, data.width(), o.outputs())
}

/// Whether a result is one that training with the given metrics may give.
pub open spec fn is_outcome<F: Fn(Op, u64, u64) -> u64, O: Objective<F>, M: Metric<F>>(
    params: TrainingParams,
    data: &DMatrix,
    o: &O,
    metrics: Seq<M>,
    evals: Seq<EvalSet>,
    num_rounds: int,
    patience: Option<usize>,
    result: TrainResult,
    calc: &Calc<F>,
) -> bool {
    if fits_linear(params) {
        exists|rounds: int| #[trigger]
            is_linear_trained(
                params,
                data,
                o,
                metrics,
                evals,
                num_rounds,
                patience,
                rounds,
                result,
                calc,
            )
    } else {
        exists|prepared: Prepared, rounds: int| #[trigger]
            is_trained(
                params,
                data,
                &prepared,
                o,
                metrics,
                evals,
                num_rounds,
                patience,
                rounds,
                result,
                calc,
            )
    }
}

/// The base score that training starts from.
fn start_from<F: Fn(Op, u64, u64) -> u64, O: Objective<F>>(
    params: &TrainingParams,
    dtrain: &DMatrix,
    labels: &[Single],
    objective: &O,
    calc: &Calc<F>,
) -> (r: Single)
    requires
        dtrain.label_list() == Some(labels@),
    ensures
        r == base_of(*params, dtrain, objective, calc),
{
    if objective.n_outputs() == 1 {
        match params.base_score {
            Some(b) => objective.prob_to_margin(calc.narrow(b), calc),
            None => objective.base_margin(labels, dtrain.weights(), calc),
        }
    } else {
        Single::zero()
    }
}

/// What training checks and prepares before metrics are looked up.
fn get_ready<F: Fn(Op, u64, u64) -> u64>(
    params: &TrainingParams,
    dtrain: &DMatrix,
    calc: &Calc<F>,
) -> (r: Result<Option<Prepared>, SequoiaError>)
    requires
        growable(dtrain),
        bins_fit(*params, dtrain, calc),
    ensures
        match r {
            Ok(p) => {
                &&& is_admitted(*params, dtrain)
                &&& p is None == fits_linear(*params)
                &&& p matches Some(q) ==> q.fits(*params, dtrain, calc)
            },
            Err(e) => !is_admitted(*params, dtrain) && is_refused(e, *params, dtrain),
        },
{
    match params.validate() {
        Ok(_) => {},
        Err(e) => {
            return Err(e);
        },
    }
    if dtrain.labels().is_none() {
        return Err(SequoiaError::EmptyDataset("train: dtrain has no labels"));
    }
    if params.booster == BoosterKind::GbLinear {
        return Ok(None);
    }
    match prepare_builder(params, dtrain, calc) {
        Ok(p) => Ok(Some(p)),
        Err(e) => Err(e),
    }
}

/// Fit a model, tree by tree or linear, once training is admitted.
fn run<F: Fn(Op, u64, u64) -> u64 + Sync, O: Objective<F>, M: Metric<F>>(
    params: &TrainingParams,
    dtrain: &DMatrix,
    prepared: Option<Prepared>,
    num_boost_round: usize,
    evals: &[EvalSet],
    early_stopping_rounds: Option<usize>,
    objective: &O,
    metrics: &Vec<M>,
    calc: &Calc<F>,
) -> (r: Result<TrainResult, SequoiaError>)
    requires
        trainable(*params, dtrain, objective, evals@, calc),
        is_admitted(*params, dtrain),
        prepared is None == fits_linear(*params),
        prepared matches Some(q) ==> q.fits(*params, dtrain, calc),
        metrics_accept(metrics@, evals@, objective.outputs()),
    ensures
        r matches Ok(t),
        r->Ok_0.model.well_formed(),
        r->Ok_0.model.laid_out(),
        is_outcome(
            *params,
            dtrain,
            objective,
            metrics@,
            evals@,
            num_boost_round as int,
            early_stopping_rounds,
            r->Ok_0,
            calc,
        ),
{
    let labels = match dtrain.labels() {
        Some(l) => l,
        None => {
            return Err(SequoiaError::EmptyDataset("train: dtrain has no labels"));
        },
    };
    let base = start_from(params, dtrain, labels, objective, calc);
    match prepared {
        Some(p) => {
            let t = boost(
                params,
                dtrain,
                &p,
                labels,
                num_boost_round,
                evals,
                early_stopping_rounds,
                objective,
                metrics,
                base,
                calc,
            );
            proof {
                let rounds = choose|rounds: int| #[trigger]
                    is_trained(
                        *params,
                        dtrain,
                        &p,
                        objective,
                        metrics@,
                        evals@,
                        num_boost_round as int,
                        early_stopping_rounds,
                        rounds,
                        t,
                        calc,
                    );
                assert(is_trained(
                    *params,
                    dtrain,
                    &p,
                    objective,
                    metrics@,
                    evals@,
                    num_boost_round as int,
                    early_stopping_rounds,
                    rounds,
                    t,
                    calc,
                ));
            }
            Ok(t)
        },
        None => {
            Ok(
                fit_linear(
                    params,
                    dtrain,
                    labels,
                    num_boost_round,
                    evals,
                    early_stopping_rounds,
                    objective,
                    metrics,
                    base,
                    calc,
                ),
            )
        },
    }
}

/// Whether every metric of the given names can read every dataset, whatever is
/// predicted.
pub open spec fn names_accept<
    F: Fn(Op, u64, u64) -> u64,
    P: Fn(Precision, &str) -> Option<u64>,
>(
    names: Seq<Seq<char>>,
    num_class: usize,
    reader: &Reader<P>,
    evals: Seq<EvalSet>,
    k: int,
    calc: &Calc<F>,
) -> bool {
    forall|i: int, e: int, p: Seq<Single>|
        #![trigger names[i], evals[e], p.len()]
        0 <= i < names.len() && 0 <= e < evals.len() && p.len() == evals[e].0.height() * k && (
        metric_named(names[i], num_class, reader) is Some) ==> <AnyMetric as Metric<F>>::accepts(
            &metric_named(names[i], num_class, reader)->0,
            p,
            labels_or_none(evals[e].0),
            evals[e].0.weight_list(),
            data_groups(evals[e].0),
        )
}

/// Train with an objective of the caller's, watching the named metrics on the
/// given datasets.
pub fn train_impl<
    F: Fn(Op, u64, u64) -> u64 + Sync,
    P: Fn(Precision, &str) -> Option<u64>,
    O: Objective<F>,
>(
    params: &TrainingParams,
    dtrain: &DMatrix,
    num_boost_round: usize,
    evals: &[EvalSet],
    early_stopping_rounds: Option<usize>,
    objective: &O,
    reader: &Reader<P>,
    calc: &Calc<F>,
) -> (r: Result<TrainResult, SequoiaError>)
    requires
        trainable(*params, dtrain, objective, evals@, calc),
        names_accept(
            metric_names(params.eval_metric@, objective.metric()),
            params.num_class,
            reader,
            evals@,
            objective.outputs(),
            calc,
        ),
    ensures
        ({
            let names = metric_names(params.eval_metric@, objective.metric());
            match r {
                Ok(t) => {
                    &&& is_admitted(*params, dtrain)
                    &&& t.model.well_formed()
                    &&& t.model.laid_out()
                    &&& exists|metrics: Seq<AnyMetric>|
                        #![trigger metrics_named(metrics, names, params.num_class, reader)]
                        metrics_named(metrics, names, params.num_class, reader) && is_outcome(
                            *params,
                            dtrain,
                            objective,
                            metrics,
                            evals@,
                            num_boost_round as int,
                            early_stopping_rounds,
                            t,
                            calc,
                        )
                },
                Err(e) => if is_admitted(*params, dtrain) {
                    first_unknown(e, names, params.num_class, reader)
                } else {
                    is_refused(e, *params, dtrain)
                },
            }
        }),
{
    let ghost names = metric_names(params.eval_metric@, objective.metric());
    let prepared = match get_ready(params, dtrain, calc) {
        Ok(p) => p,
        Err(e) => {
            return Err(e);
        },
    };
    let metrics = match create_metrics(
        params.eval_metric.as_slice(),
        objective.default_metric(),
        params.num_class,
        reader,
    ) {
        Ok(m) => m,
        Err(e) => {
            return Err(e);
        },
    };
    proof {
        let k = objective.outputs();
        assert forall|m: int, e: int, p: Seq<Single>|
            0 <= m < metrics@.len() && 0 <= e < evals@.len() && p.len() == evals@[e].0.height()
                * k implies #[trigger] <AnyMetric as Metric<F>>::accepts(
            &metrics@[m],
            p,
            labels_or_none(evals@[e].0),
            evals@[e].0.weight_list(),
            data_groups(evals@[e].0),
        ) by {
            assert(metric_named(names[m], params.num_class, reader) == Some(metrics@[m]));
        }
    }
    run(
        params,
        dtrain,
        prepared,
        num_boost_round,
        evals,
        early_stopping_rounds,
        objective,
        &metrics,
        calc,
    )
}

/// The name of the metric that an objective is reported by.
pub open spec fn own_metric(kind: ObjectiveKind) -> Seq<char> {
    match kind {
        ObjectiveKind::SquaredError => "rmse"@,
        ObjectiveKind::PseudoHuber => "mae"@,
        ObjectiveKind::Logistic => "logloss"@,
        ObjectiveKind::Softmax(_) => "mlogloss"@,
        ObjectiveKind::Poisson => "poisson-nloglik"@,
        ObjectiveKind::Gamma => "gamma-nloglik"@,
        ObjectiveKind::Tweedie => "tweedie-nloglik"@,
        ObjectiveKind::Rank(mode) => if mode == RankMode::Ndcg {
            "ndcg"@
        } else {
            "map"@
        },
    }
}

/// Whether a dataset can be trained on with the objective that the parameters
/// name, if there is one.
pub open spec fn nameable<
    F: Fn(Op, u64, u64) -> u64,
    P: Fn(Precision, &str) -> Option<u64>,
>(
    params: TrainingParams,
    data: &DMatrix,
    evals: Seq<EvalSet>,
    reader: &Reader<P>,
    calc: &Calc<F>,
) -> bool {
    let k = outputs_named(params.objective@, params.num_class);
    &&& growable(data)
    &&& bins_fit(params, data, calc)
    &&& data.height() * k <= usize::MAX
    &&& data.width() * k <= usize::MAX
    &&& evals_fit(evals, data.width(), k)
    &&& kind_named(params.objective@) matches Some(kind) ==> names_accept(
        metric_names(params.eval_metric@, own_metric(kind)),
        params.num_class,
        reader,
        evals,
        k,
        calc,
    )
}

/// Whether an outcome is one of training with the objective that the
/// parameters name.
pub open spec fn is_named_outcome<
    F: Fn(Op, u64, u64) -> u64,
    P: Fn(Precision, &str) -> Option<u64>,
>(
    params: TrainingParams,
    data: &DMatrix,
    o: AnyObjective,
    metrics: Seq<AnyMetric>,
    evals: Seq<EvalSet>,
    num_rounds: int,
    patience: Option<usize>,
    reader: &Reader<P>,
    result: TrainResult,
    calc: &Calc<F>,
) -> bool {
    &&& kind_named(params.objective@) matches Some(kind)
    &&& !too_few_classes(kind, params.num_class)
    &&& is_kind(o, kind, params.num_class, calc.narrowed(params.scale_pos_weight))
    &&& metrics_named(
        metrics,
        metric_names(params.eval_metric@, own_metric(kind)),
        params.num_class,
        reader,
    )
    &&& is_outcome(params, data, &o, metrics, evals, num_rounds, patience, result, calc)
}

/// Whether the parameters name an objective that can be made.
pub open spec fn has_objective(params: TrainingParams) -> bool {
    kind_named(params.objective@) matches Some(kind) && !too_few_classes(kind, params.num_class)
}

/// Whether an error is the one that training with the objective that the
/// parameters name is refused with.
pub open spec fn training_error<P: Fn(Precision, &str) -> Option<u64>>(
    e: SequoiaError,
    params: TrainingParams,
    data: &DMatrix,
    reader: &Reader<P>,
) -> bool {
    if !has_objective(params) {
        objective_error(e, params.objective@, params.num_class)
    } else if is_admitted(params, data) {
        first_unknown(
            e,
            metric_names(params.eval_metric@, own_metric(kind_named(params.objective@)->0)),
            params.num_class,
            reader,
        )
    } else {
        is_refused(e, params, data)
    }
}

/// Train a model, watching datasets and optionally stopping early.
///
/// The last metric of the last dataset is watched: training stops when it has
/// not improved for the given number of rounds, and the model notes the best
/// round.
pub fn train_with_eval<
    F: Fn(Op, u64, u64) -> u64 + Sync,
    P: Fn(Precision, &str) -> Option<u64>,
>(
    params: &TrainingParams,
    dtrain: &DMatrix,
    num_boost_round: usize,
    evals: &[EvalSet],
    early_stopping_rounds: Option<usize>,
    reader: &Reader<P>,
    calc: &Calc<F>,
) -> (r: Result<TrainResult, SequoiaError>)
    requires
        nameable(*params, dtrain, evals@, reader, calc),
    ensures
        match r {
            Ok(t) => {
                &&& is_admitted(*params, dtrain)
                &&& t.model.well_formed()
                &&& t.model.laid_out()
                &&& exists|o: AnyObjective, metrics: Seq<AnyMetric>| #[trigger]
                    is_named_outcome(
                        *params,
                        dtrain,
                        o,
                        metrics,
                        evals@,
                        num_boost_round as int,
                        early_stopping_rounds,
                        reader,
                        t,
                        calc,
                    )
            },
            Err(e) => training_error(e, *params, dtrain, reader),
        },
{
    let objective = match create_objective(params, calc) {
        Ok(o) => o,
        Err(e) => {
            return Err(e);
        },
    };
    let ghost kind = kind_named(params.objective@)->0;
    proof {
        kinds_have_their_outputs(
            objective,
            params.objective@,
            params.num_class,
            calc.narrowed(params.scale_pos_weight),
            calc,
        );
        assert(objective.metric() == own_metric(kind));
    }
    let r = train_impl(
        params,
        dtrain,
        num_boost_round,
        evals,
        early_stopping_rounds,
        &objective,
        reader,
        calc,
    );
    proof {
        if r is Ok {
            let names = metric_names(params.eval_metric@, objective.metric());
            let metrics = choose|metrics: Seq<AnyMetric>|
                #![trigger metrics_named(metrics, names, params.num_class, reader)]
                metrics_named(metrics, names, params.num_class, reader) && is_outcome(
                    *params,
                    dtrain,
                    &objective,
                    metrics,
                    evals@,
                    num_boost_round as int,
                    early_stopping_rounds,
                    r->Ok_0,
                    calc,
                );
            assert(is_named_outcome(
                *params,
                dtrain,
                objective,
                metrics,
                evals@,
                num_boost_round as int,
                early_stopping_rounds,
                reader,
                r->Ok_0,
                calc,
            ));
        }
    }
    r
}

/// Train a model without watching datasets.
pub fn train<F: Fn(Op, u64, u64) -> u64 + Sync, P: Fn(Precision, &str) -> Option<u64>>(
    params: &TrainingParams,
    dtrain: &DMatrix,
    num_boost_round: usize,
    reader: &Reader<P>,
    calc: &Calc<F>,
) -> (r: Result<BoostedModel, SequoiaError>)
    requires
        nameable(*params, dtrain, Seq::empty(), reader, calc),
    ensures
        match r {
            Ok(m) => {
                &&& is_admitted(*params, dtrain)
                &&& m.well_formed()
                &&& m.laid_out()
                &&& exists|o: AnyObjective, metrics: Seq<AnyMetric>, t: TrainResult|
                    t.model == m && #[trigger] is_named_outcome(
                        *params,
                        dtrain,
                        o,
                        metrics,
                        Seq::empty(),
                        num_boost_round as int,
                        None,
                        reader,
                        t,
                        calc,
                    )
            },
            Err(e) => training_error(e, *params, dtrain, reader),
        },
{
    let none: Vec<EvalSet> = Vec::new();
    assert(none@ =~= Seq::empty());
    match train_with_eval(params, dtrain, num_boost_round, none.as_slice(), None, reader, calc) {
        Ok(t) => Ok(t.model),
        Err(e) => Err(e),
    }
}

/// Train a model with an objective of the caller's.
pub fn train_with_objective<
    F: Fn(Op, u64, u64) -> u64 + Sync,
    P: Fn(Precision, &str) -> Option<u64>,
    O: Objective<F>,
>(
    params: &TrainingParams,
    dtrain: &DMatrix,
    num_boost_round: usize,
    objective: &O,
    reader: &Reader<P>,
    calc: &Calc<F>,
) -> (r: Result<BoostedModel, SequoiaError>)
    requires
        trainable(*params, dtrain, objective, Seq::empty(), calc),
    ensures
        ({
            let names = metric_names(params.eval_metric@, objective.metric());
            match r {
                Ok(m) => {
                    &&& is_admitted(*params, dtrain)
                    &&& m.well_formed()
                    &&& m.laid_out()
                    &&& exists|metrics: Seq<AnyMetric>, t: TrainResult|
                        t.model == m && metrics_named(metrics, names, params.num_class, reader)
                            && #[trigger] is_outcome(
                            *params,
                            dtrain,
                            objective,
                            metrics,
                            Seq::empty(),
                            num_boost_round as int,
                            None,
                            t,
                            calc,
                        )
                },
                Err(e) => if is_admitted(*params, dtrain) {
                    first_unknown(e, names, params.num_class, reader)
                } else {
                    is_refused(e, *params, dtrain)
                },
            }
        }),
{
    let none: Vec<EvalSet> = Vec::new();
    assert(none@ =~= Seq::empty());
    match train_impl(
        params,
        dtrain,
        num_boost_round,
        none.as_slice(),
        None,
        objective,
        reader,
        calc,
    ) {
        Ok(t) => Ok(t.model),
        Err(e) => Err(e),
    }
}

/// Train a model with the objective that the parameters name, watching a metric
/// of the caller's.
pub fn train_with_custom_metric<F: Fn(Op, u64, u64) -> u64 + Sync, M: Metric<F>>(
    params: &TrainingParams,
    dtrain: &DMatrix,
    num_boost_round: usize,
    evals: &[EvalSet],
    early_stopping_rounds: Option<usize>,
    metric: M,
    calc: &Calc<F>,
) -> (r: Result<TrainResult, SequoiaError>)
    requires
        growable(dtrain),
        bins_fit(*params, dtrain, calc),
        dtrain.height() * outputs_named(params.objective@, params.num_class) <= usize::MAX,
        dtrain.width() * outputs_named(params.objective@, params.num_class) <= usize::MAX,
        evals_fit(
            evals@,
            dtrain.width(),
            outputs_named(params.objective@, params.num_class),
        ),
        metrics_accept(
            seq![metric],
            evals@,
            outputs_named(params.objective@, params.num_class),
        ),
    ensures
        match r {
            Ok(t) => {
                &&& is_admitted(*params, dtrain)
                &&& t.model.well_formed()
                &&& t.model.laid_out()
                &&& exists|o: AnyObjective|
                    is_kind(
                        o,
                        kind_named(params.objective@)->0,
                        params.num_class,
                        calc.narrowed(params.scale_pos_weight),
                    ) && #[trigger] is_outcome(
                        *params,
                        dtrain,
                        &o,
                        seq![metric],
                        evals@,
                        num_boost_round as int,
                        early_stopping_rounds,
                        t,
                        calc,
                    )
            },
            Err(e) => if !has_objective(*params) {
                objective_error(e, params.objective@, params.num_class)
            } else {
                !is_admitted(*params, dtrain) && is_refused(e, *params, dtrain)
            },
        },
{
    let objective = match create_objective(params, calc) {
        Ok(o) => o,
        Err(e) => {
            return Err(e);
        },
    };
    proof {
        kinds_have_their_outputs(
            objective,
            params.objective@,
            params.num_class,
            calc.narrowed(params.scale_pos_weight),
            calc,
        );
    }
    let prepared = match get_ready(params, dtrain, calc) {
        Ok(p) => p,
        Err(e) => {
            return Err(e);
        },
    };
    let mut metrics: Vec<M> = Vec::new();
    let ghost given = metric;
    metrics.push(metric);
    assert(metrics@ =~= seq![given]);
    run(
        params,
        dtrain,
        prepared,
        num_boost_round,
        evals,
        early_stopping_rounds,
        &objective,
        &metrics,
        calc,
    )
}

} // verus!
