//! Objectives and metrics go by their own names.

use vstd::prelude::*;

use crate::arith::{Calc, Op};
use crate::config::{Monotone, TrainingParams};
use crate::data::loader_laws::{first_of_skips, followed, whole};
use crate::learner::prepare::directions_of;
use crate::learner::train::own_metric;
use crate::metric::auc::Auc;
use crate::metric::aucpr::AucPr;
use crate::metric::base::{Metric, MetricInfo};
use crate::metric::create::{base_name, metric_named, place_limit, AnyMetric};
use crate::metric::mean::{
    ErrorRate, GammaNLogLik, LogLoss, Loss, MError, MLogLoss, Mae, PoissonNLogLik, Rmse,
    TweedieNLogLik,
};
use crate::metric::rank::{AveragePrecision, Ndcg, RankScore};
use crate::number::Single;
use crate::objective::base::{Objective, ObjectiveInfo};
use crate::objective::create::{is_kind, kind_named, AnyObjective};
use crate::text::{decimal, decimals_are_read_back, Precision, Reader};

verus! {

/// An objective that is asked for by a name goes by that name, but for the two names that
/// stand for others.
pub proof fn objectives_go_by_their_names(
    name: Seq<char>,
    o: AnyObjective,
    num_class: usize,
    positive_weight: Single,
)
    requires
        kind_named(name) is Some,
        is_kind(o, kind_named(name)->0, num_class, positive_weight),
    ensures
        name == "reg:linear"@ ==> o.title() == "reg:squarederror"@,
        name == "reg:logistic"@ ==> o.title() == "binary:logistic"@,
        name != "reg:linear"@ && name != "reg:logistic"@ ==> o.title() == name,
{
    reveal_strlit("reg:linear");
    reveal_strlit("reg:logistic");
    reveal_strlit("reg:squarederror");
    reveal_strlit("reg:pseudohubererror");
    assert("reg:logistic"@[5] != "reg:linear"@[5]);
    assert("reg:logistic"@[4] != "reg:squarederror"@[4]);
    assert("reg:logistic"@[4] != "reg:pseudohubererror"@[4]);
}

/// The metric that training reports for an objective by default is the objective's own.
pub proof fn objectives_report_their_metrics(
    name: Seq<char>,
    o: AnyObjective,
    num_class: usize,
    positive_weight: Single,
)
    requires
        kind_named(name) is Some,
        is_kind(o, kind_named(name)->0, num_class, positive_weight),
    ensures
        o.metric() == own_metric(kind_named(name)->0),
{
}

/// A metric that is asked for by a name goes by that name, less what follows the at sign.
/// What measures an error is to be lowered, every other one to be raised.
pub proof fn metrics_go_by_their_names<P: Fn(Precision, &str) -> Option<u64>>(
    name: Seq<char>,
    num_class: usize,
    reader: &Reader<P>,
)
    requires
        metric_named(name, num_class, reader) is Some,
    ensures
        ({
            let m = metric_named(name, num_class, reader)->0;
            &&& m.title() == base_name(name)
            &&& m.rises() <==> {
                ||| m.title() == "auc"@
                ||| m.title() == "aucpr"@
                ||| m.title() == "ndcg"@
                ||| m.title() == "map"@
            }
        }),
{
    reveal_strlit("rmse");
    reveal_strlit("mae");
    reveal_strlit("logloss");
    reveal_strlit("error");
    reveal_strlit("mlogloss");
    reveal_strlit("merror");
    reveal_strlit("poisson-nloglik");
    reveal_strlit("gamma-nloglik");
    reveal_strlit("tweedie-nloglik");
    reveal_strlit("auc");
    reveal_strlit("aucpr");
    reveal_strlit("ndcg");
    reveal_strlit("map");
    let m = metric_named(name, num_class, reader)->0;
    assert("mae"@[1] != "auc"@[1] && "mae"@[2] != "map"@[2]);
    assert("error"@[0] != "aucpr"@[0]);
    assert("rmse"@[0] != "ndcg"@[0]);
}

/// Whether two objectives give the same gradients, make the same predictions of margins,
/// and start from the same margins.
pub open spec fn answers_alike<F: Fn(Op, u64, u64) -> u64, A: Objective<F>, B: Objective<F>>(
    a: &A,
    b: &B,
    preds: Seq<Single>,
    labels: Seq<Single>,
    weights: Option<Seq<Single>>,
    groups: Option<Seq<usize>>,
    score: Single,
    calc: &Calc<F>,
) -> bool {
    &&& a.title() == b.title()
    &&& a.outputs() == b.outputs()
    &&& a.metric() == b.metric()
    &&& a.gradients(preds, labels, weights, groups, calc) == b.gradients(
        preds,
        labels,
        weights,
        groups,
        calc,
    )
    &&& a.transformed(preds, calc) == b.transformed(preds, calc)
    &&& a.start(labels, weights, calc) == b.start(labels, weights, calc)
    &&& a.margin_of(score, calc) == b.margin_of(score, calc)
}

/// An objective that is chosen by its name answers as the objective itself does.
pub proof fn named_objectives_answer_alike<F: Fn(Op, u64, u64) -> u64>(
    o: AnyObjective,
    preds: Seq<Single>,
    labels: Seq<Single>,
    weights: Option<Seq<Single>>,
    groups: Option<Seq<usize>>,
    score: Single,
    calc: &Calc<F>,
)
    ensures
        match o {
            AnyObjective::SquaredError(p) => answers_alike(&o, &p, preds, labels, weights, groups, score, calc),
            AnyObjective::PseudoHuber(p) => answers_alike(&o, &p, preds, labels, weights, groups, score, calc),
            AnyObjective::Logistic(p) => answers_alike(&o, &p, preds, labels, weights, groups, score, calc),
            AnyObjective::Softmax(p) => answers_alike(&o, &p, preds, labels, weights, groups, score, calc),
            AnyObjective::Poisson(p) => answers_alike(&o, &p, preds, labels, weights, groups, score, calc),
            AnyObjective::Gamma(p) => answers_alike(&o, &p, preds, labels, weights, groups, score, calc),
            AnyObjective::Tweedie(p) => answers_alike(&o, &p, preds, labels, weights, groups, score, calc),
            AnyObjective::LambdaMart(p) => answers_alike(&o, &p, preds, labels, weights, groups, score, calc),
        },
{
}

/// Whether two metrics go by the same name, are to be raised or lowered alike, and score
/// predictions alike.
pub open spec fn scores_alike<F: Fn(Op, u64, u64) -> u64, A: Metric<F>, B: Metric<F>>(
    a: &A,
    b: &B,
    preds: Seq<Single>,
    labels: Seq<Single>,
    weights: Option<Seq<Single>>,
    groups: Option<Seq<usize>>,
    calc: &Calc<F>,
) -> bool {
    &&& a.title() == b.title()
    &&& a.rises() == b.rises()
    &&& a.value(preds, labels, weights, groups, calc) == b.value(
        preds,
        labels,
        weights,
        groups,
        calc,
    )
}

/// A metric that is chosen by its name scores as the metric itself does.
pub proof fn named_metrics_score_alike<F: Fn(Op, u64, u64) -> u64>(
    of_classes: MLogLoss,
    wrong_classes: MError,
    of_power: TweedieNLogLik,
    of_gain: Ndcg,
    of_precision: AveragePrecision,
    preds: Seq<Single>,
    labels: Seq<Single>,
    weights: Option<Seq<Single>>,
    groups: Option<Seq<usize>>,
    calc: &Calc<F>,
)
    ensures
        scores_alike(&AnyMetric::Mean(Loss::Squared), &Rmse, preds, labels, weights, groups, calc),
        scores_alike(&AnyMetric::Mean(Loss::Absolute), &Mae, preds, labels, weights, groups, calc),
        scores_alike(&AnyMetric::Mean(Loss::Logistic), &LogLoss, preds, labels, weights, groups, calc),
        scores_alike(&AnyMetric::Mean(Loss::Wrong), &ErrorRate, preds, labels, weights, groups, calc),
        scores_alike(&AnyMetric::Mean(Loss::Poisson), &PoissonNLogLik, preds, labels, weights, groups, calc),
        scores_alike(&AnyMetric::Mean(Loss::Gamma), &GammaNLogLik, preds, labels, weights, groups, calc),
        scores_alike(&AnyMetric::Area, &Auc, preds, labels, weights, groups, calc),
        scores_alike(&AnyMetric::RecallArea, &AucPr, preds, labels, weights, groups, calc),
        scores_alike(&AnyMetric::Mean(Loss::ClassLogistic(of_classes.classes())), &of_classes, preds, labels, weights, groups, calc),
        scores_alike(&AnyMetric::Mean(Loss::ClassWrong(wrong_classes.classes())), &wrong_classes, preds, labels, weights, groups, calc),
        scores_alike(&AnyMetric::Mean(Loss::Tweedie(of_power.power())), &of_power, preds, labels, weights, groups, calc),
        scores_alike(&AnyMetric::Rank(RankScore::Gain, of_gain.places()), &of_gain, preds, labels, weights, groups, calc),
        scores_alike(&AnyMetric::Rank(RankScore::Precision, of_precision.places()), &of_precision, preds, labels, weights, groups, calc),
{
}

/// The name of a ranking metric with a number behind an at sign asks for that many places.
pub proof fn names_ask_for_places(base: Seq<char>, places: usize)
    requires
        whole(base, '@'),
    ensures
        base_name(followed(base, '@', decimal(places as nat))) == base,
        place_limit(followed(base, '@', decimal(places as nat))) == Some(places),
        place_limit(base) is None,
{
    let name = followed(base, '@', decimal(places as nat));
    let n = base.len() as int;
    assert forall|i: int| 0 <= i < n implies #[trigger] name[i] != '@' by {
        assert(name[i] == base[i]);
    }
    assert(name[n] == '@');
    first_of_skips(name, '@', 0, n);
    first_of_skips(base, '@', 0, n);
    assert(name.take(n) =~= base);
    assert(name.skip(n + 1) =~= decimal(places as nat));
    decimals_are_read_back(places as nat, usize::MAX as int);
}

/// A constraint asks for a positive direction where values are to rise with the feature, and
/// for a negative one where they are to fall.
pub proof fn constraints_ask_for_directions(params: TrainingParams, f: int)
    requires
        0 <= f < params.monotone_constraints@.len(),
    ensures
        directions_of(params).len() == params.monotone_constraints@.len(),
        directions_of(params)[f] > 0 <==> params.monotone_constraints@[f] == Monotone::Increasing,
        directions_of(params)[f] < 0 <==> params.monotone_constraints@[f] == Monotone::Decreasing,
{
}

} // verus!
