//! Metrics by name.

use vstd::prelude::*;
use vstd::string::StrSliceExecFns;

use crate::arith::{Calc, Op};
use crate::data::meta::GroupInfo;
use crate::error::SequoiaError;
use crate::metric::auc::{area, area_of};
use crate::metric::aucpr::{recall_area, recall_area_of};
use crate::metric::base::{Metric, MetricInfo};
use crate::metric::mean::{mean_of, Loss};
use crate::metric::rank::{mean_score, rankable, score_of, RankScore};
use crate::number::{Single, Wide};
use crate::text::{
    chars_of, find_char, first_of, read_whole, same_text, whole_number, Precision, Reader,
};

verus! {

/// The bit pattern of the variance power that Tweedie metrics take where none
/// is given, `1.5`.
pub const TWEEDIE_POWER: u64 = 0x3ff8_0000_0000_0000;

/// Any of the metrics that have a name.
#[derive(Clone, Copy, Debug)]
pub enum AnyMetric {
    /// A weighted mean over instances.
    Mean(Loss),
    /// The area under the ROC curve.
    Area,
    /// The area under the precision-recall curve.
    RecallArea,
    /// A ranking metric over the given number of places.
    Rank(RankScore, Option<usize>),
}

/// The name of a weighted mean.
pub open spec fn loss_title(loss: Loss) -> Seq<char> {
    match loss {
        Loss::Squared => "rmse"@,
        Loss::Absolute => "mae"@,
        Loss::Logistic => "logloss"@,
        Loss::Wrong => "error"@,
        Loss::ClassLogistic(_) => "mlogloss"@,
        Loss::ClassWrong(_) => "merror"@,
        Loss::Poisson => "poisson-nloglik"@,
        Loss::Gamma => "gamma-nloglik"@,
        Loss::Tweedie(_) => "tweedie-nloglik"@,
    }
}

impl MetricInfo for AnyMetric {
    open spec fn title(&self) -> Seq<char> {
        match *self {
            AnyMetric::Mean(loss) => loss_title(loss),
            AnyMetric::Area => "auc"@,
            AnyMetric::RecallArea => "aucpr"@,
            AnyMetric::Rank(RankScore::Gain, _) => "ndcg"@,
            AnyMetric::Rank(RankScore::Precision, _) => "map"@,
        }
    }

    open spec fn rises(&self) -> bool {
        !(*self is Mean)
    }

    fn name(&self) -> (r: &str) {
        match self {
            AnyMetric::Mean(loss) => match loss {
                Loss::Squared => "rmse",
                Loss::Absolute => "mae",
                Loss::Logistic => "logloss",
                Loss::Wrong => "error",
                Loss::ClassLogistic(_) => "mlogloss",
                Loss::ClassWrong(_) => "merror",
                Loss::Poisson => "poisson-nloglik",
                Loss::Gamma => "gamma-nloglik",
                Loss::Tweedie(_) => "tweedie-nloglik",
            },
            AnyMetric::Area => "auc",
            AnyMetric::RecallArea => "aucpr",
            AnyMetric::Rank(RankScore::Gain, _) => "ndcg",
            AnyMetric::Rank(RankScore::Precision, _) => "map",
        }
    }

    fn maximize(&self) -> (r: bool) {
        match self {
            AnyMetric::Mean(_) => false,
            _ => true,
        }
    }
}

impl<F: Fn(Op, u64, u64) -> u64> Metric<F> for AnyMetric {
    open spec fn accepts(
        &self,
        preds: Seq<Single>,
        labels: Seq<Single>,
        weights: Option<Seq<Single>>,
        groups: Option<Seq<usize>>,
    ) -> bool {
        match *self {
            AnyMetric::Mean(loss) => loss.accepts(preds, labels, weights),
            AnyMetric::Area => preds.len() <= labels.len() && preds.len() < usize::MAX / 2,
            AnyMetric::RecallArea => preds.len() <= labels.len(),
            AnyMetric::Rank(_, _) => rankable(preds, labels, groups),
        }
    }

    open spec fn value(
        &self,
        preds: Seq<Single>,
        labels: Seq<Single>,
        weights: Option<Seq<Single>>,
        groups: Option<Seq<usize>>,
        calc: &Calc<F>,
    ) -> Wide {
        match *self {
            AnyMetric::Mean(loss) => loss.mean(preds, labels, weights, calc),
            AnyMetric::Area => area(preds, labels, calc),
            AnyMetric::RecallArea => recall_area(preds, labels, calc),
            AnyMetric::Rank(kind, limit) => mean_score(kind, preds, labels, groups, limit, calc),
        }
    }

    fn eval_grouped(
        &self,
        preds: &[Single],
        labels: &[Single],
        weights: Option<&[Single]>,
        group: Option<&GroupInfo>,
        calc: &Calc<F>,
    ) -> (r: Wide) {
        match self {
            AnyMetric::Mean(loss) => mean_of(*loss, preds, labels, weights, calc),
            AnyMetric::Area => area_of(preds, labels, calc),
            AnyMetric::RecallArea => recall_area_of(preds, labels, calc),
            AnyMetric::Rank(kind, limit) => score_of(*kind, preds, labels, group, *limit, calc),
        }
    }
}

/// What stands before the `@` of a metric's name, or the whole name.
pub open spec fn base_name(name: Seq<char>) -> Seq<char> {
    name.take(first_of(name, '@', 0))
}

/// What stands behind the `@` of a metric's name.
pub open spec fn suffix(name: Seq<char>) -> Option<Seq<char>> {
    let at = first_of(name, '@', 0);
    if at < name.len() { Some(name.skip(at + 1)) } else { None }
}

/// The number of places that a ranking metric's suffix asks for.
pub open spec fn place_limit(name: Seq<char>) -> Option<usize> {
    match suffix(name) {
        Some(s) => match whole_number(s, usize::MAX as int) {
            Some(n) => Some(n as usize),
            None => None,
        },
        None => None,
    }
}

/// The variance power that a Tweedie metric's suffix asks for.
pub open spec fn tweedie_power<P: Fn(Precision, &str) -> Option<u64>>(
    name: Seq<char>,
    reader: &Reader<P>,
) -> Wide {
    let asked = match suffix(name) {
        Some(s) => reader.wide(s),
        None => None,
    };
    match asked {
        Some(rho) => rho,
        None => Wide { bits: TWEEDIE_POWER },
    }
}

/// The metric of a name, if there is one. Multiclass metrics are over
/// `num_class` classes, at least two.
pub open spec fn metric_named<P: Fn(Precision, &str) -> Option<u64>>(
    name: Seq<char>,
    num_class: usize,
    reader: &Reader<P>,
) -> Option<AnyMetric> {
    let base = base_name(name);
    let k = if num_class < 2 { 2usize } else { num_class };
    if base == "rmse"@ {
        Some(AnyMetric::Mean(Loss::Squared))
    } else if base == "mae"@ {
        Some(AnyMetric::Mean(Loss::Absolute))
    } else if base == "logloss"@ {
        Some(AnyMetric::Mean(Loss::Logistic))
    } else if base == "error"@ {
        Some(AnyMetric::Mean(Loss::Wrong))
    } else if base == "auc"@ {
        Some(AnyMetric::Area)
    } else if base == "aucpr"@ {
        Some(AnyMetric::RecallArea)
    } else if base == "mlogloss"@ {
        Some(AnyMetric::Mean(Loss::ClassLogistic(k)))
    } else if base == "merror"@ {
        Some(AnyMetric::Mean(Loss::ClassWrong(k)))
    } else if base == "ndcg"@ {
        Some(AnyMetric::Rank(RankScore::Gain, place_limit(name)))
    } else if base == "map"@ {
        Some(AnyMetric::Rank(RankScore::Precision, place_limit(name)))
    } else if base == "poisson-nloglik"@ {
        Some(AnyMetric::Mean(Loss::Poisson))
    } else if base == "gamma-nloglik"@ {
        Some(AnyMetric::Mean(Loss::Gamma))
    } else if base == "tweedie-nloglik"@ {
        Some(AnyMetric::Mean(Loss::Tweedie(tweedie_power(name, reader))))
    } else {
        None
    }
}

/// Whether an error says that a metric's name is unknown.
pub open spec fn unknown_metric(e: SequoiaError, name: Seq<char>) -> bool {
    e matches SequoiaError::Unknown { kind, name: n } && kind@ == "metric"@ && n@ == base_name(name)
}

proof fn at_lies_within(name: Seq<char>, k: int)
    requires
        0 <= k <= name.len(),
    ensures
        k <= first_of(name, '@', k) <= name.len(),
    decreases name.len() - k,
{
    if k < name.len() && name[k] != '@' {
        at_lies_within(name, k + 1);
    }
}

/// What stands before the `@` of a metric's name, or the whole name.
pub fn own_name(name: &str) -> (r: &str)
    ensures
        r@ == base_name(name@),
{
    let chars = chars_of(name);
    let at: usize = find_char(chars.as_slice(), '@', 0);
    let r = name.substring_char(0, at);
    assert(r@ =~= base_name(name@));
    r
}

/// A metric is called by what stands before the `@` of the name that asks for
/// it.
pub proof fn metrics_have_their_names<P: Fn(Precision, &str) -> Option<u64>>(
    name: Seq<char>,
    num_class: usize,
    reader: &Reader<P>,
)
    ensures
        metric_named(name, num_class, reader) matches Some(m) ==> m.title() == base_name(name),
{
}

/// The metric of a name.
pub fn create_metric<P: Fn(Precision, &str) -> Option<u64>>(
    name: &str,
    num_class: usize,
    reader: &Reader<P>,
) -> (r: Result<AnyMetric, SequoiaError>)
    ensures
        match r {
            Ok(m) => metric_named(name@, num_class, reader) == Some(m),
            Err(e) => metric_named(name@, num_class, reader) is None && unknown_metric(e, name@),
        },
{
    let chars = chars_of(name);
    let at: usize = find_char(chars.as_slice(), '@', 0);
    proof {
        at_lies_within(name@, 0);
    }
    let base = name.substring_char(0, at);
    assert(base@ =~= base_name(name@));
    let rest: Option<&str> = if at < chars.len() {
        Some(name.substring_char(at + 1, chars.len()))
    } else {
        None
    };
    proof {
        if rest is Some {
            assert(rest->0@ =~= name@.skip(at + 1));
        }
    }
    let k: usize = if num_class < 2 { 2 } else { num_class };
    if same_text(base, "rmse") {
        Ok(AnyMetric::Mean(Loss::Squared))
    } else if same_text(base, "mae") {
        Ok(AnyMetric::Mean(Loss::Absolute))
    } else if same_text(base, "logloss") {
        Ok(AnyMetric::Mean(Loss::Logistic))
    } else if same_text(base, "error") {
        Ok(AnyMetric::Mean(Loss::Wrong))
    } else if same_text(base, "auc") {
        Ok(AnyMetric::Area)
    } else if same_text(base, "aucpr") {
        Ok(AnyMetric::RecallArea)
    } else if same_text(base, "mlogloss") {
        Ok(AnyMetric::Mean(Loss::ClassLogistic(k)))
    } else if same_text(base, "merror") {
        Ok(AnyMetric::Mean(Loss::ClassWrong(k)))
    } else if same_text(base, "ndcg") {
        Ok(AnyMetric::Rank(RankScore::Gain, read_limit(rest)))
    } else if same_text(base, "map") {
        Ok(AnyMetric::Rank(RankScore::Precision, read_limit(rest)))
    } else if same_text(base, "poisson-nloglik") {
        Ok(AnyMetric::Mean(Loss::Poisson))
    } else if same_text(base, "gamma-nloglik") {
        Ok(AnyMetric::Mean(Loss::Gamma))
    } else if same_text(base, "tweedie-nloglik") {
        let asked = match rest {
            Some(s) => reader.read_wide(s),
            None => None,
        };
        let rho = match asked {
            Some(rho) => rho,
            None => Wide { bits: TWEEDIE_POWER },
        };
        Ok(AnyMetric::Mean(Loss::Tweedie(rho)))
    } else {
        Err(SequoiaError::unknown("metric", base.to_owned()))
    }
}

fn read_limit(rest: Option<&str>) -> (r: Option<usize>)
    ensures
        r == match rest {
            Some(s) => match whole_number(s@, usize::MAX as int) {
                Some(n) => Some(n as usize),
                None => None,
            },
            None => None,
        },
{
    match rest {
        Some(s) => match read_whole(s, usize::MAX as u64) {
            Some(n) => Some(n as usize),
            None => None,
        },
        None => None,
    }
}

/// The metrics to report: the listed ones, or else the objective's own.
pub open spec fn metric_names(listed: Seq<String>, default_name: Seq<char>) -> Seq<Seq<char>> {
    if listed.len() == 0 {
        seq![default_name]
    } else {
        Seq::new(listed.len(), |i: int| listed[i]@)
    }
}

/// Whether metrics are those of the given names.
pub open spec fn metrics_named<P: Fn(Precision, &str) -> Option<u64>>(
    metrics: Seq<AnyMetric>,
    names: Seq<Seq<char>>,
    num_class: usize,
    reader: &Reader<P>,
) -> bool {
    &&& metrics.len() == names.len()
    &&& forall|i: int|
        0 <= i < names.len() ==> metric_named(#[trigger] names[i], num_class, reader) == Some(
            metrics[i],
        )
}

/// Whether an error is that of the first of the given names that is unknown.
pub open spec fn first_unknown<P: Fn(Precision, &str) -> Option<u64>>(
    e: SequoiaError,
    names: Seq<Seq<char>>,
    num_class: usize,
    reader: &Reader<P>,
) -> bool {
    exists|i: int|
        0 <= i < names.len() && metric_named(#[trigger] names[i], num_class, reader) is None
            && unknown_metric(e, names[i]) && forall|j: int|
            0 <= j < i ==> metric_named(#[trigger] names[j], num_class, reader) is Some
}

/// The metrics to report: the listed ones, or else the objective's own.
pub fn create_metrics<P: Fn(Precision, &str) -> Option<u64>>(
    eval_metric: &[String],
    default_name: &str,
    num_class: usize,
    reader: &Reader<P>,
) -> (r: Result<Vec<AnyMetric>, SequoiaError>)
    ensures
        match r {
            Ok(list) => metrics_named(
                list@,
                metric_names(eval_metric@, default_name@),
                num_class,
                reader,
            ),
            Err(e) => first_unknown(
                e,
                metric_names(eval_metric@, default_name@),
                num_class,
                reader,
            ),
        },
{
    let ghost names = metric_names(eval_metric@, default_name@);
    let mut out: Vec<AnyMetric> = Vec::new();
    if eval_metric.len() == 0 {
        assert(names[0] == default_name@);
        match create_metric(default_name, num_class, reader) {
            Ok(m) => {
                out.push(m);
                Ok(out)
            },
            Err(e) => Err(e),
        }
    } else {
        let mut i: usize = 0;
        while i < eval_metric.len()
            invariant
                eval_metric.len() > 0,
                names == metric_names(eval_metric@, default_name@),
                i <= eval_metric.len(),
                out.len() == i,
                forall|j: int|
                    0 <= j < i ==> metric_named(#[trigger] names[j], num_class, reader) == Some(
                        out[j],
                    ),
            decreases eval_metric.len() - i,
        {
            assert(names[i as int] == eval_metric[i as int]@);
            match create_metric(eval_metric[i].as_str(), num_class, reader) {
                Ok(m) => out.push(m),
                Err(e) => {
                    return Err(e);
                },
            }
            i = i + 1;
        }
        Ok(out)
    }
}

} // verus!
