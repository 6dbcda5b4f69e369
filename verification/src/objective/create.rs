//! Objectives by name.

use vstd::prelude::*;

use crate::arith::{Calc, Op};
use crate::config::TrainingParams;
use crate::data::meta::GroupInfo;
use crate::error::SequoiaError;
use crate::number::{Single, ONE_S};
use crate::objective::base::{Objective, ObjectiveInfo};
use crate::objective::classification::LogisticObjective;
use crate::objective::count::{
    GammaObjective, PoissonObjective, TweedieObjective, POISSON_STEP, TWEEDIE_POWER,
};
use crate::objective::multiclass::SoftmaxObjective;
use crate::objective::pair::GradPair;
use crate::objective::ranking::{LambdaMartObjective, RankMode};
use crate::objective::regression::{PseudoHuberObjective, SquaredErrorObjective};
use crate::text::same_text;

verus! {

/// Any of the objectives that have a name.
#[derive(Clone, Copy, Debug)]
pub enum AnyObjective {
    /// Squared error.
    SquaredError(SquaredErrorObjective),
    /// Pseudo-Huber loss.
    PseudoHuber(PseudoHuberObjective),
    /// Logistic loss.
    Logistic(LogisticObjective),
    /// Softmax loss over classes.
    Softmax(SoftmaxObjective),
    /// Poisson loss.
    Poisson(PoissonObjective),
    /// Gamma loss.
    Gamma(GammaObjective),
    /// Tweedie loss.
    Tweedie(TweedieObjective),
    /// Pairwise ranking.
    LambdaMart(LambdaMartObjective),
}

impl ObjectiveInfo for AnyObjective {
    open spec fn title(&self) -> Seq<char> {
        match self {
            AnyObjective::SquaredError(o) => o.title(),
            AnyObjective::PseudoHuber(o) => o.title(),
            AnyObjective::Logistic(o) => o.title(),
            AnyObjective::Softmax(o) => o.title(),
            AnyObjective::Poisson(o) => o.title(),
            AnyObjective::Gamma(o) => o.title(),
            AnyObjective::Tweedie(o) => o.title(),
            AnyObjective::LambdaMart(o) => o.title(),
        }
    }

    open spec fn outputs(&self) -> int {
        match self {
            AnyObjective::SquaredError(o) => o.outputs(),
            AnyObjective::PseudoHuber(o) => o.outputs(),
            AnyObjective::Logistic(o) => o.outputs(),
            AnyObjective::Softmax(o) => o.outputs(),
            AnyObjective::Poisson(o) => o.outputs(),
            AnyObjective::Gamma(o) => o.outputs(),
            AnyObjective::Tweedie(o) => o.outputs(),
            AnyObjective::LambdaMart(o) => o.outputs(),
        }
    }

    open spec fn metric(&self) -> Seq<char> {
        match self {
            AnyObjective::SquaredError(o) => o.metric(),
            AnyObjective::PseudoHuber(o) => o.metric(),
            AnyObjective::Logistic(o) => o.metric(),
            AnyObjective::Softmax(o) => o.metric(),
            AnyObjective::Poisson(o) => o.metric(),
            AnyObjective::Gamma(o) => o.metric(),
            AnyObjective::Tweedie(o) => o.metric(),
            AnyObjective::LambdaMart(o) => o.metric(),
        }
    }

    fn name(&self) -> (r: &str) {
        match self {
            AnyObjective::SquaredError(o) => o.name(),
            AnyObjective::PseudoHuber(o) => o.name(),
            AnyObjective::Logistic(o) => o.name(),
            AnyObjective::Softmax(o) => o.name(),
            AnyObjective::Poisson(o) => o.name(),
            AnyObjective::Gamma(o) => o.name(),
            AnyObjective::Tweedie(o) => o.name(),
            AnyObjective::LambdaMart(o) => o.name(),
        }
    }

    fn n_outputs(&self) -> (r: usize) {
        match self {
            AnyObjective::SquaredError(o) => o.n_outputs(),
            AnyObjective::PseudoHuber(o) => o.n_outputs(),
            AnyObjective::Logistic(o) => o.n_outputs(),
            AnyObjective::Softmax(o) => o.n_outputs(),
            AnyObjective::Poisson(o) => o.n_outputs(),
            AnyObjective::Gamma(o) => o.n_outputs(),
            AnyObjective::Tweedie(o) => o.n_outputs(),
            AnyObjective::LambdaMart(o) => o.n_outputs(),
        }
    }

    fn default_metric(&self) -> (r: &str) {
        match self {
            AnyObjective::SquaredError(o) => o.default_metric(),
            AnyObjective::PseudoHuber(o) => o.default_metric(),
            AnyObjective::Logistic(o) => o.default_metric(),
            AnyObjective::Softmax(o) => o.default_metric(),
            AnyObjective::Poisson(o) => o.default_metric(),
            AnyObjective::Gamma(o) => o.default_metric(),
            AnyObjective::Tweedie(o) => o.default_metric(),
            AnyObjective::LambdaMart(o) => o.default_metric(),
        }
    }
}

impl<F: Fn(Op, u64, u64) -> u64> Objective<F> for AnyObjective {
    open spec fn usable(&self) -> bool {
        match self {
            AnyObjective::SquaredError(o) => <SquaredErrorObjective as Objective<F>>::usable(o),
            AnyObjective::PseudoHuber(o) => <PseudoHuberObjective as Objective<F>>::usable(o),
            AnyObjective::Logistic(o) => <LogisticObjective as Objective<F>>::usable(o),
            AnyObjective::Softmax(o) => <SoftmaxObjective as Objective<F>>::usable(o),
            AnyObjective::Poisson(o) => <PoissonObjective as Objective<F>>::usable(o),
            AnyObjective::Gamma(o) => <GammaObjective as Objective<F>>::usable(o),
            AnyObjective::Tweedie(o) => <TweedieObjective as Objective<F>>::usable(o),
            AnyObjective::LambdaMart(o) => <LambdaMartObjective as Objective<F>>::usable(o),
        }
    }

    open spec fn gradients(
        &self,
        preds: Seq<Single>,
        labels: Seq<Single>,
        weights: Option<Seq<Single>>,
        groups: Option<Seq<usize>>,
        calc: &Calc<F>,
    ) -> Seq<GradPair> {
        match self {
            AnyObjective::SquaredError(o) => o.gradients(preds, labels, weights, groups, calc),
            AnyObjective::PseudoHuber(o) => o.gradients(preds, labels, weights, groups, calc),
            AnyObjective::Logistic(o) => o.gradients(preds, labels, weights, groups, calc),
            AnyObjective::Softmax(o) => o.gradients(preds, labels, weights, groups, calc),
            AnyObjective::Poisson(o) => o.gradients(preds, labels, weights, groups, calc),
            AnyObjective::Gamma(o) => o.gradients(preds, labels, weights, groups, calc),
            AnyObjective::Tweedie(o) => o.gradients(preds, labels, weights, groups, calc),
            AnyObjective::LambdaMart(o) => o.gradients(preds, labels, weights, groups, calc),
        }
    }

    open spec fn transformed(&self, preds: Seq<Single>, calc: &Calc<F>) -> Seq<Single> {
        match self {
            AnyObjective::SquaredError(o) => o.transformed(preds, calc),
            AnyObjective::PseudoHuber(o) => o.transformed(preds, calc),
            AnyObjective::Logistic(o) => o.transformed(preds, calc),
            AnyObjective::Softmax(o) => o.transformed(preds, calc),
            AnyObjective::Poisson(o) => o.transformed(preds, calc),
            AnyObjective::Gamma(o) => o.transformed(preds, calc),
            AnyObjective::Tweedie(o) => o.transformed(preds, calc),
            AnyObjective::LambdaMart(o) => o.transformed(preds, calc),
        }
    }

    open spec fn start(
        &self,
        labels: Seq<Single>,
        weights: Option<Seq<Single>>,
        calc: &Calc<F>,
    ) -> Single {
        match self {
            AnyObjective::SquaredError(o) => o.start(labels, weights, calc),
            AnyObjective::PseudoHuber(o) => o.start(labels, weights, calc),
            AnyObjective::Logistic(o) => o.start(labels, weights, calc),
            AnyObjective::Softmax(o) => o.start(labels, weights, calc),
            AnyObjective::Poisson(o) => o.start(labels, weights, calc),
            AnyObjective::Gamma(o) => o.start(labels, weights, calc),
            AnyObjective::Tweedie(o) => o.start(labels, weights, calc),
            AnyObjective::LambdaMart(o) => o.start(labels, weights, calc),
        }
    }

    open spec fn margin_of(&self, base_score: Single, calc: &Calc<F>) -> Single {
        match self {
            AnyObjective::SquaredError(o) => o.margin_of(base_score, calc),
            AnyObjective::PseudoHuber(o) => o.margin_of(base_score, calc),
            AnyObjective::Logistic(o) => o.margin_of(base_score, calc),
            AnyObjective::Softmax(o) => o.margin_of(base_score, calc),
            AnyObjective::Poisson(o) => o.margin_of(base_score, calc),
            AnyObjective::Gamma(o) => o.margin_of(base_score, calc),
            AnyObjective::Tweedie(o) => o.margin_of(base_score, calc),
            AnyObjective::LambdaMart(o) => o.margin_of(base_score, calc),
        }
    }

    fn gradient_grouped(
        &self,
        preds: &[Single],
        labels: &[Single],
        weights: Option<&[Single]>,
        group: Option<&GroupInfo>,
        out: &mut Vec<GradPair>,
        calc: &Calc<F>,
    ) {
        match self {
            AnyObjective::SquaredError(o) => o.gradient_grouped(preds, labels, weights, group, out, calc),
            AnyObjective::PseudoHuber(o) => o.gradient_grouped(preds, labels, weights, group, out, calc),
            AnyObjective::Logistic(o) => o.gradient_grouped(preds, labels, weights, group, out, calc),
            AnyObjective::Softmax(o) => o.gradient_grouped(preds, labels, weights, group, out, calc),
            AnyObjective::Poisson(o) => o.gradient_grouped(preds, labels, weights, group, out, calc),
            AnyObjective::Gamma(o) => o.gradient_grouped(preds, labels, weights, group, out, calc),
            AnyObjective::Tweedie(o) => o.gradient_grouped(preds, labels, weights, group, out, calc),
            AnyObjective::LambdaMart(o) => o.gradient_grouped(preds, labels, weights, group, out, calc),
        }
    }

    fn pred_transform(&self, preds: &mut Vec<Single>, calc: &Calc<F>) {
        match self {
            AnyObjective::SquaredError(o) => o.pred_transform(preds, calc),
            AnyObjective::PseudoHuber(o) => o.pred_transform(preds, calc),
            AnyObjective::Logistic(o) => o.pred_transform(preds, calc),
            AnyObjective::Softmax(o) => o.pred_transform(preds, calc),
            AnyObjective::Poisson(o) => o.pred_transform(preds, calc),
            AnyObjective::Gamma(o) => o.pred_transform(preds, calc),
            AnyObjective::Tweedie(o) => o.pred_transform(preds, calc),
            AnyObjective::LambdaMart(o) => o.pred_transform(preds, calc),
        }
    }

    fn base_margin(
        &self,
        labels: &[Single],
        weights: Option<&[Single]>,
        calc: &Calc<F>,
    ) -> (r: Single) {
        match self {
            AnyObjective::SquaredError(o) => o.base_margin(labels, weights, calc),
            AnyObjective::PseudoHuber(o) => o.base_margin(labels, weights, calc),
            AnyObjective::Logistic(o) => o.base_margin(labels, weights, calc),
            AnyObjective::Softmax(o) => o.base_margin(labels, weights, calc),
            AnyObjective::Poisson(o) => o.base_margin(labels, weights, calc),
            AnyObjective::Gamma(o) => o.base_margin(labels, weights, calc),
            AnyObjective::Tweedie(o) => o.base_margin(labels, weights, calc),
            AnyObjective::LambdaMart(o) => o.base_margin(labels, weights, calc),
        }
    }

    fn prob_to_margin(&self, base_score: Single, calc: &Calc<F>) -> (r: Single) {
        match self {
            AnyObjective::SquaredError(o) => o.prob_to_margin(base_score, calc),
            AnyObjective::PseudoHuber(o) => o.prob_to_margin(base_score, calc),
            AnyObjective::Logistic(o) => o.prob_to_margin(base_score, calc),
            AnyObjective::Softmax(o) => o.prob_to_margin(base_score, calc),
            AnyObjective::Poisson(o) => o.prob_to_margin(base_score, calc),
            AnyObjective::Gamma(o) => o.prob_to_margin(base_score, calc),
            AnyObjective::Tweedie(o) => o.prob_to_margin(base_score, calc),
            AnyObjective::LambdaMart(o) => o.prob_to_margin(base_score, calc),
        }
    }
}

/// What a name asks for.
#[derive(Clone, Copy, Debug, PartialEq, Eq, Structural)]
pub enum ObjectiveKind {
    /// Squared error.
    SquaredError,
    /// Pseudo-Huber loss.
    PseudoHuber,
    /// Logistic loss.
    Logistic,
    /// Softmax loss, with probabilities reported or not.
    Softmax(bool),
    /// Poisson loss.
    Poisson,
    /// Gamma loss.
    Gamma,
    /// Tweedie loss.
    Tweedie,
    /// Pairwise ranking by the given loss.
    Rank(RankMode),
}

/// What a name asks for, if it is known.
pub open spec fn kind_named(name: Seq<char>) -> Option<ObjectiveKind> {
    if name == "reg:squarederror"@ || name == "reg:linear"@ {
        Some(ObjectiveKind::SquaredError)
    } else if name == "reg:pseudohubererror"@ {
        Some(ObjectiveKind::PseudoHuber)
    } else if name == "binary:logistic"@ || name == "reg:logistic"@ {
        Some(ObjectiveKind::Logistic)
    } else if name == "multi:softmax"@ {
        Some(ObjectiveKind::Softmax(false))
    } else if name == "multi:softprob"@ {
        Some(ObjectiveKind::Softmax(true))
    } else if name == "count:poisson"@ {
        Some(ObjectiveKind::Poisson)
    } else if name == "reg:gamma"@ {
        Some(ObjectiveKind::Gamma)
    } else if name == "reg:tweedie"@ {
        Some(ObjectiveKind::Tweedie)
    } else if name == "rank:pairwise"@ {
        Some(ObjectiveKind::Rank(RankMode::Pairwise))
    } else if name == "rank:ndcg"@ {
        Some(ObjectiveKind::Rank(RankMode::Ndcg))
    } else if name == "rank:map"@ {
        Some(ObjectiveKind::Rank(RankMode::Precision))
    } else {
        None
    }
}

/// Whether an objective is what was asked for, under the given number of
/// classes and weight of positive instances.
pub open spec fn is_kind(
    o: AnyObjective,
    kind: ObjectiveKind,
    num_class: usize,
    positive_weight: Single,
) -> bool {
    match kind {
        ObjectiveKind::SquaredError => o is SquaredError,
        ObjectiveKind::PseudoHuber => o is PseudoHuber,
        ObjectiveKind::Logistic => o matches AnyObjective::Logistic(l) && l.positive_weight()
            == positive_weight,
        ObjectiveKind::Softmax(prob) => o matches AnyObjective::Softmax(s) && s.classes()
            == num_class && s.reports_probabilities() == prob,
        ObjectiveKind::Poisson => o matches AnyObjective::Poisson(p) && p.step() == (Single {
            bits: POISSON_STEP,
        }),
        ObjectiveKind::Gamma => o is Gamma,
        ObjectiveKind::Tweedie => o matches AnyObjective::Tweedie(t) && t.power() == (Single {
            bits: TWEEDIE_POWER,
        }),
        ObjectiveKind::Rank(mode) => o matches AnyObjective::LambdaMart(l) && l.loss() == mode,
    }
}

pub(crate) proof fn some_objective_is_of_the_kind(
    kind: ObjectiveKind,
    num_class: usize,
    positive_weight: Single,
) -> (o: AnyObjective)
    ensures
        is_kind(o, kind, num_class, positive_weight),
{
    match kind {
        ObjectiveKind::SquaredError => AnyObjective::SquaredError(SquaredErrorObjective),
        ObjectiveKind::PseudoHuber => AnyObjective::PseudoHuber(PseudoHuberObjective),
        ObjectiveKind::Logistic => AnyObjective::Logistic(
            LogisticObjective::weighing(positive_weight),
        ),
        ObjectiveKind::Softmax(prob) => AnyObjective::Softmax(
            SoftmaxObjective::over(num_class, prob),
        ),
        ObjectiveKind::Poisson => AnyObjective::Poisson(
            PoissonObjective::stepping(Single { bits: POISSON_STEP }),
        ),
        ObjectiveKind::Gamma => AnyObjective::Gamma(GammaObjective),
        ObjectiveKind::Tweedie => AnyObjective::Tweedie(
            TweedieObjective::raising(Single { bits: TWEEDIE_POWER }),
        ),
        ObjectiveKind::Rank(mode) => AnyObjective::LambdaMart(LambdaMartObjective::ranking(mode)),
    }
}

/// Whether there are too few classes for what was asked for.
pub open spec fn too_few_classes(kind: ObjectiveKind, num_class: usize) -> bool {
    kind is Softmax && num_class < 2
}

/// Whether an error is the one that an objective's name and the number of
/// classes call for.
pub open spec fn objective_error(e: SequoiaError, name: Seq<char>, num_class: usize) -> bool {
    match kind_named(name) {
        None => e matches SequoiaError::Unknown { kind, name: n } && kind@ == "objective"@ && n@
            == name,
        Some(kind) => too_few_classes(kind, num_class) && (
        e matches SequoiaError::InvalidParameter { name: n, reason } && n@ == "num_class"@
            && reason@ == "multiclass objectives require num_class >= 2"@),
    }
}

/// The objective of a name, over the given number of classes and with the
/// given weight of positive instances.
pub fn named_objective(name: &str, num_class: usize, positive_weight: Single) -> (r: Result<
    AnyObjective,
    SequoiaError,
>)
    ensures
        match r {
            Ok(o) => {
                &&& kind_named(name@) matches Some(kind)
                &&& !too_few_classes(kind, num_class)
                &&& is_kind(o, kind, num_class, positive_weight)
            },
            Err(e) => objective_error(e, name@, num_class),
        },
{
    if same_text(name, "reg:squarederror") || same_text(name, "reg:linear") {
        Ok(AnyObjective::SquaredError(SquaredErrorObjective))
    } else if same_text(name, "reg:pseudohubererror") {
        Ok(AnyObjective::PseudoHuber(PseudoHuberObjective))
    } else if same_text(name, "binary:logistic") || same_text(name, "reg:logistic") {
        Ok(AnyObjective::Logistic(LogisticObjective::new(positive_weight)))
    } else if same_text(name, "multi:softmax") || same_text(name, "multi:softprob") {
        if num_class < 2 {
            return Err(
                SequoiaError::invalid_param(
                    "num_class",
                    "multiclass objectives require num_class >= 2".to_owned(),
                ),
            );
        }
        let prob = !same_text(name, "multi:softmax");
        Ok(AnyObjective::Softmax(SoftmaxObjective::new(num_class, prob)))
    } else if same_text(name, "count:poisson") {
        Ok(AnyObjective::Poisson(PoissonObjective::default()))
    } else if same_text(name, "reg:gamma") {
        Ok(AnyObjective::Gamma(GammaObjective))
    } else if same_text(name, "reg:tweedie") {
        Ok(AnyObjective::Tweedie(TweedieObjective::default()))
    } else if same_text(name, "rank:pairwise") {
        Ok(AnyObjective::LambdaMart(LambdaMartObjective::pairwise()))
    } else if same_text(name, "rank:ndcg") {
        Ok(AnyObjective::LambdaMart(LambdaMartObjective::ndcg()))
    } else if same_text(name, "rank:map") {
        Ok(AnyObjective::LambdaMart(LambdaMartObjective::map()))
    } else {
        Err(SequoiaError::unknown("objective", name.to_owned()))
    }
}

/// The objective that the parameters name.
pub fn create_objective<F: Fn(Op, u64, u64) -> u64>(
    params: &TrainingParams,
    calc: &Calc<F>,
) -> (r: Result<AnyObjective, SequoiaError>)
    ensures
        match r {
            Ok(o) => {
                &&& kind_named(params.objective@) matches Some(kind)
                &&& !too_few_classes(kind, params.num_class)
                &&& is_kind(
                    o,
                    kind,
                    params.num_class,
                    calc.narrowed(params.scale_pos_weight),
                )
            },
            Err(e) => objective_error(e, params.objective@, params.num_class),
        },
{
    named_objective(
        params.objective.as_str(),
        params.num_class,
        calc.narrow(params.scale_pos_weight),
    )
}

/// The number of outputs per instance under an objective's name: the number of
/// classes for a multiclass objective or one whose name is not known, else one.
pub open spec fn outputs_named(name: Seq<char>, num_class: usize) -> int {
    let classes = if num_class < 2 { 1int } else { num_class as int };
    match kind_named(name) {
        Some(kind) => if kind is Softmax { classes } else { 1 },
        None => classes,
    }
}

/// The name `multi:softmax` asks for the softmax loss, with one output per class.
pub proof fn softmax_has_its_classes(num_class: usize)
    ensures
        kind_named("multi:softmax"@) == Some(ObjectiveKind::Softmax(false)),
        num_class >= 2 ==> outputs_named("multi:softmax"@, num_class) == num_class,
{
    reveal_strlit("multi:softmax");
    reveal_strlit("reg:squarederror");
    reveal_strlit("reg:linear");
    reveal_strlit("reg:pseudohubererror");
    reveal_strlit("binary:logistic");
    reveal_strlit("reg:logistic");
    assert("multi:softmax"@.len() == 13);
    assert("reg:squarederror"@.len() == 16);
    assert("reg:linear"@.len() == 10);
    assert("reg:pseudohubererror"@.len() == 20);
    assert("binary:logistic"@.len() == 15);
    assert("reg:logistic"@.len() == 12);
}

/// An objective that a name asks for can be used and has the outputs that go
/// with the name.
pub proof fn kinds_have_their_outputs<F: Fn(Op, u64, u64) -> u64>(
    o: AnyObjective,
    name: Seq<char>,
    num_class: usize,
    positive_weight: Single,
    calc: &Calc<F>,
)
    requires
        kind_named(name) is Some,
        !too_few_classes(kind_named(name)->0, num_class),
        is_kind(o, kind_named(name)->0, num_class, positive_weight),
    ensures
        <AnyObjective as Objective<F>>::usable(&o),
        o.outputs() == outputs_named(name, num_class),
{
}

/// The reported predictions of margins under an objective's name: as they are
/// where the name is not known.
pub open spec fn reported<F: Fn(Op, u64, u64) -> u64>(
    name: Seq<char>,
    num_class: usize,
    margins: Seq<Single>,
    calc: &Calc<F>,
) -> Seq<Single> {
    match kind_named(name) {
        Some(kind) => if too_few_classes(kind, num_class) {
            margins
        } else {
            let o = choose|o: AnyObjective|
                is_kind(o, kind, num_class, Single { bits: ONE_S });
            o.transformed(margins, calc)
        },
        None => margins,
    }
}

/// Objectives that the same name asks for report margins alike and start from
/// a prediction alike, however positive instances are weighted.
pub proof fn kinds_report_alike<F: Fn(Op, u64, u64) -> u64>(
    a: AnyObjective,
    b: AnyObjective,
    kind: ObjectiveKind,
    num_class: usize,
    weight_a: Single,
    weight_b: Single,
    margins: Seq<Single>,
    score: Single,
    calc: &Calc<F>,
)
    requires
        is_kind(a, kind, num_class, weight_a),
        is_kind(b, kind, num_class, weight_b),
    ensures
        a.transformed(margins, calc) == b.transformed(margins, calc),
        a.margin_of(score, calc) == b.margin_of(score, calc),
{
}

/// Turn margins into the predictions that are reported under an objective's
/// name.
pub fn report<F: Fn(Op, u64, u64) -> u64>(
    name: &str,
    num_class: usize,
    margins: &mut Vec<Single>,
    calc: &Calc<F>,
)
    ensures
        final(margins)@ == reported(name@, num_class, old(margins)@, calc),
        final(margins).len() == old(margins).len(),
{
    let one = Single { bits: ONE_S };
    match named_objective(name, num_class, one) {
        Ok(o) => {
            proof {
                let kind = kind_named(name@)->0;
                let p = choose|p: AnyObjective| is_kind(p, kind, num_class, one);
                kinds_report_alike(o, p, kind, num_class, one, one, margins@, one, calc);
                kinds_have_their_outputs(o, name@, num_class, one, calc);
            }
            o.pred_transform(margins, calc);
        },
        Err(_) => {},
    }
}

/// The margin of a prediction under an objective's name: the prediction itself
/// where the name is not known.
pub open spec fn started<F: Fn(Op, u64, u64) -> u64>(
    name: Seq<char>,
    num_class: usize,
    score: Single,
    calc: &Calc<F>,
) -> Single {
    match kind_named(name) {
        Some(kind) => if too_few_classes(kind, num_class) {
            score
        } else {
            let o = choose|o: AnyObjective|
                is_kind(o, kind, num_class, Single { bits: ONE_S });
            o.margin_of(score, calc)
        },
        None => score,
    }
}

/// The margin of a prediction under an objective's name.
pub fn start_from<F: Fn(Op, u64, u64) -> u64>(
    name: &str,
    num_class: usize,
    score: Single,
    calc: &Calc<F>,
) -> (r: Single)
    ensures
        r == started(name@, num_class, score, calc),
{
    let one = Single { bits: ONE_S };
    match named_objective(name, num_class, one) {
        Ok(o) => {
            proof {
                let kind = kind_named(name@)->0;
                let p = choose|p: AnyObjective| is_kind(p, kind, num_class, one);
                kinds_report_alike(o, p, kind, num_class, one, one, Seq::empty(), score, calc);
            }
            o.prob_to_margin(score, calc)
        },
        Err(_) => score,
    }
}

} // verus!
