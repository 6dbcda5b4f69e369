use sequoia_boost::arith::{Calc, Op};
use sequoia_boost::config::TrainingParams;
use sequoia_boost::data::meta::GroupInfo;
use sequoia_boost::error::SequoiaError;
use sequoia_boost::number::{Single, Wide};
use sequoia_boost::objective::base::{weighted_label_mean, Objective, ObjectiveInfo};
use sequoia_boost::objective::classification::{sigmoid, LogisticObjective};
use sequoia_boost::objective::count::{GammaObjective, PoissonObjective, TweedieObjective};
use sequoia_boost::objective::create::create_objective;
use sequoia_boost::objective::custom::{CustomObjective, Mapped};
use sequoia_boost::objective::multiclass::{softmax_inplace, SoftmaxObjective};
use sequoia_boost::objective::pair::GradPair;
use sequoia_boost::objective::ranking::{swap_delta, LambdaMartObjective, RankMode};
use sequoia_boost::objective::regression::{PseudoHuberObjective, SquaredErrorObjective};

fn s(x: f32) -> Single {
    Single { bits: x.to_bits() }
}

fn f(v: Single) -> f32 {
    f32::from_bits(v.bits)
}

#[allow(dead_code)]
fn w(x: f64) -> Wide {
    Wide { bits: x.to_bits() }
}

#[allow(dead_code)]
fn g(v: Wide) -> f64 {
    f64::from_bits(v.bits)
}

#[allow(dead_code)]
fn many(x: &[f32]) -> Vec<Single> {
    x.iter().map(|v| s(*v)).collect()
}

#[allow(dead_code)]
fn floats(x: &[Single]) -> Vec<f32> {
    x.iter().map(|v| f(*v)).collect()
}

fn compute(op: Op, a: u64, b: u64) -> u64 {
    let (x, y) = (f64::from_bits(a), f64::from_bits(b));
    let (p, q) = (f32::from_bits(a as u32), f32::from_bits(b as u32));
    match op {
        Op::Add => (x + y).to_bits(),
        Op::Sub => (x - y).to_bits(),
        Op::Mul => (x * y).to_bits(),
        Op::Div => (x / y).to_bits(),
        Op::Pow => x.powf(y).to_bits(),
        Op::Exp => x.exp().to_bits(),
        Op::Ln => x.ln().to_bits(),
        Op::Log2 => x.log2().to_bits(),
        Op::Sqrt => x.sqrt().to_bits(),
        Op::Round => x.round().to_bits(),
        Op::Ceil => x.ceil().to_bits(),
        Op::AddSingle => (p + q).to_bits() as u64,
        Op::SubSingle => (p - q).to_bits() as u64,
        Op::MulSingle => (p * q).to_bits() as u64,
        Op::DivSingle => (p / q).to_bits() as u64,
        Op::ExpSingle => p.exp().to_bits() as u64,
        Op::LnSingle => p.ln().to_bits() as u64,
        Op::SqrtSingle => p.sqrt().to_bits() as u64,
        Op::Widen => (p as f64).to_bits(),
        Op::Narrow => (x as f32).to_bits() as u64,
        Op::OfInteger => (a as f64).to_bits(),
        Op::OfIntegerSingle => (a as f32).to_bits() as u64,
    }
}

fn calc() -> Calc<fn(Op, u64, u64) -> u64> {
    Calc::new(compute)
}

fn close(a: f32, b: f32, eps: f32) -> bool {
    (a - b).abs() <= eps
}

fn zeros(n: usize) -> Vec<GradPair> {
    vec![GradPair::default(); n]
}

fn pair(grad: f32, hess: f32) -> GradPair {
    GradPair::new(s(grad), s(hess))
}

fn sigma(x: f32) -> f32 {
    f(sigmoid(s(x), &calc()))
}

#[test]
fn sigmoid_symmetry() {
    assert!(close(sigma(0.0), 0.5, 1e-6));
    assert!(close(sigma(2.0) + sigma(-2.0), 1.0, 1e-6));
    // Extreme values do not overflow.
    assert!(sigma(80.0) <= 1.0 && sigma(80.0) > 0.999);
    assert!(sigma(-80.0) >= 0.0 && sigma(-80.0) < 0.001);
}

#[test]
fn classification_gradient_matches_closed_form() {
    let obj = LogisticObjective::default();
    // margin 0 -> p = 0.5
    let preds = many(&[0.0f32]);
    let labels = many(&[1.0f32]);
    let mut out = zeros(1);
    obj.gradient(&preds, &labels, None, &mut out, &calc());
    assert!(close(f(out[0].grad), -0.5, 1e-6)); // 0.5 - 1
    assert!(close(f(out[0].hess), 0.25, 1e-6)); // 0.5 * 0.5
}

#[test]
fn scale_pos_weight_scales_positive() {
    let obj = LogisticObjective::new(s(3.0));
    let preds = many(&[0.0f32, 0.0]);
    let labels = many(&[1.0f32, 0.0]);
    let mut out = zeros(2);
    obj.gradient(&preds, &labels, None, &mut out, &calc());
    // positive instance gradient/hess scaled by 3
    assert!(close(f(out[0].grad), -1.5, 1e-6));
    assert!(close(f(out[0].hess), 0.75, 1e-6));
    // negative instance unaffected
    assert!(close(f(out[1].grad), 0.5, 1e-6));
    assert!(close(f(out[1].hess), 0.25, 1e-6));
}

#[test]
fn base_margin_is_logit_of_rate() {
    let obj = LogisticObjective::default();
    // 50% positive -> logit(0.5) = 0
    assert!(close(f(obj.base_margin(&many(&[1.0, 0.0]), None, &calc())), 0.0, 1e-6));
}

#[test]
fn poisson_gradient_at_log_mean_is_zero_sum() {
    // At margin = log(y) the gradient exp(m)-y = 0.
    let obj = PoissonObjective::default();
    let labels = many(&[2.0f32, 5.0]);
    let preds = many(&[2.0f32.ln(), 5.0f32.ln()]);
    let mut out = zeros(2);
    obj.gradient(&preds, &labels, None, &mut out, &calc());
    assert!(close(f(out[0].grad), 0.0, 1e-5));
    assert!(close(f(out[1].grad), 0.0, 1e-5));
    assert!(f(out[0].hess) > 0.0);
}

#[test]
fn log_link_base_scores_are_logarithms() {
    let score = s(3.0);
    let poisson = PoissonObjective::default();
    let gamma = GammaObjective::default();
    let tweedie = TweedieObjective::default();
    assert!(close(f(poisson.prob_to_margin(score, &calc())), 3.0f32.ln(), 1e-6));
    assert!(close(f(gamma.prob_to_margin(score, &calc())), 3.0f32.ln(), 1e-6));
    assert!(close(f(tweedie.prob_to_margin(score, &calc())), 3.0f32.ln(), 1e-6));
}

#[test]
fn gamma_gradient_zero_at_log_y() {
    let obj = GammaObjective;
    let labels = many(&[3.0f32]);
    let preds = many(&[3.0f32.ln()]);
    let mut out = zeros(1);
    obj.gradient(&preds, &labels, None, &mut out, &calc());
    // 1 - y*exp(-log y) = 1 - 1 = 0
    assert!(close(f(out[0].grad), 0.0, 1e-5));
}

#[test]
fn tweedie_transform_is_exp() {
    let obj = TweedieObjective::default();
    let mut p = many(&[0.0f32, 1.0]);
    obj.pred_transform(&mut p, &calc());
    assert!(close(f(p[0]), 1.0, 1e-6));
    assert!(close(f(p[1]), 1.0f32.exp(), 1e-6));
}

#[test]
fn custom_squared_error_behaves() {
    // Reimplement squared error as a custom objective.
    let obj = CustomObjective::new(
        "custom:sqerr".to_string(),
        1,
        s(0.0),
        "rmse".to_string(),
        |preds: &[Single], labels: &[Single], w: Option<&[Single]>| {
            (0..preds.len())
                .map(|i| {
                    let wi = w.map_or(1.0, |ws| f(ws[i]));
                    pair((f(preds[i]) - f(labels[i])) * wi, wi)
                })
                .collect()
        },
    );
    let mut out = zeros(2);
    obj.gradient(&many(&[2.0, 0.0]), &many(&[1.0, 0.5]), None, &mut out, &calc());
    assert_eq!(out[0], pair(1.0, 1.0));
    assert_eq!(out[1], pair(-0.5, 1.0));
    assert_eq!(obj.name(), "custom:sqerr");
    assert_eq!(obj.default_metric(), "rmse");
    assert_eq!(obj.n_outputs(), 1);
}

#[test]
fn custom_transforms_are_applied() {
    let obj = CustomObjective::new(
        "custom".to_string(),
        1,
        s(0.25),
        "rmse".to_string(),
        |preds: &[Single], _: &[Single], _: Option<&[Single]>| {
            preds.iter().map(|p| pair(f(*p), 1.0)).collect()
        },
    )
    .with_transform(Mapped::new(|p: &[Single]| p.iter().map(|v| s(f(*v) * 2.0)).collect()));
    let mut p = many(&[1.5, -2.0]);
    obj.pred_transform(&mut p, &calc());
    assert_eq!(p, many(&[3.0, -4.0]));
    assert_eq!(obj.base_margin(&[], None, &calc()), s(0.25));
}

#[test]
fn weighted_mean_basic() {
    let labels = many(&[1.0f32, 3.0]);
    assert!((g(weighted_label_mean(&labels, None, &calc())) - 2.0).abs() < 1e-9);
    let weights = many(&[3.0f32, 1.0]);
    // (1*3 + 3*1) / 4 = 1.5
    assert!((g(weighted_label_mean(&labels, Some(&weights), &calc())) - 1.5).abs() < 1e-9);
}

#[test]
fn factory_resolves_known_and_rejects_unknown() {
    let p = TrainingParams::builder()
        .objective("reg:squarederror")
        .build_unchecked();
    assert_eq!(create_objective(&p, &calc()).unwrap().name(), "reg:squarederror");
    let p = TrainingParams::builder()
        .objective("nope:whatever")
        .build_unchecked();
    assert!(create_objective(&p, &calc()).is_err());
}

#[test]
fn every_objective_is_known_by_its_name() {
    for name in [
        "reg:squarederror",
        "reg:pseudohubererror",
        "binary:logistic",
        "multi:softmax",
        "multi:softprob",
        "count:poisson",
        "reg:gamma",
        "reg:tweedie",
        "rank:pairwise",
        "rank:ndcg",
        "rank:map",
    ] {
        let p = TrainingParams::builder().objective(name).num_class(3).build_unchecked();
        let o = create_objective(&p, &calc()).unwrap();
        assert_eq!(o.name(), name);
        let outputs = if name.starts_with("multi") { 3 } else { 1 };
        assert_eq!(o.n_outputs(), outputs, "{name}");
    }
    let p = TrainingParams::builder().objective("multi:softmax").num_class(1).build_unchecked();
    match create_objective(&p, &calc()) {
        Err(SequoiaError::InvalidParameter { name, reason }) => {
            assert_eq!(name, "num_class");
            assert_eq!(reason, "multiclass objectives require num_class >= 2");
        }
        _ => panic!("too few classes must be refused"),
    }
    let p = TrainingParams::builder().objective("x").build_unchecked();
    assert!(matches!(
        create_objective(&p, &calc()),
        Err(SequoiaError::Unknown { kind: "objective", .. })
    ));
}

#[test]
fn softmax_normalizes() {
    let mut r = many(&[1.0f32, 2.0, 3.0]);
    softmax_inplace(&mut r, 0, 3, &calc());
    let r = floats(&r);
    assert!(close(r.iter().sum::<f32>(), 1.0, 1e-6));
    assert!(r[2] > r[1] && r[1] > r[0]);
}

#[test]
fn gradient_layout_and_values() {
    // 2 instances, 3 classes, all margins 0 -> uniform p = 1/3.
    let obj = SoftmaxObjective::new(3, true);
    let preds = many(&[0.0f32; 6]);
    let labels = many(&[0.0f32, 2.0]);
    let mut out = zeros(6);
    obj.gradient(&preds, &labels, None, &mut out, &calc());
    // instance 0, correct class 0: grad = 1/3 - 1
    assert!(close(f(out[0].grad), 1.0 / 3.0 - 1.0, 1e-6));
    // instance 0, class 1: grad = 1/3
    assert!(close(f(out[1].grad), 1.0 / 3.0, 1e-6));
    // instance 1, correct class 2: grad = 1/3 - 1
    assert!(close(f(out[5].grad), 1.0 / 3.0 - 1.0, 1e-6));
    // hess = 2 * p * (1-p) = 2 * 1/3 * 2/3
    assert!(close(f(out[0].hess), 2.0 * (1.0 / 3.0) * (2.0 / 3.0), 1e-6));
}

#[test]
fn softmax_reports_classes_or_probabilities() {
    let mut p = many(&[0.0, 1.0, 0.5]);
    SoftmaxObjective::new(3, true).pred_transform(&mut p, &calc());
    assert!(close(floats(&p).iter().sum(), 1.0, 1e-6));
    let mut m = many(&[0.0, 1.0, 0.5]);
    SoftmaxObjective::new(3, false).pred_transform(&mut m, &calc());
    assert_eq!(m.len(), 3);
}

#[test]
fn pairwise_pushes_relevant_up() {
    // One group of 3 docs, labels 2 > 1 > 0, all scores equal at start.
    let obj = LambdaMartObjective::ndcg();
    let preds = many(&[0.0f32, 0.0, 0.0]);
    let labels = many(&[2.0f32, 1.0, 0.0]);
    let groups = GroupInfo::from_sizes(&[3]);
    let mut out = zeros(3);
    obj.gradient_grouped(&preds, &labels, None, Some(&groups), &mut out, &calc());
    // Negative gradient => leaf value positive => score goes up.
    // Most-relevant doc should get the most-negative gradient.
    assert!(f(out[0].grad) < f(out[1].grad), "{:?}", out);
    assert!(f(out[1].grad) < f(out[2].grad), "{:?}", out);
    assert!(f(out[0].grad) < 0.0 && f(out[2].grad) > 0.0);
    // Hessians are non-negative.
    assert!(out.iter().all(|g| f(g.hess) >= 0.0));
}

#[test]
fn no_pairs_when_all_labels_equal() {
    let obj = LambdaMartObjective::pairwise();
    let preds = many(&[0.5f32, -0.2, 1.0]);
    let labels = many(&[1.0f32, 1.0, 1.0]);
    let groups = GroupInfo::from_sizes(&[3]);
    let mut out = zeros(3);
    obj.gradient_grouped(&preds, &labels, None, Some(&groups), &mut out, &calc());
    assert!(out.iter().all(|g| f(g.grad) == 0.0 && f(g.hess) == 0.0));
}

#[test]
fn groups_are_independent() {
    // Two groups; a cross-group pair must never be formed.
    let obj = LambdaMartObjective::pairwise();
    let preds = many(&[0.0f32, 0.0, 0.0, 0.0]);
    let labels = many(&[1.0f32, 0.0, 0.0, 1.0]);
    let groups = GroupInfo::from_sizes(&[2, 2]);
    let mut out = zeros(4);
    obj.gradient_grouped(&preds, &labels, None, Some(&groups), &mut out, &calc());
    // Within each group the relevant doc is pushed up, the other down.
    assert!(f(out[0].grad) < 0.0 && f(out[1].grad) > 0.0);
    assert!(f(out[3].grad) < 0.0 && f(out[2].grad) > 0.0);
}

#[test]
fn a_group_taken_alone_has_the_same_gradients() {
    let obj = LambdaMartObjective::ndcg();
    let preds = many(&[0.3, -0.2, 0.9, 0.1, 0.4]);
    let labels = many(&[1.0, 0.0, 0.0, 2.0, 1.0]);
    let groups = GroupInfo::from_sizes(&[2, 3]);
    let mut all = zeros(5);
    obj.gradient_grouped(&preds, &labels, None, Some(&groups), &mut all, &calc());
    let mut own = zeros(3);
    obj.gradient_grouped(&preds[2..], &labels[2..], None, None, &mut own, &calc());
    assert_eq!(&all[2..], &own[..]);
    // What one document loses another gains.
    let sum: f32 = own.iter().map(|p| f(p.grad)).sum();
    assert!(sum.abs() < 1e-6);
}

#[test]
fn kept_pairs_stand_for_all() {
    // One relevant document among a hundred: 4950 pairs, of which a share of
    // 4096 / 4950 is kept, and each counts the more.
    let obj = LambdaMartObjective::pairwise();
    let preds = many(&[0.0; 100]);
    let mut labels = vec![0.0f32; 100];
    labels[0] = 1.0;
    let mut out = zeros(100);
    obj.gradient(&preds, &many(&labels), None, &mut out, &calc());
    let each = 0.5 * 4950.0 / 4096.0;
    let kept = out[1..].iter().filter(|p| f(p.grad) != 0.0).count();
    assert!(kept > 60 && kept < 99, "{kept}");
    for p in &out[1..] {
        assert!(f(p.grad) == 0.0 || close(f(p.grad), each, 1e-5));
    }
    assert!(close(f(out[0].grad), -(kept as f32) * each, 1e-3));
}

#[test]
fn map_delta_only_relevant_vs_nonrelevant() {
    // Labels 2 and 3 are both "relevant" -> MAP delta is 0 for that pair.
    let labs = vec![w(3.0), w(2.0)];
    let order = vec![0, 1]; // score order
    assert_eq!(g(swap_delta(RankMode::Precision, &labs, &order, 0, 1, &calc())), 0.0);
    // A relevant and an irrelevant document do count.
    let mixed = vec![w(1.0), w(0.0)];
    assert!(g(swap_delta(RankMode::Precision, &mixed, &order, 0, 1, &calc())) > 0.0);
    assert_eq!(g(swap_delta(RankMode::Pairwise, &mixed, &order, 0, 1, &calc())), 1.0);
}

#[test]
fn regression_gradient_matches_closed_form() {
    let obj = SquaredErrorObjective;
    let preds = many(&[2.0f32, 0.0, -1.0]);
    let labels = many(&[1.0f32, 0.5, -3.0]);
    let mut out = zeros(3);
    obj.gradient(&preds, &labels, None, &mut out, &calc());
    assert_eq!(out[0], pair(1.0, 1.0)); // 2 - 1
    assert_eq!(out[1], pair(-0.5, 1.0)); // 0 - 0.5
    assert_eq!(out[2], pair(2.0, 1.0)); // -1 - (-3)
}

#[test]
fn weighted_gradient_scales() {
    let obj = SquaredErrorObjective;
    let preds = many(&[2.0f32]);
    let labels = many(&[1.0f32]);
    let weights = many(&[4.0f32]);
    let mut out = zeros(1);
    obj.gradient(&preds, &labels, Some(&weights), &mut out, &calc());
    assert_eq!(out[0], pair(4.0, 4.0));
}

#[test]
fn base_margin_is_label_mean() {
    let obj = SquaredErrorObjective;
    let base = f(obj.base_margin(&many(&[1.0, 2.0, 3.0]), None, &calc()));
    assert!((base - 2.0).abs() < 1e-6);
}

#[test]
fn pseudo_huber_flattens_far_out() {
    let obj = PseudoHuberObjective;
    let mut out = zeros(2);
    obj.gradient(&many(&[1.0, 100.0]), &many(&[0.0, 0.0]), None, &mut out, &calc());
    // z / sqrt(1 + z^2) at z = 1.
    assert!(close(f(out[0].grad), 1.0 / 2.0f32.sqrt(), 1e-6));
    assert!(f(out[1].grad) < 1.0 && f(out[1].grad) > 0.999);
    assert!(f(out[1].hess) > 0.0);
}

#[test]
fn groups_do_not_see_each_other() {
    let ptr = GroupInfo::from_sizes(&[3, 4]);
    let labels = many(&[2.0, 0.0, 1.0, 0.0, 1.0, 3.0, 0.0]);
    let near = many(&[0.1, 0.7, -0.3, 0.2, 0.4, -0.6, 0.9]);
    let far = many(&[5.0, -2.0, 8.0, 0.2, 0.4, -0.6, 0.9]);
    for obj in [
        LambdaMartObjective::pairwise(),
        LambdaMartObjective::ndcg(),
        LambdaMartObjective::map(),
    ] {
        let (mut a, mut b) = (zeros(7), zeros(7));
        obj.gradient_grouped(&near, &labels, None, Some(&ptr), &mut a, &calc());
        obj.gradient_grouped(&far, &labels, None, Some(&ptr), &mut b, &calc());
        for i in 3..7 {
            assert_eq!(a[i].grad.bits, b[i].grad.bits);
            assert_eq!(a[i].hess.bits, b[i].hess.bits);
        }
        assert_ne!(a[0].grad.bits, b[0].grad.bits);
    }
}
