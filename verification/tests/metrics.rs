use sequoia_boost::arith::{Calc, Op};
use sequoia_boost::data::meta::GroupInfo;
use sequoia_boost::error::SequoiaError;
use sequoia_boost::metric::auc::Auc;
use sequoia_boost::metric::aucpr::AucPr;
use sequoia_boost::metric::base::{Metric, MetricInfo};
use sequoia_boost::metric::create::{create_metric, create_metrics};
use sequoia_boost::metric::custom::CustomMetric;
use sequoia_boost::metric::mean::{
    ErrorRate, GammaNLogLik, LogLoss, MError, MLogLoss, Mae, PoissonNLogLik, Rmse, TweedieNLogLik,
};
use sequoia_boost::metric::rank::{AveragePrecision, Ndcg};
use sequoia_boost::number::{Single, Wide};
use sequoia_boost::text::{Precision, Reader};

fn s(x: f32) -> Single {
    Single { bits: x.to_bits() }
}

fn f(v: Single) -> f32 {
    f32::from_bits(v.bits)
}

#[allow(dead_code)]
fn w(x: f64) -> Wide {
    Wide { bits: x.to_bits() }
}

#[allow(dead_code)]
fn g(v: Wide) -> f64 {
    f64::from_bits(v.bits)
}

#[allow(dead_code)]
fn many(x: &[f32]) -> Vec<Single> {
    x.iter().map(|v| s(*v)).collect()
}

#[allow(dead_code)]
fn floats(x: &[Single]) -> Vec<f32> {
    x.iter().map(|v| f(*v)).collect()
}

fn compute(op: Op, a: u64, b: u64) -> u64 {
    let (x, y) = (f64::from_bits(a), f64::from_bits(b));
    let (p, q) = (f32::from_bits(a as u32), f32::from_bits(b as u32));
    match op {
        Op::Add => (x + y).to_bits(),
        Op::Sub => (x - y).to_bits(),
        Op::Mul => (x * y).to_bits(),
        Op::Div => (x / y).to_bits(),
        Op::Pow => x.powf(y).to_bits(),
        Op::Exp => x.exp().to_bits(),
        Op::Ln => x.ln().to_bits(),
        Op::Log2 => x.log2().to_bits(),
        Op::Sqrt => x.sqrt().to_bits(),
        Op::Round => x.round().to_bits(),
        Op::Ceil => x.ceil().to_bits(),
        Op::AddSingle => (p + q).to_bits() as u64,
        Op::SubSingle => (p - q).to_bits() as u64,
        Op::MulSingle => (p * q).to_bits() as u64,
        Op::DivSingle => (p / q).to_bits() as u64,
        Op::ExpSingle => p.exp().to_bits() as u64,
        Op::LnSingle => p.ln().to_bits() as u64,
        Op::SqrtSingle => p.sqrt().to_bits() as u64,
        Op::Widen => (p as f64).to_bits(),
        Op::Narrow => (x as f32).to_bits() as u64,
        Op::OfInteger => (a as f64).to_bits(),
        Op::OfIntegerSingle => (a as f32).to_bits() as u64,
    }
}

fn calc() -> Calc<fn(Op, u64, u64) -> u64> {
    Calc::new(compute)
}

fn read(k: Precision, text: &str) -> Option<u64> {
    match k {
        Precision::Single => text.parse::<f32>().ok().map(|x| x.to_bits() as u64),
        Precision::Double => text.parse::<f64>().ok().map(|x| x.to_bits()),
    }
}

fn reader() -> Reader<fn(Precision, &str) -> Option<u64>> {
    Reader::new(read)
}

fn eval<M: Metric<fn(Op, u64, u64) -> u64>>(m: &M, preds: &[f32], labels: &[f32]) -> f64 {
    g(m.eval(&many(preds), &many(labels), None, &calc()))
}

#[test]
fn rmse_basic() {
    let m = Rmse;
    // errors: 1, -1 -> mean sq 1 -> rmse 1
    assert!((eval(&m, &[2.0, 0.0], &[1.0, 1.0]) - 1.0).abs() <= 1e-9);
}

#[test]
fn logloss_perfect_and_wrong() {
    let m = LogLoss;
    // near-perfect predictions -> ~0 loss
    let loss = eval(&m, &[0.999999, 0.000001], &[1.0, 0.0]);
    assert!(loss < 1e-4);
    // p=0.5 everywhere -> ln 2
    let loss = eval(&m, &[0.5, 0.5], &[1.0, 0.0]);
    assert!((loss - 2.0f64.ln()).abs() <= 1e-6);
}

#[test]
fn error_rate_counts_misclassified() {
    let m = ErrorRate;
    // preds: 0.9->pos ok, 0.4->neg but label pos -> wrong, 0.2->neg ok
    assert!((eval(&m, &[0.9, 0.4, 0.2], &[1.0, 1.0, 0.0]) - 1.0 / 3.0).abs() <= 1e-9);
}

#[test]
fn factory_defaults_to_objective_metric() {
    let ms = create_metrics(&[], "rmse", 0, &reader()).unwrap();
    assert_eq!(ms.len(), 1);
    assert_eq!(ms[0].name(), "rmse");
    assert!(create_metrics(&["nope".to_string()], "rmse", 0, &reader()).is_err());
}

#[test]
fn auc_ranks_perfectly_separable() {
    let m = Auc;
    // preds perfectly separate: positives above negatives -> AUC 1.
    let auc = eval(&m, &[0.1, 0.2, 0.8, 0.9], &[0.0, 0.0, 1.0, 1.0]);
    assert!((auc - 1.0).abs() < 1e-9);
    assert!(m.maximize());
}

#[test]
fn mlogloss_and_merror() {
    // 2 rows, 3 classes. Confident correct predictions.
    let ml = MLogLoss::new(3);
    let me = MError::new(3);
    let preds = [0.8, 0.1, 0.1, 0.05, 0.9, 0.05];
    let labels = [0.0, 1.0];
    assert!(eval(&ml, &preds, &labels) < 0.3);
    assert_eq!(eval(&me, &preds, &labels), 0.0);
    // A wrong argmax raises merror.
    let labels_wrong = [1.0, 1.0];
    assert_eq!(eval(&me, &preds, &labels_wrong), 0.5);
}

#[test]
fn auc_counts_pairs() {
    // Of the four pairs of a positive and a negative, two are in order and one
    // is tied.
    let auc = eval(&Auc, &[0.5, 0.2, 0.5, 0.1], &[1.0, 1.0, 0.0, 0.0]);
    assert!((auc - 2.5 / 4.0).abs() < 1e-12, "{auc}");
    // With one class only there is nothing to rank.
    assert_eq!(eval(&Auc, &[0.3, 0.6], &[1.0, 1.0]), 0.5);
}

#[test]
fn precision_is_averaged_over_the_positive() {
    // Precision is 1 at the first positive instance and 2/3 at the second.
    let area = eval(&AucPr, &[0.1, 0.4, 0.35, 0.8], &[0.0, 0.0, 1.0, 1.0]);
    assert!((area - 5.0 / 6.0).abs() < 1e-12);
    // Equal predictions are taken together.
    assert_eq!(eval(&AucPr, &[0.5, 0.5, 0.5, 0.5], &[1.0, 0.0, 0.0, 1.0]), 0.5);
    assert_eq!(eval(&AucPr, &[0.1, 0.2, 0.8, 0.9], &[0.0, 0.0, 1.0, 1.0]), 1.0);
    assert_eq!(eval(&AucPr, &[0.1, 0.2], &[0.0, 0.0]), 0.0);
    let named = create_metric("aucpr", 0, &reader()).unwrap();
    assert_eq!(eval(&named, &[0.5, 0.5, 0.5, 0.5], &[1.0, 0.0, 0.0, 1.0]), 0.5);
    assert!(named.maximize());
}

#[test]
fn absolute_errors_are_averaged() {
    assert_eq!(eval(&Mae, &[1.0, -2.0], &[0.0, 1.0]), 2.0);
    let weighted = Mae.eval(
        &many(&[1.0, -2.0]),
        &many(&[0.0, 1.0]),
        Some(&many(&[3.0, 1.0])),
        &calc(),
    );
    assert_eq!(g(weighted), 1.5);
}

#[test]
fn count_metrics_are_log_likelihoods() {
    // ln y! + p - y ln p at p = 1, y = 1.
    let poisson = eval(&PoissonNLogLik, &[1.0], &[1.0]);
    assert!((poisson - 1.0).abs() < 1e-9, "{poisson}");
    assert!(eval(&GammaNLogLik, &[2.0], &[2.0]) < eval(&GammaNLogLik, &[2.0], &[8.0]));
    let t = TweedieNLogLik::new(w(1.5));
    assert!(eval(&t, &[2.0], &[2.0]) < eval(&t, &[2.0], &[9.0]));
}

#[test]
fn ranking_metrics_reward_good_orders() {
    let groups = GroupInfo::from_sizes(&[3]);
    let labels = many(&[2.0, 1.0, 0.0]);
    let good = many(&[3.0, 2.0, 1.0]);
    let bad = many(&[1.0, 2.0, 3.0]);
    let ndcg = Ndcg::new(None);
    let at = |m: &Ndcg, p: &[Single]| g(m.eval_grouped(p, &labels, None, Some(&groups), &calc()));
    assert_eq!(at(&ndcg, &good), 1.0);
    // Gains 3, 1 in places 3, 2 over the ideal 3 + 1 / log2(3).
    let log3 = 3.0f64.log2();
    let expect = (1.0 / log3 + 3.0 / 2.0) / (3.0 + 1.0 / log3);
    assert!((at(&ndcg, &bad) - expect).abs() < 1e-12);
    assert_eq!(at(&Ndcg::new(Some(1)), &bad), 0.0);
    let map = AveragePrecision::new(None);
    let precision =
        |p: &[Single]| g(map.eval_grouped(p, &labels, None, Some(&groups), &calc()));
    assert_eq!(precision(&good), 1.0);
    // Relevant documents in places 2 and 3.
    assert!((precision(&bad) - (1.0 / 2.0 + 2.0 / 3.0) / 2.0).abs() < 1e-12);
}

#[test]
fn metrics_are_known_by_their_names() {
    for name in [
        "rmse", "mae", "logloss", "error", "auc", "aucpr", "poisson-nloglik", "gamma-nloglik",
    ] {
        assert_eq!(create_metric(name, 0, &reader()).unwrap().name(), name);
    }
    for name in ["mlogloss", "merror"] {
        assert_eq!(create_metric(name, 3, &reader()).unwrap().name(), name);
    }
    assert!(create_metric("ndcg@5", 0, &reader()).unwrap().maximize());
    assert!(create_metric("map", 0, &reader()).unwrap().maximize());
    assert!(create_metric("tweedie-nloglik@1.3", 0, &reader()).is_ok());
    match create_metric("nope", 0, &reader()) {
        Err(SequoiaError::Unknown { kind, name }) => {
            assert_eq!((kind, name.as_str()), ("metric", "nope"));
        }
        _ => panic!("an unknown metric must be refused"),
    }
}

#[test]
fn custom_metrics_are_called() {
    let m = CustomMetric::new(
        "first".to_string(),
        true,
        |preds: &[Single], _: &[Single], _: Option<&[Single]>| w(f(preds[0]) as f64),
    );
    assert_eq!(eval(&m, &[0.25, 4.0], &[0.0, 0.0]), 0.25);
    assert_eq!(m.name(), "first");
    assert!(m.maximize());
}
