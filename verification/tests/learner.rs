use sequoia_boost::arith::{Calc, Op};
use sequoia_boost::booster::gblinear::{coordinate_delta, train_gblinear};
use sequoia_boost::config::{BoosterKind, GrowPolicy, Monotone, TrainingParams, TreeMethod};
use sequoia_boost::data::dmatrix::DMatrix;
use sequoia_boost::data::meta::FeatureType;
use sequoia_boost::error::SequoiaError;
use sequoia_boost::learner::cv::cv;
use sequoia_boost::learner::model::{BoostedModel, ImportanceType};
use sequoia_boost::learner::train::{
    train, train_with_custom_metric, train_with_eval, train_with_objective,
};
use sequoia_boost::learner::watch::RoundEval;
use sequoia_boost::metric::base::Metric;
use sequoia_boost::metric::custom::CustomMetric;
use sequoia_boost::metric::mean::Rmse;
use sequoia_boost::metric::rank::Ndcg;
use sequoia_boost::number::{Single, Wide};
use sequoia_boost::objective::custom::CustomObjective;
use sequoia_boost::objective::pair::GradPair;
use sequoia_boost::objective::regression::SquaredErrorObjective;
use sequoia_boost::text::{Precision, Reader};

fn s(x: f32) -> Single {
    Single { bits: x.to_bits() }
}

fn f(v: Single) -> f32 {
    f32::from_bits(v.bits)
}

#[allow(dead_code)]
fn w(x: f64) -> Wide {
    Wide { bits: x.to_bits() }
}

#[allow(dead_code)]
fn g(v: Wide) -> f64 {
    f64::from_bits(v.bits)
}

#[allow(dead_code)]
fn many(x: &[f32]) -> Vec<Single> {
    x.iter().map(|v| s(*v)).collect()
}

#[allow(dead_code)]
fn floats(x: &[Single]) -> Vec<f32> {
    x.iter().map(|v| f(*v)).collect()
}

fn compute(op: Op, a: u64, b: u64) -> u64 {
    let (x, y) = (f64::from_bits(a), f64::from_bits(b));
    let (p, q) = (f32::from_bits(a as u32), f32::from_bits(b as u32));
    match op {
        Op::Add => (x + y).to_bits(),
        Op::Sub => (x - y).to_bits(),
        Op::Mul => (x * y).to_bits(),
        Op::Div => (x / y).to_bits(),
        Op::Pow => x.powf(y).to_bits(),
        Op::Exp => x.exp().to_bits(),
        Op::Ln => x.ln().to_bits(),
        Op::Log2 => x.log2().to_bits(),
        Op::Sqrt => x.sqrt().to_bits(),
        Op::Round => x.round().to_bits(),
        Op::Ceil => x.ceil().to_bits(),
        Op::AddSingle => (p + q).to_bits() as u64,
        Op::SubSingle => (p - q).to_bits() as u64,
        Op::MulSingle => (p * q).to_bits() as u64,
        Op::DivSingle => (p / q).to_bits() as u64,
        Op::ExpSingle => p.exp().to_bits() as u64,
        Op::LnSingle => p.ln().to_bits() as u64,
        Op::SqrtSingle => p.sqrt().to_bits() as u64,
        Op::Widen => (p as f64).to_bits(),
        Op::Narrow => (x as f32).to_bits() as u64,
        Op::OfInteger => (a as f64).to_bits(),
        Op::OfIntegerSingle => (a as f32).to_bits() as u64,
    }
}

fn calc() -> Calc<fn(Op, u64, u64) -> u64> {
    Calc::new(compute)
}

fn read(k: Precision, text: &str) -> Option<u64> {
    match k {
        Precision::Single => text.parse::<f32>().ok().map(|x| x.to_bits() as u64),
        Precision::Double => text.parse::<f64>().ok().map(|x| x.to_bits()),
    }
}

fn reader() -> Reader<fn(Precision, &str) -> Option<u64>> {
    Reader::new(read)
}

fn dense(x: &[f32], n_rows: usize, n_cols: usize) -> DMatrix {
    DMatrix::from_dense(&many(x), n_rows, n_cols).unwrap()
}

fn fit(params: &TrainingParams, d: &DMatrix, rounds: usize) -> BoostedModel {
    train(params, d, rounds, &reader(), &calc()).unwrap()
}

fn predictions(model: &BoostedModel, d: &DMatrix) -> Vec<f32> {
    floats(&model.predict(d, &calc()).unwrap())
}

fn margins(model: &BoostedModel, d: &DMatrix) -> Vec<f32> {
    floats(&model.predict_margin(d, &calc()))
}

fn rmse_of(preds: &[f32], d: &DMatrix) -> f64 {
    g(Rmse.eval(&many(preds), d.labels().unwrap(), None, &calc()))
}

/// A learnable 1-D step function: y = 0 for x<0.5, y = 1 for x>=0.5.
fn step_dataset(n: usize) -> DMatrix {
    let mut x = Vec::with_capacity(n);
    let mut y = Vec::with_capacity(n);
    for i in 0..n {
        let xi = i as f32 / n as f32;
        x.push(xi);
        y.push(if xi >= 0.5 { 1.0 } else { 0.0 });
    }
    dense(&x, n, 1).with_labels(&many(&y)).unwrap()
}

#[test]
fn regression_reduces_training_error() {
    let d = step_dataset(100);
    let params = TrainingParams::builder()
        .objective("reg:squarederror")
        .max_depth(3)
        .eta(w(0.3))
        .build()
        .unwrap();
    let model = fit(&params, &d, 50);
    assert_eq!(model.num_trees(), 50);

    let preds = predictions(&model, &d);
    let rmse = rmse_of(&preds, &d);
    // The step is exactly representable; boosting should nearly fit it.
    assert!(rmse < 0.05, "rmse too high: {rmse}");
}

#[test]
fn binary_logistic_separates_classes() {
    let d = step_dataset(100);
    let params = TrainingParams::builder()
        .objective("binary:logistic")
        .max_depth(3)
        .eta(w(0.3))
        .build()
        .unwrap();
    let model = fit(&params, &d, 50);
    let preds = predictions(&model, &d); // probabilities

    // Low-x rows -> ~0, high-x rows -> ~1.
    assert!(preds[0] < 0.1, "expected ~0, got {}", preds[0]);
    assert!(preds[99] > 0.9, "expected ~1, got {}", preds[99]);
}

#[test]
fn base_score_only_model_predicts_mean() {
    // Zero rounds -> prediction is just the base score (label mean).
    let d = step_dataset(10);
    let params = TrainingParams::builder()
        .objective("reg:squarederror")
        .build()
        .unwrap();
    let model = fit(&params, &d, 0);
    let preds = predictions(&model, &d);
    let mean = floats(d.labels().unwrap()).iter().sum::<f32>() / 10.0;
    for p in preds {
        assert!((p - mean).abs() < 1e-6);
    }
}

fn rmse_by(d: &DMatrix, method: TreeMethod) -> f64 {
    let params = TrainingParams::builder()
        .objective("reg:squarederror")
        .tree_method(method)
        .max_depth(3)
        .eta(w(0.3))
        .build()
        .unwrap();
    let model = fit(&params, d, 60);
    rmse_of(&predictions(&model, d), d)
}

#[test]
fn hist_and_exact_reach_similar_accuracy() {
    let d = step_dataset(120);
    let rmse_hist = rmse_by(&d, TreeMethod::Hist);
    let rmse_exact = rmse_by(&d, TreeMethod::Exact);
    assert!(rmse_hist < 0.05, "hist rmse {rmse_hist}");
    assert!(rmse_exact < 0.05, "exact rmse {rmse_exact}");
    // The two methods should land very close on this cleanly-binnable problem.
    assert!((rmse_hist - rmse_exact).abs() < 0.02);
}

#[test]
fn approx_reduces_training_error() {
    let d = step_dataset(120);
    let params = TrainingParams::builder()
        .objective("reg:squarederror")
        .tree_method(TreeMethod::Approx)
        .max_depth(3)
        .eta(w(0.3))
        .build()
        .unwrap();
    let model = fit(&params, &d, 50);
    assert_eq!(model.num_trees(), 50);
    let rmse = rmse_of(&predictions(&model, &d), &d);
    assert!(rmse < 0.05, "approx rmse too high: {rmse}");
}

#[test]
fn approx_and_hist_reach_similar_accuracy() {
    let d = step_dataset(120);
    let rmse_approx = rmse_by(&d, TreeMethod::Approx);
    let rmse_hist = rmse_by(&d, TreeMethod::Hist);
    assert!(rmse_approx < 0.05, "approx rmse {rmse_approx}");
    assert!(rmse_hist < 0.05, "hist rmse {rmse_hist}");
    // Both land close on this cleanly-binnable problem.
    assert!((rmse_approx - rmse_hist).abs() < 0.02);
}

#[test]
fn lossguide_trains_end_to_end() {
    let d = step_dataset(120);
    let params = TrainingParams::builder()
        .objective("reg:squarederror")
        .tree_method(TreeMethod::Hist)
        .grow_policy(GrowPolicy::LossGuide)
        .max_leaves(16)
        .eta(w(0.3))
        .build()
        .unwrap();
    let model = fit(&params, &d, 60);
    let rmse = rmse_of(&predictions(&model, &d), &d);
    assert!(rmse < 0.06, "lossguide rmse {rmse}");
}

#[test]
fn exact_rejects_lossguide() {
    let d = step_dataset(20);
    let params = TrainingParams::builder()
        .tree_method(TreeMethod::Exact)
        .grow_policy(GrowPolicy::LossGuide)
        .max_leaves(8)
        .build()
        .unwrap();
    assert!(train(&params, &d, 5, &reader(), &calc()).is_err());
}

#[test]
fn multiclass_softprob_learns_three_classes() {
    // 1-D feature partitioned into 3 regions -> 3 classes.
    let n = 150;
    let mut x = Vec::new();
    let mut y = Vec::new();
    for i in 0..n {
        let xi = i as f32 / n as f32; // 0..1
        x.push(xi);
        y.push(if xi < 0.33 {
            0.0
        } else if xi < 0.66 {
            1.0
        } else {
            2.0
        });
    }
    let d = dense(&x, n, 1).with_labels(&many(&y)).unwrap();
    let params = TrainingParams::builder()
        .objective("multi:softprob")
        .num_class(3)
        .max_depth(3)
        .eta(w(0.3))
        .build()
        .unwrap();
    let model = fit(&params, &d, 60);
    assert_eq!(model.n_outputs(), 3);
    assert_eq!(model.num_trees(), 180); // 60 rounds * 3 classes
    assert_eq!(model.num_boost_rounds(), 60);

    // Probabilities: shape n*3, each row sums to 1.
    let probs = predictions(&model, &d);
    assert_eq!(probs.len(), n * 3);
    for i in 0..n {
        let sum: f32 = probs[i * 3..i * 3 + 3].iter().sum();
        assert!((sum - 1.0).abs() < 1e-4);
    }

    // Predicted classes match the region labels on almost all rows.
    let classes = model.predict_class(&d, &calc()).unwrap();
    let correct = classes
        .iter()
        .zip(&y)
        .filter(|(c, l)| **c == **l as u32)
        .count();
    assert!(correct as f32 / n as f32 > 0.95, "accuracy {correct}/{n}");
}

fn lcg(seed: u64) -> impl FnMut() -> f32 {
    let mut state = seed;
    move || {
        state = state.wrapping_mul(6364136223846793005).wrapping_add(1);
        ((state >> 33) as f32) / (1u32 << 31) as f32
    }
}

#[test]
fn poisson_trains_and_predicts_positive_rates() {
    let n = 200;
    let mut x = Vec::new();
    let mut y = Vec::new();
    let mut rng = lcg(7);
    for _ in 0..n {
        let xi = rng();
        x.push(xi);
        // rate increases with x; sample a rough count.
        let rate = 1.0 + 5.0 * xi;
        y.push(rate.round());
    }
    let d = dense(&x, n, 1).with_labels(&many(&y)).unwrap();
    let params = TrainingParams::builder()
        .objective("count:poisson")
        .max_depth(3)
        .eta(w(0.2))
        .build()
        .unwrap();
    let model = fit(&params, &d, 60);
    let preds = predictions(&model, &d); // rates (exp transform)
    assert!(preds.iter().all(|&p| p > 0.0), "rates must be positive");
    // Higher x should predict a higher rate: compare mean predicted rate for
    // low-x vs high-x rows (the feature is randomized, so bucket by value).
    let (mut lo_sum, mut lo_n, mut hi_sum, mut hi_n) = (0.0f32, 0, 0.0f32, 0);
    for i in 0..n {
        if x[i] < 0.5 {
            lo_sum += preds[i];
            lo_n += 1;
        } else {
            hi_sum += preds[i];
            hi_n += 1;
        }
    }
    let lo_mean = lo_sum / lo_n as f32;
    let hi_mean = hi_sum / hi_n as f32;
    assert!(
        lo_mean < hi_mean,
        "rate should rise with x: {lo_mean} vs {hi_mean}"
    );
}

#[test]
fn custom_objective_matches_builtin_squared_error() {
    let d = step_dataset(80);

    let builtin = {
        let p = TrainingParams::builder()
            .objective("reg:squarederror")
            .max_depth(3)
            .eta(w(0.3))
            .base_score(w(0.0))
            .build()
            .unwrap();
        predictions(&fit(&p, &d, 30), &d)
    };

    let custom = {
        let p = TrainingParams::builder()
            .objective("custom")
            .max_depth(3)
            .eta(w(0.3))
            .build()
            .unwrap();
        let obj = CustomObjective::new(
            "custom".to_string(),
            1,
            s(0.0),
            "rmse".to_string(),
            |preds: &[Single], labels: &[Single], weights: Option<&[Single]>| {
                (0..preds.len())
                    .map(|i| {
                        let wi = weights.map_or(1.0, |ws| f(ws[i]));
                        GradPair::new(s((f(preds[i]) - f(labels[i])) * wi), s(wi))
                    })
                    .collect()
            },
        );
        let model = train_with_objective(&p, &d, 30, &obj, &reader(), &calc()).unwrap();
        predictions(&model, &d)
    };

    for (a, b) in builtin.iter().zip(&custom) {
        assert!((a - b).abs() < 1e-5, "{a} vs {b}");
    }
}

#[test]
fn ranking_ndcg_improves_over_rounds() {
    // Query groups whose single feature is correlated with relevance, so a
    // ranker can learn to order documents. Docs are laid out in ascending
    // relevance (the worst initial order given zero starting margins).
    let n_groups = 30usize;
    let per = 6usize;
    let n = n_groups * per;
    let mut x = Vec::with_capacity(n);
    let mut y = Vec::with_capacity(n);
    let sizes = vec![per; n_groups];
    let mut rng = lcg(42);
    for _ in 0..n_groups {
        for d in 0..per {
            let rel = d as f32; // relevance grade 0..per-1
            let noise = (rng() - 0.5) * 0.8;
            x.push(rel + noise);
            y.push(rel);
        }
    }
    let d = dense(&x, n, 1)
        .with_labels(&many(&y))
        .unwrap()
        .with_group_sizes(&sizes)
        .unwrap();

    let params = TrainingParams::builder()
        .objective("rank:ndcg")
        .max_depth(3)
        .eta(w(0.2))
        .build()
        .unwrap();
    let res =
        train_with_eval(&params, &d, 40, &[(&d, "train")], None, &reader(), &calc()).unwrap();
    assert!(!res.history.is_empty());

    let ndcg_of = |r: &RoundEval| g(r.scores.iter().find(|(_, m, _)| m == "ndcg").unwrap().2);
    let first = ndcg_of(&res.history[0]);
    let last = ndcg_of(res.history.last().unwrap());

    // Baseline NDCG of the untrained (all-equal-score) ranking.
    let base = g(Ndcg::new(None).eval_grouped(
        &many(&vec![0.0; n]),
        &many(&y),
        None,
        d.group(),
        &calc(),
    ));
    assert!(last >= first - 1e-9, "ndcg regressed: {first} -> {last}");
    assert!(
        last > base + 1e-3,
        "training should beat the untrained baseline: {base} -> {last}"
    );
    assert!(last > 0.9, "final ndcg should be high, got {last}");
}

#[test]
fn gbtree_unchanged_by_weight_field() {
    // A default gbtree model carries all-1.0 weights, so predictions must be
    // bit-for-bit what the un-weighted sum produced historically.
    let d = step_dataset(100);
    let params = TrainingParams::builder()
        .objective("reg:squarederror")
        .max_depth(3)
        .eta(w(0.3))
        .build()
        .unwrap();
    let model = fit(&params, &d, 40);
    // Compare weighted prediction against a manual unit-weight tree sum.
    let preds = margins(&model, &d);
    let n = d.n_rows();
    let mut manual = vec![f(model.base_score()); n];
    for tree in model.trees() {
        for (row, m) in manual.iter_mut().enumerate() {
            *m += f(tree.predict_row(&d, row));
        }
    }
    for (a, b) in preds.iter().zip(&manual) {
        assert_eq!(*a, *b, "gbtree weighting changed the sum");
    }
}

#[test]
fn categorical_split_beats_numeric_on_non_ordinal_pattern() {
    // One feature, 4 categories. Label is a NON-ordinal function of the
    // category: {0,2} -> 0, {1,3} -> 1. A single numeric `x < t` threshold
    // cannot separate {0,2} from {1,3}; a categorical set-split can.
    let cats = [0.0f32, 1.0, 2.0, 3.0];
    let mut x = Vec::new();
    let mut y = Vec::new();
    for _ in 0..40 {
        for &c in &cats {
            x.push(c);
            y.push(if (c as u32) % 2 == 1 { 1.0 } else { 0.0 });
        }
    }
    let n = x.len();
    let numeric = dense(&x, n, 1).with_labels(&many(&y)).unwrap();
    let categorical = numeric
        .clone()
        .with_feature_types(&[FeatureType::Categorical])
        .unwrap();

    // Depth-1 stumps: the numeric model can only threshold, the categorical
    // model can partition the category set in a single node.
    let mk = |d: &DMatrix| {
        let p = TrainingParams::builder()
            .objective("reg:squarederror")
            .max_depth(1)
            .eta(w(0.3))
            .build()
            .unwrap();
        let m = fit(&p, d, 40);
        rmse_of(&predictions(&m, d), d)
    };
    let rmse_num = mk(&numeric);
    let rmse_cat = mk(&categorical);

    // Categorical nearly fits the pattern; numeric is left far behind.
    assert!(rmse_cat < 0.02, "categorical rmse too high: {rmse_cat}");
    assert!(rmse_num > 0.05, "numeric unexpectedly fit it: {rmse_num}");
    assert!(
        rmse_cat < rmse_num,
        "categorical ({rmse_cat}) should beat numeric ({rmse_num})"
    );
}

#[test]
fn base_margin_is_the_initial_margin() {
    // With 0 rounds and a per-instance base margin, the raw margin
    // prediction must equal that base margin exactly.
    let d = step_dataset(50);
    let bm: Vec<f32> = (0..50).map(|i| i as f32 * 0.01 - 0.25).collect();
    let d_bm = d.with_base_margin(&many(&bm)).unwrap();
    let params = TrainingParams::builder()
        .objective("reg:squarederror")
        .build()
        .unwrap();
    let model = fit(&params, &d_bm, 0);
    let margin = margins(&model, &d_bm);
    for (m, b) in margin.iter().zip(&bm) {
        assert!((m - b).abs() < 1e-6, "{m} vs {b}");
    }
}

#[test]
fn base_margin_affects_training() {
    let d = step_dataset(60);
    let params = TrainingParams::builder()
        .objective("reg:squarederror")
        .max_depth(3)
        .eta(w(0.3))
        .build()
        .unwrap();
    let plain = margins(&fit(&params, &d, 10), &d);

    let bm = vec![2.0f32; 60];
    let d_bm = d.with_base_margin(&many(&bm)).unwrap();
    let shifted = margins(&fit(&params, &d_bm, 10), &d_bm);

    // A nonzero starting margin changes the fitted margins.
    assert!(plain
        .iter()
        .zip(&shifted)
        .any(|(a, b)| (a - b).abs() > 1e-4));
}

#[test]
fn colsample_bynode_changes_the_model() {
    // Multi-feature dataset so column sampling has features to drop.
    let (n, nf) = (400usize, 8usize);
    let mut x = vec![0f32; n * nf];
    let mut y = vec![0f32; n];
    let mut rng = lcg(3);
    for i in 0..n {
        let mut acc = 0.0;
        for j in 0..nf {
            let v = rng();
            x[i * nf + j] = v;
            acc += v * (j as f32 + 1.0);
        }
        y[i] = acc;
    }
    let d = dense(&x, n, nf).with_labels(&many(&y)).unwrap();

    let train_with = |bynode: f64| {
        let p = TrainingParams::builder()
            .objective("reg:squarederror")
            .max_depth(4)
            .eta(w(0.3))
            .colsample_bynode(w(bynode))
            .seed(1)
            .build()
            .unwrap();
        predictions(&fit(&p, &d, 20), &d)
    };
    let full = train_with(1.0);
    let sampled = train_with(0.5);
    // With per-node sampling active, the fitted model must differ.
    let differs = full.iter().zip(&sampled).any(|(a, b)| (a - b).abs() > 1e-6);
    assert!(differs, "colsample_bynode had no effect on the model");
}

#[test]
fn early_stopping_sets_best_iteration() {
    let d = step_dataset(80);
    let params = TrainingParams::builder()
        .objective("reg:squarederror")
        .max_depth(3)
        .eta(w(0.3))
        .build()
        .unwrap();
    // Use the training set as its own eval just to exercise the mechanism.
    let res =
        train_with_eval(&params, &d, 200, &[(&d, "train")], Some(5), &reader(), &calc()).unwrap();
    // Should stop well before 200 rounds once RMSE plateaus.
    assert!(res.model.num_trees() < 200);
    assert!(res.model.best_iteration().is_some());
    assert!(!res.history.is_empty());
}

#[test]
fn cv_reports_decreasing_rmse() {
    // Simple learnable data.
    let n = 200;
    let mut x = Vec::new();
    let mut y = Vec::new();
    for i in 0..n {
        let xi = i as f32 / n as f32;
        x.push(xi);
        y.push(if xi > 0.5 { 1.0 } else { 0.0 });
    }
    let d = dense(&x, n, 1).with_labels(&many(&y)).unwrap();
    let params = TrainingParams::builder()
        .objective("reg:squarederror")
        .max_depth(3)
        .eta(w(0.3))
        .build()
        .unwrap();

    let results = cv(&params, &d, 30, 5, 42, &reader(), &calc()).unwrap();
    assert_eq!(results.len(), 1);
    let rmse = &results[0];
    assert_eq!(rmse.metric, "rmse");
    assert_eq!(rmse.test_mean.len(), 30);
    // Held-out error should drop from first to last round.
    assert!(g(rmse.test_mean[29]) < g(rmse.test_mean[0]));
    // Std is non-negative and finite.
    assert!(rmse.test_std.iter().all(|d| g(*d).is_finite() && g(*d) >= 0.0));
}

#[test]
fn cv_has_a_result_per_metric() {
    let d = step_dataset(40);
    let params = TrainingParams::builder()
        .objective("reg:squarederror")
        .max_depth(2)
        .eval_metric(vec!["rmse".to_string(), "mae".to_string()])
        .build()
        .unwrap();
    for rounds in [0usize, 3] {
        let results = cv(&params, &d, rounds, 4, 1, &reader(), &calc()).unwrap();
        let names: Vec<&str> = results.iter().map(|r| r.metric.as_str()).collect();
        assert_eq!(names, vec!["mae", "rmse"]);
        assert!(results.iter().all(|r| r.test_mean.len() == rounds));
        assert!(results.iter().all(|r| r.test_std.len() == rounds));
    }
    let results = cv(&params, &d, 3, 4, 1, &reader(), &calc()).unwrap();
    assert!(g(results[0].test_mean[2]) < g(results[1].test_mean[2]));

    // Of an objective's own metric there is one even where nothing is scored.
    let plain = TrainingParams::builder().objective("count:poisson").build().unwrap();
    let results = cv(&plain, &d, 0, 2, 1, &reader(), &calc()).unwrap();
    assert_eq!(results.len(), 1);
    assert_eq!(results[0].metric, "poisson-nloglik");
    assert!(results[0].test_mean.is_empty());
}

#[test]
fn cv_reports_metrics_by_their_own_names() {
    let x: Vec<f32> = (0..30).map(|i| i as f32).collect();
    let y: Vec<f32> = (0..30).map(|i| 1.0 + (i % 5) as f32).collect();
    let d = dense(&x, 30, 1).with_labels(&many(&y)).unwrap();
    let scored = |names: &[&str]| {
        let params = TrainingParams::builder()
            .objective("reg:tweedie")
            .max_depth(2)
            .eval_metric(names.iter().map(|n| n.to_string()).collect())
            .build()
            .unwrap();
        cv(&params, &d, 2, 3, 5, &reader(), &calc()).unwrap()
    };
    let low = scored(&["tweedie-nloglik@1.2"]);
    let high = scored(&["tweedie-nloglik@1.8"]);
    assert_eq!(low[0].metric, "tweedie-nloglik");
    assert_eq!(high[0].metric, "tweedie-nloglik");
    assert_ne!(g(low[0].test_mean[1]), g(high[0].test_mean[1]));
    // Metrics of one name are summarized together.
    let both = scored(&["tweedie-nloglik@1.8", "tweedie-nloglik@1.2"]);
    assert_eq!(both.len(), 1);
    assert_eq!(both[0].metric, "tweedie-nloglik");
    let mean = (g(low[0].test_mean[1]) + g(high[0].test_mean[1])) / 2.0;
    assert!((g(both[0].test_mean[1]) - mean).abs() < 1e-9);
}

#[test]
fn cv_scores_linear_models() {
    let results = cv(&linear_params(), &line(40), 12, 4, 3, &reader(), &calc()).unwrap();
    assert_eq!(results.len(), 1);
    assert_eq!(results[0].test_mean.len(), 12);
    assert_eq!(results[0].test_std.len(), 12);
    assert!(g(results[0].test_mean[11]) < g(results[0].test_mean[0]));
}

#[test]
fn softmax_predicts_classes() {
    let n = 60;
    let x: Vec<f32> = (0..n).map(|i| i as f32).collect();
    let y: Vec<f32> = (0..n).map(|i| (i / 20) as f32).collect();
    let d = dense(&x, n, 1).with_labels(&many(&y)).unwrap();
    let build = |name: &str| {
        TrainingParams::builder()
            .objective(name)
            .num_class(3)
            .max_depth(3)
            .build()
            .unwrap()
    };
    let hard = train_with_eval(
        &build("multi:softmax"),
        &d,
        20,
        &[(&d, "train")],
        None,
        &reader(),
        &calc(),
    )
    .unwrap();
    let classes = predictions(&hard.model, &d);
    assert_eq!(classes, y);
    let numbers: Vec<f32> =
        hard.model.predict_class(&d, &calc()).unwrap().iter().map(|c| *c as f32).collect();
    assert_eq!(classes, numbers);
    // Metrics see probabilities under either name.
    let soft = train_with_eval(
        &build("multi:softprob"),
        &d,
        20,
        &[(&d, "train")],
        None,
        &reader(),
        &calc(),
    )
    .unwrap();
    let last = |h: &Vec<RoundEval>| g(h[19].scores[0].2);
    assert_eq!(last(&hard.history), last(&soft.history));
    assert_eq!(predictions(&soft.model, &d).len(), 3 * n);
}

#[test]
fn a_given_base_score_is_what_is_predicted_first() {
    let d = dense(&[1.0, 2.0, 3.0], 3, 1).with_labels(&many(&[1.0, 2.0, 6.0])).unwrap();
    for name in ["count:poisson", "reg:gamma", "reg:tweedie"] {
        let params =
            TrainingParams::builder().objective(name).base_score(w(2.0)).build().unwrap();
        let model = fit(&params, &d, 0);
        assert!((f(model.base_score()) - 2.0f32.ln()).abs() < 1e-6, "{name}");
        assert!(predictions(&model, &d).iter().all(|p| (*p - 2.0).abs() < 1e-5), "{name}");
    }
}

#[test]
fn lossguide_training_is_deterministic() {
    let d = noisy(40, 3, 5);
    let params = TrainingParams::builder()
        .objective("reg:squarederror")
        .grow_policy(GrowPolicy::LossGuide)
        .max_leaves(6)
        .max_depth(0)
        .build()
        .unwrap();
    assert_eq!(margins(&fit(&params, &d, 8), &d), margins(&fit(&params, &d, 8), &d));
}

fn noisy(n: usize, nf: usize, seed: u64) -> DMatrix {
    let mut rng = lcg(seed);
    let x: Vec<f32> = (0..n * nf).map(|_| rng() * 20.0 - 10.0).collect();
    let y: Vec<f32> = (0..n).map(|_| rng() * 10.0 - 5.0).collect();
    dense(&x, n, nf).with_labels(&many(&y)).unwrap()
}

fn sampled(seed: u64) -> TrainingParams {
    TrainingParams::builder()
        .objective("reg:squarederror")
        .max_depth(3)
        .eta(w(0.3))
        .subsample(w(0.8))
        .colsample_bytree(w(0.8))
        .seed(seed)
        .build()
        .unwrap()
}

#[test]
fn training_is_deterministic() {
    for seed in 0..4u64 {
        let d = noisy(40, 3, seed + 11);
        let a = predictions(&fit(&sampled(seed), &d, 15), &d);
        let b = predictions(&fit(&sampled(seed), &d, 15), &d);
        assert_eq!(a, b);
    }
    // Another seed samples other rows and features.
    let d = noisy(40, 3, 11);
    let a = predictions(&fit(&sampled(1), &d, 15), &d);
    let b = predictions(&fit(&sampled(2), &d, 15), &d);
    assert_ne!(a, b);
}

#[test]
fn dense_equals_sparse() {
    for seed in 0..4u64 {
        let dense = noisy(40, 3, seed + 5);
        let mut indptr = vec![0usize];
        let mut indices = Vec::new();
        let mut values = Vec::new();
        for r in 0..40 {
            for c in 0..3 {
                indices.push(c as u32);
                values.push(dense.get(r, c).unwrap());
            }
            indptr.push(values.len());
        }
        let sparse = DMatrix::from_csr(indptr, indices, values, 3)
            .unwrap()
            .with_labels(dense.labels().unwrap())
            .unwrap();
        let params = sampled(seed);
        let pd = predictions(&fit(&params, &dense, 15), &dense);
        let ps = predictions(&fit(&params, &sparse, 15), &sparse);
        assert_eq!(pd, ps);
    }
}

#[test]
fn monotone_increasing_holds() {
    for seed in 0..4u64 {
        let d = noisy(40, 1, seed + 21);
        let params = TrainingParams::builder()
            .objective("reg:squarederror")
            .max_depth(4)
            .eta(w(0.3))
            .monotone_constraints(vec![Monotone::Increasing])
            .build()
            .unwrap();
        let preds = predictions(&fit(&params, &d, 20), &d);
        let x: Vec<f32> = (0..40).map(|i| f(d.get(i, 0).unwrap())).collect();
        let mut order: Vec<usize> = (0..40).collect();
        order.sort_by(|&a, &b| x[a].partial_cmp(&x[b]).unwrap());
        let mut prev = f32::NEG_INFINITY;
        for &i in &order {
            assert!(preds[i] >= prev - 1e-4, "monotonicity broken: {} < {}", preds[i], prev);
            prev = prev.max(preds[i]);
        }
    }
}

#[test]
fn linear_models_fit_lines() {
    let x: Vec<f32> = (0..60).map(|i| i as f32 / 60.0).collect();
    let y: Vec<f32> = x.iter().map(|v| 3.0 * v + 1.0).collect();
    let d = dense(&x, 60, 1).with_labels(&many(&y)).unwrap();
    let params = TrainingParams::builder()
        .objective("reg:squarederror")
        .booster(BoosterKind::GbLinear)
        .lambda(w(0.0))
        .eta(w(0.5))
        .build()
        .unwrap();
    let model = fit(&params, &d, 200);
    assert_eq!(model.num_trees(), 0);
    assert!(model.linear().is_some());
    let rmse = rmse_of(&predictions(&model, &d), &d);
    assert!(rmse < 0.05, "{rmse}");
}

fn line(n: usize) -> DMatrix {
    let x: Vec<f32> = (0..n).map(|i| i as f32 / n as f32).collect();
    let y: Vec<f32> = x.iter().map(|v| 3.0 * v + 1.0).collect();
    dense(&x, n, 1).with_labels(&many(&y)).unwrap()
}

fn linear_params() -> TrainingParams {
    TrainingParams::builder()
        .objective("reg:squarederror")
        .booster(BoosterKind::GbLinear)
        .lambda(w(0.0))
        .eta(w(0.5))
        .build()
        .unwrap()
}

#[test]
fn linear_training_is_watched() {
    let d = line(40);
    let params = linear_params();
    let res =
        train_with_eval(&params, &d, 30, &[(&d, "train")], None, &reader(), &calc()).unwrap();
    assert_eq!(res.history.len(), 30);
    let values: Vec<f64> = res.history.iter().map(|r| g(r.scores[0].2)).collect();
    assert_eq!(res.history[0].scores[0].0, "train");
    assert_eq!(res.history[0].scores[0].1, "rmse");
    assert!(values[29] < values[0]);
    // The last scores are those of the model that is handed back, and earlier
    // ones those of fewer rounds.
    assert_eq!(values[29], rmse_of(&predictions(&res.model, &d), &d));
    let short = fit(&params, &d, 7);
    assert_eq!(values[6], rmse_of(&predictions(&short, &d), &d));
    assert_eq!(res.model.best_iteration(), None);
}

#[test]
fn linear_training_is_deterministic() {
    let d = noisy(30, 2, 9);
    let a = margins(&fit(&linear_params(), &d, 10), &d);
    let b = margins(&fit(&linear_params(), &d, 10), &d);
    assert_eq!(a, b);
}

#[test]
fn linear_training_stops_early() {
    let d = line(40);
    let params = linear_params();
    let res =
        train_with_eval(&params, &d, 5000, &[(&d, "train")], Some(4), &reader(), &calc()).unwrap();
    let values: Vec<f64> = res.history.iter().map(|r| g(r.scores[0].2)).collect();
    let best = res.model.best_iteration().unwrap();
    assert!(values.len() < 5000);
    assert_eq!(values.len(), best + 1 + 4);
    assert!(values[..best].iter().all(|v| *v > values[best]));
}

#[test]
fn linear_fits_are_the_coordinate_steps() {
    // One feature of ones, label 2, from zero: the bias takes half of the way
    // at a learning rate of one half, and the weight half of the rest.
    let d = dense(&[1.0, 1.0], 2, 1).with_labels(&many(&[2.0, 2.0])).unwrap();
    let m = train_gblinear(
        &linear_params(),
        &d,
        1,
        s(0.0),
        1,
        &SquaredErrorObjective,
        &calc(),
    )
    .unwrap();
    assert_eq!(floats(m.bias()), vec![1.0]);
    assert_eq!(floats(m.weights()), vec![0.5]);
    let bare = dense(&[1.0, 1.0], 2, 1);
    assert!(matches!(
        train_gblinear(&linear_params(), &bare, 1, s(0.0), 1, &SquaredErrorObjective, &calc()),
        Err(SequoiaError::EmptyDataset("gblinear: dtrain has no labels"))
    ));
}

#[test]
fn a_custom_metric_is_watched() {
    let d = step_dataset(60);
    let params = TrainingParams::builder()
        .objective("reg:squarederror")
        .max_depth(2)
        .build()
        .unwrap();
    let metric = CustomMetric::new(
        "spread".to_string(),
        true,
        |preds: &[Single], _: &[Single], _: Option<&[Single]>| {
            w((f(preds[preds.len() - 1]) - f(preds[0])) as f64)
        },
    );
    let res =
        train_with_custom_metric(&params, &d, 10, &[(&d, "train")], None, metric, &calc()).unwrap();
    assert_eq!(res.history.len(), 10);
    let at = |i: usize| g(res.history[i].scores[0].2);
    assert_eq!(res.history[0].scores[0].0, "train");
    assert_eq!(res.history[0].scores[0].1, "spread");
    assert!(at(9) > at(0));
}

#[test]
fn the_best_round_is_noted() {
    let d = step_dataset(80);
    let params = TrainingParams::builder()
        .objective("reg:squarederror")
        .max_depth(3)
        .build()
        .unwrap();
    let res =
        train_with_eval(&params, &d, 200, &[(&d, "train")], Some(5), &reader(), &calc()).unwrap();
    let best = res.model.best_iteration().unwrap();
    let values: Vec<f64> = res.history.iter().map(|r| g(r.scores[0].2)).collect();
    assert!(values.iter().all(|v| *v >= values[best]));
    assert!(values[..best].iter().all(|v| *v > values[best]));
    assert_eq!(values.len(), best + 1 + 5);
}

#[test]
fn first_rounds_predict_as_they_did() {
    let d = step_dataset(50);
    let params = TrainingParams::builder().max_depth(2).build().unwrap();
    let long = fit(&params, &d, 12);
    let short = fit(&params, &d, 5);
    assert_eq!(
        floats(&long.predict_margin_limited(&d, 5, &calc())),
        margins(&short, &d)
    );
}

#[test]
fn feature_importance_adds_up() {
    let d = noisy(60, 3, 9);
    let params = TrainingParams::builder().max_depth(3).build().unwrap();
    let model = fit(&params, &d, 8);
    let splits: usize = model
        .trees()
        .iter()
        .map(|t| t.nodes().iter().filter(|n| !n.is_leaf()).count())
        .sum();
    let counts = model.feature_importance(ImportanceType::Weight, &calc());
    let total: f64 = counts.iter().map(|(_, v)| g(*v)).sum();
    assert_eq!(total, splits as f64);
    let gain: f64 =
        model.feature_importance(ImportanceType::TotalGain, &calc()).iter().map(|(_, v)| g(*v)).sum();
    assert!(gain > 0.0);
}

#[test]
fn data_with_too_few_features_is_refused() {
    let d = noisy(30, 3, 4);
    let model = fit(&TrainingParams::builder().build().unwrap(), &d, 2);
    let narrow = dense(&[1.0, 2.0], 1, 2);
    assert!(matches!(
        model.predict(&narrow, &calc()),
        Err(SequoiaError::DimensionMismatch { what: "features", expected: 3, got: 2 })
    ));
}

#[test]
fn unusable_inputs_are_refused() {
    let d = step_dataset(10);
    let unlabelled = dense(&[1.0, 2.0], 2, 1);
    let params = TrainingParams::builder().build().unwrap();
    assert!(train(&params, &unlabelled, 1, &reader(), &calc()).is_err());
    let odd = TrainingParams::builder().objective("nope").build().unwrap();
    assert!(matches!(
        train(&odd, &d, 1, &reader(), &calc()),
        Err(SequoiaError::Unknown { kind: "objective", .. })
    ));
    let metric = TrainingParams::builder().eval_metric(vec!["nope".to_string()]).build().unwrap();
    assert!(matches!(
        train_with_eval(&metric, &d, 1, &[(&d, "d")], None, &reader(), &calc()),
        Err(SequoiaError::Unknown { kind: "metric", .. })
    ));
    assert!(cv(&params, &d, 2, 1, 0, &reader(), &calc()).is_err());
}

#[test]
fn parameters_are_validated() {
    let named = |r: Result<TrainingParams, SequoiaError>| match r {
        Err(SequoiaError::InvalidParameter { name, .. }) => name,
        _ => panic!("expected a refused parameter"),
    };
    let b = TrainingParams::builder;
    assert_eq!(named(b().eta(w(0.0)).build()), "eta");
    assert_eq!(named(b().subsample(w(1.5)).build()), "subsample");
    assert_eq!(named(b().lambda(w(-1.0)).build()), "lambda");
    assert_eq!(named(b().max_bin(1).build()), "max_bin");
    assert_eq!(named(b().colsample_bynode(w(f64::NAN)).build()), "colsample_bynode");
    let p = b().build().unwrap();
    assert_eq!(p.max_depth, 6);
    assert_eq!(g(p.eta), 0.3);
    assert_eq!(p.objective, "reg:squarederror");
}

/// The features of every way down a tree from a node.
fn ways(model: &BoostedModel, tree: usize, nid: usize, above: Vec<u32>) -> Vec<Vec<u32>> {
    let node = model.trees()[tree].node(nid);
    if node.is_leaf() {
        return vec![above];
    }
    let mut below = above;
    below.push(node.split_feature);
    let mut out = ways(model, tree, node.left as usize, below.clone());
    out.extend(ways(model, tree, node.right as usize, below));
    out
}

fn mixed_ways(model: &BoostedModel, groups: &[Vec<u32>]) -> usize {
    let mut mixed = 0;
    for t in 0..model.num_trees() {
        for way in ways(model, t, 0, Vec::new()) {
            let same = way.windows(2).all(|p| p[0] == p[1]);
            let grouped = groups.iter().any(|g| way.iter().all(|x| g.contains(x)));
            if !same && !grouped {
                mixed += 1;
            }
        }
    }
    mixed
}

#[test]
fn interaction_constraints_hold() {
    let groups = vec![vec![0u32, 1], vec![2, 3]];
    let n = 200;
    let mut x = Vec::new();
    let mut y = Vec::new();
    for i in 0..n {
        let v: Vec<f32> = (0..4).map(|j| ((i * (7 + 4 * j) + 3 * j) % 31) as f32 / 31.0).collect();
        y.push(v[0] * v[2] * 4.0 + v[1] - v[3] * v[0]);
        x.extend(v);
    }
    let d = dense(&x, n, 4).with_labels(&many(&y)).unwrap();
    let base = || TrainingParams::builder().objective("reg:squarederror").max_depth(4);
    let free = fit(&base().build().unwrap(), &d, 10);
    assert!(mixed_ways(&free, &groups) > 0);
    for method in [TreeMethod::Hist, TreeMethod::Exact, TreeMethod::Approx] {
        let params = base().tree_method(method).interaction_constraints(groups.clone());
        let model = fit(&params.build().unwrap(), &d, 10);
        assert_eq!(model.num_trees(), 10);
        assert_eq!(mixed_ways(&model, &groups), 0);
        assert!(model.trees().iter().any(|t| t.node(0).split_feature > 1));
    }
    let lossguide = base()
        .grow_policy(GrowPolicy::LossGuide)
        .max_leaves(12)
        .interaction_constraints(groups.clone());
    assert_eq!(mixed_ways(&fit(&lossguide.build().unwrap(), &d, 10), &groups), 0);
    // A feature outside all groups stands alone.
    let alone = base().interaction_constraints(vec![vec![0, 1]]);
    assert_eq!(mixed_ways(&fit(&alone.build().unwrap(), &d, 10), &groups[..1]), 0);
}

#[test]
fn splits_exceed_gamma_and_keep_heavy_children() {
    let d = noisy(80, 3, 5);
    for method in [TreeMethod::Hist, TreeMethod::Exact, TreeMethod::Approx] {
        let params = TrainingParams::builder()
            .objective("reg:squarederror")
            .tree_method(method)
            .max_depth(5)
            .gamma(w(0.05))
            .min_child_weight(w(6.0))
            .build()
            .unwrap();
        let model = fit(&params, &d, 8);
        let mut splits = 0;
        for tree in model.trees() {
            for node in tree.nodes() {
                if !node.is_leaf() {
                    splits += 1;
                    assert!(f(node.split_gain) > 0.05);
                    assert!(f(tree.node(node.left as usize).sum_hess) >= 6.0);
                    assert!(f(tree.node(node.right as usize).sum_hess) >= 6.0);
                }
            }
        }
        assert!(splits > 0);
    }
}

#[test]
fn coordinate_steps_minimize_the_penalized_loss() {
    let loss = |gs: f64, hs: f64, weight: f64, alpha: f64, lambda: f64, d: f64| {
        let u = weight + d;
        gs * d + 0.5 * hs * d * d + 0.5 * lambda * u * u + alpha * u.abs()
    };
    for (gs, hs, weight, alpha, lambda) in [
        (-4.0, 2.0, 0.0, 1.0, 1.0),
        (4.0, 2.0, 0.0, 1.0, 1.0),
        (0.5, 2.0, 0.0, 1.0, 1.0),
        (4.0, 2.0, 1.0, 0.5, 0.0),
        (-4.0, 2.0, -1.0, 0.5, 0.0),
        (3.0, 1.0, 2.0, 0.0, 3.0),
    ] {
        let (a, b) = (w(alpha), w(lambda));
        let d = g(coordinate_delta(w(gs), w(hs), w(weight), a, b, &calc()));
        let least = loss(gs, hs, weight, alpha, lambda, d);
        for k in -400..=400 {
            let other = loss(gs, hs, weight, alpha, lambda, k as f64 / 100.0);
            assert!(least <= other + 1e-12, "{gs} {hs} {weight}: {d}");
        }
    }
    // -(g + alpha) / h with g = -4 and h = 3.
    let step = coordinate_delta(w(-4.0), w(2.0), w(0.0), w(1.0), w(1.0), &calc());
    assert_eq!(g(step), 1.0);
    // Without enough curvature there is no step.
    let none = coordinate_delta(w(-4.0), w(0.0), w(0.0), w(0.0), w(1.0), &calc());
    assert_eq!(g(none), 0.0);
}
