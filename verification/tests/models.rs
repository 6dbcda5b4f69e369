use sequoia_boost::arith::{Calc, Op};
use sequoia_boost::config::{BoosterKind, TrainingParams};
use sequoia_boost::data::dmatrix::DMatrix;
use sequoia_boost::error::SequoiaError;
use sequoia_boost::learner::model::{BoostedModel, LinearModel};
use sequoia_boost::learner::train::train;
use sequoia_boost::metric::base::Metric;
use sequoia_boost::metric::mean::Rmse;
use sequoia_boost::model::xgboost_json::{
    export_xgboost_json, import_xgboost_json, tree_from_json, tree_to_json,
};
use sequoia_boost::number::{Single, Wide};
use sequoia_boost::text::{Precision, Reader, Writer};
use sequoia_boost::tree::regtree::RegTree;

fn s(x: f32) -> Single {
    Single { bits: x.to_bits() }
}

fn f(v: Single) -> f32 {
    f32::from_bits(v.bits)
}

#[allow(dead_code)]
fn w(x: f64) -> Wide {
    Wide { bits: x.to_bits() }
}

#[allow(dead_code)]
fn g(v: Wide) -> f64 {
    f64::from_bits(v.bits)
}

#[allow(dead_code)]
fn many(x: &[f32]) -> Vec<Single> {
    x.iter().map(|v| s(*v)).collect()
}

#[allow(dead_code)]
fn floats(x: &[Single]) -> Vec<f32> {
    x.iter().map(|v| f(*v)).collect()
}

fn compute(op: Op, a: u64, b: u64) -> u64 {
    let (x, y) = (f64::from_bits(a), f64::from_bits(b));
    let (p, q) = (f32::from_bits(a as u32), f32::from_bits(b as u32));
    match op {
        Op::Add => (x + y).to_bits(),
        Op::Sub => (x - y).to_bits(),
        Op::Mul => (x * y).to_bits(),
        Op::Div => (x / y).to_bits(),
        Op::Pow => x.powf(y).to_bits(),
        Op::Exp => x.exp().to_bits(),
        Op::Ln => x.ln().to_bits(),
        Op::Log2 => x.log2().to_bits(),
        Op::Sqrt => x.sqrt().to_bits(),
        Op::Round => x.round().to_bits(),
        Op::Ceil => x.ceil().to_bits(),
        Op::AddSingle => (p + q).to_bits() as u64,
        Op::SubSingle => (p - q).to_bits() as u64,
        Op::MulSingle => (p * q).to_bits() as u64,
        Op::DivSingle => (p / q).to_bits() as u64,
        Op::ExpSingle => p.exp().to_bits() as u64,
        Op::LnSingle => p.ln().to_bits() as u64,
        Op::SqrtSingle => p.sqrt().to_bits() as u64,
        Op::Widen => (p as f64).to_bits(),
        Op::Narrow => (x as f32).to_bits() as u64,
        Op::OfInteger => (a as f64).to_bits(),
        Op::OfIntegerSingle => (a as f32).to_bits() as u64,
    }
}

fn calc() -> Calc<fn(Op, u64, u64) -> u64> {
    Calc::new(compute)
}

fn read(k: Precision, text: &str) -> Option<u64> {
    match k {
        Precision::Single => text.parse::<f32>().ok().map(|x| x.to_bits() as u64),
        Precision::Double => text.parse::<f64>().ok().map(|x| x.to_bits()),
    }
}

fn reader() -> Reader<fn(Precision, &str) -> Option<u64>> {
    Reader::new(read)
}

fn write(k: Precision, bits: u64) -> String {
    match k {
        Precision::Single => f32::from_bits(bits as u32).to_string(),
        Precision::Double => f64::from_bits(bits).to_string(),
    }
}

fn writer() -> Writer<fn(Precision, u64) -> String> {
    Writer::new(write)
}

fn dense(x: &[f32], n_rows: usize, n_cols: usize) -> DMatrix {
    DMatrix::from_dense(&many(x), n_rows, n_cols).unwrap()
}

fn fit(params: &TrainingParams, d: &DMatrix, rounds: usize) -> BoostedModel {
    train(params, d, rounds, &reader(), &calc()).unwrap()
}

fn predictions(model: &BoostedModel, d: &DMatrix) -> Vec<f32> {
    floats(&model.predict(d, &calc()).unwrap())
}

fn export(model: &BoostedModel) -> String {
    export_xgboost_json(model, &writer(), &calc()).unwrap()
}

fn import(json: &str) -> Result<BoostedModel, SequoiaError> {
    import_xgboost_json(json, &reader(), &calc())
}

/// A small squared-error model on a noisy nonlinear signal.
fn reg_model() -> (BoostedModel, DMatrix) {
    let n = 120;
    let mut x = Vec::with_capacity(n * 2);
    let mut y = Vec::with_capacity(n);
    for i in 0..n {
        let a = i as f32 / n as f32;
        let b = ((i * 7) % n) as f32 / n as f32;
        x.push(a);
        x.push(b);
        y.push(2.0 * a - 3.0 * b + if a > 0.5 { 1.0 } else { -1.0 });
    }
    let d = dense(&x, n, 2).with_labels(&many(&y)).unwrap();
    let params = TrainingParams::builder()
        .objective("reg:squarederror")
        .max_depth(3)
        .eta(w(0.3))
        .build()
        .unwrap();
    (fit(&params, &d, 15), d)
}

#[test]
fn roundtrip_reg_preserves_predictions() {
    let (model, d) = reg_model();
    let before = predictions(&model, &d);

    let json = export(&model);
    let restored = import(&json).unwrap();
    let after = predictions(&restored, &d);

    assert_eq!(restored.num_trees(), model.num_trees());
    assert_eq!(restored.n_features(), model.n_features());
    assert_eq!(restored.objective(), model.objective());
    assert_eq!(before.len(), after.len());
    for (a, b) in before.iter().zip(&after) {
        assert!((a - b).abs() < 1e-5, "pred drift: {a} vs {b}");
    }
    assert!(restored.is_laid_out());
}

#[test]
fn roundtrip_binary_preserves_predictions() {
    // Binary logistic exercises the prob<->margin base_score link.
    let n = 80;
    let x: Vec<f32> = (0..n).map(|i| i as f32 / n as f32).collect();
    let y: Vec<f32> = x.iter().map(|&v| f32::from(v > 0.4)).collect();
    let d = dense(&x, n, 1).with_labels(&many(&y)).unwrap();
    let params = TrainingParams::builder()
        .objective("binary:logistic")
        .max_depth(3)
        .eta(w(0.3))
        .build()
        .unwrap();
    let model = fit(&params, &d, 20);
    let before = predictions(&model, &d);

    let json = export(&model);
    let restored = import(&json).unwrap();
    assert_eq!(restored.objective(), "binary:logistic");
    // base_score should round-trip through the logit/sigmoid link.
    assert!((f(restored.base_score()) - f(model.base_score())).abs() < 1e-4);
    let after = predictions(&restored, &d);
    for (a, b) in before.iter().zip(&after) {
        assert!((a - b).abs() < 1e-5, "pred drift: {a} vs {b}");
    }
}

/// A minimal, hand-written stump: feature 0 with threshold 1.5, left leaf +10,
/// right leaf -10, base_score 0 (raw margin).
#[test]
fn roundtrip_count_models_keeps_the_base_score() {
    let x: Vec<f32> = (0..30).map(|i| i as f32).collect();
    let y: Vec<f32> = (0..30).map(|i| 1.0 + (i % 4) as f32).collect();
    let d = dense(&x, 30, 1).with_labels(&many(&y)).unwrap();
    for name in ["count:poisson", "reg:gamma", "reg:tweedie"] {
        let params =
            TrainingParams::builder().objective(name).max_depth(2).build().unwrap();
        let model = fit(&params, &d, 4);
        let back = import(&export(&model)).unwrap();
        assert!((f(model.base_score()) - f(back.base_score())).abs() < 1e-6, "{name}");
        for (a, b) in predictions(&model, &d).iter().zip(predictions(&back, &d)) {
            assert!((a - b).abs() < 1e-5 * a.abs(), "{name}");
        }
    }
}

fn hand_stump_json() -> &'static str {
    r#"{
      "version": [2, 0, 0],
      "learner": {
        "gradient_booster": {
          "name": "gbtree",
          "model": {
            "gbtree_model_param": {"num_parallel_tree": "1", "num_trees": "1"},
            "tree_info": [0],
            "trees": [{
              "id": 0,
              "tree_param": {"num_nodes": "3", "num_feature": "1", "size_leaf_vector": "0"},
              "left_children":  [1, -1, -1],
              "right_children": [2, -1, -1],
              "parents":        [2147483647, 0, 0],
              "split_indices":  [0, 0, 0],
              "split_conditions": [1.5, 10.0, -10.0],
              "default_left":   [1, 0, 0],
              "base_weights":   [0.0, 10.0, -10.0],
              "loss_changes":   [42.0, 0.0, 0.0],
              "sum_hessian":    [8.0, 5.0, 3.0],
              "split_type":     [0, 0, 0]
            }]
          }
        },
        "learner_model_param": {"base_score": "0", "num_class": "0", "num_feature": "1"},
        "objective": {"name": "reg:squarederror"}
      }
    }"#
}

#[test]
fn import_hand_written_stump_routes_correctly() {
    let model = import(hand_stump_json()).unwrap();
    assert_eq!(model.num_trees(), 1);
    assert_eq!(model.n_features(), 1);
    assert_eq!(f(model.base_score()), 0.0);

    // x=1.0 (< 1.5) -> left leaf +10 ; x=2.0 (>= 1.5) -> right leaf -10.
    let d = dense(&[1.0, 2.0], 2, 1);
    let margins = floats(&model.predict_margin(&d, &calc()));
    assert!((margins[0] - 10.0).abs() < 1e-6, "got {}", margins[0]);
    assert!((margins[1] + 10.0).abs() < 1e-6, "got {}", margins[1]);

    // Missing value follows default_left = true -> left leaf.
    let dm = dense(&[f32::NAN], 1, 1);
    let mm = floats(&model.predict_margin(&dm, &calc()));
    assert!((mm[0] - 10.0).abs() < 1e-6, "missing routed wrong: {}", mm[0]);
    let root = &model.trees()[0].nodes()[0];
    assert_eq!(f(root.split_gain), 42.0);
    assert_eq!(f(root.sum_hess), 8.0);
}

#[test]
fn unsupported_booster_is_rejected() {
    let js = r#"{"learner": {"gradient_booster": {"name": "gblinear"},
                 "learner_model_param": {"num_feature": "3", "base_score": "0"}}}"#;
    let err = import(js).unwrap_err();
    assert!(matches!(err, SequoiaError::ModelFormat(_)));
}

fn refusal(json: &str) -> String {
    match import(json) {
        Err(SequoiaError::ModelFormat(text)) => text,
        _ => panic!("expected a refused document"),
    }
}

#[test]
fn refused_documents_say_what_is_wrong() {
    assert!(matches!(import("{"), Err(SequoiaError::Json(_))));
    assert_eq!(refusal("{}"), "missing `learner`");
    assert_eq!(refusal(r#"{"learner": {}}"#), "missing `gradient_booster`");
    assert_eq!(
        refusal(r#"{"learner": {"gradient_booster": {"name": "dart"}}}"#),
        "unsupported gradient_booster `dart`: only `gbtree` is supported"
    );
    assert_eq!(refusal(r#"{"learner": {"gradient_booster": {}}}"#), "missing `model`");
    let with = |model: &str, params: &str| {
        format!(
            "{{\"learner\": {{\"gradient_booster\": {{\"model\": {model}}}, \
             \"learner_model_param\": {params}}}}}"
        )
    };
    assert_eq!(
        refusal(r#"{"learner": {"gradient_booster": {"model": {}}}}"#),
        "missing `learner_model_param`"
    );
    assert_eq!(refusal(&with("{}", "{}")), "missing/invalid `num_feature`");
    assert_eq!(
        refusal(&with("{}", "{\"num_feature\": 2}")),
        "missing `model.trees` array"
    );
    assert_eq!(
        refusal(&with("{\"trees\": []}", "{\"num_feature\": true}")),
        "missing/invalid `base_score`"
    );
    let tree = |text: &str| {
        refusal(&with(
            &format!("{{\"trees\": [{text}]}}"),
            "{\"num_feature\": \"1\", \"base_score\": 0.5}",
        ))
    };
    assert_eq!(tree("{}"), "tree 0: model format error: missing `left_children`");
    assert_eq!(
        tree("{\"left_children\": []}"),
        "tree 0: model format error: missing `right_children`"
    );
    assert_eq!(
        tree("{\"left_children\": [], \"right_children\": []}"),
        "tree 0: model format error: missing `split_conditions`"
    );
    assert_eq!(
        tree("{\"left_children\": [1], \"right_children\": [], \"split_conditions\": []}"),
        "tree 0: model format error: missing `right_children`"
    );
    assert_eq!(
        tree("{\"left_children\": [-1], \"right_children\": [-1], \"split_conditions\": [1e300]}"),
        "tree 0: invalid type: null, expected f32"
    );
}

#[test]
fn documents_may_leave_things_out() {
    let json = r#"{"learner": {
        "gradient_booster": {"model": {"trees": [
            {"left_children": [-1], "right_children": [], "split_conditions": [],
             "base_weights": ["2.5"]}]}},
        "learner_model_param": {"num_feature": 1, "base_score": 0.5, "num_class": null}}}"#;
    let model = import(json).unwrap();
    assert_eq!(model.objective(), "reg:squarederror");
    assert_eq!(model.num_class(), 0);
    assert_eq!(f(model.trees()[0].nodes()[0].leaf_value), 2.5);
    assert_eq!(f(model.base_score()), 0.5);
}

#[test]
fn unknown_objectives_keep_the_base_score() {
    let json = hand_stump_json()
        .replace("reg:squarederror", "custom:mine")
        .replace("\"base_score\": \"0\"", "\"base_score\": \"0.75\"");
    let model = import(&json).unwrap();
    assert_eq!(f(model.base_score()), 0.75);
    let logistic = json.replace("custom:mine", "binary:logistic");
    let model = import(&logistic).unwrap();
    assert!((f(model.base_score()) - 3.0f32.ln()).abs() < 1e-6);
    let again = import(&export(&model)).unwrap();
    assert!((f(again.base_score()) - 3.0f32.ln()).abs() < 1e-6);
}

#[test]
fn exported_documents_have_the_expected_members() {
    let model = import(hand_stump_json()).unwrap();
    let text = export(&model);
    let doc: serde_json::Value = serde_json::from_str(&text).unwrap();
    let learner = &doc["learner"];
    assert_eq!(learner["gradient_booster"]["name"], "gbtree");
    assert_eq!(learner["learner_model_param"]["num_feature"], "1");
    assert_eq!(learner["learner_model_param"]["base_score"], "0");
    assert_eq!(learner["objective"]["name"], "reg:squarederror");
    let tree = &learner["gradient_booster"]["model"]["trees"][0];
    assert_eq!(tree["parents"][0], 2147483647);
    assert_eq!(tree["parents"][2], 0);
    assert_eq!(tree["left_children"][1], -1);
    assert_eq!(tree["split_conditions"][0], 1.5);
    assert_eq!(tree["default_left"][1], 1);
    assert_eq!(doc["version"][0], 2);
}

#[test]
fn trees_are_read_back_from_documents() {
    let (model, _) = reg_model();
    let tree = &model.trees()[0];
    let doc = tree_to_json(0, tree, 2, &writer(), &calc());
    let back = tree_from_json(&doc, &reader(), &calc()).unwrap();
    assert_eq!(back.num_nodes(), tree.num_nodes());
    for (a, b) in back.nodes().iter().zip(tree.nodes()) {
        assert_eq!(a.is_leaf(), b.is_leaf());
        assert_eq!((a.left, a.right, a.sum_hess), (b.left, b.right, b.sum_hess));
        if a.is_leaf() {
            assert_eq!(a.leaf_value, b.leaf_value);
        } else {
            assert_eq!(a.split_cond, b.split_cond);
            assert_eq!(a.split_feature, b.split_feature);
            assert_eq!(a.default_left, b.default_left);
        }
    }
}

fn step_dataset(n: usize) -> DMatrix {
    let x: Vec<f32> = (0..n).map(|i| i as f32 / n as f32).collect();
    let y: Vec<f32> = x.iter().map(|v| if *v >= 0.5 { 1.0 } else { 0.0 }).collect();
    dense(&x, n, 1).with_labels(&many(&y)).unwrap()
}

#[test]
fn dart_trains_reduces_error_and_roundtrips() {
    let d = step_dataset(120);
    let params = TrainingParams::builder()
        .objective("reg:squarederror")
        .booster(BoosterKind::Dart)
        .rate_drop(w(0.1))
        .max_depth(3)
        .eta(w(0.3))
        .build()
        .unwrap();
    let model = fit(&params, &d, 60);
    assert_eq!(model.num_trees(), 60);

    // It should learn the step: RMSE well below a constant predictor.
    let preds = predictions(&model, &d);
    let rmse = g(Rmse.eval(&many(&preds), d.labels().unwrap(), None, &calc()));
    assert!(rmse < 0.1, "dart rmse too high: {rmse}");

    // Native round-trip preserves predictions (weights included).
    let bytes = model.to_bytes().unwrap();
    let restored = BoostedModel::from_bytes(&bytes).unwrap();
    let after = predictions(&restored, &d);
    for (a, b) in preds.iter().zip(&after) {
        assert!((a - b).abs() < 1e-6, "roundtrip mismatch {a} vs {b}");
    }

    // JSON round-trip too.
    let json = model.to_json(&writer(), &calc()).unwrap();
    let rj = BoostedModel::from_json(&json, &reader(), &calc()).unwrap();
    let aj = predictions(&rj, &d);
    for (a, b) in preds.iter().zip(&aj) {
        assert!((a - b).abs() < 1e-6);
    }
}

#[test]
fn serde_roundtrip_preserves_predictions() {
    let (model, d) = reg_model();
    let before = predictions(&model, &d);
    let restored = BoostedModel::from_bytes(&model.to_bytes().unwrap()).unwrap();
    assert_eq!(before, predictions(&restored, &d));
    let text = model.to_json(&writer(), &calc()).unwrap();
    let from_json = BoostedModel::from_json(&text, &reader(), &calc()).unwrap();
    for (a, b) in before.iter().zip(&predictions(&from_json, &d)) {
        assert!((a - b).abs() < 1e-6);
    }
}

#[test]
fn native_formats_keep_everything() {
    let mut tree = RegTree::with_root(s(10.0));
    tree.expand_categorical(0, 1, &[0, 7], false, s(-1.0), s(5.0), s(2.0), s(5.0));
    let mut model = BoostedModel::new(s(-0.5), "na\u{ef}ve \u{1f332}".to_string(), 2, 3);
    model.push_tree_weighted(tree.clone(), s(0.25));
    model.push_tree_weighted(tree, s(1.5));
    model.set_best_iteration(Some(4));
    let bytes = model.to_bytes().unwrap();
    let text = model.to_json(&writer(), &calc()).unwrap();
    for back in [
        BoostedModel::from_bytes(&bytes).unwrap(),
        BoostedModel::from_json(&text, &reader(), &calc()).unwrap(),
    ] {
        assert_eq!(back.objective(), model.objective());
        assert_eq!(back.best_iteration(), Some(4));
        assert_eq!(back.tree_weights(), model.tree_weights());
        assert_eq!(back.num_class(), 2);
        assert_eq!(back.n_features(), 3);
        assert_eq!(back.base_score(), s(-0.5));
        assert_eq!(back.trees()[1].nodes(), model.trees()[1].nodes());
        assert_eq!(back.trees()[1].categories(), &[0, 7]);
        assert!(back.linear().is_none());
    }
    let linear = BoostedModel::new(s(0.0), "reg:squarederror".to_string(), 0, 2)
        .with_linear(LinearModel::new(many(&[0.1, -2.0]), many(&[3.0])));
    let back = BoostedModel::from_bytes(&linear.to_bytes().unwrap()).unwrap();
    assert_eq!(back.linear().unwrap().weights(), &many(&[0.1, -2.0])[..]);
    let text = linear.to_json(&writer(), &calc()).unwrap();
    let back = BoostedModel::from_json(&text, &reader(), &calc()).unwrap();
    assert_eq!(back.linear().unwrap().weights(), &many(&[0.1, -2.0])[..]);
    assert_eq!(back.linear().unwrap().bias(), &many(&[3.0])[..]);
}

#[test]
fn malformed_native_models_are_refused() {
    let (model, _) = reg_model();
    let bytes = model.to_bytes().unwrap();
    let refused = |b: &[u8]| match BoostedModel::from_bytes(b) {
        Err(SequoiaError::ModelFormat(text)) => text == "malformed binary model",
        _ => false,
    };
    assert!(refused(&[]));
    assert!(refused(&bytes[1..]));
    assert!(refused(&bytes[..bytes.len() - 8]));
    let mut longer = bytes.clone();
    longer.extend_from_slice(&[0; 8]);
    assert!(refused(&longer));
    let mut marked = bytes;
    marked[8] ^= 1;
    assert!(refused(&marked));
    assert!(matches!(
        BoostedModel::from_json("[]", &reader(), &calc()),
        Err(SequoiaError::ModelFormat(_))
    ));
    assert!(matches!(
        BoostedModel::from_json("", &reader(), &calc()),
        Err(SequoiaError::Json(_))
    ));
}

#[test]
fn layouts_are_told_apart() {
    let model = import(hand_stump_json()).unwrap();
    assert!(model.is_laid_out());
    let looped = hand_stump_json().replace("[1, -1, -1]", "[0, -1, -1]");
    assert!(!import(&looped).unwrap().is_laid_out());
    let narrow = hand_stump_json().replace("\"num_feature\": \"1\"}", "\"num_feature\": \"0\"}");
    assert!(!import(&narrow).unwrap().is_laid_out());
}

#[test]
fn awkward_numbers_come_back_exactly() {
    let awkward = [0.1f32, -0.0, 1.0e-45, f32::MIN_POSITIVE, 3.4028235e38, -16777217.0, 1.0 / 3.0];
    for (i, leaf) in awkward.iter().enumerate() {
        for cond in awkward {
            let mut tree = RegTree::with_root(s(7.5));
            tree.expand(0, 2, s(cond), i % 2 == 0, s(*leaf), s(2.5), s(-cond), s(5.0));
            tree.set_split_gain(0, s(*leaf));
            let mut model = BoostedModel::new(s(cond), "reg:squarederror".to_string(), 0, 3);
            model.push_tree(tree);
            let json = model.to_json(&writer(), &calc()).unwrap();
            let own = BoostedModel::from_json(&json, &reader(), &calc()).unwrap();
            let text = export_xgboost_json(&model, &writer(), &calc()).unwrap();
            let other = import_xgboost_json(&text, &reader(), &calc()).unwrap();
            assert_eq!(own.base_score().bits, model.base_score().bits);
            assert_eq!(own.trees()[0].nodes(), model.trees()[0].nodes());
            for k in 0..3 {
                let (a, b) = (model.trees()[0].node(k), other.trees()[0].node(k));
                assert_eq!(a.sum_hess, b.sum_hess);
                if a.is_leaf() {
                    assert_eq!(a.leaf_value, b.leaf_value);
                } else {
                    assert_eq!((a.split_cond, a.split_gain), (b.split_cond, b.split_gain));
                    assert_eq!((a.left, a.right, a.split_feature), (b.left, b.right, 2));
                    assert_eq!(a.default_left, b.default_left);
                }
            }
        }
    }
}
