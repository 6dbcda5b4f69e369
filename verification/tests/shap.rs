use sequoia_boost::arith::{Calc, Op};
use sequoia_boost::config::TrainingParams;
use sequoia_boost::data::dmatrix::DMatrix;
use sequoia_boost::learner::model::{BoostedModel, LinearModel};
use sequoia_boost::learner::shap::{extend_path, unwind_path, unwound_path_sum, PathElement};
use sequoia_boost::learner::train::train;
use sequoia_boost::number::{Single, Wide};
use sequoia_boost::text::{Precision, Reader};
use sequoia_boost::tree::regtree::RegTree;

fn s(x: f32) -> Single {
    Single { bits: x.to_bits() }
}

fn f(v: Single) -> f32 {
    f32::from_bits(v.bits)
}

#[allow(dead_code)]
fn w(x: f64) -> Wide {
    Wide { bits: x.to_bits() }
}

#[allow(dead_code)]
fn g(v: Wide) -> f64 {
    f64::from_bits(v.bits)
}

#[allow(dead_code)]
fn many(x: &[f32]) -> Vec<Single> {
    x.iter().map(|v| s(*v)).collect()
}

#[allow(dead_code)]
fn floats(x: &[Single]) -> Vec<f32> {
    x.iter().map(|v| f(*v)).collect()
}

fn compute(op: Op, a: u64, b: u64) -> u64 {
    let (x, y) = (f64::from_bits(a), f64::from_bits(b));
    let (p, q) = (f32::from_bits(a as u32), f32::from_bits(b as u32));
    match op {
        Op::Add => (x + y).to_bits(),
        Op::Sub => (x - y).to_bits(),
        Op::Mul => (x * y).to_bits(),
        Op::Div => (x / y).to_bits(),
        Op::Pow => x.powf(y).to_bits(),
        Op::Exp => x.exp().to_bits(),
        Op::Ln => x.ln().to_bits(),
        Op::Log2 => x.log2().to_bits(),
        Op::Sqrt => x.sqrt().to_bits(),
        Op::Round => x.round().to_bits(),
        Op::Ceil => x.ceil().to_bits(),
        Op::AddSingle => (p + q).to_bits() as u64,
        Op::SubSingle => (p - q).to_bits() as u64,
        Op::MulSingle => (p * q).to_bits() as u64,
        Op::DivSingle => (p / q).to_bits() as u64,
        Op::ExpSingle => p.exp().to_bits() as u64,
        Op::LnSingle => p.ln().to_bits() as u64,
        Op::SqrtSingle => p.sqrt().to_bits() as u64,
        Op::Widen => (p as f64).to_bits(),
        Op::Narrow => (x as f32).to_bits() as u64,
        Op::OfInteger => (a as f64).to_bits(),
        Op::OfIntegerSingle => (a as f32).to_bits() as u64,
    }
}

fn calc() -> Calc<fn(Op, u64, u64) -> u64> {
    Calc::new(compute)
}

fn read(k: Precision, text: &str) -> Option<u64> {
    match k {
        Precision::Single => text.parse::<f32>().ok().map(|x| x.to_bits() as u64),
        Precision::Double => text.parse::<f64>().ok().map(|x| x.to_bits()),
    }
}

fn reader() -> Reader<fn(Precision, &str) -> Option<u64>> {
    Reader::new(read)
}

fn dense(x: &[f32], n_rows: usize, n_cols: usize) -> DMatrix {
    DMatrix::from_dense(&many(x), n_rows, n_cols).unwrap()
}

fn fit(params: &TrainingParams, d: &DMatrix, rounds: usize) -> BoostedModel {
    train(params, d, rounds, &reader(), &calc()).unwrap()
}

fn contributions(model: &BoostedModel, d: &DMatrix) -> Vec<f32> {
    floats(&model.predict_contribs(d, &calc()).unwrap())
}

fn interactions(model: &BoostedModel, d: &DMatrix) -> Vec<f32> {
    floats(&model.predict_interactions(d, &calc()).unwrap())
}

fn margins(model: &BoostedModel, d: &DMatrix) -> Vec<f32> {
    floats(&model.predict_margin(d, &calc()))
}

/// A small dense dataset with `nf` features; feature 0 and 1 carry signal, the
/// rest are noise.
fn make_data(n: usize, nf: usize) -> DMatrix {
    let mut x = vec![0f32; n * nf];
    let mut y = vec![0f32; n];
    for i in 0..n {
        for j in 0..nf {
            // Deterministic pseudo-random values.
            let v = ((i * 31 + j * 17 + 7) % 97) as f32 / 97.0;
            x[i * nf + j] = v;
        }
        let f0 = x[i * nf];
        let f1 = x[i * nf + 1];
        y[i] = 2.0 * f0 - 1.5 * f1 + 0.3;
    }
    dense(&x, n, nf).with_labels(&many(&y)).unwrap()
}

fn class_data(n: usize, nf: usize, k: usize) -> DMatrix {
    let mut x = vec![0f32; n * nf];
    let mut y = vec![0f32; n];
    for i in 0..n {
        for j in 0..nf {
            x[i * nf + j] = ((i * 13 + j * 29 + 3) % 101) as f32 / 101.0;
        }
        y[i] = (i % k) as f32;
    }
    dense(&x, n, nf).with_labels(&many(&y)).unwrap()
}

fn regression() -> TrainingParams {
    TrainingParams::builder()
        .objective("reg:squarederror")
        .max_depth(4)
        .eta(w(0.3))
        .build()
        .unwrap()
}

fn classes(k: usize) -> TrainingParams {
    TrainingParams::builder()
        .objective("multi:softprob")
        .num_class(k)
        .max_depth(3)
        .eta(w(0.3))
        .build()
        .unwrap()
}

#[test]
fn additivity_single_output() {
    let n = 80;
    let nf = 5;
    let d = make_data(n, nf);
    let model = fit(&regression(), &d, 30);

    let contribs = contributions(&model, &d);
    let margin = margins(&model, &d);
    let width = nf + 1;
    assert_eq!(contribs.len(), n * width);

    let mut max_err = 0f64;
    for row in 0..n {
        let sum: f64 = contribs[row * width..row * width + width]
            .iter()
            .map(|&v| v as f64)
            .sum();
        let err = (sum - margin[row] as f64).abs();
        max_err = max_err.max(err);
    }
    assert!(
        max_err < 1e-4,
        "max additivity error {max_err} exceeded 1e-4"
    );
}

#[test]
fn additivity_multiclass() {
    let n = 90;
    let nf = 4;
    let k = 3;
    let d = class_data(n, nf, k);
    let model = fit(&classes(k), &d, 15);
    assert_eq!(model.n_outputs(), k);

    let contribs = contributions(&model, &d);
    let margin = margins(&model, &d);
    let width = nf + 1;
    assert_eq!(contribs.len(), n * k * width);

    let mut max_err = 0f64;
    for row in 0..n {
        for c in 0..k {
            let base = (row * k + c) * width;
            let sum: f64 = contribs[base..base + width].iter().map(|&v| v as f64).sum();
            let err = (sum - margin[row * k + c] as f64).abs();
            max_err = max_err.max(err);
        }
    }
    assert!(
        max_err < 1e-4,
        "max multiclass additivity error {max_err} exceeded 1e-4"
    );
}

#[test]
fn unused_feature_has_zero_contribution() {
    // Feature 3 is pure constant noise (never predictive) AND we verify no
    // split uses it; its contribution must be ~0 for every row.
    let n = 70;
    let nf = 4;
    let mut x = vec![0f32; n * nf];
    let mut y = vec![0f32; n];
    for i in 0..n {
        x[i * nf] = ((i * 7 + 1) % 53) as f32 / 53.0;
        x[i * nf + 1] = ((i * 11 + 2) % 53) as f32 / 53.0;
        x[i * nf + 2] = ((i * 5 + 3) % 53) as f32 / 53.0;
        x[i * nf + 3] = 0.5; // constant -> never a useful split
        y[i] = 3.0 * x[i * nf] - 2.0 * x[i * nf + 1];
    }
    let d = dense(&x, n, nf).with_labels(&many(&y)).unwrap();
    let model = fit(&regression(), &d, 25);

    // Sanity: feature 3 is never used in any split.
    let used = model
        .trees()
        .iter()
        .flat_map(|t| t.nodes().iter())
        .any(|nd| !nd.is_leaf() && nd.split_feature == 3);
    assert!(!used, "feature 3 unexpectedly used in a split");

    let contribs = contributions(&model, &d);
    let width = nf + 1;
    let mut max_abs = 0f32;
    for row in 0..n {
        max_abs = max_abs.max(contribs[row * width + 3].abs());
    }
    assert!(
        max_abs < 1e-6,
        "unused feature contribution {max_abs} not ~0"
    );
}

#[test]
fn interactions_single_output() {
    let n = 80;
    let nf = 5;
    let d = make_data(n, nf);
    let model = fit(&regression(), &d, 30);

    let width = nf + 1;
    let mwidth = width * width;
    let inter = interactions(&model, &d);
    assert_eq!(inter.len(), n * mwidth);

    let contribs = contributions(&model, &d);
    let margin = margins(&model, &d);
    let base = f(model.base_score()) as f64;

    let mut max_row_err = 0f64;
    let mut max_eff_err = 0f64;
    let mut max_sym_err = 0f64;
    for row in 0..n {
        let m = &inter[row * mwidth..row * mwidth + mwidth];
        // Row consistency: each feature row sums to its SHAP contribution.
        for i in 0..nf {
            let sum: f64 = (0..width).map(|j| m[i * width + j] as f64).sum();
            let cval = contribs[row * width + i] as f64;
            max_row_err = max_row_err.max((sum - cval).abs());
        }
        // Efficiency: the whole matrix sums to margin - base_score.
        let total: f64 = m.iter().map(|&v| v as f64).sum();
        let target = margin[row] as f64 - base;
        max_eff_err = max_eff_err.max((total - target).abs());
        // Symmetry.
        for i in 0..width {
            for j in 0..width {
                let e = (m[i * width + j] as f64 - m[j * width + i] as f64).abs();
                max_sym_err = max_sym_err.max(e);
            }
        }
    }
    assert!(max_row_err < 1e-4, "row-consistency error {max_row_err}");
    assert!(max_eff_err < 1e-4, "efficiency error {max_eff_err}");
    assert!(max_sym_err < 1e-5, "symmetry error {max_sym_err}");
}

#[test]
fn interactions_multiclass() {
    let n = 90;
    let nf = 4;
    let k = 3;
    let d = class_data(n, nf, k);
    let model = fit(&classes(k), &d, 15);
    assert_eq!(model.n_outputs(), k);

    let width = nf + 1;
    let mwidth = width * width;
    let inter = interactions(&model, &d);
    assert_eq!(inter.len(), n * k * mwidth);

    let contribs = contributions(&model, &d);
    let margin = margins(&model, &d);
    let base = f(model.base_score()) as f64;

    let mut max_row_err = 0f64;
    let mut max_eff_err = 0f64;
    let mut max_sym_err = 0f64;
    for row in 0..n {
        for c in 0..k {
            let m = &inter[(row * k + c) * mwidth..(row * k + c) * mwidth + mwidth];
            let cbase = (row * k + c) * width;
            for i in 0..nf {
                let sum: f64 = (0..width).map(|j| m[i * width + j] as f64).sum();
                let cval = contribs[cbase + i] as f64;
                max_row_err = max_row_err.max((sum - cval).abs());
            }
            let total: f64 = m.iter().map(|&v| v as f64).sum();
            let target = margin[row * k + c] as f64 - base;
            max_eff_err = max_eff_err.max((total - target).abs());
            for i in 0..width {
                for j in 0..width {
                    let e = (m[i * width + j] as f64 - m[j * width + i] as f64).abs();
                    max_sym_err = max_sym_err.max(e);
                }
            }
        }
    }
    assert!(max_row_err < 1e-4, "row-consistency error {max_row_err}");
    assert!(max_eff_err < 1e-4, "efficiency error {max_eff_err}");
    assert!(max_sym_err < 1e-5, "symmetry error {max_sym_err}");
}

#[test]
fn paths_are_extended_and_unwound() {
    let c = calc();
    let mut path: Vec<PathElement> = Vec::new();
    extend_path(&mut path, w(1.0), w(1.0), -1, &c);
    assert_eq!(g(path[0].pweight), 1.0);
    extend_path(&mut path, w(0.25), w(1.0), 3, &c);
    // Half of the orderings put the feature last.
    assert_eq!(g(path[0].pweight), 0.125);
    assert_eq!(g(path[1].pweight), 0.5);
    extend_path(&mut path, w(0.5), w(0.0), 4, &c);
    let before: Vec<f64> = path[..2].iter().map(|e| g(e.pweight)).collect();
    assert_eq!(path.len(), 3);
    assert_eq!(g(unwound_path_sum(&path, 1, &c)), 0.25);
    unwind_path(&mut path, 2, &c);
    assert_eq!(path.len(), 2);
    assert_eq!(path[1].feature_index, 3);
    let after: Vec<f64> = path.iter().map(|e| g(e.pweight)).collect();
    assert_eq!(after, vec![0.125, 0.5]);
    assert_ne!(before, after);
}

#[test]
fn a_stump_contributes_by_its_feature_alone() {
    // Half of the cover lies on each side, so the mean is 0.5 and the feature
    // moves the prediction by 1.5 either way.
    let mut t = RegTree::with_root(s(10.0));
    t.expand(0, 1, s(0.5), true, s(-1.0), s(5.0), s(2.0), s(5.0));
    let mut model = BoostedModel::new(s(0.25), "reg:squarederror".to_string(), 0, 3);
    model.push_tree(t);
    let d = dense(&[9.0, 0.0, 9.0, 9.0, 1.0, 9.0], 2, 3);
    let c = contributions(&model, &d);
    assert_eq!(c, vec![0.0, -1.5, 0.0, 0.75, 0.0, 1.5, 0.0, 0.75]);
}

#[test]
fn leaves_are_reported_per_tree() {
    let d = make_data(20, 3);
    let model = fit(&regression(), &d, 4);
    let leaves = model.predict_leaf(&d).unwrap();
    assert_eq!(leaves.len(), 20 * 4);
    for row in 0..20 {
        let mut sum = f(model.base_score());
        for (t, tree) in model.trees().iter().enumerate() {
            let node = tree.node(leaves[row * 4 + t]);
            assert!(node.is_leaf());
            sum += f(node.leaf_value);
        }
        assert_eq!(sum, margins(&model, &d)[row]);
    }
}

#[test]
fn linear_models_contribute_by_their_terms() {
    let linear = LinearModel::new(many(&[2.0, 0.5, -1.0, 4.0]), many(&[0.25, -0.5]));
    let model = BoostedModel::new(s(0.125), "multi:softprob".to_string(), 2, 2).with_linear(linear);
    let d = dense(&[3.0, f32::NAN], 1, 2);
    let c = contributions(&model, &d);
    assert_eq!(c, vec![6.0, 0.0, 0.375, 1.5, 0.0, -0.375]);
    assert_eq!(margins(&model, &d), vec![6.375, 1.125]);
    let m = floats(&model.predict_interactions(&d, &calc()).unwrap());
    assert_eq!(m[..9], [6.0, 0.0, 0.0, 0.0, 0.0, 0.0, 0.0, 0.0, 0.25]);
    assert_eq!(m[9..], [1.5, 0.0, 0.0, 0.0, 0.0, 0.0, 0.0, 0.0, -0.5]);
}

#[test]
fn data_needs_only_the_features_that_are_read() {
    // A model over three features that splits on the first alone.
    let mut tree = RegTree::with_root(s(4.0));
    tree.expand(0, 0, s(0.5), true, s(-1.0), s(1.0), s(2.0), s(3.0));
    let mut model = BoostedModel::new(s(0.5), "reg:squarederror".to_string(), 0, 3);
    model.push_tree(tree);
    let narrow = DMatrix::from_dense(&many(&[0.0, 1.0]), 2, 1).unwrap();
    let c = contributions(&model, &narrow);
    // The mean leaf is (-1 + 3 * 2) / 4 = 1.25.
    assert_eq!(c, vec![-2.25, 0.0, 0.0, 1.75, 0.75, 0.0, 0.0, 1.75]);
    assert_eq!(interactions(&model, &narrow).len(), 2 * 16);
}

#[test]
fn unwinding_the_only_feature_leaves_nothing() {
    let c = calc();
    let mut path: Vec<PathElement> = Vec::new();
    extend_path(&mut path, w(0.5), w(1.0), 2, &c);
    assert_eq!(path.len(), 1);
    unwind_path(&mut path, 0, &c);
    assert!(path.is_empty());
}
