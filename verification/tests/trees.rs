use sequoia_boost::arith::{Calc, Op};
use sequoia_boost::config::{GrowPolicy, Monotone, TrainingParams};
use sequoia_boost::data::dmatrix::DMatrix;
use sequoia_boost::data::ghist::GHistIndex;
use sequoia_boost::data::meta::FeatureType;
use sequoia_boost::data::quantile::HistCuts;
use sequoia_boost::number::{Single, Wide};
use sequoia_boost::objective::pair::GradPair;
use sequoia_boost::tree::builder::exact::{ExactTreeBuilder, SortedColumns};
use sequoia_boost::tree::builder::hist::HistTreeBuilder;
use sequoia_boost::tree::constraints::{
    calc_weight_bounded, child_bounds, gain_at_weight, satisfies, Bounds,
};
use sequoia_boost::tree::gain::{calc_gain, calc_weight, GradStats, RegParams};
use sequoia_boost::tree::hist::{accumulate, zeroed, CpuBackend, HistogramBackend};
use sequoia_boost::tree::interaction::InteractionConstraints;
use sequoia_boost::tree::regtree::RegTree;
use sequoia_boost::tree::sampler::{all_features, all_rows, ColumnSampler};

fn s(x: f32) -> Single {
    Single { bits: x.to_bits() }
}

fn f(v: Single) -> f32 {
    f32::from_bits(v.bits)
}

#[allow(dead_code)]
fn w(x: f64) -> Wide {
    Wide { bits: x.to_bits() }
}

#[allow(dead_code)]
fn g(v: Wide) -> f64 {
    f64::from_bits(v.bits)
}

#[allow(dead_code)]
fn many(x: &[f32]) -> Vec<Single> {
    x.iter().map(|v| s(*v)).collect()
}

#[allow(dead_code)]
fn floats(x: &[Single]) -> Vec<f32> {
    x.iter().map(|v| f(*v)).collect()
}

fn compute(op: Op, a: u64, b: u64) -> u64 {
    let (x, y) = (f64::from_bits(a), f64::from_bits(b));
    let (p, q) = (f32::from_bits(a as u32), f32::from_bits(b as u32));
    match op {
        Op::Add => (x + y).to_bits(),
        Op::Sub => (x - y).to_bits(),
        Op::Mul => (x * y).to_bits(),
        Op::Div => (x / y).to_bits(),
        Op::Pow => x.powf(y).to_bits(),
        Op::Exp => x.exp().to_bits(),
        Op::Ln => x.ln().to_bits(),
        Op::Log2 => x.log2().to_bits(),
        Op::Sqrt => x.sqrt().to_bits(),
        Op::Round => x.round().to_bits(),
        Op::Ceil => x.ceil().to_bits(),
        Op::AddSingle => (p + q).to_bits() as u64,
        Op::SubSingle => (p - q).to_bits() as u64,
        Op::MulSingle => (p * q).to_bits() as u64,
        Op::DivSingle => (p / q).to_bits() as u64,
        Op::ExpSingle => p.exp().to_bits() as u64,
        Op::LnSingle => p.ln().to_bits() as u64,
        Op::SqrtSingle => p.sqrt().to_bits() as u64,
        Op::Widen => (p as f64).to_bits(),
        Op::Narrow => (x as f32).to_bits() as u64,
        Op::OfInteger => (a as f64).to_bits(),
        Op::OfIntegerSingle => (a as f32).to_bits() as u64,
    }
}

fn calc() -> Calc<fn(Op, u64, u64) -> u64> {
    Calc::new(compute)
}

fn gp(grad: f32, hess: f32) -> GradPair {
    GradPair::new(s(grad), s(hess))
}

fn dense(x: &[f32], n_rows: usize, n_cols: usize) -> DMatrix {
    DMatrix::from_dense(&many(x), n_rows, n_cols).unwrap()
}

fn binned(data: &DMatrix, max_bin: usize) -> GHistIndex {
    let cuts = HistCuts::from_dmatrix(data, max_bin, &calc());
    GHistIndex::from_dmatrix(data, cuts)
}

fn exact_tree(params: &TrainingParams, data: &DMatrix, gpair: &[GradPair]) -> RegTree {
    let cols = SortedColumns::from_dmatrix(data);
    ExactTreeBuilder::new(params).build(
        &cols,
        data,
        gpair,
        &all_rows(data.n_rows()),
        &mut ColumnSampler::all(data.n_cols()),
        &calc(),
    )
}

fn hist_tree(params: &TrainingParams, data: &DMatrix, gpair: &[GradPair]) -> RegTree {
    HistTreeBuilder::new(params).build(
        &binned(data, 256),
        gpair,
        &all_rows(data.n_rows()),
        &all_features(data.n_cols()),
        &calc(),
    )
}

/// A small tree by hand: feature 0 < 0.5 goes left, as does a missing value;
/// the left leaf is -1.0, the right leaf +2.0.
fn stump() -> RegTree {
    let mut t = RegTree::with_root(s(10.0));
    t.expand(0, 0, s(0.5), true, s(-1.0), s(5.0), s(2.0), s(5.0));
    t
}

#[test]
fn routing_numeric() {
    let t = stump();
    // value 0.2 < 0.5 -> left leaf -1.0
    assert_eq!(t.leaf_id_with(|_| Some(s(0.2))), 1);
    // value 0.9 >= 0.5 -> right leaf +2.0
    assert_eq!(t.leaf_id_with(|_| Some(s(0.9))), 2);
}

#[test]
fn routing_missing_follows_default() {
    let t = stump();
    // missing -> default_left = true -> left leaf
    assert_eq!(t.leaf_id_with(|_| None), 1);
    assert_eq!(t.node(1).leaf_value, s(-1.0));
}

#[test]
fn routing_categorical_set_membership() {
    // Categorical split: categories {0, 2} go left, everything else right.
    let mut t = RegTree::with_root(s(10.0));
    t.expand_categorical(0, 0, &[0, 2], false, s(-1.0), s(5.0), s(2.0), s(5.0));
    assert!(t.node(0).is_categorical);
    // In-set categories route left (leaf 1, value -1.0).
    assert_eq!(t.leaf_id_with(|_| Some(s(0.0))), 1);
    assert_eq!(t.leaf_id_with(|_| Some(s(2.0))), 1);
    // Out-of-set present categories route right (leaf 2, value 2.0).
    assert_eq!(t.leaf_id_with(|_| Some(s(1.0))), 2);
    assert_eq!(t.leaf_id_with(|_| Some(s(3.0))), 2);
    // Unseen category also routes right (not in the left set).
    assert_eq!(t.leaf_id_with(|_| Some(s(9.0))), 2);
    // Missing follows default_left = false -> right.
    assert_eq!(t.leaf_id_with(|_| None), 2);
}

#[test]
fn predict_row_dense() {
    let t = stump();
    let d = dense(&[0.1, 0.9], 2, 1);
    assert_eq!(t.predict_row(&d, 0), s(-1.0));
    assert_eq!(t.predict_row(&d, 1), s(2.0));
    assert_eq!(t.num_leaves(), 2);
    assert_eq!(t.num_nodes(), 3);
}

#[test]
fn trees_know_whether_they_are_laid_out() {
    assert!(stump().is_grown());
    assert!(!RegTree::from_parts(vec![], vec![]).is_grown());
    // A child that points back at its parent.
    let mut nodes = stump().nodes().to_vec();
    nodes[0].left = 0;
    assert!(!RegTree::from_parts(nodes, vec![]).is_grown());
}

#[test]
fn pass_through_when_ratios_one() {
    let mut p = ColumnSampler::all(10);
    let drawn = p.sample(&calc());
    assert_eq!(drawn, (0..10u32).collect::<Vec<_>>());
}

#[test]
fn full_draws_are_in_order() {
    let mut p = ColumnSampler::new(vec![2, 1], w(1.0), w(1.0), 0);
    assert_eq!(p.sample(&calc()), vec![1, 2]);
}

#[test]
fn listed_features_are_tried_in_their_order() {
    // Two equal columns: of equal splits the first one tried is kept.
    let x = [0.0, 0.0, 1.0, 1.0, 2.0, 2.0, 3.0, 3.0];
    let data = dense(&x, 4, 2);
    let gpair = [gp(1.0, 1.0), gp(1.0, 1.0), gp(-1.0, 1.0), gp(-1.0, 1.0)];
    let params = TrainingParams::builder()
        .max_depth(1)
        .min_child_weight(w(0.0))
        .build()
        .unwrap();
    for listed in [[0u32, 1], [1, 0]] {
        let tree = HistTreeBuilder::new(&params).build(
            &binned(&data, 256),
            &gpair,
            &all_rows(4),
            &listed,
            &calc(),
        );
        assert_eq!(tree.node(0).split_feature, listed[0]);
    }
}

#[test]
fn composes_bylevel_and_bynode() {
    // pool of 100, bylevel 0.5, bynode 0.5 -> ~25 features, subset of pool.
    let pool: Vec<u32> = (0..100).collect();
    let mut p = ColumnSampler::new(pool.clone(), w(0.5), w(0.5), 42);
    let drawn = p.sample(&calc());
    assert_eq!(drawn.len(), 25); // round(0.5*100)=50, round(0.5*50)=25
    assert!(drawn.windows(2).all(|w| w[0] < w[1]), "sorted & unique");
    assert!(drawn.iter().all(|x| pool.contains(x)));
    // The draw is no mere prefix of the pool.
    assert_ne!(drawn, (0..25u32).collect::<Vec<_>>());
}

#[test]
fn deterministic_for_seed() {
    let pool: Vec<u32> = (0..50).collect();
    let mut a = ColumnSampler::new(pool.clone(), w(0.6), w(1.0), 7);
    let mut b = ColumnSampler::new(pool.clone(), w(0.6), w(1.0), 7);
    assert_eq!(a.sample(&calc()), b.sample(&calc()));
    // Another seed draws otherwise, and so does a second draw.
    let mut c = ColumnSampler::new(pool, w(0.6), w(1.0), 8);
    let first = a.sample(&calc());
    assert_ne!(c.sample(&calc()), first);
    assert_ne!(a.sample(&calc()), first);
}

#[test]
fn always_at_least_one() {
    let pool: Vec<u32> = (0..3).collect();
    let mut p = ColumnSampler::new(pool, w(0.01), w(0.01), 1);
    assert!(!p.sample(&calc()).is_empty());
}

fn reg() -> RegParams {
    RegParams {
        lambda: w(1.0),
        alpha: w(0.0),
        max_delta_step: w(0.0),
        min_child_weight: w(0.0),
    }
}

#[test]
fn unbounded_matches_closed_form() {
    let stats = GradStats::new(w(-4.0), w(2.0));
    let r = reg();
    let weight = calc_weight_bounded(stats, &r, Bounds::default(), &calc());
    // gain at optimal weight equals T(G)^2/(H+lambda) = 16/3.
    let gain = g(gain_at_weight(stats, &r, weight, &calc()));
    assert!((gain - 16.0 / 3.0).abs() < 1e-9);
}

#[test]
fn increasing_child_bounds_order() {
    let (l, r) = child_bounds(Bounds::default(), 1, w(-1.0), w(2.0), &calc());
    assert_eq!(g(l.upper), 0.5); // mid
    assert_eq!(g(r.lower), 0.5);
    assert!(satisfies(1, w(-1.0), w(2.0)));
    assert!(!satisfies(1, w(2.0), w(-1.0)));
}

#[test]
fn bounds_clamp_weight() {
    let b = Bounds {
        lower: w(0.0),
        upper: w(1.0),
    };
    assert_eq!(g(b.clamp(w(-5.0))), 0.0);
    assert_eq!(g(b.clamp(w(5.0))), 1.0);
    assert_eq!(g(b.clamp(w(0.5))), 0.5);
}

#[test]
fn no_weight_within_bounds_scores_better() {
    let stats = GradStats { grad: w(6.0), hess: w(3.0) };
    for (lower, upper) in [(-5.0, 5.0), (-1.0, 4.0), (-9.0, -2.0), (0.5, 2.0)] {
        let bounds = Bounds { lower: w(lower), upper: w(upper) };
        let best = calc_weight_bounded(stats, &reg(), bounds, &calc());
        let top = g(gain_at_weight(stats, &reg(), best, &calc()));
        for step in 0..=40 {
            let at = lower + (upper - lower) * step as f64 / 40.0;
            assert!(g(gain_at_weight(stats, &reg(), w(at), &calc())) <= top + 1e-12);
        }
    }
}

#[test]
fn leaf_weights_follow_the_formula() {
    let r = RegParams { alpha: w(1.0), ..reg() };
    // -(G - alpha) / (H + lambda), and the squared gradient over the same.
    let stats = GradStats::new(w(5.0), w(3.0));
    assert_eq!(g(calc_weight(stats, &r, &calc())), -1.0);
    assert_eq!(g(calc_gain(stats, &r, &calc())), 4.0);
    let capped = RegParams { max_delta_step: w(0.25), ..r };
    assert_eq!(g(calc_weight(stats, &capped, &calc())), -0.25);
    let heavy = RegParams { min_child_weight: w(4.0), ..reg() };
    assert_eq!(g(calc_weight(stats, &heavy, &calc())), 0.0);
}

fn brute_force(
    ghist: &GHistIndex,
    rows: &[u32],
    gpair: &[GradPair],
    total: usize,
) -> Vec<GradStats> {
    let mut h = zeroed(total);
    accumulate(ghist, rows, gpair, &mut h, &calc());
    h
}

#[test]
fn build_matches_brute_force() {
    let n = 200;
    let x: Vec<f32> = (0..n).map(|i| (i % 17) as f32).collect();
    let data = dense(&x, n, 1);
    let ghist = binned(&data, 32);
    let gpair: Vec<GradPair> = (0..n)
        .map(|i| gp((i as f32) * 0.1 - 5.0, 1.0))
        .collect();
    let rows: Vec<u32> = (0..n as u32).collect();

    let mut out = zeroed(ghist.total_bins());
    CpuBackend.build(&ghist, &rows, &gpair, &mut out, &calc());
    let expect = brute_force(&ghist, &rows, &gpair, ghist.total_bins());
    for (a, b) in out.iter().zip(&expect) {
        assert!((g(a.grad) - g(b.grad)).abs() < 1e-4);
        assert!((g(a.hess) - g(b.hess)).abs() < 1e-4);
    }
    // Every row is counted once.
    let hess: f64 = out.iter().map(|b| g(b.hess)).sum();
    assert_eq!(hess, n as f64);
}

#[test]
fn subtraction_identity() {
    // parent = left + right, so parent - left = right.
    let total = 8;
    let mut parent = zeroed(total);
    let mut left = zeroed(total);
    let mut right = zeroed(total);
    for i in 0..total {
        left[i] = GradStats::new(w(i as f64), w(1.0));
        right[i] = GradStats::new(w(-(i as f64) * 0.5), w(2.0));
        parent[i] = GradStats::new(
            w(g(left[i].grad) + g(right[i].grad)),
            w(g(left[i].hess) + g(right[i].hess)),
        );
    }
    let mut out = zeroed(total);
    CpuBackend.subtract(&parent, &left, &mut out, &calc());
    for i in 0..total {
        assert!((g(out[i].grad) - g(right[i].grad)).abs() < 1e-12);
        assert!((g(out[i].hess) - g(right[i].hess)).abs() < 1e-12);
    }
}

#[test]
fn parallel_matches_sequential_large() {
    let n = 20_000; // enough rows to be shared out
    let x: Vec<f32> = (0..n).map(|i| (i % 251) as f32).collect();
    let data = dense(&x, n, 1);
    let ghist = binned(&data, 64);
    let gpair: Vec<GradPair> = (0..n)
        .map(|i| gp(((i * 7) % 13) as f32 - 6.0, 1.0))
        .collect();
    let rows: Vec<u32> = (0..n as u32).collect();

    let mut out = zeroed(ghist.total_bins());
    CpuBackend.build(&ghist, &rows, &gpair, &mut out, &calc());
    let expect = brute_force(&ghist, &rows, &gpair, ghist.total_bins());
    for (a, b) in out.iter().zip(&expect) {
        assert!(
            (g(a.grad) - g(b.grad)).abs() < 1e-2,
            "grad {} vs {}",
            g(a.grad),
            g(b.grad)
        );
        assert!((g(a.hess) - g(b.hess)).abs() < 1e-2);
    }
    let hess: f64 = out.iter().map(|b| g(b.hess)).sum();
    assert_eq!(hess, n as f64);
}

/// A clean separable problem: feature 0 perfectly separates the sign of the
/// gradient at threshold 0.5, so the root should split there.
#[test]
fn exact_splits_on_separating_feature() {
    // 4 rows, 1 feature. values 0,0,1,1. gradients push low->+, high->-.
    let data = dense(&[0.0f32, 0.0, 1.0, 1.0], 4, 1);
    // squared-error-like gradients: left group wants negative weight, right positive
    let gpair = vec![gp(1.0, 1.0), gp(1.0, 1.0), gp(-1.0, 1.0), gp(-1.0, 1.0)];
    let params = TrainingParams::builder()
        .max_depth(1)
        .lambda(w(0.0))
        .min_child_weight(w(0.0))
        .gamma(w(0.0))
        .build()
        .unwrap();
    let tree = exact_tree(&params, &data, &gpair);

    assert_eq!(
        tree.num_nodes(),
        3,
        "root should have split into two leaves"
    );
    let root = tree.node(0);
    assert_eq!(root.split_feature, 0);
    assert!((f(root.split_cond) - 0.5).abs() < 1e-6);
    // left leaf: G=2,H=2 -> w=-1 ; right leaf: G=-2,H=2 -> w=+1
    assert!((f(tree.predict_row(&data, 0)) - (-1.0)).abs() < 1e-6);
    assert!((f(tree.predict_row(&data, 2)) - 1.0).abs() < 1e-6);
}

#[test]
fn no_split_when_gain_below_gamma() {
    let data = dense(&[0.0f32, 1.0], 2, 1);
    let gpair = vec![gp(1.0, 1.0), gp(-1.0, 1.0)];
    let params = TrainingParams::builder()
        .max_depth(3)
        .gamma(w(1e9)) // impossibly high min split loss
        .build()
        .unwrap();
    let tree = exact_tree(&params, &data, &gpair);
    assert_eq!(tree.num_nodes(), 1, "no split should be taken");
}

#[test]
fn missing_values_pick_a_direction() {
    // 3 rows, feature 0 missing for row 2. Non-missing rows separate cleanly.
    let data = dense(&[0.0f32, 1.0, f32::NAN], 3, 1);
    // row2 (missing) shares the sign of the high group.
    let gpair = vec![gp(1.0, 1.0), gp(-1.0, 1.0), gp(-1.0, 1.0)];
    let params = TrainingParams::builder()
        .max_depth(1)
        .lambda(w(0.0))
        .min_child_weight(w(0.0))
        .gamma(w(0.0))
        .build()
        .unwrap();
    let tree = exact_tree(&params, &data, &gpair);
    assert_eq!(tree.num_nodes(), 3);
    // The missing row should be routed with the negative-gradient group
    // (right, positive weight). default_left should therefore be false.
    assert!(!tree.node(0).default_left);
    assert!(f(tree.predict_row(&data, 2)) > 0.0);
}

fn v_shape() -> (Vec<f32>, Vec<GradPair>) {
    // Data where the *unconstrained* fit would be non-monotone: a V shape.
    let n = 60;
    let mut x = Vec::new();
    let mut gpair = Vec::new();
    for i in 0..n {
        let xi = i as f32 / n as f32;
        x.push(xi);
        let target = (xi - 0.5).abs(); // V shape, non-monotone
        gpair.push(gp(-(target - 0.25), 1.0));
    }
    (x, gpair)
}

#[test]
fn exact_monotone_increasing_is_enforced() {
    let (x, gpair) = v_shape();
    let n = x.len();
    assert_eq!(n, 60);
    let data = dense(&x, n, 1);
    let params = TrainingParams::builder()
        .max_depth(4)
        .min_child_weight(w(0.0))
        .gamma(w(0.0))
        .lambda(w(1.0))
        .monotone_constraints(vec![Monotone::Increasing])
        .build()
        .unwrap();
    let tree = exact_tree(&params, &data, &gpair);

    // Predictions must be non-decreasing in x under the increasing constraint.
    let mut prev = f32::NEG_INFINITY;
    for (i, &xi) in x.iter().enumerate() {
        let p = f(tree.predict_row(&data, i));
        assert!(
            p >= prev - 1e-5,
            "monotonicity violated at x={xi}: {p} < {prev}"
        );
        prev = p;
    }

    // Sanity: the unconstrained fit on the same data is *not* monotone, so
    // the constraint is doing real work.
    let unconstrained = TrainingParams::builder()
        .max_depth(4)
        .min_child_weight(w(0.0))
        .gamma(w(0.0))
        .lambda(w(1.0))
        .build()
        .unwrap();
    let free = exact_tree(&unconstrained, &data, &gpair);
    let mut any_decrease = false;
    let mut prev = f32::NEG_INFINITY;
    for i in 0..n {
        let p = f(free.predict_row(&data, i));
        if p < prev - 1e-5 {
            any_decrease = true;
        }
        prev = p;
    }
    assert!(any_decrease, "unconstrained fit should be non-monotone");
}

#[test]
fn categorical_splits_on_non_ordinal_pattern() {
    // 4 categories with a NON-ordinal target: {0,2} vs {1,3}. A numeric
    // threshold cannot separate them; a set-membership split can.
    let mut x = Vec::new();
    let mut gpair = Vec::new();
    for _ in 0..10 {
        for c in 0u32..4 {
            x.push(c as f32);
            // Residual around 0.5: even cats want negative weight, odd positive.
            let grad = if c % 2 == 0 { 0.5 } else { -0.5 };
            gpair.push(gp(grad, 1.0));
        }
    }
    let n = x.len();
    let data = dense(&x, n, 1)
        .with_feature_types(&[FeatureType::Categorical])
        .unwrap();
    let params = TrainingParams::builder()
        .max_depth(1)
        .min_child_weight(w(0.0))
        .gamma(w(0.0))
        .lambda(w(1.0))
        .build()
        .unwrap();
    let tree = exact_tree(&params, &data, &gpair);

    assert_eq!(tree.num_nodes(), 3, "root should split");
    assert!(tree.node(0).is_categorical, "split should be categorical");

    // Prediction for a bare category value.
    let pred = |c: f32| tree.leaf_id_with(|_| Some(s(c)));
    // Even categories share a leaf; odd categories share the other leaf.
    assert_eq!(pred(0.0), pred(2.0));
    assert_eq!(pred(1.0), pred(3.0));
    assert_ne!(pred(0.0), pred(1.0), "the two groups must be separated");

    // Even cats (positive grad) want negative weight; odd cats positive.
    let val = |c: f32| f(tree.node(pred(c)).leaf_value);
    assert!(val(0.0) < 0.0 && val(2.0) < 0.0);
    assert!(val(1.0) > 0.0 && val(3.0) > 0.0);
}

#[test]
fn hist_splits_on_separating_feature() {
    let data = dense(&[0.0f32, 0.0, 1.0, 1.0], 4, 1);
    let gpair = vec![gp(1.0, 1.0), gp(1.0, 1.0), gp(-1.0, 1.0), gp(-1.0, 1.0)];
    let params = TrainingParams::builder()
        .max_depth(1)
        .lambda(w(0.0))
        .min_child_weight(w(0.0))
        .gamma(w(0.0))
        .build()
        .unwrap();
    let tree = hist_tree(&params, &data, &gpair);
    assert_eq!(tree.num_nodes(), 3);
    assert!((f(tree.predict_row(&data, 0)) - (-1.0)).abs() < 1e-6);
    assert!((f(tree.predict_row(&data, 2)) - 1.0).abs() < 1e-6);
}

#[test]
fn no_split_below_gamma() {
    let data = dense(&[0.0f32, 1.0], 2, 1);
    let gpair = vec![gp(1.0, 1.0), gp(-1.0, 1.0)];
    let params = TrainingParams::builder()
        .max_depth(3)
        .gamma(w(1e9))
        .build()
        .unwrap();
    let tree = hist_tree(&params, &data, &gpair);
    assert_eq!(tree.num_nodes(), 1);
}

#[test]
fn lossguide_respects_max_leaves() {
    // Enough structure that greedy growth would exceed the leaf cap.
    let n = 64;
    let x: Vec<f32> = (0..n).map(|i| i as f32).collect();
    let mut y = Vec::new();
    for i in 0..n {
        y.push(gp(if i % 2 == 0 { 1.0 } else { -1.0 }, 1.0));
    }
    let data = dense(&x, n, 1);
    let params = TrainingParams::builder()
        .grow_policy(GrowPolicy::LossGuide)
        .max_leaves(4)
        .max_depth(0)
        .min_child_weight(w(0.0))
        .gamma(w(0.0))
        .lambda(w(0.0))
        .build()
        .unwrap();
    let tree = hist_tree(&params, &data, &y);
    assert!(tree.num_leaves() <= 4, "got {} leaves", tree.num_leaves());
    assert!(tree.num_leaves() > 1);
}

#[test]
fn hist_monotone_increasing_is_enforced() {
    let (x, gpair) = v_shape();
    let n = x.len();
    let data = dense(&x, n, 1);
    let params = TrainingParams::builder()
        .max_depth(4)
        .min_child_weight(w(0.0))
        .gamma(w(0.0))
        .lambda(w(1.0))
        .monotone_constraints(vec![Monotone::Increasing])
        .build()
        .unwrap();
    let tree = hist_tree(&params, &data, &gpair);

    // Predictions must be non-decreasing in x under the increasing constraint.
    let mut prev = f32::NEG_INFINITY;
    for (i, &xi) in x.iter().enumerate() {
        let p = f(tree.predict_row(&data, i));
        assert!(
            p >= prev - 1e-5,
            "monotonicity violated at x={xi}: {p} < {prev}"
        );
        prev = p;
    }
}

#[test]
fn hist_matches_exact_on_small_problem() {
    // Random-ish separable-ish data; hist with enough bins should match exact.
    let n = 60;
    let mut x = Vec::new();
    let mut gpair = Vec::new();
    for i in 0..n {
        let xi = (i as f32) * 0.1;
        x.push(xi);
        gpair.push(gp((xi - 3.0).sin(), 1.0));
    }
    let data = dense(&x, n, 1);
    let params = TrainingParams::builder()
        .max_depth(3)
        .lambda(w(1.0))
        .min_child_weight(w(1.0))
        .gamma(w(0.0))
        .build()
        .unwrap();

    let exact = exact_tree(&params, &data, &gpair);
    // 256 bins over 60 distinct values -> each value its own bin -> exact match.
    let hist = hist_tree(&params, &data, &gpair);

    for r in 0..n {
        let pe = f(exact.predict_row(&data, r));
        let ph = f(hist.predict_row(&data, r));
        assert!((pe - ph).abs() < 1e-5, "row {r}: exact {pe} vs hist {ph}");
    }
}

#[test]
fn groups_allow_their_own_features() {
    let inter = InteractionConstraints::from_params(&vec![vec![0, 1, 2], vec![2, 3]]);
    assert!(!inter.is_empty());
    assert!(inter.allows(&vec![], 7));
    assert!(inter.allows(&vec![0], 1));
    assert!(!inter.allows(&vec![0], 3));
    assert!(inter.allows(&vec![2], 3));
    assert!(!inter.allows(&vec![2, 0], 3));
    assert!(inter.allows(&vec![7], 7));
    assert!(!inter.allows(&vec![7], 0));
    assert_eq!(inter.permit(&vec![2], &vec![3, 9, 1, 2]), vec![3, 1, 2]);
    let free = InteractionConstraints::from_params(&vec![]);
    assert!(free.is_empty());
    assert!(free.allows(&vec![5, 6], 9));
}

#[test]
fn splits_come_from_the_pool() {
    // Every column separates the gradients, the first one best of all.
    let x = [
        0.0, 0.0, 1.0, 1.0, 0.0, 2.0, 2.0, 1.0, 3.0, 3.0, 1.0, 4.0,
    ];
    let data = dense(&x, 4, 3);
    let gpair = [gp(1.0, 1.0), gp(1.0, 1.0), gp(-1.0, 1.0), gp(-2.0, 1.0)];
    let params = TrainingParams::builder()
        .max_depth(3)
        .min_child_weight(w(0.0))
        .build()
        .unwrap();
    let cols = SortedColumns::from_dmatrix(&data);
    let pool = vec![1u32, 2];
    let one = w(1.0);
    let exact = ExactTreeBuilder::new(&params).build(
        &cols,
        &data,
        &gpair,
        &all_rows(4),
        &mut ColumnSampler::new(pool.clone(), one, one, 0),
        &calc(),
    );
    let hist = HistTreeBuilder::new(&params).build_sampled(
        &binned(&data, 256),
        &gpair,
        &all_rows(4),
        &mut ColumnSampler::new(pool.clone(), one, one, 0),
        &calc(),
    );
    for tree in [exact, hist] {
        assert!(tree.num_nodes() > 1);
        for node in tree.nodes() {
            assert!(node.is_leaf() || pool.contains(&node.split_feature));
        }
    }
}

/// Values with gaps, a column of categories, and gradients that add up without
/// rounding.
fn mixed() -> (DMatrix, Vec<GradPair>) {
    let mut x = Vec::new();
    let mut gpair = Vec::new();
    for i in 0..48i32 {
        let a = ((i * 7) % 16) as f32;
        x.push(if i % 11 == 3 { f32::NAN } else { a });
        x.push(((i * 5) % 6) as f32);
        x.push(if i % 5 == 0 { f32::NAN } else { (i % 8) as f32 });
        let pull = (if a > 9.0 { -3 } else { 2 }) + (i * 5) % 6 % 2;
        gpair.push(gp(pull as f32, 1.0 + (i % 3) as f32));
    }
    let data = dense(&x, 48, 3)
        .with_feature_types(&[
            FeatureType::Numerical,
            FeatureType::Categorical,
            FeatureType::Numerical,
        ])
        .unwrap();
    (data, gpair)
}

#[test]
fn no_candidate_beats_the_split_that_is_taken() {
    let (data, gpair) = mixed();
    let params = TrainingParams::builder()
        .max_depth(1)
        .min_child_weight(w(4.0))
        .build()
        .unwrap();
    let score = |gs: f64, hs: f64| gs * gs / (hs + 1.0);
    let total = gpair
        .iter()
        .fold((0.0, 0.0), |t: (f64, f64), p| (t.0 + f(p.grad) as f64, t.1 + f(p.hess) as f64));
    let mut best = f64::MIN;
    for feature in [0usize, 2] {
        for cut in 0..16 {
            for missing_left in [false, true] {
                let mut left = (0.0, 0.0);
                for r in 0..48 {
                    let goes = match data.get(r, feature) {
                        Some(v) => f(v) < cut as f32,
                        None => missing_left,
                    };
                    if goes {
                        left = (left.0 + f(gpair[r].grad) as f64, left.1 + f(gpair[r].hess) as f64);
                    }
                }
                let right = (total.0 - left.0, total.1 - left.1);
                if left.1 >= 4.0 && right.1 >= 4.0 {
                    let gain =
                        score(left.0, left.1) + score(right.0, right.1) - score(total.0, total.1);
                    best = best.max(gain);
                }
            }
        }
    }
    for tree in [
        exact_tree(&params, &data, &gpair),
        hist_tree(&params, &data, &gpair),
    ] {
        assert_eq!(tree.num_nodes(), 3);
        assert!(f(tree.node(0).split_gain) as f64 + 1e-4 >= best);
    }
}

#[test]
fn covers_and_weights_are_those_of_the_rows() {
    let (data, gpair) = mixed();
    let params = TrainingParams::builder()
        .max_depth(4)
        .min_child_weight(w(2.0))
        .build()
        .unwrap();
    for tree in [
        exact_tree(&params, &data, &gpair),
        hist_tree(&params, &data, &gpair),
    ] {
        assert!(tree.num_leaves() > 4);
        assert!(tree.nodes().iter().any(|n| n.is_categorical));
        let mut grads = vec![0.0f64; tree.num_nodes()];
        let mut covers = vec![0.0f64; tree.num_nodes()];
        for r in 0..48 {
            let mut nid = 0;
            loop {
                grads[nid] += f(gpair[r].grad) as f64;
                covers[nid] += f(gpair[r].hess) as f64;
                let node = tree.node(nid);
                if node.is_leaf() {
                    break;
                }
                let left = tree.step_left(nid, data.get(r, node.split_feature as usize));
                nid = if left { node.left as usize } else { node.right as usize };
            }
            assert_eq!(nid, tree.leaf_of_row(&data, r));
        }
        for (nid, node) in tree.nodes().iter().enumerate() {
            assert_eq!(f(node.sum_hess) as f64, covers[nid]);
            if node.is_leaf() {
                assert_eq!(f(node.leaf_value), (-grads[nid] / (covers[nid] + 1.0)) as f32);
            }
        }
    }
}
