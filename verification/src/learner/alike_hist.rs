//! What histogram training depends on: for datasets small enough that rows are
//! not shared out between threads, grown level by level, it leads to the same
//! trees on datasets that are alike.

use vstd::prelude::*;

use crate::arith::{Calc, Op};
use crate::config::TrainingParams;
use crate::data::dmatrix::DMatrix;
use crate::data::ghist::{binned, GHistIndex};
use crate::data::quantile::{feature_cuts, HistCuts};
use crate::layout::place_entry;
use crate::learner::alike::{
    alike, cells_are_alike, columns_are_alike, exact_trees_are_alike, margins_are_alike,
    same_tree,
};
use crate::learner::boost::{
    boosted, drops_in, fitted, gradients_at, is_scaled, margins_in, output_slice, rows_in,
    sampling_in, weights_after,
};
use crate::learner::prepare::{hessians, hist_tree, is_binned, plan_of, Prepared};
use crate::learner::sample::kept_rows;
use crate::learner::train::{base_of, is_trained, TrainResult};
use crate::metric::base::Metric;
use crate::number::{Single, Wide};
use crate::objective::base::Objective;
use crate::objective::pair::GradPair;
use crate::tree::builder::growth::{Best, Grown, Target};
use crate::tree::builder::hist::{
    category_table, features_scan, grows_into, left_rows, numeric_scan, right_rows, row_goes_left, OpenNode, Plan, Rules, Step,
};
use crate::tree::constraints::MonotoneConstraints;
use crate::tree::gain::GradStats;
use crate::tree::hist::{accumulated, is_histogram, PARALLEL_THRESHOLD};
use crate::tree::regtree::RegTree;
use crate::tree::sampler::Sampling;

verus! {

/// Whether two tables of cuts are the same but for how they are stored.
pub open spec fn same_cuts(a: &HistCuts, b: &HistCuts) -> bool {
    &&& a.cuts() == b.cuts()
    &&& forall|f: int| 0 <= f ==> #[trigger] a.start(f) == b.start(f)
    &&& forall|f: int| 0 <= f ==> #[trigger] a.categorical(f) == b.categorical(f)
}

/// Whether two binned datasets are the same but for how they are stored.
pub open spec fn same_index(a: &GHistIndex, b: &GHistIndex) -> bool {
    &&& same_cuts(&a.table(), &b.table())
    &&& forall|r: int| 0 <= r ==> #[trigger] a.row_bins(r) == b.row_bins(r)
}

proof fn starts_are_alike(a: &HistCuts, b: &HistCuts, f: int)
    requires
        a.well_formed(),
        b.well_formed(),
        a.features() == b.features(),
        0 <= f <= a.features(),
        0 < a.features(),
        forall|g: int| 0 <= g < a.features() ==> #[trigger] a.cuts_of(g) == b.cuts_of(g),
    ensures
        a.start(f) == b.start(f),
        0 <= a.start(f) <= a.cuts().len(),
        0 <= b.start(f) <= b.cuts().len(),
        a.cuts().subrange(0, a.start(f)) == b.cuts().subrange(0, b.start(f)),
    decreases f,
{
    if f == 0 {
        a.layout(0);
        b.layout(0);
        assert(a.cuts().subrange(0, 0) =~= b.cuts().subrange(0, 0));
    } else {
        starts_are_alike(a, b, f - 1);
        a.layout(f - 1);
        b.layout(f - 1);
        assert(a.cuts_of(f - 1) == b.cuts_of(f - 1));
        let x = a.cuts().subrange(0, a.start(f));
        let y = b.cuts().subrange(0, b.start(f));
        assert(x =~= a.cuts().subrange(0, a.start(f - 1)) + a.cuts_of(f - 1));
        assert(y =~= b.cuts().subrange(0, b.start(f - 1)) + b.cuts_of(f - 1));
    }
}

proof fn feature_cuts_are_alike<F: Fn(Op, u64, u64) -> u64>(
    a: &DMatrix,
    b: &DMatrix,
    max_bin: int,
    weights: Option<Seq<Single>>,
    f: int,
    calc: &Calc<F>,
)
    requires
        alike(a, b),
    ensures
        feature_cuts(a, max_bin, weights, calc, f) == feature_cuts(b, max_bin, weights, calc, f),
{
    columns_are_alike(a, b, f, a.height());
}

proof fn indices_are_alike<F: Fn(Op, u64, u64) -> u64>(
    ga: &GHistIndex,
    gb: &GHistIndex,
    a: &DMatrix,
    b: &DMatrix,
    max_bin: int,
    weights: Option<Seq<Single>>,
    calc: &Calc<F>,
)
    requires
        a.well_formed(),
        alike(a, b),
        is_binned(ga, a, max_bin, weights, calc),
        is_binned(gb, b, max_bin, weights, calc),
    ensures
        same_index(ga, gb),
{
    let x = ga.table();
    let y = gb.table();
    let n = a.width();
    a.shape();
    ga.shape();
    gb.shape();
    assert forall|f: int| 0 <= f < n implies #[trigger] x.cuts_of(f) == y.cuts_of(f) by {
        feature_cuts_are_alike(a, b, max_bin, weights, f, calc);
        assert(ga.table().cuts_of(f) == feature_cuts(a, max_bin, weights, calc, f));
        assert(gb.table().cuts_of(f) == feature_cuts(b, max_bin, weights, calc, f));
    }
    starts_are_alike(&x, &y, n);
    x.layout(0);
    y.layout(0);
    assert(x.cuts().subrange(0, x.start(n)) =~= x.cuts());
    assert(y.cuts().subrange(0, y.start(n)) =~= y.cuts());
    assert forall|f: int| 0 <= f implies #[trigger] x.start(f) == y.start(f) by {
        if f <= n {
            starts_are_alike(&x, &y, f);
        } else {
            x.no_bins_beyond(f);
            y.no_bins_beyond(f);
        }
    }
    assert forall|f: int| 0 <= f implies #[trigger] x.categorical(f) == y.categorical(f) by {
        if f < n {
            assert(ga.table().categorical(f) == gb.table().categorical(f));
        } else {
            x.no_bins_beyond(f);
            y.no_bins_beyond(f);
        }
    }
    assert forall|r: int| 0 <= r implies #[trigger] ga.row_bins(r) == gb.row_bins(r) by {
        if r < a.height() {
            cells_are_alike(a, b, r, 0);
            let e = a.entries(r);
            assert(ga.row_bins(r) == binned(e, &x));
            assert(gb.row_bins(r) == binned(e, &y));
            assert forall|k: int| 0 <= k < e.len() implies #[trigger] binned(e, &x)[k] == binned(
                e,
                &y,
            )[k] by {
                let f = e[k].index as int;
                assert(x.start(f) == y.start(f) && x.start(f + 1) == y.start(f + 1));
                assert(x.categorical(f) == y.categorical(f));
            }
            assert(binned(e, &x) =~= binned(e, &y));
        } else {
            ga.no_bins_beyond(r);
            gb.no_bins_beyond(r);
            assert(ga.row_bins(r) =~= gb.row_bins(r));
        }
    }
}

/// Whether two sets of rules are the same but for how they are stored.
pub open spec fn same_rules(a: Rules, b: Rules) -> bool {
    &&& same_cuts(&a.cuts, &b.cuts)
    &&& a.cons.directions() == b.cons.directions()
    &&& a.reg == b.reg
}

proof fn numeric_scans_are_alike<F: Fn(Op, u64, u64) -> u64>(
    a: Rules,
    b: Rules,
    hist: Seq<GradStats>,
    target: Target,
    best: Best,
    f: u32,
    fs: int,
    fe: int,
    n: int,
    calc: &Calc<F>,
)
    requires
        same_rules(a, b),
    ensures
        numeric_scan(a, hist, target, best, f, fs, fe, n, calc) == numeric_scan(
            b,
            hist,
            target,
            best,
            f,
            fs,
            fe,
            n,
            calc,
        ),
    decreases n - fs,
{
    if n > fs {
        numeric_scans_are_alike(a, b, hist, target, best, f, fs, fe, n - 1, calc);
        assert(a.cons.direction(f as int) == b.cons.direction(f as int));
    }
}

proof fn category_tables_are_alike(
    a: &HistCuts,
    b: &HistCuts,
    hist: Seq<GradStats>,
    fs: int,
    n: int,
)
    requires
        same_cuts(a, b),
    ensures
        category_table(a, hist, fs, n) == category_table(b, hist, fs, n),
    decreases n - fs,
{
    if n > fs {
        category_tables_are_alike(a, b, hist, fs, n - 1);
    }
}

proof fn feature_scans_are_alike<F: Fn(Op, u64, u64) -> u64>(
    a: Rules,
    b: Rules,
    hist: Seq<GradStats>,
    target: Target,
    features: Seq<u32>,
    n: int,
    calc: &Calc<F>,
)
    requires
        same_rules(a, b),
    ensures
        features_scan(a, hist, target, features, n, calc) == features_scan(
            b,
            hist,
            target,
            features,
            n,
            calc,
        ),
    decreases n,
{
    if n > 0 {
        feature_scans_are_alike(a, b, hist, target, features, n - 1, calc);
        let so_far = features_scan(a, hist, target, features, n - 1, calc);
        let f = features[n - 1];
        let fs = a.cuts.start(f as int);
        let fe = a.cuts.start(f + 1);
        assert(b.cuts.start(f as int) == fs && b.cuts.start(f + 1) == fe);
        assert(a.cuts.categorical(f as int) == b.cuts.categorical(f as int));
        assert(a.cons.direction(f as int) == b.cons.direction(f as int));
        category_tables_are_alike(&a.cuts, &b.cuts, hist, fs, fe);
        numeric_scans_are_alike(a, b, hist, target, so_far, f, fs, fe, fe - 1, calc);
    }
}

proof fn sides_are_alike(a: &GHistIndex, b: &GHistIndex, best: Best, rows: Seq<u32>)
    requires
        same_index(a, b),
    ensures
        left_rows(a, best, rows) == left_rows(b, best, rows),
        right_rows(a, best, rows) == right_rows(b, best, rows),
{
    let la = |r: u32| row_goes_left(a, best, r);
    let lb = |r: u32| row_goes_left(b, best, r);
    let ra = |r: u32| !row_goes_left(a, best, r);
    let rb = |r: u32| !row_goes_left(b, best, r);
    assert forall|r: u32| #[trigger] row_goes_left(a, best, r) == row_goes_left(b, best, r) by {
        assert(a.row_bins(r as int) == b.row_bins(r as int));
        let f = best.feature as int;
        assert(a.table().start(f) == b.table().start(f));
        assert(a.table().start(f + 1) == b.table().start(f + 1));
    }
    assert(la =~= lb);
    assert(ra =~= rb);
}

proof fn accumulations_are_alike<F: Fn(Op, u64, u64) -> u64>(
    a: &GHistIndex,
    b: &GHistIndex,
    h: Seq<GradStats>,
    rows: Seq<u32>,
    gp: Seq<GradPair>,
    n: int,
    calc: &Calc<F>,
)
    requires
        same_index(a, b),
    ensures
        accumulated(h, a, rows, gp, n, calc) == accumulated(h, b, rows, gp, n, calc),
    decreases n,
{
    if n > 0 {
        accumulations_are_alike(a, b, h, rows, gp, n - 1, calc);
        assert(a.row_bins(rows[n - 1] as int) == b.row_bins(rows[n - 1] as int));
    }
}

/// Whether two plans are the same but for how their parts are stored.
pub open spec fn same_plan(a: Plan, b: Plan) -> bool {
    &&& same_index(&a.ghist, &b.ghist)
    &&& a.gp == b.gp
    &&& a.cons.directions() == b.cons.directions()
    &&& a.reg == b.reg
    &&& a.gamma == b.gamma
    &&& a.groups == b.groups
    &&& a.listed == b.listed
    &&& a.depth_limit == b.depth_limit
    &&& a.policy == b.policy
    &&& a.max_leaves == b.max_leaves
}

/// Whether every open node has few rows.
pub open spec fn few_rows(s: Step) -> bool {
    forall|i: int|
        0 <= i < s.open.len() ==> (#[trigger] s.open[i]).rows.len() < PARALLEL_THRESHOLD
}

proof fn histograms_are_alike<F: Fn(Op, u64, u64) -> u64>(
    a: Plan,
    b: Plan,
    ha: Seq<GradStats>,
    hb: Seq<GradStats>,
    rows: Seq<u32>,
    calc: &Calc<F>,
)
    requires
        same_plan(a, b),
        rows.len() < PARALLEL_THRESHOLD,
        is_histogram(ha, &a.ghist, rows, a.gp, calc),
        is_histogram(hb, &b.ghist, rows, b.gp, calc),
    ensures
        ha == hb,
{
    accumulations_are_alike(
        &a.ghist,
        &b.ghist,
        crate::tree::hist::empty_histogram(a.ghist.table().cuts().len() as int),
        rows,
        a.gp,
        rows.len() as int,
        calc,
    );
}

proof fn few_stay_few(ghist: &GHistIndex, best: Best, rows: Seq<u32>)
    ensures
        left_rows(ghist, best, rows).len() <= rows.len(),
        right_rows(ghist, best, rows).len() <= rows.len(),
{
    crate::tree::builder::hist::splits_partition_the_rows(ghist, best, rows);
}

proof fn bests_are_alike<F: Fn(Op, u64, u64) -> u64>(
    a: Plan,
    b: Plan,
    g: Grown,
    e: OpenNode,
    calc: &Calc<F>,
)
    requires
        same_plan(a, b),
    ensures
        a.best(g, e, calc) == b.best(g, e, calc),
{
    assert(same_rules(a.rules(), b.rules()));
    feature_scans_are_alike(
        a.rules(),
        b.rules(),
        e.hist,
        crate::tree::builder::growth::target_of(
            g.stats[e.nid],
            g.bounds[e.nid],
            true,
            a.reg,
            calc,
        ),
        e.features,
        e.features.len() as int,
        calc,
    );
}

proof fn steps_are_alike<F: Fn(Op, u64, u64) -> u64>(
    a: Plan,
    b: Plan,
    s: Step,
    ta: Step,
    tb: Step,
    calc: &Calc<F>,
)
    requires
        same_plan(a, b),
        few_rows(s),
        a.steps(s, ta, calc),
        b.steps(s, tb, calc),
    ensures
        ta == tb,
        few_rows(ta),
{
    assert forall|j: int| 0 <= j < s.open.len() implies a.best(
        s.g,
        #[trigger] s.open[j],
        calc,
    ) == b.best(s.g, s.open[j], calc) by {
        bests_are_alike(a, b, s.g, s.open[j], calc);
    }
    let at = choose|i: int| #[trigger] a.may_pick(s, i, calc) && a.picked(s, i, ta, calc);
    let other = choose|i: int| #[trigger] b.may_pick(s, i, calc) && b.picked(s, i, tb, calc);
    assert(at == other) by {
        assert(a.best(s.g, s.open[at], calc) == b.best(s.g, s.open[at], calc));
        assert(a.best(s.g, s.open[other], calc) == b.best(s.g, s.open[other], calc));
    }
    let e = s.open[at];
    let best = a.best(s.g, e, calc);
    assert(best == b.best(s.g, e, calc));
    assert(a.is_taken(s.g, e, calc) == b.is_taken(s.g, e, calc));
    if a.is_taken(s.g, e, calc) {
        sides_are_alike(&a.ghist, &b.ghist, best, e.rows);
        few_stay_few(&a.ghist, best, e.rows);
        let (la, ra) = choose|hl: Seq<GradStats>, hr: Seq<GradStats>|
            a.are_children(e, best, hl, hr, calc) && ta == #[trigger] a.after_split(
                s,
                at,
                hl,
                hr,
                calc,
            );
        let (lb, rb) = choose|hl: Seq<GradStats>, hr: Seq<GradStats>|
            b.are_children(e, best, hl, hr, calc) && tb == #[trigger] b.after_split(
                s,
                at,
                hl,
                hr,
                calc,
            );
        let ls = left_rows(&a.ghist, best, e.rows);
        let rs = right_rows(&a.ghist, best, e.rows);
        if ls.len() <= rs.len() {
            histograms_are_alike(a, b, la, lb, ls, calc);
        } else {
            histograms_are_alike(a, b, ra, rb, rs, calc);
        }
        assert(la == lb && ra == rb);
        assert(a.cons.direction(best.feature as int) == b.cons.direction(best.feature as int));
        assert(ta == tb);
        assert forall|i: int| 0 <= i < ta.open.len() implies (#[trigger] ta.open[i]).rows.len()
            < PARALLEL_THRESHOLD by {
            if i < s.open.len() - 1 {
                assert(ta.open[i] == s.open.remove(at)[i]);
                assert(ta.open[i] == s.open[if i < at { i } else { i + 1 }]);
            }
        }
    } else {
        assert(ta.open == s.open.remove(at));
        assert forall|i: int| 0 <= i < ta.open.len() implies (#[trigger] ta.open[i]).rows.len()
            < PARALLEL_THRESHOLD by {
            assert(ta.open[i] == s.open[if i < at { i } else { i + 1 }]);
        }
    }
}

proof fn runs_are_alike<F: Fn(Op, u64, u64) -> u64>(
    a: Plan,
    b: Plan,
    rows: Seq<u32>,
    sampling: Sampling,
    ra: Seq<Step>,
    rb: Seq<Step>,
    i: int,
    calc: &Calc<F>,
)
    requires
        same_plan(a, b),
        rows.len() < PARALLEL_THRESHOLD,
        a.is_run(rows, sampling, ra, calc),
        b.is_run(rows, sampling, rb, calc),
        0 <= i < ra.len(),
        i < rb.len(),
    ensures
        ra[i] == rb[i],
        few_rows(ra[i]),
    decreases i,
{
    if i == 0 {
        let x = ra[0];
        let y = rb[0];
        histograms_are_alike(a, b, x.open[0].hist, y.open[0].hist, rows, calc);
        assert(x.open[0] =~= y.open[0]);
        assert(x.open =~= y.open);
        assert(x =~= y);
    } else {
        runs_are_alike(a, b, rows, sampling, ra, rb, i - 1, calc);
        assert(a.steps(ra[i - 1], ra[i], calc));
        assert(b.steps(rb[i - 1], rb[i], calc));
        steps_are_alike(a, b, ra[i - 1], ra[i], rb[i], calc);
    }
}

proof fn hist_trees_are_alike<F: Fn(Op, u64, u64) -> u64>(
    a: Plan,
    b: Plan,
    rows: Seq<u32>,
    sampling: Sampling,
    ra: Seq<Step>,
    rb: Seq<Step>,
    ta: &RegTree,
    tb: &RegTree,
    calc: &Calc<F>,
)
    requires
        same_plan(a, b),
        rows.len() < PARALLEL_THRESHOLD,
        grows_into(a, rows, sampling, ra, *ta, calc),
        grows_into(b, rows, sampling, rb, *tb, calc),
    ensures
        same_tree(ta, tb),
{
    if ra.len() < rb.len() {
        let i = ra.len() - 1;
        runs_are_alike(a, b, rows, sampling, ra, rb, i, calc);
        assert(b.steps(rb[i], rb[i + 1], calc));
        assert(a.is_done(ra[i]) == b.is_done(rb[i]));
    } else if rb.len() < ra.len() {
        let i = rb.len() - 1;
        runs_are_alike(a, b, rows, sampling, ra, rb, i, calc);
        assert(a.steps(ra[i], ra[i + 1], calc));
        assert(a.is_done(ra[i]) == b.is_done(rb[i]));
    } else {
        runs_are_alike(a, b, rows, sampling, ra, rb, ra.len() - 1, calc);
    }
}

/// Whether training leads to the same trees on every machine: by exact search,
/// or from so few rows that they are not shared out between threads.
pub open spec fn reproducible(prepared: &Prepared, n_rows: int) -> bool {
    prepared is Exact || 1 <= n_rows < PARALLEL_THRESHOLD
}

proof fn grown_trees_are_alike<F: Fn(Op, u64, u64) -> u64>(
    params: TrainingParams,
    pa: &Prepared,
    pb: &Prepared,
    da: &DMatrix,
    db: &DMatrix,
    gp: Seq<GradPair>,
    rows: Seq<u32>,
    sampling: Sampling,
    ta: &RegTree,
    tb: &RegTree,
    calc: &Calc<F>,
)
    requires
        da.well_formed(),
        alike(da, db),
        pa.fits(params, da, calc),
        pb.fits(params, db, calc),
        reproducible(pa, da.height()),
        rows.len() <= da.height(),
        pa.may_grow(params, da, gp, rows, sampling, ta, calc),
        pb.may_grow(params, db, gp, rows, sampling, tb, calc),
    ensures
        same_tree(ta, tb),
{
    match (*pa, *pb) {
        (Prepared::Exact(_), Prepared::Exact(_)) => {
            exact_trees_are_alike(params, pa, pb, da, db, gp, rows, sampling, ta, tb, calc);
        },
        (Prepared::Hist(ga), Prepared::Hist(gb)) => {
            let (ka, ra) = choose|cons: MonotoneConstraints, run: Seq<Step>| #[trigger]
                hist_tree(params, cons, &ga, gp, rows, sampling, run, ta, calc);
            let (kb, rb) = choose|cons: MonotoneConstraints, run: Seq<Step>| #[trigger]
                hist_tree(params, cons, &gb, gp, rows, sampling, run, tb, calc);
            indices_are_alike(&ga, &gb, da, db, params.max_bin as int, None, calc);
            hist_trees_are_alike(
                plan_of(params, ka, &ga, gp),
                plan_of(params, kb, &gb, gp),
                rows,
                sampling,
                ra,
                rb,
                ta,
                tb,
                calc,
            );
        },
        (Prepared::Approx, Prepared::Approx) => {
            let weights = Some(hessians(gp));
            let (ka, ga, ra) = choose|
                cons: MonotoneConstraints,
                ghist: GHistIndex,
                run: Seq<Step>,
            |
                is_binned(&ghist, da, params.max_bin as int, weights, calc)
                    && #[trigger] hist_tree(
                    params,
                    cons,
                    &ghist,
                    gp,
                    rows,
                    sampling,
                    run,
                    ta,
                    calc,
                );
            let (kb, gb, rb) = choose|
                cons: MonotoneConstraints,
                ghist: GHistIndex,
                run: Seq<Step>,
            |
                is_binned(&ghist, db, params.max_bin as int, weights, calc)
                    && #[trigger] hist_tree(
                    params,
                    cons,
                    &ghist,
                    gp,
                    rows,
                    sampling,
                    run,
                    tb,
                    calc,
                );
            indices_are_alike(&ga, &gb, da, db, params.max_bin as int, weights, calc);
            hist_trees_are_alike(
                plan_of(params, ka, &ga, gp),
                plan_of(params, kb, &gb, gp),
                rows,
                sampling,
                ra,
                rb,
                ta,
                tb,
                calc,
            );
        },
        _ => {},
    }
}

proof fn kept_rows_are_few<F: Fn(Op, u64, u64) -> u64>(
    seed: u64,
    requests: Seq<int>,
    chance: Wide,
    n: int,
    calc: &Calc<F>,
)
    requires
        0 <= n,
    ensures
        kept_rows(seed, requests, chance, n, calc).len() <= n,
    decreases n,
{
    if n > 0 {
        kept_rows_are_few(seed, requests, chance, n - 1, calc);
    }
}

/// Two trainings under the same parameters on datasets that are alike lead to
/// the same trees, round by round.
pub proof fn training_is_reproducible<F: Fn(Op, u64, u64) -> u64, O: Objective<F>>(
    params: TrainingParams,
    da: &DMatrix,
    db: &DMatrix,
    pa: &Prepared,
    pb: &Prepared,
    o: &O,
    base: Single,
    ta: Seq<RegTree>,
    tb: Seq<RegTree>,
    k: int,
    rounds: int,
    t: int,
    calc: &Calc<F>,
)
    requires
        da.well_formed(),
        alike(da, db),
        pa.fits(params, da, calc),
        pb.fits(params, db, calc),
        reproducible(pa, da.height()),
        boosted(params, da, pa, o, base, ta, k, rounds, calc),
        boosted(params, db, pb, o, base, tb, k, rounds, calc),
        0 < k,
        0 <= t < rounds * k,
    ensures
        same_tree(&ta[t], &tb[t]),
    decreases t,
{
    place_entry(rounds, k, t);
    let r = t / k;
    let out = t % k;
    assert forall|i: int| 0 <= i < r * k implies same_tree(#[trigger] &ta[i], &tb[i]) by {
        training_is_reproducible(
            params,
            da,
            db,
            pa,
            pb,
            o,
            base,
            ta,
            tb,
            k,
            rounds,
            i,
            calc,
        );
    }
    margins_are_alike(
        ta,
        tb,
        weights_after(params, k, r, calc),
        drops_in(params, k, r, calc),
        da,
        db,
        base,
        k,
        r * k,
        calc,
    );
    let margins = margins_in(params, da, base, ta, k, r, calc);
    assert(margins == margins_in(params, db, base, tb, k, r, calc));
    let gp = gradients_at(o, da, margins, calc);
    assert(gp == gradients_at(o, db, margins, calc));
    assert(fitted(params, da, pa, o, base, ta, k, r, out, calc));
    assert(fitted(params, db, pb, o, base, tb, k, r, out, calc));
    let rows = rows_in(params, da.height(), k, r, calc);
    let sampling = sampling_in(params, da.height(), da.width(), k, r, out, calc);
    let eta = calc.narrowed(params.eta);
    let part = output_slice(gp, k, out, da.height());
    let ra = choose|raw: RegTree|
        #![trigger is_scaled(&ta[t], &raw, eta, calc)]
        is_scaled(&ta[t], &raw, eta, calc) && pa.may_grow(
            params,
            da,
            part,
            rows,
            sampling,
            &raw,
            calc,
        );
    let rb = choose|raw: RegTree|
        #![trigger is_scaled(&tb[t], &raw, eta, calc)]
        is_scaled(&tb[t], &raw, eta, calc) && pb.may_grow(
            params,
            db,
            part,
            rows,
            sampling,
            &raw,
            calc,
        );
    da.shape();
    kept_rows_are_few(
        crate::learner::boost::seed_of(params, r),
        crate::learner::boost::requests_in(params, k, r, calc),
        params.subsample,
        da.height(),
        calc,
    );
    assert(rows.len() <= da.height());
    grown_trees_are_alike(params, pa, pb, da, db, part, rows, sampling, &ra, &rb, calc);
}

/// The same data, parameters and seed give the same predictions, however the
/// data are stored.
pub proof fn equal_trainings_predict_alike<
    F: Fn(Op, u64, u64) -> u64,
    O: Objective<F>,
    M: Metric<F>,
>(
    params: TrainingParams,
    da: &DMatrix,
    db: &DMatrix,
    pa: &Prepared,
    pb: &Prepared,
    o: &O,
    metrics: Seq<M>,
    num_rounds: int,
    rounds_a: int,
    rounds_b: int,
    a: TrainResult,
    b: TrainResult,
    xa: &DMatrix,
    xb: &DMatrix,
    calc: &Calc<F>,
)
    requires
        da.well_formed(),
        alike(da, db),
        alike(xa, xb),
        reproducible(pa, da.height()),
        0 < o.outputs(),
        is_trained(
            params,
            da,
            pa,
            o,
            metrics,
            Seq::empty(),
            num_rounds,
            None,
            rounds_a,
            a,
            calc,
        ),
        is_trained(
            params,
            db,
            pb,
            o,
            metrics,
            Seq::empty(),
            num_rounds,
            None,
            rounds_b,
            b,
            calc,
        ),
    ensures
        a.model.margins(xa, 0, calc) == b.model.margins(xb, 0, calc),
{
    let k = o.outputs();
    let base = base_of(params, da, o, calc);
    assert(base == base_of(params, db, o, calc));
    assert(rounds_a == num_rounds && rounds_b == num_rounds);
    let ta = a.model.tree_list();
    let tb = b.model.tree_list();
    assert forall|t: int| 0 <= t < num_rounds * k implies same_tree(#[trigger] &ta[t], &tb[t]) by {
        training_is_reproducible(
            params,
            da,
            db,
            pa,
            pb,
            o,
            base,
            ta,
            tb,
            k,
            num_rounds,
            t,
            calc,
        );
    }
    margins_are_alike(
        ta,
        tb,
        a.model.weight_list(),
        Seq::empty(),
        xa,
        xb,
        base,
        a.model.outputs(),
        num_rounds * k,
        calc,
    );
}

} // verus!
