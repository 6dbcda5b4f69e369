//! Growth keeps the intervals of weights in the order that monotone
//! constraints ask for.

use vstd::prelude::*;

use crate::arith::{Calc, Op};
use crate::data::dmatrix::DMatrix;
use crate::number::{Single, Wide};
use crate::tree::builder::exact::{
    applied, is_taken, last_stage, level_best, new_weights, next_stage, stage_bests, Pass, Setting,
    Stage,
};
use crate::tree::builder::growth::{
    arranged, nothing_is_not_found, ratio_order, sweep, target_of, Best, Grown, Target,
};
use crate::tree::builder::hist::{
    category_table, features_scan, numeric_scan, Plan, Rules, Step,
};
use crate::tree::builder::monotone::{
    intervals_nest, predictions_are_monotone, rises_in, split_by_threshold, within,
};
use crate::tree::constraints::{
    bounded_weight, midpoint, respects, Bounds, MonotoneConstraints,
};
use crate::tree::gain::{weight, GradStats, RegParams};
use crate::tree::regtree::{route, settles};
use crate::tree::sampler::{draw_at, Sampling};

verus! {

/// Whether two intervals are what a split makes of one: the same twice where
/// the feature is free, else its two parts below and above a point, in the
/// asked order.
pub open spec fn parted(parent: Bounds, dir: int, left: Bounds, right: Bounds) -> bool {
    if dir == 0 {
        left == parent && right == parent
    } else if dir > 0 {
        left.lower == parent.lower && right.upper == parent.upper && left.upper == right.lower
    } else {
        right.lower == parent.lower && left.upper == parent.upper && right.upper == left.lower
    }
}

/// Whether every split of a tree parted its node's interval.
pub open spec fn intervals_part(g: Grown, cons: MonotoneConstraints) -> bool {
    &&& 0 < g.nodes.len() <= i32::MAX
    &&& g.bounds.len() == g.nodes.len()
    &&& forall|i: int|
        #![trigger g.nodes[i]]
        0 <= i < g.nodes.len() && !g.nodes[i].leafy() ==> {
            &&& 0 <= g.nodes[i].left < g.nodes.len()
            &&& 0 <= g.nodes[i].right < g.nodes.len()
            &&& parted(
                g.bounds[i],
                cons.direction(g.nodes[i].split_feature as int) as int,
                g.bounds[g.nodes[i].left as int],
                g.bounds[g.nodes[i].right as int],
            )
        }
}

proof fn splits_part_intervals<F: Fn(Op, u64, u64) -> u64>(
    g: Grown,
    cons: MonotoneConstraints,
    nid: int,
    b: Best,
    lw: Single,
    rw: Single,
    calc: &Calc<F>,
)
    requires
        intervals_part(g, cons),
        0 <= nid < g.nodes.len(),
        g.has_room(b),
    ensures
        intervals_part(
            g.after_split(nid, b, cons.direction(b.feature as int), lw, rw, calc),
            cons,
        ),
        g.after_split(nid, b, cons.direction(b.feature as int), lw, rw, calc).nodes.len()
            == g.nodes.len() + 2,
{
    let dir = cons.direction(b.feature as int);
    let after = g.after_split(nid, b, dir, lw, rw, calc);
    let m = g.nodes.len() as int;
    assert(after.nodes.len() == m + 2);
    assert(after.nodes[nid] == g.split_node(nid, b, calc));
    assert(after.bounds[nid] == g.bounds[nid]);
    assert forall|i: int|
        #![trigger after.nodes[i]]
        0 <= i < after.nodes.len() && !after.nodes[i].leafy() implies {
        &&& 0 <= after.nodes[i].left < after.nodes.len()
        &&& 0 <= after.nodes[i].right < after.nodes.len()
        &&& parted(
            after.bounds[i],
            cons.direction(after.nodes[i].split_feature as int) as int,
            after.bounds[after.nodes[i].left as int],
            after.bounds[after.nodes[i].right as int],
        )
    } by {
        if i == nid {
            assert(after.nodes[i].left == m && after.nodes[i].right == m + 1);
            assert(after.nodes[i].split_feature == b.feature);
        } else if i < m {
            assert(after.nodes[i] == g.nodes[i]);
            assert(after.bounds[i] == g.bounds[i]);
            assert(after.bounds[g.nodes[i].left as int] == g.bounds[g.nodes[i].left as int]);
            assert(after.bounds[g.nodes[i].right as int] == g.bounds[g.nodes[i].right as int]);
        } else {
            assert(after.nodes[i].leafy());
        }
    }
}

/// Where no interval is empty, parted intervals nest.
pub proof fn parted_intervals_nest(g: Grown, cons: MonotoneConstraints)
    requires
        intervals_part(g, cons),
        forall|i: int| 0 <= i < g.bounds.len() ==> (#[trigger] g.bounds[i]).nonempty(),
    ensures
        intervals_nest(g, cons),
{
    assert forall|i: int|
        #![trigger g.nodes[i]]
        0 <= i < g.nodes.len() && !g.nodes[i].leafy() implies {
        let l = g.bounds[g.nodes[i].left as int];
        let r = g.bounds[g.nodes[i].right as int];
        let dir = cons.direction(g.nodes[i].split_feature as int);
        &&& within(l, g.bounds[i])
        &&& within(r, g.bounds[i])
        &&& dir > 0 ==> l.upper.le(r.lower)
        &&& dir < 0 ==> r.upper.le(l.lower)
    } by {
        let l = g.bounds[g.nodes[i].left as int];
        let r = g.bounds[g.nodes[i].right as int];
        assert(l.nonempty() && r.nonempty() && g.bounds[i].nonempty());
    }
}

/// Whether nodes exist.
pub open spec fn nodes_stand(g: Grown, active: Seq<usize>) -> bool {
    forall|s: int| 0 <= s < active.len() ==> (#[trigger] active[s]) < g.nodes.len()
}

proof fn applying_parts_intervals<F: Fn(Op, u64, u64) -> u64>(
    st: Setting,
    g: Grown,
    active: Seq<usize>,
    bests: Seq<Best>,
    n: int,
    calc: &Calc<F>,
)
    requires
        intervals_part(g, st.cons),
        nodes_stand(g, active),
        0 <= n <= active.len(),
    ensures
        intervals_part(applied(st, g, active, bests, n, calc).0, st.cons),
        applied(st, g, active, bests, n, calc).0.nodes.len() >= g.nodes.len(),
        nodes_stand(
            applied(st, g, active, bests, n, calc).0,
            applied(st, g, active, bests, n, calc).1,
        ),
    decreases n,
{
    if n > 0 {
        applying_parts_intervals(st, g, active, bests, n - 1, calc);
        let (so_far, next) = applied(st, g, active, bests, n - 1, calc);
        let b = bests[n - 1];
        assert(active[n - 1] < g.nodes.len());
        if is_taken(st, so_far, b) {
            let (lw, rw) = new_weights(st, b, calc);
            splits_part_intervals(so_far, st.cons, active[n - 1] as int, b, lw, rw, calc);
        }
    }
}

/// Exact growth parts intervals as constraints ask for.
pub proof fn exact_growth_parts_intervals<F: Fn(Op, u64, u64) -> u64>(
    st: Setting,
    data: &DMatrix,
    stage: Stage,
    levels: nat,
    calc: &Calc<F>,
)
    requires
        intervals_part(stage.g, st.cons),
        nodes_stand(stage.g, stage.active),
    ensures
        intervals_part(last_stage(st, data, stage, levels, calc).g, st.cons),
    decreases levels,
{
    if levels > 0 && stage.active.len() > 0 {
        applying_parts_intervals(
            st,
            stage.g,
            stage.active,
            stage_bests(st, stage, calc),
            stage.active.len() as int,
            calc,
        );
        exact_growth_parts_intervals(
            st,
            data,
            next_stage(st, data, stage, calc),
            (levels - 1) as nat,
            calc,
        );
    }
}

/// Whether the open nodes of a state exist.
pub open spec fn open_stand(s: Step) -> bool {
    forall|i: int|
        0 <= i < s.open.len() ==> 0 <= (#[trigger] s.open[i]).nid < s.g.nodes.len()
}

proof fn steps_part_intervals<F: Fn(Op, u64, u64) -> u64>(
    plan: Plan,
    s: Step,
    t: Step,
    calc: &Calc<F>,
)
    requires
        intervals_part(s.g, plan.cons),
        open_stand(s),
        plan.steps(s, t, calc),
    ensures
        intervals_part(t.g, plan.cons),
        open_stand(t),
{
    let i = choose|i: int| #[trigger] plan.may_pick(s, i, calc) && plan.picked(s, i, t, calc);
    let e = s.open[i];
    if plan.is_taken(s.g, e, calc) {
        let b = plan.best(s.g, e, calc);
        let (hl, hr) = choose|hl: Seq<GradStats>, hr: Seq<GradStats>|
            plan.are_children(e, b, hl, hr, calc) && t == #[trigger] plan.after_split(
                s,
                i,
                hl,
                hr,
                calc,
            );
        splits_part_intervals(
            s.g,
            plan.cons,
            e.nid,
            b,
            calc.narrowed(b.w_left),
            calc.narrowed(b.w_right),
            calc,
        );
        let rest = s.open.remove(i);
        assert forall|k: int| 0 <= k < t.open.len() implies 0 <= (#[trigger] t.open[k]).nid
            < t.g.nodes.len() by {
            if k < rest.len() {
                assert(t.open[k] == rest[k]);
                assert(rest[k] == s.open[if k < i { k } else { k + 1 }]);
            }
        }
    } else {
        assert forall|k: int| 0 <= k < t.open.len() implies 0 <= (#[trigger] t.open[k]).nid
            < t.g.nodes.len() by {
            assert(t.open[k] == s.open[if k < i { k } else { k + 1 }]);
        }
    }
}

/// Histogram growth parts intervals as constraints ask for.
pub proof fn hist_growth_parts_intervals<F: Fn(Op, u64, u64) -> u64>(
    plan: Plan,
    rows: Seq<u32>,
    sampling: Sampling,
    run: Seq<Step>,
    i: int,
    calc: &Calc<F>,
)
    requires
        plan.is_run(rows, sampling, run, calc),
        0 <= i < run.len(),
    ensures
        intervals_part(run[i].g, plan.cons),
        open_stand(run[i]),
    decreases i,
{
    if i > 0 {
        hist_growth_parts_intervals(plan, rows, sampling, run, i - 1, calc);
        assert(plan.steps(run[i - 1], run[i], calc));
        steps_part_intervals(plan, run[i - 1], run[i], calc);
    }
}

/// The bit pattern of a quarter of the range of numbers, two to the power of 1022.
pub const WEIGHT_LIMIT: u64 = 0x7fd0_0000_0000_0000;

/// Whether the magnitude of a weight is at most a quarter of the range of
/// numbers, so that the sum of two such weights is a number.
pub open spec fn in_range(w: Wide) -> bool {
    (Wide { bits: WEIGHT_LIMIT }).negated().le(w) && w.le(Wide { bits: WEIGHT_LIMIT })
}

/// Whether the point halfway between two weights in range lies between them.
pub open spec fn halves_between<F: Fn(Op, u64, u64) -> u64>(calc: &Calc<F>) -> bool {
    forall|a: Wide, b: Wide|
        in_range(a) && in_range(b) ==> {
            let mid = #[trigger] midpoint(a, b, calc);
            &&& a.le(b) ==> a.le(mid) && mid.le(b)
            &&& b.le(a) ==> b.le(mid) && mid.le(a)
        }
}

/// Whether the best weights of all nodes of a growth are in range.
pub open spec fn sound_growth<F: Fn(Op, u64, u64) -> u64>(
    g: Grown,
    reg: RegParams,
    calc: &Calc<F>,
) -> bool {
    forall|i: int|
        0 <= i < g.stats.len() ==> in_range(weight(#[trigger] g.stats[i], reg, calc))
}

/// Whether an interval holds weights in range.
pub open spec fn is_open(bounds: Bounds) -> bool {
    &&& bounds.nonempty()
    &&& bounds.lower.le(Wide { bits: WEIGHT_LIMIT })
    &&& (Wide { bits: WEIGHT_LIMIT }).negated().le(bounds.upper)
}

/// Whether no interval of a growth is empty, if all weights are in range.
pub open spec fn intervals_stay_open<F: Fn(Op, u64, u64) -> u64>(
    g: Grown,
    reg: RegParams,
    calc: &Calc<F>,
) -> bool {
    &&& g.bounds.len() == g.nodes.len()
    &&& g.stats.len() == g.nodes.len()
    &&& sound_growth(g, reg, calc) ==> forall|i: int|
        0 <= i < g.bounds.len() ==> is_open(#[trigger] g.bounds[i])
}

proof fn bounded_weights_are_in_range<F: Fn(Op, u64, u64) -> u64>(
    stats: GradStats,
    reg: RegParams,
    bounds: Bounds,
    calc: &Calc<F>,
)
    requires
        in_range(weight(stats, reg, calc)),
        is_open(bounds),
    ensures
        in_range(bounded_weight(stats, reg, bounds, calc)),
        bounds.holds(bounded_weight(stats, reg, bounds, calc)),
{
}

/// Whether a found split's weights are those of its sides within an interval,
/// in the order that constraints ask for.
pub open spec fn weighs_within<F: Fn(Op, u64, u64) -> u64>(
    b: Best,
    bounds: Bounds,
    cons: MonotoneConstraints,
    reg: RegParams,
    calc: &Calc<F>,
) -> bool {
    b.is_found() ==> {
        &&& b.w_left == bounded_weight(b.left, reg, bounds, calc)
        &&& b.w_right == bounded_weight(b.right, reg, bounds, calc)
        &&& respects(cons.direction(b.feature as int), b.w_left, b.w_right)
    }
}

proof fn splits_keep_intervals_open<F: Fn(Op, u64, u64) -> u64>(
    g: Grown,
    cons: MonotoneConstraints,
    reg: RegParams,
    nid: int,
    b: Best,
    lw: Single,
    rw: Single,
    calc: &Calc<F>,
)
    requires
        halves_between(calc),
        intervals_stay_open(g, reg, calc),
        0 <= nid < g.nodes.len(),
        b.is_found(),
        weighs_within(b, g.bounds[nid], cons, reg, calc),
    ensures
        intervals_stay_open(
            g.after_split(nid, b, cons.direction(b.feature as int), lw, rw, calc),
            reg,
            calc,
        ),
{
    let dir = cons.direction(b.feature as int);
    let after = g.after_split(nid, b, dir, lw, rw, calc);
    let m = g.nodes.len() as int;
    assert(after.nodes.len() == m + 2);
    if sound_growth(after, reg, calc) {
        assert forall|i: int| 0 <= i < g.stats.len() implies in_range(
            weight(#[trigger] g.stats[i], reg, calc),
        ) by {
            assert(after.stats[i] == g.stats[i]);
        }
        assert(sound_growth(g, reg, calc));
        assert(is_open(g.bounds[nid]));
        assert(after.stats[m] == b.left);
        assert(after.stats[m + 1] == b.right);
        bounded_weights_are_in_range(b.left, reg, g.bounds[nid], calc);
        bounded_weights_are_in_range(b.right, reg, g.bounds[nid], calc);
        let mid = midpoint(b.w_left, b.w_right, calc);
        if dir > 0 {
            assert(b.w_left.le(mid) && mid.le(b.w_right));
        } else if dir < 0 {
            assert(b.w_right.le(mid) && mid.le(b.w_left));
        }
        assert forall|i: int| 0 <= i < after.bounds.len() implies is_open(
            #[trigger] after.bounds[i],
        ) by {
            if i < m {
                assert(after.bounds[i] == g.bounds[i]);
            }
        }
    }
}

proof fn sweep_weighs_within<F: Fn(Op, u64, u64) -> u64>(
    best: Best,
    target: Target,
    cons: MonotoneConstraints,
    feature: u32,
    cats: Seq<u32>,
    stats: Seq<GradStats>,
    n: int,
    reg: RegParams,
    calc: &Calc<F>,
)
    requires
        target.constrained,
        weighs_within(best, target.bounds, cons, reg, calc),
    ensures
        weighs_within(
            sweep(
                best,
                target,
                cons.direction(feature as int),
                feature,
                cats,
                stats,
                n,
                reg,
                calc,
            ),
            target.bounds,
            cons,
            reg,
            calc,
        ),
    decreases n,
{
    if n > 0 {
        sweep_weighs_within(best, target, cons, feature, cats, stats, n - 1, reg, calc);
    }
}

proof fn scan_weighs_within<F: Fn(Op, u64, u64) -> u64>(
    pass: Pass,
    nid: int,
    best: Best,
    target: Target,
    cons: MonotoneConstraints,
    f: u32,
    n: int,
    reg: RegParams,
    calc: &Calc<F>,
)
    requires
        target.constrained,
        weighs_within(best, target.bounds, cons, reg, calc),
    ensures
        weighs_within(
            pass.scan(nid, best, target, cons.direction(f as int), f, n, reg, calc).best,
            target.bounds,
            cons,
            reg,
            calc,
        ),
    decreases n,
{
    if n > 0 {
        scan_weighs_within(pass, nid, best, target, cons, f, n - 1, reg, calc);
    }
}

proof fn level_best_weighs_within<F: Fn(Op, u64, u64) -> u64>(
    st: Setting,
    node_of: Seq<Option<usize>>,
    fs: Seq<u32>,
    nid: int,
    path: Seq<u32>,
    target: Target,
    n: int,
    calc: &Calc<F>,
)
    requires
        target.constrained,
    ensures
        weighs_within(
            level_best(st, node_of, fs, nid, path, target, n, calc),
            target.bounds,
            st.cons,
            st.reg,
            calc,
        ),
    decreases n,
{
    if n <= 0 {
        nothing_is_not_found();
    } else {
        level_best_weighs_within(st, node_of, fs, nid, path, target, n - 1, calc);
        let so_far = level_best(st, node_of, fs, nid, path, target, n - 1, calc);
        let f = fs[n - 1];
        let pass = Pass { col: st.cols.pairs(f as int), node_of, gp: st.gp };
        let all = pass.col.len() as int;
        scan_weighs_within(pass, nid, so_far, target, st.cons, f, all, st.reg, calc);
        let table = pass.table(nid, all, calc);
        let order = ratio_order(table.1, st.reg, calc);
        sweep_weighs_within(
            so_far,
            target,
            st.cons,
            f,
            arranged(table.0, order),
            arranged(table.1, order),
            table.0.len() - 1,
            st.reg,
            calc,
        );
    }
}

proof fn applying_keeps_intervals_open<F: Fn(Op, u64, u64) -> u64>(
    st: Setting,
    g: Grown,
    active: Seq<usize>,
    bests: Seq<Best>,
    n: int,
    calc: &Calc<F>,
)
    requires
        halves_between(calc),
        intervals_stay_open(g, st.reg, calc),
        nodes_stand(g, active),
        0 <= n <= active.len(),
        forall|s: int|
            0 <= s < active.len() ==> weighs_within(
                #[trigger] bests[s],
                g.bounds[active[s] as int],
                st.cons,
                st.reg,
                calc,
            ),
    ensures
        ({
            let (after, next) = applied(st, g, active, bests, n, calc);
            &&& intervals_stay_open(after, st.reg, calc)
            &&& after.nodes.len() >= g.nodes.len()
            &&& forall|i: int| 0 <= i < g.bounds.len() ==> #[trigger] after.bounds[i] == g.bounds[i]
            &&& nodes_stand(after, next)
        }),
    decreases n,
{
    if n > 0 {
        applying_keeps_intervals_open(st, g, active, bests, n - 1, calc);
        let (so_far, next) = applied(st, g, active, bests, n - 1, calc);
        let b = bests[n - 1];
        let nid = active[n - 1] as int;
        assert(active[n - 1] < g.nodes.len());
        assert(so_far.bounds[nid] == g.bounds[nid]);
        if is_taken(st, so_far, b) {
            let (lw, rw) = new_weights(st, b, calc);
            splits_keep_intervals_open(so_far, st.cons, st.reg, nid, b, lw, rw, calc);
            let after = so_far.after_split(
                nid,
                b,
                st.cons.direction(b.feature as int),
                lw,
                rw,
                calc,
            );
            assert forall|i: int| 0 <= i < g.bounds.len() implies #[trigger] after.bounds[i]
                == g.bounds[i] by {
                assert(so_far.bounds[i] == g.bounds[i]);
            }
        }
    }
}

/// Where halves lie between, the intervals of exact growth stay open.
pub proof fn exact_growth_keeps_intervals_open<F: Fn(Op, u64, u64) -> u64>(
    st: Setting,
    data: &DMatrix,
    stage: Stage,
    levels: nat,
    calc: &Calc<F>,
)
    requires
        halves_between(calc),
        st.cons.active(),
        intervals_stay_open(stage.g, st.reg, calc),
        nodes_stand(stage.g, stage.active),
    ensures
        intervals_stay_open(last_stage(st, data, stage, levels, calc).g, st.reg, calc),
    decreases levels,
{
    if levels > 0 && stage.active.len() > 0 {
        let bests = stage_bests(st, stage, calc);
        let fs = draw_at(stage.sampling, calc);
        assert forall|s: int| 0 <= s < stage.active.len() implies weighs_within(
            #[trigger] bests[s],
            stage.g.bounds[stage.active[s] as int],
            st.cons,
            st.reg,
            calc,
        ) by {
            let nid = stage.active[s] as int;
            level_best_weighs_within(
                st,
                stage.node_of,
                fs,
                nid,
                stage.g.paths[nid],
                target_of(
                    stage.g.stats[nid],
                    stage.g.bounds[nid],
                    st.cons.active(),
                    st.reg,
                    calc,
                ),
                fs.len() as int,
                calc,
            );
        }
        applying_keeps_intervals_open(
            st,
            stage.g,
            stage.active,
            bests,
            stage.active.len() as int,
            calc,
        );
        exact_growth_keeps_intervals_open(
            st,
            data,
            next_stage(st, data, stage, calc),
            (levels - 1) as nat,
            calc,
        );
    }
}

proof fn bins_weigh_within<F: Fn(Op, u64, u64) -> u64>(
    rules: Rules,
    hist: Seq<GradStats>,
    target: Target,
    best: Best,
    f: u32,
    fs: int,
    fe: int,
    n: int,
    calc: &Calc<F>,
)
    requires
        target.constrained,
        weighs_within(best, target.bounds, rules.cons, rules.reg, calc),
    ensures
        weighs_within(
            numeric_scan(rules, hist, target, best, f, fs, fe, n, calc),
            target.bounds,
            rules.cons,
            rules.reg,
            calc,
        ),
    decreases n - fs,
{
    if n > fs {
        bins_weigh_within(rules, hist, target, best, f, fs, fe, n - 1, calc);
    }
}

proof fn features_weigh_within<F: Fn(Op, u64, u64) -> u64>(
    rules: Rules,
    hist: Seq<GradStats>,
    target: Target,
    features: Seq<u32>,
    n: int,
    calc: &Calc<F>,
)
    requires
        target.constrained,
    ensures
        weighs_within(
            features_scan(rules, hist, target, features, n, calc),
            target.bounds,
            rules.cons,
            rules.reg,
            calc,
        ),
    decreases n,
{
    if n <= 0 {
        nothing_is_not_found();
    } else {
        features_weigh_within(rules, hist, target, features, n - 1, calc);
        let so_far = features_scan(rules, hist, target, features, n - 1, calc);
        let f = features[n - 1];
        let fs = rules.cuts.start(f as int);
        let fe = rules.cuts.start(f + 1);
        bins_weigh_within(rules, hist, target, so_far, f, fs, fe, fe - 1, calc);
        let table = category_table(&rules.cuts, hist, fs, fe);
        let order = ratio_order(table.1, rules.reg, calc);
        sweep_weighs_within(
            so_far,
            target,
            rules.cons,
            f,
            arranged(table.0, order),
            arranged(table.1, order),
            table.0.len() - 1,
            rules.reg,
            calc,
        );
    }
}

/// Where halves lie between, the intervals of histogram growth stay open.
pub proof fn hist_growth_keeps_intervals_open<F: Fn(Op, u64, u64) -> u64>(
    plan: Plan,
    rows: Seq<u32>,
    sampling: Sampling,
    run: Seq<Step>,
    i: int,
    calc: &Calc<F>,
)
    requires
        halves_between(calc),
        plan.is_run(rows, sampling, run, calc),
        0 <= i < run.len(),
    ensures
        intervals_stay_open(run[i].g, plan.reg, calc),
    decreases i,
{
    if i > 0 {
        hist_growth_keeps_intervals_open(plan, rows, sampling, run, i - 1, calc);
        hist_growth_parts_intervals(plan, rows, sampling, run, i - 1, calc);
        let s = run[i - 1];
        let t = run[i];
        assert(plan.steps(s, t, calc));
        let k = choose|k: int| #[trigger] plan.may_pick(s, k, calc) && plan.picked(s, k, t, calc);
        let e = s.open[k];
        if plan.is_taken(s.g, e, calc) {
            let b = plan.best(s.g, e, calc);
            let (hl, hr) = choose|hl: Seq<GradStats>, hr: Seq<GradStats>|
                plan.are_children(e, b, hl, hr, calc) && t == #[trigger] plan.after_split(
                    s,
                    k,
                    hl,
                    hr,
                    calc,
                );
            features_weigh_within(
                plan.rules(),
                e.hist,
                target_of(s.g.stats[e.nid], s.g.bounds[e.nid], true, plan.reg, calc),
                e.features,
                e.features.len() as int,
                calc,
            );
            splits_keep_intervals_open(
                s.g,
                plan.cons,
                plan.reg,
                e.nid,
                b,
                calc.narrowed(b.w_left),
                calc.narrowed(b.w_right),
                calc,
            );
        }
    }
}

proof fn settling_keeps_routes<F: Fn(Op, u64, u64) -> u64>(
    g: Grown,
    reg: RegParams,
    row: spec_fn(u32) -> Option<Single>,
    nid: int,
    fuel: nat,
    calc: &Calc<F>,
)
    requires
        settles(g.settled(reg, g.nodes.len() as int, calc), g.cats, nid, fuel),
    ensures
        settles(g.nodes, g.cats, nid, fuel),
        route(g.settled(reg, g.nodes.len() as int, calc), g.cats, row, nid, fuel) == route(
            g.nodes,
            g.cats,
            row,
            nid,
            fuel,
        ),
        0 <= route(g.nodes, g.cats, row, nid, fuel) < g.nodes.len(),
        g.nodes[route(g.nodes, g.cats, row, nid, fuel)].leafy(),
    decreases fuel,
{
    let nodes = g.settled(reg, g.nodes.len() as int, calc);
    assert(nodes[nid].leafy() == g.nodes[nid].leafy());
    if !g.nodes[nid].leafy() {
        assert(nodes[nid] == g.nodes[nid]);
        let less = (fuel - 1) as nat;
        settling_keeps_routes(g, reg, row, g.nodes[nid].left as int, less, calc);
        settling_keeps_routes(g, reg, row, g.nodes[nid].right as int, less, calc);
    }
}

/// Whether narrowing keeps the order of numbers.
pub open spec fn narrows_in_order<F: Fn(Op, u64, u64) -> u64>(calc: &Calc<F>) -> bool {
    forall|a: Wide, b: Wide|
        #![trigger calc.narrowed(a), calc.narrowed(b)]
        a.le(b) ==> calc.narrowed(a).le(calc.narrowed(b))
}

/// The tree of a sound growth whose intervals are parted and stay open gives values
/// in the order that a constraint asks for.
pub proof fn parted_growth_is_monotone<F: Fn(Op, u64, u64) -> u64>(
    g: Grown,
    cons: MonotoneConstraints,
    reg: RegParams,
    x: spec_fn(u32) -> Option<Single>,
    y: spec_fn(u32) -> Option<Single>,
    f: u32,
    fuel: nat,
    calc: &Calc<F>,
)
    requires
        intervals_part(g, cons),
        intervals_stay_open(g, reg, calc),
        sound_growth(g, reg, calc),
        settles(g.settled(reg, g.nodes.len() as int, calc), g.cats, 0, fuel),
        split_by_threshold(g.nodes, f),
        rises_in(x, y, f),
        cons.direction(f as int) != 0,
        narrows_in_order(calc),
    ensures
        ({
            let nodes = g.settled(reg, g.nodes.len() as int, calc);
            let vx = nodes[route(nodes, g.cats, x, 0, fuel)].leaf_value;
            let vy = nodes[route(nodes, g.cats, y, 0, fuel)].leaf_value;
            &&& cons.direction(f as int) > 0 ==> vx.le(vy)
            &&& cons.direction(f as int) < 0 ==> vy.le(vx)
        }),
{
    settling_keeps_routes(g, reg, x, 0, fuel, calc);
    settling_keeps_routes(g, reg, y, 0, fuel, calc);
    assert forall|i: int| 0 <= i < g.bounds.len() implies (#[trigger] g.bounds[i]).nonempty() by {
        assert(is_open(g.bounds[i]));
    }
    parted_intervals_nest(g, cons);
    assert forall|i: int| 0 <= i < g.nodes.len() implies !bounded_weight(
        #[trigger] g.stats[i],
        reg,
        g.bounds[i],
        calc,
    ).nan() by {
        assert(is_open(g.bounds[i]));
        bounded_weights_are_in_range(g.stats[i], reg, g.bounds[i], calc);
    }
    predictions_are_monotone(g, cons, reg, x, y, f, fuel, calc);
    let lx = route(g.nodes, g.cats, x, 0, fuel);
    let ly = route(g.nodes, g.cats, y, 0, fuel);
    let wx = bounded_weight(g.stats[lx], reg, g.bounds[lx], calc);
    let wy = bounded_weight(g.stats[ly], reg, g.bounds[ly], calc);
    let nodes = g.settled(reg, g.nodes.len() as int, calc);
    assert(nodes[lx].leaf_value == calc.narrowed(wx));
    assert(nodes[ly].leaf_value == calc.narrowed(wy));
}

} // verus!
