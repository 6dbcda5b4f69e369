//! What the searches for splits find.

use vstd::prelude::*;

use crate::arith::{Calc, Op};
use crate::data::meta::FeatureType;
use crate::number::{Single, Wide, HALF_S};
use crate::tree::builder::exact::{level_best, stage_bests, Pass, Setting, Stage};
use crate::tree::builder::growth::{
    arranged, better, boundary, categorical, category_place, numeric_place, prefix_stats,
    ratio_order, sweep, target_of, weighed, Best, Grown, Place, Target, LEAST_GAIN,
};
use crate::tree::builder::hist::{
    bins_stats, category_table, features_scan, numeric_scan, OpenNode, Plan, Rules,
};
use crate::tree::gain::{GradStats, RegParams};
use crate::tree::interaction::allowed;
use crate::tree::sampler::draw_at;

verus! {

/// Whether adding the least gain never lessens a number.
pub open spec fn gains_rise<F: Fn(Op, u64, u64) -> u64>(calc: &Calc<F>) -> bool {
    forall|a: Wide, b: Wide|
        #[trigger] calc.plus(a, Wide { bits: LEAST_GAIN }).lt(b) ==> a.lt(b)
}

/// Whether a split stands up to a candidate: if both sides of the candidate have
/// enough weight and its children's weights run as asked, its loss reduction does
/// not exceed that of the split by more than the least gain.
pub open spec fn stands_up<F: Fn(Op, u64, u64) -> u64>(
    best: Best,
    target: Target,
    dir: i8,
    left: GradStats,
    right: GradStats,
    reg: RegParams,
    calc: &Calc<F>,
) -> bool {
    reg.min_child_weight.le(left.hess) && reg.min_child_weight.le(right.hess) ==> (weighed(
        target,
        dir,
        left,
        right,
        reg,
        calc,
    ) matches Some((g, _, _)) ==> !calc.plus(best.loss_chg, Wide { bits: LEAST_GAIN }).lt(g))
}

/// Whether a split stands up to a boundary, wherever missing values go.
/// `before` is what lies before the boundary, `present` all that is not missing.
pub open spec fn stands_up_to_boundary<F: Fn(Op, u64, u64) -> u64>(
    best: Best,
    target: Target,
    dir: i8,
    present: GradStats,
    before: GradStats,
    reg: RegParams,
    calc: &Calc<F>,
) -> bool {
    &&& stands_up(best, target, dir, before, target.total.without(before, calc), reg, calc)
    &&& stands_up(
        best,
        target,
        dir,
        before.joined(target.total.without(present, calc), calc),
        present.without(before, calc),
        reg,
        calc,
    )
}

/// Whether a split stands up to sending the first `m` categories left, ranked by
/// their ratios.
pub open spec fn stands_up_to_categories<F: Fn(Op, u64, u64) -> u64>(
    best: Best,
    target: Target,
    dir: i8,
    stats: Seq<GradStats>,
    m: int,
    reg: RegParams,
    calc: &Calc<F>,
) -> bool {
    let left = prefix_stats(arranged(stats, ratio_order(stats, reg, calc)), m, calc);
    stands_up(best, target, dir, left, target.total.without(left, calc), reg, calc)
}

/// Whether a split is another one or gains on it by more than the least gain.
spec fn gains_on<F: Fn(Op, u64, u64) -> u64>(next: Best, best: Best, calc: &Calc<F>) -> bool {
    next.loss_chg == best.loss_chg || calc.plus(best.loss_chg, Wide { bits: LEAST_GAIN }).lt(
        next.loss_chg,
    )
}

proof fn gains_add_up<F: Fn(Op, u64, u64) -> u64>(a: Best, b: Best, c: Best, calc: &Calc<F>)
    requires
        gains_rise(calc),
        gains_on(b, a, calc),
        gains_on(c, b, calc),
    ensures
        gains_on(c, a, calc),
{
    if calc.plus(b.loss_chg, Wide { bits: LEAST_GAIN }).lt(c.loss_chg) {
        assert(b.loss_chg.lt(c.loss_chg));
    }
}

proof fn gains_keep_standing<F: Fn(Op, u64, u64) -> u64>(
    best: Best,
    next: Best,
    target: Target,
    dir: i8,
    left: GradStats,
    right: GradStats,
    reg: RegParams,
    calc: &Calc<F>,
)
    requires
        gains_rise(calc),
        gains_on(next, best, calc),
        stands_up(best, target, dir, left, right, reg, calc),
    ensures
        stands_up(next, target, dir, left, right, reg, calc),
{
    if let Some((g, _, _)) = weighed(target, dir, left, right, reg, calc) {
        if calc.plus(next.loss_chg, Wide { bits: LEAST_GAIN }).lt(g) {
            assert(next.loss_chg.lt(g));
        }
    }
}

proof fn better_stands_up<F: Fn(Op, u64, u64) -> u64>(
    best: Best,
    target: Target,
    dir: i8,
    left: GradStats,
    right: GradStats,
    place: Place,
    reg: RegParams,
    calc: &Calc<F>,
)
    requires
        gains_rise(calc),
    ensures
        gains_on(better(best, target, dir, left, right, place, reg, calc), best, calc),
        stands_up(
            better(best, target, dir, left, right, place, reg, calc),
            target,
            dir,
            left,
            right,
            reg,
            calc,
        ),
{
    if let Some((g, _, _)) = weighed(target, dir, left, right, reg, calc) {
        if calc.plus(g, Wide { bits: LEAST_GAIN }).lt(g) {
            assert(g.lt(g));
        }
    }
}

proof fn boundary_stands_up<F: Fn(Op, u64, u64) -> u64>(
    best: Best,
    target: Target,
    dir: i8,
    present: GradStats,
    before: GradStats,
    place: Place,
    reg: RegParams,
    calc: &Calc<F>,
)
    requires
        gains_rise(calc),
    ensures
        ({
            let after = boundary(
                best,
                target,
                dir,
                present,
                before,
                place.feature,
                place.threshold,
                place.split_bin,
                reg,
                calc,
            );
            &&& gains_on(after, best, calc)
            &&& stands_up_to_boundary(after, target, dir, present, before, reg, calc)
        }),
{
    let after = boundary(
        best,
        target,
        dir,
        present,
        before,
        place.feature,
        place.threshold,
        place.split_bin,
        reg,
        calc,
    );
    let mcw = reg.min_child_weight;
    let ra = target.total.without(before, calc);
    let right_place = numeric_place(place.feature, place.threshold, place.split_bin, false);
    let left_place = numeric_place(place.feature, place.threshold, place.split_bin, true);
    better_stands_up(best, target, dir, before, ra, right_place, reg, calc);
    let first = if mcw.le(before.hess) && mcw.le(ra.hess) {
        better(best, target, dir, before, ra, right_place, reg, calc)
    } else {
        best
    };
    let lb = before.joined(target.total.without(present, calc), calc);
    let rb = present.without(before, calc);
    better_stands_up(first, target, dir, lb, rb, left_place, reg, calc);
    gains_add_up(best, first, after, calc);
    gains_keep_standing(first, after, target, dir, before, ra, reg, calc);
}

proof fn sweep_stands_up<F: Fn(Op, u64, u64) -> u64>(
    best: Best,
    target: Target,
    dir: i8,
    feature: u32,
    cats: Seq<u32>,
    stats: Seq<GradStats>,
    n: int,
    m: int,
    reg: RegParams,
    calc: &Calc<F>,
)
    requires
        gains_rise(calc),
    ensures
        ({
            let after = sweep(best, target, dir, feature, cats, stats, n, reg, calc);
            let left = prefix_stats(stats, m, calc);
            &&& gains_on(after, best, calc)
            &&& 0 < m <= n ==> stands_up(
                after,
                target,
                dir,
                left,
                target.total.without(left, calc),
                reg,
                calc,
            )
        }),
    decreases n,
{
    if n > 0 {
        sweep_stands_up(best, target, dir, feature, cats, stats, n - 1, m, reg, calc);
        let so_far = sweep(best, target, dir, feature, cats, stats, n - 1, reg, calc);
        let after = sweep(best, target, dir, feature, cats, stats, n, reg, calc);
        let left = prefix_stats(stats, n, calc);
        let right = target.total.without(left, calc);
        let place = category_place(feature, cats.take(n));
        better_stands_up(so_far, target, dir, left, right, place, reg, calc);
        gains_add_up(best, so_far, after, calc);
        if 0 < m < n {
            let earlier = prefix_stats(stats, m, calc);
            gains_keep_standing(
                so_far,
                after,
                target,
                dir,
                earlier,
                target.total.without(earlier, calc),
                reg,
                calc,
            );
        }
    }
}

proof fn categorical_stands_up<F: Fn(Op, u64, u64) -> u64>(
    best: Best,
    target: Target,
    dir: i8,
    feature: u32,
    cats: Seq<u32>,
    stats: Seq<GradStats>,
    m: int,
    reg: RegParams,
    calc: &Calc<F>,
)
    requires
        gains_rise(calc),
    ensures
        ({
            let after = categorical(best, target, dir, feature, cats, stats, reg, calc);
            &&& gains_on(after, best, calc)
            &&& 0 < m < cats.len() ==> stands_up_to_categories(
                after,
                target,
                dir,
                stats,
                m,
                reg,
                calc,
            )
        }),
{
    let order = ratio_order(stats, reg, calc);
    sweep_stands_up(
        best,
        target,
        dir,
        feature,
        arranged(cats, order),
        arranged(stats, order),
        cats.len() - 1,
        m,
        reg,
        calc,
    );
}

/// Whether entries `i` and `j` of a column follow each other in a node.
pub open spec fn follows(pass: Pass, nid: int, i: int, j: int) -> bool {
    &&& 0 <= i < j < pass.col.len()
    &&& pass.belongs(i, nid)
    &&& pass.belongs(j, nid)
    &&& forall|k: int| i < k < j ==> !#[trigger] pass.belongs(k, nid)
}

proof fn scan_knows_the_last<F: Fn(Op, u64, u64) -> u64>(
    pass: Pass,
    nid: int,
    best: Best,
    target: Target,
    dir: i8,
    f: u32,
    i: int,
    n: int,
    reg: RegParams,
    calc: &Calc<F>,
)
    requires
        0 <= i < n,
        pass.belongs(i, nid),
        forall|k: int| i < k < n ==> !#[trigger] pass.belongs(k, nid),
    ensures
        pass.scan(nid, best, target, dir, f, n, reg, calc).has,
        pass.scan(nid, best, target, dir, f, n, reg, calc).last == pass.col[i].1,
    decreases n,
{
    if n - 1 > i {
        scan_knows_the_last(pass, nid, best, target, dir, f, i, n - 1, reg, calc);
        assert(!pass.belongs(n - 1, nid));
    }
}

proof fn scan_adds_up<F: Fn(Op, u64, u64) -> u64>(
    pass: Pass,
    nid: int,
    best: Best,
    target: Target,
    dir: i8,
    f: u32,
    n: int,
    reg: RegParams,
    calc: &Calc<F>,
)
    ensures
        pass.scan(nid, best, target, dir, f, n, reg, calc).acc == pass.present(nid, n, calc),
    decreases n,
{
    if n > 0 {
        scan_adds_up(pass, nid, best, target, dir, f, n - 1, reg, calc);
    }
}

proof fn scan_stands_up<F: Fn(Op, u64, u64) -> u64>(
    pass: Pass,
    nid: int,
    best: Best,
    target: Target,
    dir: i8,
    f: u32,
    n: int,
    i: int,
    j: int,
    reg: RegParams,
    calc: &Calc<F>,
)
    requires
        gains_rise(calc),
    ensures
        ({
            let after = pass.scan(nid, best, target, dir, f, n, reg, calc).best;
            &&& gains_on(after, best, calc)
            &&& j < n && follows(pass, nid, i, j) && !pass.col[j].1.same(pass.col[i].1)
                ==> stands_up_to_boundary(
                after,
                target,
                dir,
                pass.total(nid, calc),
                pass.present(nid, j, calc),
                reg,
                calc,
            )
        }),
    decreases n,
{
    if n > 0 {
        scan_stands_up(pass, nid, best, target, dir, f, n - 1, i, j, reg, calc);
        scan_adds_up(pass, nid, best, target, dir, f, n - 1, reg, calc);
        let so_far = pass.scan(nid, best, target, dir, f, n - 1, reg, calc);
        let after = pass.scan(nid, best, target, dir, f, n, reg, calc).best;
        let present = pass.total(nid, calc);
        let place = numeric_place(
            f,
            calc.times_s(
                Single { bits: HALF_S },
                calc.plus_s(so_far.last, pass.col[n - 1].1),
            ),
            0,
            false,
        );
        boundary_stands_up(so_far.best, target, dir, present, so_far.acc, place, reg, calc);
        gains_add_up(best, so_far.best, after, calc);
        if j < n && follows(pass, nid, i, j) && !pass.col[j].1.same(pass.col[i].1) {
            if j == n - 1 {
                scan_knows_the_last(pass, nid, best, target, dir, f, i, j, reg, calc);
            } else {
                let before = pass.present(nid, j, calc);
                gains_keep_standing(
                    so_far.best,
                    after,
                    target,
                    dir,
                    before,
                    target.total.without(before, calc),
                    reg,
                    calc,
                );
                gains_keep_standing(
                    so_far.best,
                    after,
                    target,
                    dir,
                    before.joined(target.total.without(present, calc), calc),
                    present.without(before, calc),
                    reg,
                    calc,
                );
            }
        }
    }
}

/// Whether a split stands up to every candidate of a feature for a node, in a
/// search over values: to every boundary between two unequal values that follow
/// each other, or to every prefix of the ranked categories.
pub open spec fn stands_up_to_values<F: Fn(Op, u64, u64) -> u64>(
    best: Best,
    st: Setting,
    node_of: Seq<Option<usize>>,
    nid: int,
    target: Target,
    f: u32,
    calc: &Calc<F>,
) -> bool {
    let dir = st.cons.direction(f as int);
    let pass = Pass { col: st.cols.pairs(f as int), node_of, gp: st.gp };
    if st.types[f as int] == FeatureType::Categorical {
        let (cats, stats) = pass.table(nid, pass.col.len() as int, calc);
        forall|m: int|
            0 < m < cats.len() ==> #[trigger] stands_up_to_categories(
                best,
                target,
                dir,
                stats,
                m,
                st.reg,
                calc,
            )
    } else {
        forall|i: int, j: int| #[trigger]
            follows(pass, nid, i, j) && !pass.col[j].1.same(pass.col[i].1)
                ==> stands_up_to_boundary(
                best,
                target,
                dir,
                pass.total(nid, calc),
                pass.present(nid, j, calc),
                st.reg,
                calc,
            )
    }
}

proof fn gains_stand_up_to_values<F: Fn(Op, u64, u64) -> u64>(
    best: Best,
    next: Best,
    st: Setting,
    node_of: Seq<Option<usize>>,
    nid: int,
    target: Target,
    f: u32,
    calc: &Calc<F>,
)
    requires
        gains_rise(calc),
        gains_on(next, best, calc),
        stands_up_to_values(best, st, node_of, nid, target, f, calc),
    ensures
        stands_up_to_values(next, st, node_of, nid, target, f, calc),
{
    let dir = st.cons.direction(f as int);
    let pass = Pass { col: st.cols.pairs(f as int), node_of, gp: st.gp };
    if st.types[f as int] == FeatureType::Categorical {
        let (cats, stats) = pass.table(nid, pass.col.len() as int, calc);
        assert forall|m: int| 0 < m < cats.len() implies #[trigger] stands_up_to_categories(
            next,
            target,
            dir,
            stats,
            m,
            st.reg,
            calc,
        ) by {
            assert(stands_up_to_categories(best, target, dir, stats, m, st.reg, calc));
            let left = prefix_stats(arranged(stats, ratio_order(stats, st.reg, calc)), m, calc);
            gains_keep_standing(
                best,
                next,
                target,
                dir,
                left,
                target.total.without(left, calc),
                st.reg,
                calc,
            );
        }
    } else {
        assert forall|i: int, j: int| #[trigger]
            follows(pass, nid, i, j) && !pass.col[j].1.same(
                pass.col[i].1,
            ) implies stands_up_to_boundary(
            next,
            target,
            dir,
            pass.total(nid, calc),
            pass.present(nid, j, calc),
            st.reg,
            calc,
        ) by {
            let present = pass.total(nid, calc);
            let before = pass.present(nid, j, calc);
            gains_keep_standing(
                best,
                next,
                target,
                dir,
                before,
                target.total.without(before, calc),
                st.reg,
                calc,
            );
            gains_keep_standing(
                best,
                next,
                target,
                dir,
                before.joined(target.total.without(present, calc), calc),
                present.without(before, calc),
                st.reg,
                calc,
            );
        }
    }
}

proof fn level_best_stands_up<F: Fn(Op, u64, u64) -> u64>(
    st: Setting,
    node_of: Seq<Option<usize>>,
    fs: Seq<u32>,
    nid: int,
    path: Seq<u32>,
    target: Target,
    n: int,
    k: int,
    calc: &Calc<F>,
)
    requires
        gains_rise(calc),
        0 <= k < n <= fs.len(),
        allowed(st.groups, path, fs[k]),
    ensures
        stands_up_to_values(
            level_best(st, node_of, fs, nid, path, target, n, calc),
            st,
            node_of,
            nid,
            target,
            fs[k],
            calc,
        ),
    decreases n,
{
    let so_far = level_best(st, node_of, fs, nid, path, target, n - 1, calc);
    let after = level_best(st, node_of, fs, nid, path, target, n, calc);
    let f = fs[n - 1];
    let dir = st.cons.direction(f as int);
    let pass = Pass { col: st.cols.pairs(f as int), node_of, gp: st.gp };
    let all = pass.col.len() as int;
    let (cats, stats) = pass.table(nid, all, calc);
    categorical_stands_up(so_far, target, dir, f, cats, stats, 0, st.reg, calc);
    scan_stands_up(pass, nid, so_far, target, dir, f, all, 0, 0, st.reg, calc);
    if k < n - 1 {
        level_best_stands_up(st, node_of, fs, nid, path, target, n - 1, k, calc);
        gains_stand_up_to_values(so_far, after, st, node_of, nid, target, fs[k], calc);
    } else if st.types[f as int] == FeatureType::Categorical {
        assert forall|m: int| 0 < m < cats.len() implies #[trigger] stands_up_to_categories(
            after,
            target,
            dir,
            stats,
            m,
            st.reg,
            calc,
        ) by {
            categorical_stands_up(so_far, target, dir, f, cats, stats, m, st.reg, calc);
        }
    } else {
        assert forall|i: int, j: int| #[trigger]
            follows(pass, nid, i, j) && !pass.col[j].1.same(
                pass.col[i].1,
            ) implies stands_up_to_boundary(
            after,
            target,
            dir,
            pass.total(nid, calc),
            pass.present(nid, j, calc),
            st.reg,
            calc,
        ) by {
            scan_stands_up(pass, nid, so_far, target, dir, f, all, i, j, st.reg, calc);
        }
    }
}

/// The search over values finds the best split of every active node: no candidate
/// of a drawn feature that is allowed below the node's path gains more than it by
/// more than the least gain.
pub proof fn searches_over_values_find_the_best<F: Fn(Op, u64, u64) -> u64>(
    st: Setting,
    stage: Stage,
    s: int,
    f: u32,
    calc: &Calc<F>,
)
    requires
        gains_rise(calc),
        0 <= s < stage.active.len(),
        draw_at(stage.sampling, calc).contains(f),
        allowed(st.groups, stage.g.paths[stage.active[s] as int], f),
    ensures
        stands_up_to_values(
            stage_bests(st, stage, calc)[s],
            st,
            stage.node_of,
            stage.active[s] as int,
            target_of(
                stage.g.stats[stage.active[s] as int],
                stage.g.bounds[stage.active[s] as int],
                st.cons.active(),
                st.reg,
                calc,
            ),
            f,
            calc,
        ),
{
    let fs = draw_at(stage.sampling, calc);
    let k = choose|k: int| 0 <= k < fs.len() && fs[k] == f;
    let nid = stage.active[s] as int;
    level_best_stands_up(
        st,
        stage.node_of,
        fs,
        nid,
        stage.g.paths[nid],
        target_of(stage.g.stats[nid], stage.g.bounds[nid], st.cons.active(), st.reg, calc),
        fs.len() as int,
        k,
        calc,
    );
}

/// Whether a split stands up to every candidate of a feature, in a search over
/// bins: to the boundary behind every bin but the last, or to every prefix of the
/// ranked categories. A feature with less than two bins has no candidates.
pub open spec fn stands_up_to_bins<F: Fn(Op, u64, u64) -> u64>(
    best: Best,
    rules: Rules,
    hist: Seq<GradStats>,
    target: Target,
    f: u32,
    calc: &Calc<F>,
) -> bool {
    let fs = rules.cuts.start(f as int);
    let fe = rules.cuts.start(f + 1);
    let dir = rules.cons.direction(f as int);
    if rules.cuts.categorical(f as int) {
        let (cats, stats) = category_table(&rules.cuts, hist, fs, fe);
        fs + 1 < fe ==> forall|m: int|
            0 < m < cats.len() ==> #[trigger] stands_up_to_categories(
                best,
                target,
                dir,
                stats,
                m,
                rules.reg,
                calc,
            )
    } else {
        forall|m: int|
            fs < m < fe ==> stands_up_to_boundary(
                best,
                target,
                dir,
                bins_stats(hist, fs, fe, calc),
                #[trigger] bins_stats(hist, fs, m, calc),
                rules.reg,
                calc,
            )
    }
}

proof fn gains_stand_up_to_bins<F: Fn(Op, u64, u64) -> u64>(
    best: Best,
    next: Best,
    rules: Rules,
    hist: Seq<GradStats>,
    target: Target,
    f: u32,
    calc: &Calc<F>,
)
    requires
        gains_rise(calc),
        gains_on(next, best, calc),
        stands_up_to_bins(best, rules, hist, target, f, calc),
    ensures
        stands_up_to_bins(next, rules, hist, target, f, calc),
{
    let fs = rules.cuts.start(f as int);
    let fe = rules.cuts.start(f + 1);
    let dir = rules.cons.direction(f as int);
    if rules.cuts.categorical(f as int) {
        let (cats, stats) = category_table(&rules.cuts, hist, fs, fe);
        assert forall|m: int| fs + 1 < fe && 0 < m < cats.len() implies #[trigger]
            stands_up_to_categories(next, target, dir, stats, m, rules.reg, calc) by {
            assert(stands_up_to_categories(best, target, dir, stats, m, rules.reg, calc));
            let left = prefix_stats(arranged(stats, ratio_order(stats, rules.reg, calc)), m, calc);
            gains_keep_standing(
                best,
                next,
                target,
                dir,
                left,
                target.total.without(left, calc),
                rules.reg,
                calc,
            );
        }
    } else {
        let present = bins_stats(hist, fs, fe, calc);
        assert forall|m: int| fs < m < fe implies stands_up_to_boundary(
            next,
            target,
            dir,
            present,
            #[trigger] bins_stats(hist, fs, m, calc),
            rules.reg,
            calc,
        ) by {
            let before = bins_stats(hist, fs, m, calc);
            gains_keep_standing(
                best,
                next,
                target,
                dir,
                before,
                target.total.without(before, calc),
                rules.reg,
                calc,
            );
            gains_keep_standing(
                best,
                next,
                target,
                dir,
                before.joined(target.total.without(present, calc), calc),
                present.without(before, calc),
                rules.reg,
                calc,
            );
        }
    }
}

proof fn bins_stand_up<F: Fn(Op, u64, u64) -> u64>(
    rules: Rules,
    hist: Seq<GradStats>,
    target: Target,
    best: Best,
    f: u32,
    fs: int,
    fe: int,
    n: int,
    m: int,
    calc: &Calc<F>,
)
    requires
        gains_rise(calc),
    ensures
        ({
            let after = numeric_scan(rules, hist, target, best, f, fs, fe, n, calc);
            &&& gains_on(after, best, calc)
            &&& fs < m <= n ==> stands_up_to_boundary(
                after,
                target,
                rules.cons.direction(f as int),
                bins_stats(hist, fs, fe, calc),
                bins_stats(hist, fs, m, calc),
                rules.reg,
                calc,
            )
        }),
    decreases n - fs,
{
    if n > fs {
        bins_stand_up(rules, hist, target, best, f, fs, fe, n - 1, m, calc);
        let so_far = numeric_scan(rules, hist, target, best, f, fs, fe, n - 1, calc);
        let after = numeric_scan(rules, hist, target, best, f, fs, fe, n, calc);
        let dir = rules.cons.direction(f as int);
        let present = bins_stats(hist, fs, fe, calc);
        let place = numeric_place(
            f,
            rules.cuts.cuts()[n - 1],
            (n - 1) as usize,
            false,
        );
        boundary_stands_up(
            so_far,
            target,
            dir,
            present,
            bins_stats(hist, fs, n, calc),
            place,
            rules.reg,
            calc,
        );
        gains_add_up(best, so_far, after, calc);
        if fs < m < n {
            let before = bins_stats(hist, fs, m, calc);
            gains_keep_standing(
                so_far,
                after,
                target,
                dir,
                before,
                target.total.without(before, calc),
                rules.reg,
                calc,
            );
            gains_keep_standing(
                so_far,
                after,
                target,
                dir,
                before.joined(target.total.without(present, calc), calc),
                present.without(before, calc),
                rules.reg,
                calc,
            );
        }
    }
}

proof fn features_scan_stands_up<F: Fn(Op, u64, u64) -> u64>(
    rules: Rules,
    hist: Seq<GradStats>,
    target: Target,
    features: Seq<u32>,
    n: int,
    k: int,
    calc: &Calc<F>,
)
    requires
        gains_rise(calc),
        0 <= k < n <= features.len(),
    ensures
        stands_up_to_bins(
            features_scan(rules, hist, target, features, n, calc),
            rules,
            hist,
            target,
            features[k],
            calc,
        ),
    decreases n,
{
    let so_far = features_scan(rules, hist, target, features, n - 1, calc);
    let after = features_scan(rules, hist, target, features, n, calc);
    let f = features[n - 1];
    let fs = rules.cuts.start(f as int);
    let fe = rules.cuts.start(f + 1);
    let dir = rules.cons.direction(f as int);
    let (cats, stats) = category_table(&rules.cuts, hist, fs, fe);
    categorical_stands_up(so_far, target, dir, f, cats, stats, 0, rules.reg, calc);
    bins_stand_up(rules, hist, target, so_far, f, fs, fe, fe - 1, fs, calc);
    if k < n - 1 {
        features_scan_stands_up(rules, hist, target, features, n - 1, k, calc);
        gains_stand_up_to_bins(so_far, after, rules, hist, target, features[k], calc);
    } else if rules.cuts.categorical(f as int) {
        assert forall|m: int| fs + 1 < fe && 0 < m < cats.len() implies #[trigger]
            stands_up_to_categories(after, target, dir, stats, m, rules.reg, calc) by {
            categorical_stands_up(so_far, target, dir, f, cats, stats, m, rules.reg, calc);
        }
    } else {
        assert forall|m: int| fs < m < fe implies stands_up_to_boundary(
            after,
            target,
            dir,
            bins_stats(hist, fs, fe, calc),
            #[trigger] bins_stats(hist, fs, m, calc),
            rules.reg,
            calc,
        ) by {
            bins_stand_up(rules, hist, target, so_far, f, fs, fe, fe - 1, m, calc);
        }
    }
}

/// The search over bins finds the best split of every open node: no candidate of
/// a feature that the node is offered gains more than it by more than the least
/// gain.
pub proof fn searches_over_bins_find_the_best<F: Fn(Op, u64, u64) -> u64>(
    plan: Plan,
    g: Grown,
    e: OpenNode,
    f: u32,
    calc: &Calc<F>,
)
    requires
        gains_rise(calc),
        e.features.contains(f),
    ensures
        stands_up_to_bins(
            plan.best(g, e, calc),
            plan.rules(),
            e.hist,
            target_of(g.stats[e.nid], g.bounds[e.nid], true, plan.reg, calc),
            f,
            calc,
        ),
{
    let k = choose|k: int| 0 <= k < e.features.len() && e.features[k] == f;
    features_scan_stands_up(
        plan.rules(),
        e.hist,
        target_of(g.stats[e.nid], g.bounds[e.nid], true, plan.reg, calc),
        e.features,
        e.features.len() as int,
        k,
        calc,
    );
}

} // verus!
