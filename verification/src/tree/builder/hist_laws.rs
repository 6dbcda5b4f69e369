//! Trees over bins route rows as prediction over values does.

use vstd::prelude::*;

use crate::arith::{Calc, Op};
use crate::data::dmatrix::DMatrix;
use crate::data::ghist::{binned, feature_bin_is_the_bin_of_the_cell, GHistIndex};
use crate::data::laws::distinct_columns;
use crate::data::quantile::{
    category_bin, numeric_bin, thresholds_agree_with_bins, HistCuts,
};
use crate::number::{counts_are_bounded, Single};
use crate::tree::builder::exact::row_of;
use crate::tree::builder::growth::{
    arranged, no_split, ratio_order, sweep, target_of, Best, Target,
};
use crate::tree::builder::hist::{
    category_table, features_scan, left_rows, numeric_scan, right_rows, row_goes_left, Plan, Rules,
    Step,
};
use crate::tree::builder::laws::{reached, split_moves_its_own_rows};
use crate::tree::gain::{GradStats, RegParams};
use crate::tree::regtree::{goes_left, in_categories, Node};

verus! {

/// Equal numbers count alike.
pub proof fn equal_numbers_count_alike(a: Single, b: Single, max: int)
    requires
        a.same(b),
        0 <= max,
    ensures
        a.count(max) == b.count(max),
{
    if a.place() == 0 {
        assert(a.whole() == 0);
        assert(b.whole() == 0);
    }
}

/// Whether a split over bins lies within its feature: a numeric one behind a
/// bin that is not the feature's last, a categorical one on a categorical
/// feature.
pub open spec fn lies_within(cuts: &HistCuts, b: Best) -> bool {
    &&& b.feature < cuts.features()
    &&& b.is_categorical == cuts.categorical(b.feature as int)
    &&& !b.is_categorical ==> {
        &&& cuts.start(b.feature as int) <= b.split_bin < cuts.start(b.feature + 1) - 1
        &&& b.threshold == cuts.cuts()[b.split_bin as int]
    }
}

proof fn numeric_scan_lies_within<F: Fn(Op, u64, u64) -> u64>(
    rules: Rules,
    hist: Seq<GradStats>,
    target: Target,
    best: Best,
    f: u32,
    n: int,
    calc: &Calc<F>,
)
    requires
        rules.cuts.well_formed(),
        f < rules.cuts.features(),
        !rules.cuts.categorical(f as int),
        n <= rules.cuts.start(f + 1) - 1,
        best == no_split() || lies_within(&rules.cuts, best),
    ensures
        ({
            let after = numeric_scan(
                rules,
                hist,
                target,
                best,
                f,
                rules.cuts.start(f as int),
                rules.cuts.start(f + 1),
                n,
                calc,
            );
            after == no_split() || lies_within(&rules.cuts, after)
        }),
    decreases n - rules.cuts.start(f as int),
{
    rules.cuts.layout(f as int);
    if n > rules.cuts.start(f as int) {
        numeric_scan_lies_within(rules, hist, target, best, f, n - 1, calc);
    }
}

proof fn sweep_lies_within<F: Fn(Op, u64, u64) -> u64>(
    cuts: &HistCuts,
    best: Best,
    target: Target,
    dir: i8,
    f: u32,
    cats: Seq<u32>,
    stats: Seq<GradStats>,
    n: int,
    reg: RegParams,
    calc: &Calc<F>,
)
    requires
        f < cuts.features(),
        cuts.categorical(f as int),
        best == no_split() || lies_within(cuts, best),
    ensures
        ({
            let after = sweep(best, target, dir, f, cats, stats, n, reg, calc);
            after == no_split() || lies_within(cuts, after)
        }),
    decreases n,
{
    if n > 0 {
        sweep_lies_within(cuts, best, target, dir, f, cats, stats, n - 1, reg, calc);
    }
}

/// The best split of a node, where there is one, lies within its feature.
pub proof fn best_splits_lie_within<F: Fn(Op, u64, u64) -> u64>(
    rules: Rules,
    hist: Seq<GradStats>,
    target: Target,
    features: Seq<u32>,
    n: int,
    calc: &Calc<F>,
)
    requires
        rules.cuts.well_formed(),
        0 <= n <= features.len(),
        forall|i: int| 0 <= i < features.len() ==> #[trigger] features[i] < rules.cuts.features(),
    ensures
        ({
            let b = features_scan(rules, hist, target, features, n, calc);
            b == no_split() || lies_within(&rules.cuts, b)
        }),
    decreases n,
{
    if n > 0 {
        best_splits_lie_within(rules, hist, target, features, n - 1, calc);
        let so_far = features_scan(rules, hist, target, features, n - 1, calc);
        let f = features[n - 1];
        let fs = rules.cuts.start(f as int);
        let fe = rules.cuts.start(f + 1);
        if fe > fs + 1 {
            if rules.cuts.categorical(f as int) {
                let (cats, stats) = category_table(&rules.cuts, hist, fs, fe);
                let order = ratio_order(stats, rules.reg, calc);
                sweep_lies_within(
                    &rules.cuts,
                    so_far,
                    target,
                    rules.cons.direction(f as int),
                    f,
                    arranged(cats, order),
                    arranged(stats, order),
                    cats.len() - 1,
                    rules.reg,
                    calc,
                );
            } else {
                numeric_scan_lies_within(rules, hist, target, so_far, f, fe - 1, calc);
            }
        }
    }
}

/// Whether a value of a feature can be told from its bin: a number, and if the
/// feature is categorical, one of its categories.
pub open spec fn told_by_its_bin(cuts: &HistCuts, f: int, v: Single) -> bool {
    &&& !v.nan()
    &&& cuts.categorical(f) ==> exists|i: int|
        0 <= i < cuts.cuts_of(f).len() && (#[trigger] cuts.cuts_of(f)[i]).same(v)
}

/// Whether row `r` of a matrix was binned into row `r` of an index.
pub open spec fn row_is_binned(data: &DMatrix, ghist: &GHistIndex, r: int) -> bool {
    &&& 0 <= r < data.height()
    &&& data.readable_row(r)
    &&& distinct_columns(data.stored(r))
    &&& ghist.row_bins(r) == binned(data.entries(r), &ghist.table())
    &&& forall|f: int|
        0 <= f < ghist.table().features() ==> (#[trigger] data.cell(r, f) matches Some(v)
            ==> told_by_its_bin(&ghist.table(), f, v))
}

/// A split sends a row to the same side by its bin as by its value.
pub proof fn bins_route_as_values(
    data: &DMatrix,
    ghist: &GHistIndex,
    b: Best,
    r: u32,
    node: Node,
    cats: Seq<u32>,
)
    requires
        data.well_formed(),
        ghist.table().well_formed(),
        data.width() <= ghist.table().features(),
        row_is_binned(data, ghist, r as int),
        lies_within(&ghist.table(), b),
        node.is_categorical == b.is_categorical,
        node.default_left == b.default_left,
        !b.is_categorical ==> node.split_cond == b.threshold,
        b.is_categorical ==> node.cat_begin <= node.cat_end <= cats.len() && cats.subrange(
            node.cat_begin as int,
            node.cat_end as int,
        ) == b.cat_left,
    ensures
        row_goes_left(ghist, b, r) == goes_left(
            node,
            cats,
            data.cell(r as int, b.feature as int),
        ),
{
    let cuts = ghist.table();
    let f = b.feature as int;
    cuts.layout(f);
    feature_bin_is_the_bin_of_the_cell(data, &cuts, r as int, b.feature);
    match data.cell(r as int, f) {
        Some(v) => {
            assert(told_by_its_bin(&cuts, f, v));
            let own = cuts.cuts_of(f);
            if b.is_categorical {
                let i = category_bin(own, v);
                assert(0 <= i < own.len() && own[i].same(v));
                let x = cuts.bin(f, v);
                assert(cuts.cuts()[x] == own[i]);
                equal_numbers_count_alike(own[i], v, u32::MAX as int);
                counts_are_bounded(v, u32::MAX as int);
                counts_are_bounded(own[i], u32::MAX as int);
                assert((x as u32) as int == x);
                let c = v.count(u32::MAX as int) as u32;
                if b.cat_left.contains(c) {
                    let k = choose|k: int| 0 <= k < b.cat_left.len() && b.cat_left[k] == c;
                    assert(cats[node.cat_begin + k] == c);
                }
                if in_categories(node, cats, v) {
                    let k = choose|k: int|
                        node.cat_begin <= k < node.cat_end && #[trigger] cats[k] == v.count(
                            u32::MAX as int,
                        );
                    assert(b.cat_left[k - node.cat_begin] == c);
                }
            } else {
                let t = b.split_bin - cuts.start(f);
                assert(own[t] == cuts.cuts()[b.split_bin as int]);
                thresholds_agree_with_bins(own, v, t);
                bin_is_bounded(own, v);
            }
        },
        None => {},
    }
}

proof fn bin_is_bounded(cuts: Seq<Single>, v: Single)
    requires
        cuts.len() > 0,
    ensures
        0 <= numeric_bin(cuts, v) < cuts.len(),
{
    count_is_bounded(cuts, v, cuts.len() as int);
}

proof fn count_is_bounded(cuts: Seq<Single>, v: Single, n: int)
    requires
        0 <= n,
    ensures
        0 <= crate::data::quantile::count_le(cuts, v, n) <= n,
    decreases n,
{
    if n > 0 {
        count_is_bounded(cuts, v, n - 1);
    }
}

/// Every row of an open node reaches that node in the tree.
pub open spec fn open_rows_stand(data: &DMatrix, s: Step) -> bool {
    forall|i: int, k: int|
        0 <= i < s.open.len() && 0 <= k < s.open[i].rows.len() ==> reached(
            s.g,
            row_of(data, (#[trigger] s.open[i].rows[k]) as int),
        ) == s.open[i].nid
}

/// The open nodes are different leaves, with rows and features that exist.
pub open spec fn open_nodes_exist(plan: Plan, data: &DMatrix, s: Step) -> bool {
    &&& forall|i: int|
        0 <= i < s.open.len() ==> 0 <= (#[trigger] s.open[i]).nid < s.g.nodes.len()
            && s.g.nodes[s.open[i].nid].leafy()
    &&& forall|i: int, j: int|
        0 <= i < j < s.open.len() ==> (#[trigger] s.open[i]).nid != (#[trigger] s.open[j]).nid
    &&& forall|i: int, k: int|
        0 <= i < s.open.len() && 0 <= k < s.open[i].features.len() ==> (
        #[trigger] s.open[i].features[k]) < plan.ghist.table().features()
    &&& forall|i: int, k: int|
        0 <= i < s.open.len() && 0 <= k < s.open[i].rows.len() ==> row_is_binned(
            data,
            &plan.ghist,
            (#[trigger] s.open[i].rows[k]) as int,
        )
}

/// Growth over bins parts its rows as prediction over values routes them: if
/// every row of an open node reaches that node, so it does after a split.
pub proof fn binned_rows_follow_the_tree<F: Fn(Op, u64, u64) -> u64>(
    plan: Plan,
    data: &DMatrix,
    s: Step,
    i: int,
    hl: Seq<GradStats>,
    hr: Seq<GradStats>,
    calc: &Calc<F>,
)
    requires
        data.well_formed(),
        plan.ghist.table().well_formed(),
        data.width() <= plan.ghist.table().features(),
        s.g.well_formed(),
        open_nodes_exist(plan, data, s),
        open_rows_stand(data, s),
        0 <= i < s.open.len(),
        plan.is_taken(s.g, s.open[i], calc),
    ensures
        open_rows_stand(data, plan.after_split(s, i, hl, hr, calc)),
{
    let t = plan.after_split(s, i, hl, hr, calc);
    let e = s.open[i];
    let b = plan.best(s.g, e, calc);
    let dir = plan.cons.direction(b.feature as int);
    let lw = calc.narrowed(b.w_left);
    let rw = calc.narrowed(b.w_right);
    let n = s.g.nodes.len() as int;
    let rest = s.open.remove(i);
    best_splits_lie_within(
        plan.rules(),
        e.hist,
        target_of(s.g.stats[e.nid], s.g.bounds[e.nid], true, plan.reg, calc),
        e.features,
        e.features.len() as int,
        calc,
    );
    let split = s.g.split_node(e.nid, b, calc);
    assert(!s.g.nodes[e.nid].is_categorical);
    if b.is_categorical {
        assert(t.g.cats.subrange(split.cat_begin as int, split.cat_end as int) =~= b.cat_left);
    }
    assert forall|a: int, k: int| 0 <= a < t.open.len() && 0 <= k < t.open[a].rows.len() implies
        reached(t.g, row_of(data, (#[trigger] t.open[a].rows[k]) as int)) == t.open[a].nid by {
        let r = t.open[a].rows[k];
        let row = row_of(data, r as int);
        split_moves_its_own_rows(s.g, e.nid, b, dir, lw, rw, row, calc);
        if a < rest.len() {
            let a0 = if a < i { a } else { a + 1 };
            assert(t.open[a] == s.open[a0]);
            assert(s.open[a0].rows[k] == r);
            assert(reached(s.g, row) == s.open[a0].nid);
            if a0 < i {
                assert(s.open[a0].nid != s.open[i].nid);
            } else {
                assert(s.open[i].nid != s.open[a0].nid);
            }
        } else {
            let goes = |x: u32| row_goes_left(&plan.ghist, b, x);
            let stays = |x: u32| !row_goes_left(&plan.ghist, b, x);
            let part = t.open[a].rows;
            assert(part.contains(r));
            if a == rest.len() {
                assert(part == left_rows(&plan.ghist, b, e.rows));
                e.rows.lemma_filter_pred(goes, k);
                e.rows.lemma_filter_contains_rev(goes, r);
            } else {
                assert(part == right_rows(&plan.ghist, b, e.rows));
                e.rows.lemma_filter_pred(stays, k);
                e.rows.lemma_filter_contains_rev(stays, r);
            }
            let j = choose|j: int| 0 <= j < e.rows.len() && e.rows[j] == r;
            assert(s.open[i].rows[j] == r);
            assert(reached(s.g, row) == e.nid);
            assert(row_is_binned(data, &plan.ghist, s.open[i].rows[j] as int));
            bins_route_as_values(data, &plan.ghist, b, r, split, t.g.cats);
            assert(t.g.nodes[e.nid] == split);
            assert(row(split.split_feature) == data.cell(r as int, b.feature as int));
        }
    }
}

} // verus!
