//! Trees have the covers and leaf weights of the rows that they were fit to, in an
//! arithmetic that does not round.

use vstd::prelude::*;

use crate::arith::{Calc, Op};
use crate::config::TrainingParams;
use crate::data::dmatrix::DMatrix;
use crate::data::ghist::{binned, GHistIndex};
use crate::data::laws::{
    columns_are_cells, columns_fit_the_rows, distinct_columns, rows_of_a_column,
};
use crate::data::meta::FeatureType;
use crate::data::quantile::{
    category_cuts, category_cuts_are_values, column_values, sortable, values_of,
};
use crate::exact::{adds_exactly, singles_halve};
use crate::layout::place_entry;
use crate::learner::boost::{
    boosted, fitted, gradients_at, is_scaled, margins_in, output_slice, requests_in, rows_in,
    sampling_in, seed_of,
};
use crate::learner::prepare::{
    directions_of, exact_tree, growable, hessians, hist_tree, is_binned, plan_of, Prepared,
};
use crate::learner::sample::round_rows_are_distinct;
use crate::number::{Single, Wide};
use crate::objective::base::Objective;
use crate::objective::pair::GradPair;
use crate::tree::builder::covers::{belongs_to_node, node_adds_up, passes, passing};
use crate::tree::builder::exact::{first_stage, last_stage, level_limit, row_of, Setting};
use crate::tree::builder::exact_covers::{
    growth_over_values_adds_up, sorted_columns_list, thresholds_stand,
};
use crate::tree::builder::hist::Step;
use crate::tree::builder::hist_covers::{growth_over_bins_adds_up, plan_fits};
use crate::tree::builder::hist_laws::{row_is_binned, told_by_its_bin};
use crate::tree::builder::hist_sums::categories_differ;
use crate::tree::builder::sums::{adds_up, same_rows_add_up};
use crate::tree::constraints::MonotoneConstraints;
use crate::tree::gain::{weight, GradStats, RegParams};
use crate::tree::interaction::groups_view;
use crate::tree::regtree::{next_node, ordered, route, RegTree};
use crate::tree::sampler::Sampling;

verus! {

/// Whether no row of a dataset lists a column twice, all values are numbers, and
/// the categories of every feature are different whole numbers.
pub open spec fn told_apart(data: &DMatrix) -> bool {
    &&& forall|r: int| 0 <= r < data.height() ==> distinct_columns(#[trigger] data.stored(r))
    &&& forall|r: int, f: int|
        0 <= r < data.height() ==> (#[trigger] data.cell(r, f) matches Some(v) ==> !v.nan())
    &&& forall|r: int, s: int, f: int|
        #![trigger data.cell(r, f), data.cell(s, f)]
        0 <= r < data.height() && 0 <= s < data.height() && data.types()[f]
            == FeatureType::Categorical ==> (data.cell(r, f) matches Some(v) ==> (data.cell(
            s,
            f,
        ) matches Some(w) ==> (v.count(u32::MAX as int) as u32 == w.count(u32::MAX as int) as u32
            ==> v.same(w))))
}

/// A value of a column is that of some row.
proof fn column_values_are_cells(data: &DMatrix, f: u32, k: int) -> (r: int)
    requires
        data.height() <= u32::MAX,
        told_apart(data),
        0 <= k < column_values(data, f as int).len(),
    ensures
        0 <= r < data.height(),
        data.cell(r, f as int) == Some(column_values(data, f as int)[k]),
{
    let n = data.height();
    let pairs = data.column_prefix(f as int, n);
    rows_of_a_column(data, f as int, n);
    let r = pairs[k].0 as int;
    let v = pairs[k].1;
    assert(pairs[k].0 < n);
    columns_are_cells(data, n, r, f, v);
    assert(pairs[k] == (r as u32, v));
    r
}

/// A cell's value is one of its column.
proof fn cells_are_column_values(data: &DMatrix, r: int, f: u32) -> (k: int)
    requires
        data.height() <= u32::MAX,
        told_apart(data),
        0 <= r < data.height(),
        data.cell(r, f as int) is Some,
    ensures
        0 <= k < column_values(data, f as int).len(),
        data.cell(r, f as int) == Some(column_values(data, f as int)[k]),
{
    let n = data.height();
    let pairs = data.column_prefix(f as int, n);
    let v = data.cell(r, f as int)->0;
    columns_are_cells(data, n, r, f, v);
    let k = choose|k: int| 0 <= k < pairs.len() && pairs[k] == (r as u32, v);
    assert(values_of(pairs)[k] == v);
    k
}

proof fn values_are_numbers(data: &DMatrix, f: u32)
    requires
        data.well_formed(),
        data.height() <= u32::MAX,
        told_apart(data),
    ensures
        forall|i: int|
            0 <= i < column_values(data, f as int).len() ==> !(#[trigger] column_values(
                data,
                f as int,
            )[i]).nan(),
        column_values(data, f as int).len() <= data.height(),
{
    data.shape();
    columns_fit_the_rows(data, f as int, data.height());
    assert forall|i: int| 0 <= i < column_values(data, f as int).len() implies !(
    #[trigger] column_values(data, f as int)[i]).nan() by {
        let r = column_values_are_cells(data, f, i);
        assert(data.cell(r, f as int) is Some);
    }
}

proof fn values_are_told_by_their_bins<F: Fn(Op, u64, u64) -> u64>(
    data: &DMatrix,
    ghist: &GHistIndex,
    max_bin: int,
    weights: Option<Seq<Single>>,
    r: int,
    f: u32,
    calc: &Calc<F>,
)
    requires
        growable(data),
        told_apart(data),
        is_binned(ghist, data, max_bin, weights, calc),
        0 <= r < data.height(),
        f < data.width(),
        data.cell(r, f as int) is Some,
    ensures
        told_by_its_bin(&ghist.table(), f as int, data.cell(r, f as int)->0),
{
    let cuts = ghist.table();
    let v = data.cell(r, f as int)->0;
    data.shape();
    if cuts.categorical(f as int) {
        let vals = column_values(data, f as int);
        let k = cells_are_column_values(data, r, f);
        values_are_numbers(data, f);
        category_cuts_are_values(vals);
        assert(cuts.cuts_of(f as int) == category_cuts(vals));
        let i = choose|i: int|
            0 <= i < category_cuts(vals).len() && (#[trigger] category_cuts(vals)[i]).same(vals[k]);
        assert(cuts.cuts_of(f as int)[i].same(v));
    }
}

proof fn binned_categories_differ<F: Fn(Op, u64, u64) -> u64>(
    data: &DMatrix,
    ghist: &GHistIndex,
    max_bin: int,
    weights: Option<Seq<Single>>,
    f: u32,
    calc: &Calc<F>,
)
    requires
        growable(data),
        told_apart(data),
        is_binned(ghist, data, max_bin, weights, calc),
        f < data.width(),
        ghist.table().categorical(f as int),
    ensures
        categories_differ(&ghist.table(), f as int),
{
    let cuts = ghist.table();
    let vals = column_values(data, f as int);
    let own = cuts.cuts_of(f as int);
    let fs = cuts.start(f as int);
    data.shape();
    ghist.shape();
    cuts.layout(f as int);
    assert(own == category_cuts(vals));
    values_are_numbers(data, f);
    if vals.len() > 0 {
        category_cuts_are_values(vals);
        assert forall|x: int, y: int| fs <= x < y < cuts.start(f + 1) implies (
        #[trigger] cuts.cuts()[x]).count(u32::MAX as int) as u32 != (
        #[trigger] cuts.cuts()[y]).count(u32::MAX as int) as u32 by {
            let a = x - fs;
            let b = y - fs;
            assert(own[a] == cuts.cuts()[x] && own[b] == cuts.cuts()[y]);
            assert(vals.contains(own[a]) && vals.contains(own[b]));
            let i = choose|i: int| 0 <= i < vals.len() && vals[i] == own[a];
            let j = choose|j: int| 0 <= j < vals.len() && vals[j] == own[b];
            let r = column_values_are_cells(data, f, i);
            let s = column_values_are_cells(data, f, j);
            assert(data.cell(r, f as int) == Some(own[a]));
            assert(data.cell(s, f as int) == Some(own[b]));
            assert(own[a].place() < own[b].place());
        }
    }
}

/// A dataset that is binned by its own cuts can be told from its bins.
pub proof fn binned_datasets_are_told_by_their_bins<F: Fn(Op, u64, u64) -> u64>(
    data: &DMatrix,
    ghist: &GHistIndex,
    max_bin: int,
    weights: Option<Seq<Single>>,
    calc: &Calc<F>,
)
    requires
        growable(data),
        told_apart(data),
        is_binned(ghist, data, max_bin, weights, calc),
    ensures
        forall|r: int| 0 <= r < data.height() ==> #[trigger] row_is_binned(data, ghist, r),
        forall|f: int| #[trigger]
            ghist.table().categorical(f) ==> categories_differ(&ghist.table(), f),
{
    let cuts = ghist.table();
    assert forall|r: int| 0 <= r < data.height() implies #[trigger] row_is_binned(
        data,
        ghist,
        r,
    ) by {
        assert(data.readable_row(r));
        assert(ghist.row_bins(r) == binned(data.entries(r), &cuts));
        assert(distinct_columns(data.stored(r)));
        assert forall|f: int| 0 <= f < cuts.features() implies (#[trigger] data.cell(r, f) matches
            Some(v) ==> told_by_its_bin(&cuts, f, v)) by {
            if data.cell(r, f) is Some {
                values_are_told_by_their_bins(data, ghist, max_bin, weights, r, f as u32, calc);
            }
        }
    }
    assert forall|f: int| #[trigger] cuts.categorical(f) implies categories_differ(&cuts, f) by {
        cuts.no_bins_beyond(f);
        binned_categories_differ(data, ghist, max_bin, weights, f as u32, calc);
    }
}

/// Whether no feature is constrained.
pub open spec fn weights_are_free(params: TrainingParams) -> bool {
    forall|f: int| 0 <= f < directions_of(params).len() ==> #[trigger] directions_of(params)[f] == 0
}

/// Where nothing is rounded, every node of a tree that may be grown has the cover,
/// and every leaf the weight, of the rows that pass it.
pub proof fn grown_trees_add_up<F: Fn(Op, u64, u64) -> u64>(
    prepared: &Prepared,
    params: TrainingParams,
    data: &DMatrix,
    gp: Seq<GradPair>,
    rows: Seq<u32>,
    sampling: Sampling,
    tree: &RegTree,
    i: int,
    val: spec_fn(Wide) -> Option<real>,
    calc: &Calc<F>,
)
    requires
        adds_exactly(val, calc),
        singles_halve(val, calc),
        growable(data),
        told_apart(data),
        gp.len() == data.height(),
        rows.no_duplicates(),
        forall|k: int| 0 <= k < rows.len() ==> #[trigger] rows[k] < data.height(),
        prepared.fits(params, data, calc),
        prepared.may_grow(params, data, gp, rows, sampling, tree, calc),
        thresholds_stand(tree.node_list(), val, calc),
        0 <= i < tree.node_list().len(),
    ensures
        node_adds_up(
            tree.node_list(),
            tree.category_list(),
            i,
            data,
            gp,
            rows,
            weights_are_free(params),
            RegParams::of(&params),
            val,
            calc,
        ),
{
    let reg = RegParams::of(&params);
    data.shape();
    match *prepared {
        Prepared::Exact(cols) => {
            let cons = choose|cons: MonotoneConstraints| #[trigger]
                exact_tree(params, cons, &cols, data, gp, rows, sampling, tree, calc);
            let st = Setting {
                cols,
                types: data.types(),
                gp,
                cons,
                reg,
                gamma: params.gamma,
                groups: groups_view(params.interaction_constraints@),
            };
            let levels = level_limit(params.max_depth);
            let g = last_stage(
                st,
                data,
                first_stage(gp, rows, data.height(), sampling, calc),
                levels,
                calc,
            ).g;
            let nodes = tree.node_list();
            assert forall|c: int| 0 <= c < data.width() implies sortable(
                values_of(#[trigger] data.column_prefix(c, data.height())),
            ) by {
                assert(sortable(column_values(data, c)));
            }
            sorted_columns_list(&cols, data);
            assert forall|k: int|
                0 <= k < g.nodes.len() && !(#[trigger] g.nodes[k]).leafy()
                    && !g.nodes[k].is_categorical implies val(
                calc.widened(g.nodes[k].split_cond),
            ) is Some by {
                assert(nodes[k] == g.nodes[k]);
            }
            growth_over_values_adds_up(st, data, rows, sampling, levels, i, val, calc);
            free_directions_are_inactive(params, cons);
        },
        Prepared::Hist(ghist) => {
            let (cons, run) = choose|cons: MonotoneConstraints, run: Seq<Step>| #[trigger]
                hist_tree(params, cons, &ghist, gp, rows, sampling, run, tree, calc);
            binned_datasets_are_told_by_their_bins(
                data,
                &ghist,
                params.max_bin as int,
                None,
                calc,
            );
            binned_trees_add_up(
                params,
                cons,
                &ghist,
                data,
                gp,
                rows,
                sampling,
                run,
                tree,
                i,
                val,
                calc,
            );
        },
        Prepared::Approx => {
            let (cons, ghist, run) = choose|
                cons: MonotoneConstraints,
                ghist: GHistIndex,
                run: Seq<Step>,
            |
                is_binned(&ghist, data, params.max_bin as int, Some(hessians(gp)), calc)
                    && #[trigger] hist_tree(
                    params,
                    cons,
                    &ghist,
                    gp,
                    rows,
                    sampling,
                    run,
                    tree,
                    calc,
                );
            binned_datasets_are_told_by_their_bins(
                data,
                &ghist,
                params.max_bin as int,
                Some(hessians(gp)),
                calc,
            );
            binned_trees_add_up(
                params,
                cons,
                &ghist,
                data,
                gp,
                rows,
                sampling,
                run,
                tree,
                i,
                val,
                calc,
            );
        },
    }
}

proof fn free_directions_are_inactive(params: TrainingParams, cons: MonotoneConstraints)
    requires
        cons.directions() == directions_of(params),
    ensures
        weights_are_free(params) <==> !cons.active(),
{
}

proof fn binned_trees_add_up<F: Fn(Op, u64, u64) -> u64>(
    params: TrainingParams,
    cons: MonotoneConstraints,
    ghist: &GHistIndex,
    data: &DMatrix,
    gp: Seq<GradPair>,
    rows: Seq<u32>,
    sampling: Sampling,
    run: Seq<Step>,
    tree: &RegTree,
    i: int,
    val: spec_fn(Wide) -> Option<real>,
    calc: &Calc<F>,
)
    requires
        adds_exactly(val, calc),
        data.well_formed(),
        data.height() <= u32::MAX,
        ghist.well_formed(),
        ghist.height() == data.height(),
        ghist.table().features() == data.width(),
        forall|r: int| 0 <= r < data.height() ==> #[trigger] row_is_binned(data, ghist, r),
        forall|f: int| #[trigger]
            ghist.table().categorical(f) ==> categories_differ(&ghist.table(), f),
        gp.len() == data.height(),
        rows.no_duplicates(),
        forall|k: int| 0 <= k < rows.len() ==> #[trigger] rows[k] < data.height(),
        hist_tree(params, cons, ghist, gp, rows, sampling, run, tree, calc),
        0 <= i < tree.node_list().len(),
    ensures
        node_adds_up(
            tree.node_list(),
            tree.category_list(),
            i,
            data,
            gp,
            rows,
            weights_are_free(params),
            RegParams::of(&params),
            val,
            calc,
        ),
{
    let plan = plan_of(params, cons, ghist, gp);
    assert(plan_fits(plan, data, rows));
    growth_over_bins_adds_up(plan, data, rows, sampling, run, i, val, calc);
    free_directions_are_inactive(params, cons);
}

/// Whether statistics are the sums over the rows that pass a node of a trained tree,
/// and the node has their cover, and if it is a leaf and weights are free their
/// weight, shrunk by the learning rate.
pub open spec fn belongs_to_trained_node<F: Fn(Op, u64, u64) -> u64>(
    stats: GradStats,
    tree: &RegTree,
    i: int,
    data: &DMatrix,
    gp: Seq<GradPair>,
    rows: Seq<u32>,
    params: TrainingParams,
    val: spec_fn(Wide) -> Option<real>,
    calc: &Calc<F>,
) -> bool {
    let node = tree.node_list()[i];
    let there = passing(tree.node_list(), tree.category_list(), data, rows, i);
    &&& adds_up(stats, gp, there, val, calc)
    &&& node.sum_hess == calc.narrowed(stats.hess)
    &&& node.leafy() && weights_are_free(params) ==> node.leaf_value == calc.times_s(
        calc.narrowed(weight(stats, RegParams::of(&params), calc)),
        calc.narrowed(params.eta),
    )
}

/// Whether a node of a trained tree has the cover, and if it is a leaf and weights
/// are free the weight, shrunk by the learning rate, of the rows that pass it.
pub open spec fn trained_node_adds_up<F: Fn(Op, u64, u64) -> u64>(
    tree: &RegTree,
    i: int,
    data: &DMatrix,
    gp: Seq<GradPair>,
    rows: Seq<u32>,
    params: TrainingParams,
    val: spec_fn(Wide) -> Option<real>,
    calc: &Calc<F>,
) -> bool {
    exists|stats: GradStats| #[trigger]
        belongs_to_trained_node(stats, tree, i, data, gp, rows, params, val, calc)
}

proof fn scaled_ways<F: Fn(Op, u64, u64) -> u64>(
    tree: &RegTree,
    raw: &RegTree,
    factor: Single,
    row: spec_fn(u32) -> Option<Single>,
    from: int,
    n: nat,
    calc: &Calc<F>,
)
    requires
        is_scaled(tree, raw, factor, calc),
        ordered(raw.node_list(), raw.category_list()),
        0 <= from < raw.node_list().len(),
    ensures
        route(tree.node_list(), tree.category_list(), row, from, n) == route(
            raw.node_list(),
            raw.category_list(),
            row,
            from,
            n,
        ),
    decreases n,
{
    let nodes = tree.node_list();
    let old = raw.node_list();
    assert(nodes[from].leafy() == old[from].leafy());
    if n > 0 && !old[from].leafy() {
        assert(nodes[from] == old[from]);
        let next = next_node(old, raw.category_list(), from, row(old[from].split_feature));
        scaled_ways(tree, raw, factor, row, next, (n - 1) as nat, calc);
    }
}

proof fn scaled_nodes_add_up<F: Fn(Op, u64, u64) -> u64>(
    tree: &RegTree,
    raw: &RegTree,
    i: int,
    data: &DMatrix,
    gp: Seq<GradPair>,
    rows: Seq<u32>,
    params: TrainingParams,
    val: spec_fn(Wide) -> Option<real>,
    calc: &Calc<F>,
)
    requires
        is_scaled(tree, raw, calc.narrowed(params.eta), calc),
        ordered(raw.node_list(), raw.category_list()),
        0 <= i < raw.node_list().len(),
        node_adds_up(
            raw.node_list(),
            raw.category_list(),
            i,
            data,
            gp,
            rows,
            weights_are_free(params),
            RegParams::of(&params),
            val,
            calc,
        ),
    ensures
        trained_node_adds_up(tree, i, data, gp, rows, params, val, calc),
{
    let nodes = raw.node_list();
    let cats = raw.category_list();
    let scaled = tree.node_list();
    let reg = RegParams::of(&params);
    let eta = calc.narrowed(params.eta);
    let was = passing(nodes, cats, data, rows, i);
    let now = passing(scaled, cats, data, rows, i);
    assert forall|x: int| 0 <= x < gp.len() implies #[trigger] now(x) == was(x) by {
        let row = row_of(data, x);
        if passes(nodes, cats, row, 0, i) {
            let n = choose|n: nat| #[trigger] route(nodes, cats, row, 0, n) == i;
            scaled_ways(tree, raw, eta, row, 0, n, calc);
            assert(route(scaled, cats, row, 0, n) == i);
        }
        if passes(scaled, cats, row, 0, i) {
            let n = choose|n: nat| #[trigger] route(scaled, cats, row, 0, n) == i;
            scaled_ways(tree, raw, eta, row, 0, n, calc);
            assert(route(nodes, cats, row, 0, n) == i);
        }
    }
    let free = weights_are_free(params);
    let stats = choose|stats: GradStats| #[trigger]
        belongs_to_node(stats, nodes, cats, i, data, gp, rows, free, reg, val, calc);
    same_rows_add_up(stats, gp, was, now, val, calc);
    assert(scaled[i].sum_hess == nodes[i].sum_hess);
    assert(scaled[i].leafy() == nodes[i].leafy());
    assert(belongs_to_trained_node(stats, tree, i, data, gp, rows, params, val, calc));
}

/// Where nothing is rounded, every node of every tree of a trained model has the
/// cover, and every leaf the weight, shrunk by the learning rate, of the rows that
/// the tree was fit to and that pass it.
pub proof fn trained_trees_add_up<F: Fn(Op, u64, u64) -> u64, O: Objective<F>>(
    params: TrainingParams,
    data: &DMatrix,
    prepared: &Prepared,
    o: &O,
    base: Single,
    trees: Seq<RegTree>,
    k: int,
    rounds: int,
    t: int,
    i: int,
    val: spec_fn(Wide) -> Option<real>,
    calc: &Calc<F>,
)
    requires
        adds_exactly(val, calc),
        singles_halve(val, calc),
        growable(data),
        told_apart(data),
        prepared.fits(params, data, calc),
        boosted(params, data, prepared, o, base, trees, k, rounds, calc),
        0 < k,
        0 <= t < rounds * k,
        forall|j: int|
            0 <= j < rows_in(params, data.height(), k, t / k, calc).len() ==> #[trigger] rows_in(
                params,
                data.height(),
                k,
                t / k,
                calc,
            )[j] < data.height(),
        ordered(trees[t].node_list(), trees[t].category_list()),
        thresholds_stand(trees[t].node_list(), val, calc),
        0 <= i < trees[t].node_list().len(),
    ensures
        trained_node_adds_up(
            &trees[t],
            i,
            data,
            output_slice(
                gradients_at(
                    o,
                    data,
                    margins_in(params, data, base, trees, k, t / k, calc),
                    calc,
                ),
                k,
                t % k,
                data.height(),
            ),
            rows_in(params, data.height(), k, t / k, calc),
            params,
            val,
            calc,
        ),
{
    data.shape();
    place_entry(rounds, k, t);
    let r = t / k;
    let out = t % k;
    assert(fitted(params, data, prepared, o, base, trees, k, r, out, calc));
    let gp = gradients_at(o, data, margins_in(params, data, base, trees, k, r, calc), calc);
    let part = output_slice(gp, k, out, data.height());
    let rows = rows_in(params, data.height(), k, r, calc);
    let sampling = sampling_in(params, data.height(), data.width(), k, r, out, calc);
    let eta = calc.narrowed(params.eta);
    let raw = choose|raw: RegTree|
        #![trigger is_scaled(&trees[t], &raw, eta, calc)]
        is_scaled(&trees[t], &raw, eta, calc) && prepared.may_grow(
            params,
            data,
            part,
            rows,
            sampling,
            &raw,
            calc,
        );
    let nodes = raw.node_list();
    let cats = raw.category_list();
    let scaled = trees[t].node_list();
    assert(thresholds_stand(nodes, val, calc)) by {
        assert forall|j: int|
            0 <= j < nodes.len() && !(#[trigger] nodes[j]).leafy()
                && !nodes[j].is_categorical implies val(calc.widened(nodes[j].split_cond)) is Some by {
            assert(scaled[j] == nodes[j]);
        }
    }
    assert(ordered(nodes, cats)) by {
        assert forall|j: int|
            #![trigger nodes[j]]
            0 <= j < nodes.len() && !nodes[j].leafy() implies {
            &&& j < nodes[j].left < nodes.len()
            &&& j < nodes[j].right < nodes.len()
            &&& nodes[j].is_categorical ==> nodes[j].cat_begin <= nodes[j].cat_end <= cats.len()
        } by {
            assert(scaled[j] == nodes[j]);
        }
    }
    round_rows_are_distinct(
        seed_of(params, r),
        requests_in(params, k, r, calc),
        params.subsample,
        data.height(),
        calc,
    );
    grown_trees_add_up(
        prepared,
        params,
        data,
        part,
        rows,
        sampling,
        &raw,
        i,
        val,
        calc,
    );
    scaled_nodes_add_up(&trees[t], &raw, i, data, part, rows, params, val, calc);
}

} // verus!
