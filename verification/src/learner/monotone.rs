//! Constrained models predict in the asked order.

use vstd::prelude::*;

use crate::arith::{Calc, Op};
use crate::config::TrainingParams;
use crate::data::dmatrix::DMatrix;
use crate::data::ghist::GHistIndex;
use crate::layout::{entry_place, place_entry};
use crate::learner::boost::{
    boosted, fitted, gradients_at, is_scaled, margins_in, output_slice, rows_in, sampling_in,
    scaled_nodes,
};
use crate::learner::margin::{margins_fill_the_table, margins_of, tree_value};
use crate::learner::prepare::{
    directions_of, exact_tree, hessians, hist_tree, is_binned, plan_of, Prepared,
};
use crate::number::{Single, ONE_S};
use crate::objective::base::Objective;
use crate::objective::pair::GradPair;
use crate::tree::builder::exact::{first_stage, last_stage, level_limit, Setting, SortedColumns};
use crate::tree::builder::growth::Grown;
use crate::tree::builder::hist::Step;
use crate::tree::builder::monotone::{rises_in, split_by_threshold};
use crate::tree::builder::monotone_growth::{
    exact_growth_keeps_intervals_open, exact_growth_parts_intervals, halves_between,
    hist_growth_keeps_intervals_open, hist_growth_parts_intervals, intervals_part,
    intervals_stay_open, narrows_in_order, parted_growth_is_monotone, sound_growth,
};
use crate::tree::constraints::MonotoneConstraints;
use crate::tree::gain::RegParams;
use crate::tree::interaction::groups_view;
use crate::tree::regtree::{route, settles, Node, RegTree};
use crate::tree::sampler::Sampling;

verus! {

/// The growth that exact search comes to.
pub open spec fn exact_growth<F: Fn(Op, u64, u64) -> u64>(
    params: TrainingParams,
    cons: MonotoneConstraints,
    cols: &SortedColumns,
    data: &DMatrix,
    gp: Seq<GradPair>,
    rows: Seq<u32>,
    sampling: Sampling,
    calc: &Calc<F>,
) -> Grown {
    last_stage(
        Setting {
            cols: *cols,
            types: data.types(),
            gp,
            cons,
            reg: RegParams::of(&params),
            gamma: params.gamma,
            groups: groups_view(params.interaction_constraints@),
        },
        data,
        first_stage(gp, rows, data.height(), sampling, calc),
        level_limit(params.max_depth),
        calc,
    ).g
}

/// Whether the best weights of all nodes that may be grown from the given gradients
/// and rows are in range.
pub open spec fn grows_soundly<F: Fn(Op, u64, u64) -> u64>(
    prepared: &Prepared,
    params: TrainingParams,
    data: &DMatrix,
    gp: Seq<GradPair>,
    rows: Seq<u32>,
    sampling: Sampling,
    calc: &Calc<F>,
) -> bool {
    let reg = RegParams::of(&params);
    match *prepared {
        Prepared::Exact(cols) => forall|cons: MonotoneConstraints|
            cons.directions() == directions_of(params) ==> sound_growth(
                #[trigger] exact_growth(params, cons, &cols, data, gp, rows, sampling, calc),
                reg,
                calc,
            ),
        Prepared::Hist(ghist) => forall|
            cons: MonotoneConstraints,
            run: Seq<Step>,
            tree: RegTree,
        | #[trigger]
            hist_tree(params, cons, &ghist, gp, rows, sampling, run, &tree, calc)
                ==> sound_growth(run.last().g, reg, calc),
        Prepared::Approx => forall|
            cons: MonotoneConstraints,
            ghist: GHistIndex,
            run: Seq<Step>,
            tree: RegTree,
        |
            is_binned(&ghist, data, params.max_bin as int, Some(hessians(gp)), calc)
                && #[trigger] hist_tree(
                params,
                cons,
                &ghist,
                gp,
                rows,
                sampling,
                run,
                &tree,
                calc,
            ) ==> sound_growth(run.last().g, reg, calc),
    }
}

/// The direction that the parameters give a feature.
pub open spec fn direction_in(params: TrainingParams, f: int) -> int {
    if 0 <= f < directions_of(params).len() { directions_of(params)[f] as int } else { 0 }
}

/// The value that a tree gives a row.
pub open spec fn value_for(tree: &RegTree, row: spec_fn(u32) -> Option<Single>) -> Single {
    tree.node_list()[tree.leaf_of(row)].leaf_value
}

/// Whether two values are in the order that a direction asks for.
pub open spec fn in_direction(dir: int, a: Single, b: Single) -> bool {
    &&& dir > 0 ==> a.le(b)
    &&& dir < 0 ==> b.le(a)
}

/// Raising a constrained feature of a row moves the value of every tree that
/// may be grown in the asked direction, or not at all.
pub proof fn grown_trees_are_monotone<F: Fn(Op, u64, u64) -> u64>(
    prepared: &Prepared,
    params: TrainingParams,
    data: &DMatrix,
    gp: Seq<GradPair>,
    rows: Seq<u32>,
    sampling: Sampling,
    tree: &RegTree,
    x: spec_fn(u32) -> Option<Single>,
    y: spec_fn(u32) -> Option<Single>,
    f: u32,
    calc: &Calc<F>,
)
    requires
        prepared.may_grow(params, data, gp, rows, sampling, tree, calc),
        grows_soundly(prepared, params, data, gp, rows, sampling, calc),
        tree.sound(),
        split_by_threshold(tree.node_list(), f),
        rises_in(x, y, f),
        direction_in(params, f as int) != 0,
        halves_between(calc),
        narrows_in_order(calc),
    ensures
        in_direction(direction_in(params, f as int), value_for(tree, x), value_for(tree, y)),
{
    let reg = RegParams::of(&params);
    match *prepared {
        Prepared::Exact(cols) => {
            let cons = choose|cons: MonotoneConstraints| #[trigger]
                exact_tree(params, cons, &cols, data, gp, rows, sampling, tree, calc);
            let st = Setting {
                cols,
                types: data.types(),
                gp,
                cons,
                reg,
                gamma: params.gamma,
                groups: groups_view(params.interaction_constraints@),
            };
            let g = exact_growth(params, cons, &cols, data, gp, rows, sampling, calc);
            exact_growth_parts_intervals(
                st,
                data,
                first_stage(gp, rows, data.height(), sampling, calc),
                level_limit(params.max_depth),
                calc,
            );
            assert(cons.directions()[f as int] != 0);
            exact_growth_keeps_intervals_open(
                st,
                data,
                first_stage(gp, rows, data.height(), sampling, calc),
                level_limit(params.max_depth),
                calc,
            );
            settled_trees_are_monotone(g, cons, reg, tree, x, y, f, calc);
        },
        Prepared::Hist(ghist) => {
            let (cons, run) = choose|cons: MonotoneConstraints, run: Seq<Step>| #[trigger]
                hist_tree(params, cons, &ghist, gp, rows, sampling, run, tree, calc);
            hist_growth_parts_intervals(
                plan_of(params, cons, &ghist, gp),
                rows,
                sampling,
                run,
                run.len() - 1,
                calc,
            );
            hist_growth_keeps_intervals_open(
                plan_of(params, cons, &ghist, gp),
                rows,
                sampling,
                run,
                run.len() - 1,
                calc,
            );
            settled_trees_are_monotone(run.last().g, cons, reg, tree, x, y, f, calc);
        },
        Prepared::Approx => {
            let (cons, ghist, run) = choose|
                cons: MonotoneConstraints,
                ghist: GHistIndex,
                run: Seq<Step>,
            |
                is_binned(&ghist, data, params.max_bin as int, Some(hessians(gp)), calc)
                    && #[trigger] hist_tree(
                    params,
                    cons,
                    &ghist,
                    gp,
                    rows,
                    sampling,
                    run,
                    tree,
                    calc,
                );
            hist_growth_parts_intervals(
                plan_of(params, cons, &ghist, gp),
                rows,
                sampling,
                run,
                run.len() - 1,
                calc,
            );
            hist_growth_keeps_intervals_open(
                plan_of(params, cons, &ghist, gp),
                rows,
                sampling,
                run,
                run.len() - 1,
                calc,
            );
            settled_trees_are_monotone(run.last().g, cons, reg, tree, x, y, f, calc);
        },
    }
}

proof fn settled_trees_are_monotone<F: Fn(Op, u64, u64) -> u64>(
    g: Grown,
    cons: MonotoneConstraints,
    reg: RegParams,
    tree: &RegTree,
    x: spec_fn(u32) -> Option<Single>,
    y: spec_fn(u32) -> Option<Single>,
    f: u32,
    calc: &Calc<F>,
)
    requires
        intervals_part(g, cons),
        intervals_stay_open(g, reg, calc),
        sound_growth(g, reg, calc),
        tree.node_list() == g.settled(reg, g.nodes.len() as int, calc),
        tree.category_list() == g.cats,
        tree.sound(),
        split_by_threshold(tree.node_list(), f),
        rises_in(x, y, f),
        cons.direction(f as int) != 0,
        narrows_in_order(calc),
    ensures
        in_direction(cons.direction(f as int) as int, value_for(tree, x), value_for(tree, y)),
{
    let nodes = tree.node_list();
    assert forall|i: int|
        0 <= i < g.nodes.len() && !(#[trigger] g.nodes[i]).leafy() && g.nodes[i].split_feature
            == f implies !g.nodes[i].is_categorical by {
        assert(nodes[i] == g.nodes[i]);
    }
    parted_growth_is_monotone(g, cons, reg, x, y, f, nodes.len(), calc);
}

/// Whether multiplying by a factor keeps the order of numbers.
pub open spec fn scales_in_order<F: Fn(Op, u64, u64) -> u64>(
    factor: Single,
    calc: &Calc<F>,
) -> bool {
    forall|a: Single, b: Single|
        #![trigger calc.times_s(a, factor), calc.times_s(b, factor)]
        a.le(b) ==> calc.times_s(a, factor).le(calc.times_s(b, factor))
}

/// Whether sums that are numbers keep the order of their terms.
pub open spec fn adds_in_order<F: Fn(Op, u64, u64) -> u64>(calc: &Calc<F>) -> bool {
    forall|a: Single, b: Single, c: Single, d: Single|
        #![trigger calc.plus_s(a, c), calc.plus_s(b, d)]
        a.le(b) && c.le(d) && !calc.plus_s(a, c).nan() && !calc.plus_s(b, d).nan()
            ==> calc.plus_s(a, c).le(calc.plus_s(b, d))
}

proof fn scaling_keeps_routes<F: Fn(Op, u64, u64) -> u64>(
    nodes: Seq<Node>,
    cats: Seq<u32>,
    factor: Single,
    row: spec_fn(u32) -> Option<Single>,
    nid: int,
    fuel: nat,
    calc: &Calc<F>,
)
    requires
        settles(nodes, cats, nid, fuel),
    ensures
        route(scaled_nodes(nodes, factor, calc), cats, row, nid, fuel) == route(
            nodes,
            cats,
            row,
            nid,
            fuel,
        ),
        0 <= route(nodes, cats, row, nid, fuel) < nodes.len(),
        nodes[route(nodes, cats, row, nid, fuel)].leafy(),
    decreases fuel,
{
    let scaled = scaled_nodes(nodes, factor, calc);
    assert(scaled[nid].leafy() == nodes[nid].leafy());
    if !nodes[nid].leafy() {
        assert(scaled[nid] == nodes[nid]);
        let less = (fuel - 1) as nat;
        scaling_keeps_routes(nodes, cats, factor, row, nodes[nid].left as int, less, calc);
        scaling_keeps_routes(nodes, cats, factor, row, nodes[nid].right as int, less, calc);
    }
}

proof fn scaled_trees_are_monotone<F: Fn(Op, u64, u64) -> u64>(
    tree: &RegTree,
    raw: &RegTree,
    factor: Single,
    dir: int,
    x: spec_fn(u32) -> Option<Single>,
    y: spec_fn(u32) -> Option<Single>,
    calc: &Calc<F>,
)
    requires
        is_scaled(tree, raw, factor, calc),
        raw.sound(),
        scales_in_order(factor, calc),
        in_direction(dir, value_for(raw, x), value_for(raw, y)),
    ensures
        in_direction(dir, value_for(tree, x), value_for(tree, y)),
{
    let nodes = raw.node_list();
    let cats = raw.category_list();
    scaling_keeps_routes(nodes, cats, factor, x, 0, nodes.len(), calc);
    scaling_keeps_routes(nodes, cats, factor, y, 0, nodes.len(), calc);
    let lx = raw.leaf_of(x);
    let ly = raw.leaf_of(y);
    let scaled = scaled_nodes(nodes, factor, calc);
    assert(scaled[lx].leaf_value == calc.times_s(nodes[lx].leaf_value, factor));
    assert(scaled[ly].leaf_value == calc.times_s(nodes[ly].leaf_value, factor));
}

/// Where every tree orders two rows, so do the sums of their values.
pub proof fn ordered_trees_order_margins<F: Fn(Op, u64, u64) -> u64>(
    trees: Seq<RegTree>,
    weights: Seq<Single>,
    data: &DMatrix,
    base: Single,
    k: int,
    n: int,
    low: int,
    high: int,
    c: int,
    calc: &Calc<F>,
)
    requires
        0 <= n,
        0 <= c < k,
        0 <= low < data.height(),
        0 <= high < data.height(),
        data.margin_list() is None,
        !base.nan(),
        forall|t: int| 0 <= t < n ==> #[trigger] weights[t] == (Single { bits: ONE_S }),
        forall|t: int|
            0 <= t < n ==> tree_value(#[trigger] &trees[t], data, low).le(
                tree_value(&trees[t], data, high),
            ),
        forall|m: int|
            0 <= m <= n ==> {
                let sums = #[trigger] margins_of(
                    trees,
                    weights,
                    Seq::empty(),
                    data,
                    base,
                    k,
                    m,
                    calc,
                );
                !sums[low * k + c].nan() && !sums[high * k + c].nan()
            },
        adds_in_order(calc),
    ensures
        margins_of(trees, weights, Seq::empty(), data, base, k, n, calc)[low * k + c].le(
            margins_of(trees, weights, Seq::empty(), data, base, k, n, calc)[high * k + c],
        ),
    decreases n,
{
    entry_place(data.height(), k, low, c);
    entry_place(data.height(), k, high, c);
    if n > 0 {
        ordered_trees_order_margins(
            trees,
            weights,
            data,
            base,
            k,
            n - 1,
            low,
            high,
            c,
            calc,
        );
        let rest = margins_of(trees, weights, Seq::empty(), data, base, k, n - 1, calc);
        let sums = margins_of(trees, weights, Seq::empty(), data, base, k, n, calc);
        margins_fill_the_table(
            trees,
            weights,
            Seq::empty(),
            data,
            base,
            k,
            n - 1,
            calc,
        );
        assert(weights[n - 1] == (Single { bits: ONE_S }));
        assert(tree_value(&trees[n - 1], data, low).le(tree_value(&trees[n - 1], data, high)));
        assert(!sums[low * k + c].nan() && !sums[high * k + c].nan());
        if (n - 1) % k == c {
            assert(sums[low * k + c] == calc.plus_s(
                rest[low * k + c],
                tree_value(&trees[n - 1], data, low),
            ));
            assert(sums[high * k + c] == calc.plus_s(
                rest[high * k + c],
                tree_value(&trees[n - 1], data, high),
            ));
        }
    }
}

/// Raising a constrained feature of a row moves the value of every tree of a
/// trained model in the asked direction, or not at all.
pub proof fn trained_trees_are_monotone<F: Fn(Op, u64, u64) -> u64, O: Objective<F>>(
    params: TrainingParams,
    data: &DMatrix,
    prepared: &Prepared,
    o: &O,
    base: Single,
    trees: Seq<RegTree>,
    k: int,
    rounds: int,
    t: int,
    x: spec_fn(u32) -> Option<Single>,
    y: spec_fn(u32) -> Option<Single>,
    f: u32,
    calc: &Calc<F>,
)
    requires
        boosted(params, data, prepared, o, base, trees, k, rounds, calc),
        0 < k,
        0 <= t < rounds * k,
        trees[t].sound(),
        split_by_threshold(trees[t].node_list(), f),
        grows_soundly(
            prepared,
            params,
            data,
            output_slice(
                gradients_at(
                    o,
                    data,
                    margins_in(params, data, base, trees, k, t / k, calc),
                    calc,
                ),
                k,
                t % k,
                data.height(),
            ),
            rows_in(params, data.height(), k, t / k, calc),
            sampling_in(params, data.height(), data.width(), k, t / k, t % k, calc),
            calc,
        ),
        rises_in(x, y, f),
        direction_in(params, f as int) != 0,
        halves_between(calc),
        narrows_in_order(calc),
        scales_in_order(calc.narrowed(params.eta), calc),
    ensures
        in_direction(
            direction_in(params, f as int),
            value_for(&trees[t], x),
            value_for(&trees[t], y),
        ),
{
    place_entry(rounds, k, t);
    let r = t / k;
    let out = t % k;
    assert(fitted(params, data, prepared, o, base, trees, k, r, out, calc));
    let gp = gradients_at(o, data, margins_in(params, data, base, trees, k, r, calc), calc);
    let part = output_slice(gp, k, out, data.height());
    let rows = rows_in(params, data.height(), k, r, calc);
    let sampling = sampling_in(params, data.height(), data.width(), k, r, out, calc);
    let eta = calc.narrowed(params.eta);
    let raw = choose|raw: RegTree|
        #![trigger is_scaled(&trees[t], &raw, eta, calc)]
        is_scaled(&trees[t], &raw, eta, calc) && prepared.may_grow(
            params,
            data,
            part,
            rows,
            sampling,
            &raw,
            calc,
        );
    let nodes = raw.node_list();
    let scaled = trees[t].node_list();
    unscaled_trees_settle(nodes, raw.category_list(), eta, 0, nodes.len(), calc);
    assert forall|i: int|
        0 <= i < nodes.len() && !(#[trigger] nodes[i]).leafy() && nodes[i].split_feature
            == f implies !nodes[i].is_categorical by {
        assert(scaled[i] == nodes[i]);
    }
    grown_trees_are_monotone(
        prepared,
        params,
        data,
        part,
        rows,
        sampling,
        &raw,
        x,
        y,
        f,
        calc,
    );
    scaled_trees_are_monotone(
        &trees[t],
        &raw,
        eta,
        direction_in(params, f as int),
        x,
        y,
        calc,
    );
}

pub(crate) proof fn unscaled_trees_settle<F: Fn(Op, u64, u64) -> u64>(
    nodes: Seq<Node>,
    cats: Seq<u32>,
    factor: Single,
    nid: int,
    fuel: nat,
    calc: &Calc<F>,
)
    requires
        settles(scaled_nodes(nodes, factor, calc), cats, nid, fuel),
    ensures
        settles(nodes, cats, nid, fuel),
    decreases fuel,
{
    let scaled = scaled_nodes(nodes, factor, calc);
    assert(scaled[nid].leafy() == nodes[nid].leafy());
    if !nodes[nid].leafy() {
        assert(scaled[nid] == nodes[nid]);
        let less = (fuel - 1) as nat;
        unscaled_trees_settle(nodes, cats, factor, nodes[nid].left as int, less, calc);
        unscaled_trees_settle(nodes, cats, factor, nodes[nid].right as int, less, calc);
    }
}

} // verus!
