//! Constrained models split each row's ways by features that may interact.

use vstd::prelude::*;

use crate::arith::{Calc, Op};
use crate::config::TrainingParams;
use crate::data::dmatrix::DMatrix;
use crate::data::ghist::GHistIndex;
use crate::layout::place_entry;
use crate::learner::boost::{
    boosted, fitted, gradients_at, is_scaled, margins_in, output_slice, rows_in, sampling_in,
    scaled_nodes,
};
use crate::learner::monotone::unscaled_trees_settle;
use crate::learner::prepare::{exact_tree, hessians, hist_tree, is_binned, plan_of, Prepared};
use crate::number::Single;
use crate::objective::base::Objective;
use crate::objective::pair::GradPair;
use crate::tree::builder::exact::{first_stage, last_stage, level_limit, Setting};
use crate::tree::builder::hist::Step;
use crate::tree::builder::interaction_growth::{
    exact_growth_keeps_groups, hist_growth_keeps_groups, paths_hold, way_down,
    ways_stand_together,
};
use crate::tree::constraints::MonotoneConstraints;
use crate::tree::gain::RegParams;
use crate::tree::interaction::{groups_view, stand_together};
use crate::tree::regtree::{next_node, settles, Node, RegTree};
use crate::tree::sampler::Sampling;

verus! {

/// The features that a row's way down a tree is split by.
pub open spec fn way_of(tree: &RegTree, row: spec_fn(u32) -> Option<Single>) -> Seq<u32> {
    way_down(tree.node_list(), tree.category_list(), row, 0, tree.node_list().len())
}

/// Down every tree that may be grown, the features that a row's way is split by
/// are all the same or stand in one of the groups.
pub proof fn grown_trees_keep_groups<F: Fn(Op, u64, u64) -> u64>(
    prepared: &Prepared,
    params: TrainingParams,
    data: &DMatrix,
    gp: Seq<GradPair>,
    rows: Seq<u32>,
    sampling: Sampling,
    tree: &RegTree,
    row: spec_fn(u32) -> Option<Single>,
    calc: &Calc<F>,
)
    requires
        prepared.may_grow(params, data, gp, rows, sampling, tree, calc),
        tree.sound(),
    ensures
        stand_together(groups_view(params.interaction_constraints@), way_of(tree, row)),
{
    let reg = RegParams::of(&params);
    let groups = groups_view(params.interaction_constraints@);
    let n = tree.node_list().len();
    match *prepared {
        Prepared::Exact(cols) => {
            let cons = choose|cons: MonotoneConstraints| #[trigger]
                exact_tree(params, cons, &cols, data, gp, rows, sampling, tree, calc);
            let st = Setting {
                cols,
                types: data.types(),
                gp,
                cons,
                reg,
                gamma: params.gamma,
                groups,
            };
            let first = first_stage(gp, rows, data.height(), sampling, calc);
            let levels = level_limit(params.max_depth);
            assert(paths_hold(first.g, groups));
            exact_growth_keeps_groups(st, data, first, levels, calc);
            let g = last_stage(st, data, first, levels, calc).g;
            ways_stand_together(g, groups, reg, row, n, calc);
        },
        Prepared::Hist(ghist) => {
            let (cons, run) = choose|cons: MonotoneConstraints, run: Seq<Step>| #[trigger]
                hist_tree(params, cons, &ghist, gp, rows, sampling, run, tree, calc);
            hist_growth_keeps_groups(
                plan_of(params, cons, &ghist, gp),
                rows,
                sampling,
                run,
                calc,
            );
            ways_stand_together(run.last().g, groups, reg, row, n, calc);
        },
        Prepared::Approx => {
            let (cons, ghist, run) = choose|
                cons: MonotoneConstraints,
                ghist: GHistIndex,
                run: Seq<Step>,
            |
                is_binned(&ghist, data, params.max_bin as int, Some(hessians(gp)), calc)
                    && #[trigger] hist_tree(
                    params,
                    cons,
                    &ghist,
                    gp,
                    rows,
                    sampling,
                    run,
                    tree,
                    calc,
                );
            hist_growth_keeps_groups(
                plan_of(params, cons, &ghist, gp),
                rows,
                sampling,
                run,
                calc,
            );
            ways_stand_together(run.last().g, groups, reg, row, n, calc);
        },
    }
}

proof fn scaling_keeps_ways<F: Fn(Op, u64, u64) -> u64>(
    nodes: Seq<Node>,
    cats: Seq<u32>,
    factor: Single,
    row: spec_fn(u32) -> Option<Single>,
    nid: int,
    fuel: nat,
    calc: &Calc<F>,
)
    requires
        settles(nodes, cats, nid, fuel),
    ensures
        way_down(scaled_nodes(nodes, factor, calc), cats, row, nid, fuel) == way_down(
            nodes,
            cats,
            row,
            nid,
            fuel,
        ),
    decreases fuel,
{
    let scaled = scaled_nodes(nodes, factor, calc);
    assert(scaled[nid].leafy() == nodes[nid].leafy());
    if !nodes[nid].leafy() {
        assert(scaled[nid] == nodes[nid]);
        let next = next_node(nodes, cats, nid, row(nodes[nid].split_feature));
        scaling_keeps_ways(nodes, cats, factor, row, next, (fuel - 1) as nat, calc);
    }
}

/// Down every tree of a trained model, the features that a row's way is split
/// by are all the same or stand in one of the groups.
pub proof fn trained_trees_keep_groups<F: Fn(Op, u64, u64) -> u64, O: Objective<F>>(
    params: TrainingParams,
    data: &DMatrix,
    prepared: &Prepared,
    o: &O,
    base: Single,
    trees: Seq<RegTree>,
    k: int,
    rounds: int,
    t: int,
    row: spec_fn(u32) -> Option<Single>,
    calc: &Calc<F>,
)
    requires
        boosted(params, data, prepared, o, base, trees, k, rounds, calc),
        0 < k,
        0 <= t < rounds * k,
        trees[t].sound(),
    ensures
        stand_together(groups_view(params.interaction_constraints@), way_of(&trees[t], row)),
{
    place_entry(rounds, k, t);
    let r = t / k;
    let out = t % k;
    assert(fitted(params, data, prepared, o, base, trees, k, r, out, calc));
    let gp = gradients_at(o, data, margins_in(params, data, base, trees, k, r, calc), calc);
    let part = output_slice(gp, k, out, data.height());
    let rows = rows_in(params, data.height(), k, r, calc);
    let sampling = sampling_in(params, data.height(), data.width(), k, r, out, calc);
    let eta = calc.narrowed(params.eta);
    let raw = choose|raw: RegTree|
        #![trigger is_scaled(&trees[t], &raw, eta, calc)]
        is_scaled(&trees[t], &raw, eta, calc) && prepared.may_grow(
            params,
            data,
            part,
            rows,
            sampling,
            &raw,
            calc,
        );
    let nodes = raw.node_list();
    unscaled_trees_settle(nodes, raw.category_list(), eta, 0, nodes.len(), calc);
    grown_trees_keep_groups(prepared, params, data, part, rows, sampling, &raw, row, calc);
    scaling_keeps_ways(nodes, raw.category_list(), eta, row, 0, nodes.len(), calc);
}

} // verus!
