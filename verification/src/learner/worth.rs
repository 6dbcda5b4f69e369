//! Models only hold splits that are worth it.

use vstd::prelude::*;

use crate::arith::{Calc, Op};
use crate::config::TrainingParams;
use crate::data::dmatrix::DMatrix;
use crate::data::ghist::GHistIndex;
use crate::layout::place_entry;
use crate::learner::boost::{
    boosted, fitted, gradients_at, is_scaled, margins_in, output_slice, rows_in, sampling_in,
};
use crate::learner::prepare::{exact_tree, hessians, hist_tree, is_binned, plan_of, Prepared};
use crate::number::Single;
use crate::objective::base::Objective;
use crate::objective::pair::GradPair;
use crate::tree::builder::exact::{first_stage, last_stage, level_limit, Setting};
use crate::tree::builder::hist::Step;
use crate::tree::builder::worth::{
    exact_growth_is_worth, gains, growth_is_worth, hist_growth_is_worth, is_heavy,
    settled_growth_is_worth, splits_are_worth,
};
use crate::tree::constraints::MonotoneConstraints;
use crate::tree::gain::RegParams;
use crate::tree::interaction::groups_view;
use crate::tree::regtree::RegTree;
use crate::tree::sampler::Sampling;

verus! {

/// Every split of a tree that may be grown reduces the loss by more than
/// `gamma`, and its children hold the least sum of Hessians.
pub proof fn grown_splits_are_worth_it<F: Fn(Op, u64, u64) -> u64>(
    prepared: &Prepared,
    params: TrainingParams,
    data: &DMatrix,
    gp: Seq<GradPair>,
    rows: Seq<u32>,
    sampling: Sampling,
    tree: &RegTree,
    calc: &Calc<F>,
)
    requires
        prepared.may_grow(params, data, gp, rows, sampling, tree, calc),
    ensures
        splits_are_worth(tree.node_list(), params.gamma, params.min_child_weight, calc),
{
    let reg = RegParams::of(&params);
    let gamma = params.gamma;
    match *prepared {
        Prepared::Exact(cols) => {
            let cons = choose|cons: MonotoneConstraints| #[trigger]
                exact_tree(params, cons, &cols, data, gp, rows, sampling, tree, calc);
            let st = Setting {
                cols,
                types: data.types(),
                gp,
                cons,
                reg,
                gamma,
                groups: groups_view(params.interaction_constraints@),
            };
            let first = first_stage(gp, rows, data.height(), sampling, calc);
            let levels = level_limit(params.max_depth);
            assert(growth_is_worth(first.g, gamma, reg.min_child_weight, calc));
            exact_growth_is_worth(st, data, first, levels, calc);
            let g = last_stage(st, data, first, levels, calc).g;
            settled_growth_is_worth(g, gamma, reg, calc);
        },
        Prepared::Hist(ghist) => {
            let (cons, run) = choose|cons: MonotoneConstraints, run: Seq<Step>| #[trigger]
                hist_tree(params, cons, &ghist, gp, rows, sampling, run, tree, calc);
            let plan = plan_of(params, cons, &ghist, gp);
            hist_growth_is_worth(plan, rows, sampling, run, run.len() - 1, calc);
            settled_growth_is_worth(run.last().g, gamma, reg, calc);
        },
        Prepared::Approx => {
            let (cons, ghist, run) = choose|
                cons: MonotoneConstraints,
                ghist: GHistIndex,
                run: Seq<Step>,
            |
                is_binned(&ghist, data, params.max_bin as int, Some(hessians(gp)), calc)
                    && #[trigger] hist_tree(
                    params,
                    cons,
                    &ghist,
                    gp,
                    rows,
                    sampling,
                    run,
                    tree,
                    calc,
                );
            let plan = plan_of(params, cons, &ghist, gp);
            hist_growth_is_worth(plan, rows, sampling, run, run.len() - 1, calc);
            settled_growth_is_worth(run.last().g, gamma, reg, calc);
        },
    }
}

/// Every split of a trained model's trees reduces the loss by more than
/// `gamma`, and its children hold the least sum of Hessians.
pub proof fn trained_splits_are_worth_it<F: Fn(Op, u64, u64) -> u64, O: Objective<F>>(
    params: TrainingParams,
    data: &DMatrix,
    prepared: &Prepared,
    o: &O,
    base: Single,
    trees: Seq<RegTree>,
    k: int,
    rounds: int,
    t: int,
    calc: &Calc<F>,
)
    requires
        boosted(params, data, prepared, o, base, trees, k, rounds, calc),
        0 < k,
        0 <= t < rounds * k,
    ensures
        splits_are_worth(trees[t].node_list(), params.gamma, params.min_child_weight, calc),
{
    place_entry(rounds, k, t);
    let r = t / k;
    let out = t % k;
    assert(fitted(params, data, prepared, o, base, trees, k, r, out, calc));
    let gp = gradients_at(o, data, margins_in(params, data, base, trees, k, r, calc), calc);
    let part = output_slice(gp, k, out, data.height());
    let rows = rows_in(params, data.height(), k, r, calc);
    let sampling = sampling_in(params, data.height(), data.width(), k, r, out, calc);
    let eta = calc.narrowed(params.eta);
    let raw = choose|raw: RegTree|
        #![trigger is_scaled(&trees[t], &raw, eta, calc)]
        is_scaled(&trees[t], &raw, eta, calc) && prepared.may_grow(
            params,
            data,
            part,
            rows,
            sampling,
            &raw,
            calc,
        );
    grown_splits_are_worth_it(prepared, params, data, part, rows, sampling, &raw, calc);
    let nodes = raw.node_list();
    let scaled = trees[t].node_list();
    let least = params.min_child_weight;
    assert forall|i: int|
        #![trigger scaled[i]]
        0 <= i < scaled.len() && !scaled[i].leafy() implies {
        &&& 0 <= scaled[i].left < scaled.len()
        &&& 0 <= scaled[i].right < scaled.len()
        &&& gains(scaled[i], params.gamma, calc)
        &&& is_heavy(scaled[scaled[i].left as int], least, calc)
        &&& is_heavy(scaled[scaled[i].right as int], least, calc)
    } by {
        assert(scaled[i] == nodes[i]);
        let left = nodes[i].left as int;
        let right = nodes[i].right as int;
        assert(scaled[left].sum_hess == nodes[left].sum_hess);
        assert(scaled[right].sum_hess == nodes[right].sum_hess);
    }
}

} // verus!
