//! What attributions leave alone.

use vstd::prelude::*;

use crate::arith::{Calc, Op};
use crate::data::dmatrix::DMatrix;
use crate::layout::entry_place;
use crate::learner::contribs::{
    after_tree, base_row, contribs_of, row_contribs, under_condition, with_means, zeros,
};
use crate::learner::margin::walkable;
use crate::learner::model::BoostedModel;
use crate::learner::shap::{
    attributed, extended, feature_place, feature_place_bounds, leaf_shares, unwinding,
    unwinding_keeps_features, unwound, Condition, PathElement,
};
use crate::number::{Single, Wide, ONE};
use crate::tree::regtree::{settles, Node, RegTree};

verus! {

/// Whether every split that a condition leaves free has its attribution at one
/// of `room` places other than `at`, if attributions start at `off`.
pub open spec fn spares(
    nodes: Seq<Node>,
    condition: Condition,
    off: int,
    room: int,
    at: int,
) -> bool {
    forall|i: int|
        0 <= i < nodes.len() && !(#[trigger] nodes[i]).leafy() && !condition.fixes(
            nodes[i].split_feature as int,
        ) ==> 0 <= off + nodes[i].split_feature < room && off + nodes[i].split_feature != at
}

/// Whether every feature on a path has its attribution at one of `room` places
/// other than `at`.
pub open spec fn path_spares(path: Seq<PathElement>, off: int, room: int, at: int) -> bool {
    forall|i: int|
        1 <= i < path.len() ==> {
            &&& 0 <= off + (#[trigger] path[i]).feature_index < room
            &&& off + path[i].feature_index != at
        }
}

proof fn leaves_spare<F: Fn(Op, u64, u64) -> u64>(
    path: Seq<PathElement>,
    leaf: Wide,
    fraction: Wide,
    phi: Seq<Wide>,
    off: int,
    n: int,
    at: int,
    calc: &Calc<F>,
)
    requires
        path_spares(path, off, phi.len() as int, at),
        n < path.len(),
        0 <= at < phi.len(),
    ensures
        leaf_shares(path, leaf, fraction, phi, off, n, calc).len() == phi.len(),
        leaf_shares(path, leaf, fraction, phi, off, n, calc)[at] == phi[at],
    decreases n,
{
    if n > 0 {
        leaves_spare(path, leaf, fraction, phi, off, n - 1, at, calc);
        assert(0 <= off + path[n].feature_index < phi.len());
    }
}

/// Attributions change no place that belongs to a feature that no split of the
/// tree uses, or that is held fixed.
pub proof fn attributions_spare_other_places<F: Fn(Op, u64, u64) -> u64>(
    tree: &RegTree,
    weight: Single,
    row: spec_fn(u32) -> Option<Single>,
    nid: int,
    path: Seq<PathElement>,
    zero: Wide,
    one: Wide,
    feature: i64,
    phi: Seq<Wide>,
    off: int,
    condition: Condition,
    fraction: Wide,
    fuel: nat,
    at: int,
    calc: &Calc<F>,
)
    requires
        settles(tree.node_list(), tree.category_list(), nid, fuel),
        spares(tree.node_list(), condition, off, phi.len() as int, at),
        path_spares(path, off, phi.len() as int, at),
        path.len() > 0 && !condition.fixes(feature as int) ==> 0 <= off + feature < phi.len()
            && off + feature != at,
        0 <= at < phi.len(),
    ensures
        attributed(
            tree,
            weight,
            row,
            nid,
            path,
            zero,
            one,
            feature,
            phi,
            off,
            condition,
            fraction,
            fuel,
            calc,
        ).len() == phi.len(),
        attributed(
            tree,
            weight,
            row,
            nid,
            path,
            zero,
            one,
            feature,
            phi,
            off,
            condition,
            fraction,
            fuel,
            calc,
        )[at] == phi[at],
    decreases fuel,
{
    if !fraction.same(Wide { bits: 0 }) {
        let nodes = tree.node_list();
        let node = nodes[nid];
        let here = if condition.fixes(feature as int) {
            path
        } else {
            extended(path, zero, one, feature, calc)
        };
        assert(path_spares(here, off, phi.len() as int, at)) by {
            assert forall|i: int| 1 <= i < here.len() implies 0 <= off + (
            #[trigger] here[i]).feature_index < phi.len() && off + here[i].feature_index != at by {
                if i < path.len() {
                    assert(here[i].feature_index == path[i].feature_index);
                }
            }
        }
        if node.leafy() {
            leaves_spare(
                here,
                calc.widened(
                    crate::learner::margin::weighed(weight, node.leaf_value, calc),
                ),
                fraction,
                phi,
                off,
                here.len() - 1,
                at,
                calc,
            );
        } else {
            let less = (fuel - 1) as nat;
            let split = node.split_feature as int;
            let left = crate::tree::regtree::goes_left(
                node,
                tree.category_list(),
                row(node.split_feature),
            );
            let hot = if left { node.left as int } else { node.right as int };
            let cold = if left { node.right as int } else { node.left as int };
            let hot_zero = crate::learner::shap::child_share(nodes, nid, hot, calc);
            let cold_zero = crate::learner::shap::child_share(nodes, nid, cold, calc);
            let place = feature_place(here, split, 1);
            let met = place < here.len();
            let in_zero = if met { here[place].zero_fraction } else { Wide { bits: ONE } };
            let in_one = if met { here[place].one_fraction } else { Wide { bits: ONE } };
            let onward = if met { unwound(here, place, calc) } else { here };
            assert(path_spares(onward, off, phi.len() as int, at)) by {
                if met {
                    if here.len() > 0 {
                        feature_place_bounds(here, split, 1);
                    }
                    unwinding_keeps_features(here, place, 0, calc);
                    let p = unwinding(here, place, 0, calc).0;
                    assert forall|i: int| 1 <= i < onward.len() implies 0 <= off + (
                    #[trigger] onward[i]).feature_index < phi.len() && off
                        + onward[i].feature_index != at by {
                        if i < place {
                            assert(p[i].feature_index == here[i].feature_index);
                        } else {
                            assert(p[i + 1].feature_index == here[i + 1].feature_index);
                        }
                    }
                }
            }
            let (to_hot, to_cold) = crate::learner::shap::condition_shares(
                condition,
                split,
                fraction,
                hot_zero,
                cold_zero,
                calc,
            );
            assert(nodes[nid].split_feature == split);
            attributions_spare_other_places(
                tree,
                weight,
                row,
                hot,
                onward,
                calc.times(hot_zero, in_zero),
                in_one,
                split as i64,
                phi,
                off,
                condition,
                to_hot,
                less,
                at,
                calc,
            );
            let half = attributed(
                tree,
                weight,
                row,
                hot,
                onward,
                calc.times(hot_zero, in_zero),
                in_one,
                split as i64,
                phi,
                off,
                condition,
                to_hot,
                less,
                calc,
            );
            attributions_spare_other_places(
                tree,
                weight,
                row,
                cold,
                onward,
                calc.times(cold_zero, in_zero),
                Wide { bits: 0 },
                split as i64,
                half,
                off,
                condition,
                to_cold,
                less,
                at,
                calc,
            );
        }
    }
}

/// Whether no split of a tree that a condition leaves free uses a feature.
pub open spec fn unused(nodes: Seq<Node>, condition: Condition, feature: int) -> bool {
    forall|i: int|
        0 <= i < nodes.len() && !(#[trigger] nodes[i]).leafy() && !condition.fixes(
            nodes[i].split_feature as int,
        ) ==> nodes[i].split_feature != feature
}

proof fn tree_spares<F: Fn(Op, u64, u64) -> u64>(
    model: &BoostedModel,
    data: &DMatrix,
    row: int,
    acc: Seq<Wide>,
    t: int,
    condition: Condition,
    c: int,
    feature: int,
    calc: &Calc<F>,
)
    requires
        model.well_formed(),
        0 <= t < model.tree_list().len(),
        0 <= c < model.outputs(),
        0 <= feature < model.width(),
        acc.len() == model.outputs() * (model.width() + 1),
        unused(model.tree_list()[t].node_list(), condition, feature),
    ensures
        after_tree(model, data, row, acc, t, condition, calc).len() == acc.len(),
        after_tree(model, data, row, acc, t, condition, calc)[c * (model.width() + 1) + feature]
            == acc[c * (model.width() + 1) + feature],
{
    let tree = model.tree_list()[t];
    let nodes = tree.node_list();
    let k = model.outputs();
    let width = model.width() + 1;
    let off = (t % k) * width;
    let at = c * width + feature;
    assert(walkable(&model.tree_list()[t], model.width()));
    entry_place(k, width, c, feature);
    assert(spares(nodes, condition, off, acc.len() as int, at)) by {
        assert forall|i: int|
            0 <= i < nodes.len() && !(#[trigger] nodes[i]).leafy() && !condition.fixes(
                nodes[i].split_feature as int,
            ) implies 0 <= off + nodes[i].split_feature < acc.len() && off
            + nodes[i].split_feature != at by {
            entry_place(k, width, t % k, nodes[i].split_feature as int);
        }
    }
    attributions_spare_other_places(
        &tree,
        model.weight_list()[t],
        crate::learner::contribs::row_cells(data, row),
        0,
        Seq::empty(),
        Wide { bits: ONE },
        Wide { bits: ONE },
        -1i64,
        acc,
        off,
        condition,
        Wide { bits: ONE },
        nodes.len(),
        at,
        calc,
    );
}

proof fn trees_spare<F: Fn(Op, u64, u64) -> u64>(
    model: &BoostedModel,
    data: &DMatrix,
    row: int,
    start: Seq<Wide>,
    n: int,
    c: int,
    feature: int,
    calc: &Calc<F>,
)
    requires
        model.well_formed(),
        0 <= n <= model.tree_list().len(),
        0 <= c < model.outputs(),
        0 <= feature < model.width(),
        start.len() == model.outputs() * (model.width() + 1),
        forall|t: int|
            0 <= t < model.tree_list().len() ==> unused(
                (#[trigger] model.tree_list()[t]).node_list(),
                Condition::Free,
                feature,
            ),
    ensures
        with_means(model, data, row, start, n, calc).len() == start.len(),
        with_means(model, data, row, start, n, calc)[c * (model.width() + 1) + feature]
            == start[c * (model.width() + 1) + feature],
    decreases n,
{
    if n > 0 {
        trees_spare(model, data, row, start, n - 1, c, feature, calc);
        let before = with_means(model, data, row, start, n - 1, calc);
        tree_spares(model, data, row, before, n - 1, Condition::Free, c, feature, calc);
        let k = model.outputs();
        let width = model.width() + 1;
        entry_place(k, width, c, feature);
        entry_place(k, width, (n - 1) % k, model.width());
    }
}

/// A feature that no split of a model of trees uses contributes nothing to any
/// prediction.
pub proof fn unused_features_contribute_nothing<F: Fn(Op, u64, u64) -> u64>(
    model: &BoostedModel,
    data: &DMatrix,
    row: int,
    c: int,
    feature: int,
    calc: &Calc<F>,
)
    requires
        model.well_formed(),
        model.linear_part() is None,
        0 <= row < data.height(),
        0 <= c < model.outputs(),
        0 <= feature < model.width(),
        forall|t: int|
            0 <= t < model.tree_list().len() ==> unused(
                (#[trigger] model.tree_list()[t]).node_list(),
                Condition::Free,
                feature,
            ),
    ensures
        contribs_of(model, data, calc)[row * (model.outputs() * (model.width() + 1)) + (c * (
        model.width() + 1) + feature)] == calc.narrowed(Wide { bits: 0 }),
{
    let k = model.outputs();
    let width = model.width() + 1;
    model.shape();
    entry_place(k, width, c, feature);
    entry_place(data.height(), k * width, row, c * width + feature);
    trees_spare(
        model,
        data,
        row,
        base_row(model, data, row, calc),
        model.tree_list().len() as int,
        c,
        feature,
        calc,
    );
    assert(row_contribs(model, data, row, calc)[c * width + feature] == Wide { bits: 0 });
}

/// A feature that is held fixed gets no attribution of its own.
pub proof fn fixed_features_get_nothing<F: Fn(Op, u64, u64) -> u64>(
    model: &BoostedModel,
    data: &DMatrix,
    row: int,
    condition: Condition,
    n: int,
    c: int,
    feature: int,
    calc: &Calc<F>,
)
    requires
        model.well_formed(),
        0 <= n <= model.tree_list().len(),
        0 <= c < model.outputs(),
        0 <= feature < model.width(),
        condition.fixes(feature),
    ensures
        under_condition(model, data, row, condition, n, calc).len() == model.outputs() * (
        model.width() + 1),
        under_condition(model, data, row, condition, n, calc)[c * (model.width() + 1) + feature]
            == (Wide { bits: 0 }),
    decreases n,
{
    let k = model.outputs();
    let width = model.width() + 1;
    model.shape();
    entry_place(k, width, c, feature);
    if n > 0 {
        fixed_features_get_nothing(model, data, row, condition, n - 1, c, feature, calc);
        tree_spares(
            model,
            data,
            row,
            under_condition(model, data, row, condition, n - 1, calc),
            n - 1,
            condition,
            c,
            feature,
            calc,
        );
    } else {
        assert(zeros(k * width).len() == k * width);
    }
}

} // verus!
