//! What contributions add up to.

use vstd::prelude::*;

use crate::arith::{Calc, Op};
use crate::data::dmatrix::DMatrix;
use crate::exact::{
    gather, is_exact, quotient, shift, singles_add, spread, stands, swap, turn, undivided, vanish,
};
use crate::layout::entry_place;
use crate::learner::contribs::{
    after_tree, base_row, row_cells, row_contribs, tree_mean, with_means,
};
use crate::learner::exactness::{
    extending_follows, follows, unwound_paths_follow, unwound_sums_follow,
};
use crate::learner::margin::{margins_of, tree_value, walkable, weighed};
use crate::learner::model::BoostedModel;
use crate::learner::orderings::{
    all_absent, all_present, attributed_to, attributions_add_up, counts, orders,
    products_without_a_feature, weight as path_weight, weights_from, Shares,
};
use crate::learner::shap::{
    attributed, child_share, extended, extending_keeps_fit, feature_place, feature_place_bounds,
    leaf_shares, mean_value, path_fits, unwinding_keeps_fit, unwound, unwound_sums, Condition,
    PathElement,
};
use crate::number::{Single, Wide, ONE};
use crate::tree::builder::exact::features_exist;
use crate::tree::regtree::{goes_left, route, settles, Node, RegTree};

verus! {

/// Whether the `n` places from `from` on stand for numbers.
pub open spec fn all_stand(
    phi: Seq<Wide>,
    from: int,
    n: int,
    val: spec_fn(Wide) -> Option<real>,
) -> bool {
    forall|p: int| from <= p < from + n ==> val(#[trigger] phi[p]) is Some
}

/// What the `n` places from `from` on add up to.
pub open spec fn sum_of(
    phi: Seq<Wide>,
    from: int,
    n: int,
    val: spec_fn(Wide) -> Option<real>,
) -> real
    decreases n,
{
    if n <= 0 { 0real } else { sum_of(phi, from, n - 1, val) + val(phi[from + n - 1])->0 }
}

pub(crate) proof fn one_place_moves_the_sum(
    phi: Seq<Wide>,
    p: int,
    v: Wide,
    from: int,
    n: int,
    val: spec_fn(Wide) -> Option<real>,
)
    requires
        0 <= from,
        0 <= n,
        from + n <= phi.len(),
        0 <= p < phi.len(),
    ensures
        sum_of(phi.update(p, v), from, n, val) == sum_of(phi, from, n, val) + (if from <= p < from
            + n {
            val(v)->0 - val(phi[p])->0
        } else {
            0real
        }),
    decreases n,
{
    if n > 0 {
        one_place_moves_the_sum(phi, p, v, from, n - 1, val);
    }
}

proof fn leaves_add_up<F: Fn(Op, u64, u64) -> u64>(
    path: Seq<PathElement>,
    shares: Seq<Shares>,
    leaf: Wide,
    phi: Seq<Wide>,
    off: int,
    room: int,
    n: int,
    val: spec_fn(Wide) -> Option<real>,
    calc: &Calc<F>,
)
    requires
        is_exact(val, calc),
        follows(path, shares, val),
        shares.len() <= i32::MAX,
        0 <= n <= shares.len(),
        0 <= off,
        off + room <= phi.len(),
        path_fits(path, room),
    ensures
        ({
            let r = leaf_shares(path, leaf, Wide { bits: ONE }, phi, off, n, calc);
            &&& r.len() == phi.len()
            &&& forall|p: int|
                0 <= p < phi.len() && !(off <= p < off + room) ==> #[trigger] r[p] == phi[p]
            &&& all_stand(r, off, room, val) ==> all_stand(phi, off, room, val) && sum_of(
                r,
                off,
                room,
                val,
            ) == sum_of(phi, off, room, val) + val(leaf)->0 * attributed_to(shares, n)
        }),
    decreases n,
{
    let fraction = Wide { bits: ONE };
    let lv = val(leaf)->0;
    if n <= 0 {
        vanish(lv);
    } else {
        leaves_add_up(path, shares, leaf, phi, off, room, n - 1, val, calc);
        let before = leaf_shares(path, leaf, fraction, phi, off, n - 1, calc);
        let el = path[n];
        assert(0 <= el.feature_index < room);
        let w = unwound_sums(path, n, 0, calc).0;
        let d = calc.minus(el.one_fraction, el.zero_fraction);
        let x = calc.times(w, d);
        let y = calc.times(x, leaf);
        let share = calc.times(y, fraction);
        let at = off + el.feature_index;
        let v = calc.plus(before[at], share);
        let r = before.update(at, v);
        assert(r == leaf_shares(path, leaf, fraction, phi, off, n, calc));
        let k = n - 1;
        let s = shares[k];
        let t = weights_from(shares.remove(k), 0, shares.len() as int);
        if s.0 != 0real || s.1 != 0real {
            unwound_sums_follow(path, shares, k, 0, val, calc);
        }
        if all_stand(r, off, room, val) {
            assert(val(r[at]) is Some);
            assert(val(share) is Some);
            assert(val(y) is Some);
            assert(val(x) is Some);
            assert(val(d) is Some);
            let dv = s.1 - s.0;
            assert(val(d)->0 == dv);
            let wv = val(w)->0;
            assert(val(share)->0 == ((wv * dv) * lv) * 1real);
            assert(((wv * dv) * lv) * 1real == (wv * dv) * lv) by (nonlinear_arith);
            swap(wv * dv, lv);
            swap(wv, dv);
            if s.0 == 0real && s.1 == 0real {
                vanish(wv);
                vanish(t);
                vanish(lv);
            } else {
                assert(wv == t);
            }
            assert(val(share)->0 == lv * (dv * t));
            spread(lv, attributed_to(shares, n - 1), dv * t);
            assert forall|p: int| off <= p < off + room implies val(
                #[trigger] before[p],
            ) is Some by {
                if p != at {
                    assert(r[p] == before[p]);
                }
            }
            one_place_moves_the_sum(before, at, v, off, room, val);
        }
    }
}

/// The leaf weight of a node, times the weight of its tree.
pub open spec fn leaf_number<F: Fn(Op, u64, u64) -> u64>(
    tree: &RegTree,
    weight: Single,
    nid: int,
    val: spec_fn(Wide) -> Option<real>,
    calc: &Calc<F>,
) -> real {
    val(calc.widened(weighed(weight, tree.node_list()[nid].leaf_value, calc)))->0
}

/// The sum of Hessians of a node.
pub open spec fn cover<F: Fn(Op, u64, u64) -> u64>(
    nodes: Seq<Node>,
    nid: int,
    val: spec_fn(Wide) -> Option<real>,
    calc: &Calc<F>,
) -> real {
    val(calc.widened(nodes[nid].sum_hess))->0
}

/// Whether the sums of Hessians of all nodes stand for numbers.
pub open spec fn covers_stand<F: Fn(Op, u64, u64) -> u64>(
    nodes: Seq<Node>,
    val: spec_fn(Wide) -> Option<real>,
    calc: &Calc<F>,
) -> bool {
    forall|i: int|
        0 <= i < nodes.len() ==> val(calc.widened((#[trigger] nodes[i]).sum_hess)) is Some
}

/// The share of a node's weight that a child has.
pub open spec fn child_part<F: Fn(Op, u64, u64) -> u64>(
    nodes: Seq<Node>,
    nid: int,
    child: int,
    val: spec_fn(Wide) -> Option<real>,
    calc: &Calc<F>,
) -> real {
    if cover(nodes, nid, val, calc) > 0real {
        cover(nodes, child, val, calc) / cover(nodes, nid, val, calc)
    } else {
        0real
    }
}

/// The mean prediction of the subtree at a node, with `fuel` steps to go.
pub open spec fn mean_number<F: Fn(Op, u64, u64) -> u64>(
    tree: &RegTree,
    weight: Single,
    nid: int,
    fuel: nat,
    val: spec_fn(Wide) -> Option<real>,
    calc: &Calc<F>,
) -> real
    decreases fuel,
{
    let nodes = tree.node_list();
    let node = nodes[nid];
    if node.leafy() {
        leaf_number(tree, weight, nid, val, calc)
    } else if fuel == 0 {
        0real
    } else {
        let less = (fuel - 1) as nat;
        let l = node.left as int;
        let r = node.right as int;
        child_part(nodes, nid, l, val, calc) * mean_number(tree, weight, l, less, val, calc)
            + child_part(nodes, nid, r, val, calc) * mean_number(tree, weight, r, less, val, calc)
    }
}

proof fn means_stand<F: Fn(Op, u64, u64) -> u64>(
    tree: &RegTree,
    weight: Single,
    nid: int,
    fuel: nat,
    val: spec_fn(Wide) -> Option<real>,
    calc: &Calc<F>,
)
    requires
        is_exact(val, calc),
        settles(tree.node_list(), tree.category_list(), nid, fuel),
        covers_stand(tree.node_list(), val, calc),
    ensures
        stands(
            mean_value(tree, weight, nid, fuel, calc),
            mean_number(tree, weight, nid, fuel, val, calc),
            val,
        ),
    decreases fuel,
{
    let nodes = tree.node_list();
    let node = nodes[nid];
    if !node.leafy() {
        let less = (fuel - 1) as nat;
        let l = node.left as int;
        let r = node.right as int;
        means_stand(tree, weight, l, less, val, calc);
        means_stand(tree, weight, r, less, val, calc);
        let c = calc.widened(node.sum_hess);
        assert(val(calc.widened(nodes[nid].sum_hess)) is Some);
        let cv = cover(nodes, nid, val, calc);
        let lc = calc.widened(nodes[l].sum_hess);
        let rc = calc.widened(nodes[r].sum_hess);
        let a = calc.times(lc, mean_value(tree, weight, l, less, calc));
        let b = calc.times(rc, mean_value(tree, weight, r, less, calc));
        let sum = calc.plus(a, b);
        let m = calc.over(sum, c);
        let ml = mean_number(tree, weight, l, less, val, calc);
        let mr = mean_number(tree, weight, r, less, val, calc);
        if cv <= 0real {
            assert(c.le(Wide { bits: 0 }));
            vanish(ml);
            vanish(mr);
        } else {
            assert(!c.le(Wide { bits: 0 }));
            if val(m) is Some {
                assert(val(sum) is Some);
                assert(val(a) is Some && val(b) is Some);
                let x = cover(nodes, l, val, calc);
                let y = cover(nodes, r, val, calc);
                undivided(x, cv);
                undivided(y, cv);
                turn(x / cv, ml, cv);
                turn(y / cv, mr, cv);
                gather((x / cv) * ml, (y / cv) * mr, cv);
                quotient(x * ml + y * mr, cv, (x / cv) * ml + (y / cv) * mr);
            }
        }
    }
}

pub(crate) proof fn child_shares_stand<F: Fn(Op, u64, u64) -> u64>(
    nodes: Seq<Node>,
    nid: int,
    child: int,
    val: spec_fn(Wide) -> Option<real>,
    calc: &Calc<F>,
)
    requires
        is_exact(val, calc),
        covers_stand(nodes, val, calc),
        0 <= nid < nodes.len(),
        0 <= child < nodes.len(),
    ensures
        stands(child_share(nodes, nid, child, calc), child_part(nodes, nid, child, val, calc), val),
{
    let c = calc.widened(nodes[nid].sum_hess);
    assert(val(calc.widened(nodes[nid].sum_hess)) is Some);
    assert(val(calc.widened(nodes[child].sum_hess)) is Some);
    assert((Wide { bits: 0 }).lt(c) <==> cover(nodes, nid, val, calc) > 0real);
}

/// The leaf weight that a row reaches from a node, times the weight of its tree.
pub open spec fn reached<F: Fn(Op, u64, u64) -> u64>(
    tree: &RegTree,
    weight: Single,
    row: spec_fn(u32) -> Option<Single>,
    nid: int,
    fuel: nat,
    val: spec_fn(Wide) -> Option<real>,
    calc: &Calc<F>,
) -> real {
    leaf_number(
        tree,
        weight,
        route(tree.node_list(), tree.category_list(), row, nid, fuel),
        val,
        calc,
    )
}

/// The shares of a path after a split: those that the path had, but for the
/// split's feature, and the feature's.
pub(crate) open spec fn shares_after(shares: Seq<Shares>, k: int, met: bool, zero: real, present: bool) -> Seq<
    Shares,
> {
    let held = if met { shares[k] } else { (1real, 1real) };
    let rest = if met { shares.remove(k) } else { shares };
    rest.push((zero * held.0, if present { held.1 } else { 0real }))
}

proof fn products_after(shares: Seq<Shares>, k: int, met: bool, zero: real, present: bool)
    requires
        met ==> 0 <= k < shares.len(),
    ensures
        ({
            let after = shares_after(shares, k, met, zero, present);
            &&& all_absent(after) == all_absent(shares) * zero
            &&& all_present(after) == if present {
                all_present(shares)
            } else {
                0real
            }
        }),
{
    let held = if met { shares[k] } else { (1real, 1real) };
    let rest = if met { shares.remove(k) } else { shares };
    let after = shares_after(shares, k, met, zero, present);
    assert(after.drop_last() =~= rest);
    if met {
        products_without_a_feature(shares, k);
    } else {
        let a = all_present(rest);
        let b = all_absent(rest);
        assert(a * 1real == a) by (nonlinear_arith);
        assert(b * 1real == b) by (nonlinear_arith);
    }
    swap(zero, held.0);
    shift(all_absent(rest), held.0, zero);
    vanish(all_present(rest));
}

pub(crate) proof fn paths_follow_splits<F: Fn(Op, u64, u64) -> u64>(
    here: Seq<PathElement>,
    shares: Seq<Shares>,
    place: int,
    split: i64,
    child: Wide,
    part: real,
    present: bool,
    val: spec_fn(Wide) -> Option<real>,
    calc: &Calc<F>,
)
    requires
        is_exact(val, calc),
        follows(here, shares, val),
        shares.len() <= i32::MAX,
        1 <= place <= here.len(),
        stands(child, part, val),
    ensures
        ({
            let met = place < here.len();
            let in_zero = if met { here[place].zero_fraction } else { Wide { bits: ONE } };
            let in_one = if met { here[place].one_fraction } else { Wide { bits: ONE } };
            let onward = if met { unwound(here, place, calc) } else { here };
            let one = if present { in_one } else { Wide { bits: 0 } };
            follows(
                extended(onward, calc.times(child, in_zero), one, split, calc),
                shares_after(shares, place - 1, met, part, present),
                val,
            )
        }),
{
    let met = place < here.len();
    let in_zero = if met { here[place].zero_fraction } else { Wide { bits: ONE } };
    let in_one = if met { here[place].one_fraction } else { Wide { bits: ONE } };
    let onward = if met { unwound(here, place, calc) } else { here };
    let one = if present { in_one } else { Wide { bits: 0 } };
    let k = place - 1;
    let held = if met { shares[k] } else { (1real, 1real) };
    let rest = if met { shares.remove(k) } else { shares };
    let zero = calc.times(child, in_zero);
    assert(stands(in_zero, held.0, val) && val(in_one) == Some(held.1)) by {
        if met {
            assert(stands(here[place].zero_fraction, shares[place - 1].0, val));
        }
    }
    if met {
        unwound_paths_follow(here, shares, k, val, calc);
    }
    vanish(part);
    let s = (
        part * held.0,
        if present {
            held.1
        } else {
            0real
        },
    );
    extending_follows(onward, rest, zero, one, split, s, val, calc);
}

proof fn attributions_add<F: Fn(Op, u64, u64) -> u64>(
    tree: &RegTree,
    weight: Single,
    row: spec_fn(u32) -> Option<Single>,
    nid: int,
    path: Seq<PathElement>,
    zero: Wide,
    one: Wide,
    feature: i64,
    shares: Seq<Shares>,
    phi: Seq<Wide>,
    off: int,
    room: int,
    fuel: nat,
    val: spec_fn(Wide) -> Option<real>,
    calc: &Calc<F>,
)
    requires
        is_exact(val, calc),
        settles(tree.node_list(), tree.category_list(), nid, fuel),
        features_exist(tree.node_list(), room),
        covers_stand(tree.node_list(), val, calc),
        follows(extended(path, zero, one, feature, calc), shares, val),
        path_fits(extended(path, zero, one, feature, calc), room),
        shares.len() + fuel <= i32::MAX,
        0 <= off,
        off + room <= phi.len(),
    ensures
        ({
            let r = attributed(
                tree,
                weight,
                row,
                nid,
                path,
                zero,
                one,
                feature,
                phi,
                off,
                Condition::Free,
                Wide { bits: ONE },
                fuel,
                calc,
            );
            &&& r.len() == phi.len()
            &&& forall|p: int|
                0 <= p < phi.len() && !(off <= p < off + room) ==> #[trigger] r[p] == phi[p]
            &&& all_stand(r, off, room, val) ==> all_stand(phi, off, room, val) && sum_of(
                r,
                off,
                room,
                val,
            ) == sum_of(phi, off, room, val) + (all_present(shares) * reached(
                tree,
                weight,
                row,
                nid,
                fuel,
                val,
                calc,
            ) - all_absent(shares) * mean_number(tree, weight, nid, fuel, val, calc))
        }),
    decreases fuel,
{
    let fraction = Wide { bits: ONE };
    assert(!fraction.same(Wide { bits: 0 }));
    let nodes = tree.node_list();
    let node = nodes[nid];
    let here = extended(path, zero, one, feature, calc);
    if node.leafy() {
        let leaf = calc.widened(weighed(weight, node.leaf_value, calc));
        let lv = leaf_number(tree, weight, nid, val, calc);
        leaves_add_up(here, shares, leaf, phi, off, room, shares.len() as int, val, calc);
        attributions_add_up(shares);
        spread(lv, all_present(shares), all_absent(shares));
        swap(lv, all_present(shares));
        swap(lv, all_absent(shares));
    } else {
        let less = (fuel - 1) as nat;
        let split = node.split_feature as int;
        let left = goes_left(node, tree.category_list(), row(node.split_feature));
        let hot = if left { node.left as int } else { node.right as int };
        let cold = if left { node.right as int } else { node.left as int };
        let hot_zero = child_share(nodes, nid, hot, calc);
        let cold_zero = child_share(nodes, nid, cold, calc);
        let place = feature_place(here, split, 1);
        let met = place < here.len();
        let in_zero = if met { here[place].zero_fraction } else { Wide { bits: ONE } };
        let in_one = if met { here[place].one_fraction } else { Wide { bits: ONE } };
        let onward = if met { unwound(here, place, calc) } else { here };
        feature_place_bounds(here, split, 1);
        assert(nodes[nid].split_feature < room);
        reveal_with_fuel(settles, 2);
        let hz = child_part(nodes, nid, hot, val, calc);
        let cz = child_part(nodes, nid, cold, val, calc);
        child_shares_stand(nodes, nid, hot, val, calc);
        child_shares_stand(nodes, nid, cold, val, calc);
        let k = place - 1;
        let to_hot = shares_after(shares, k, met, hz, true);
        let to_cold = shares_after(shares, k, met, cz, false);
        paths_follow_splits(here, shares, place, split as i64, hot_zero, hz, true, val, calc);
        paths_follow_splits(here, shares, place, split as i64, cold_zero, cz, false, val, calc);
        products_after(shares, k, met, hz, true);
        products_after(shares, k, met, cz, false);
        if met {
            unwinding_keeps_fit(here, place, room, calc);
        }
        let zh = calc.times(hot_zero, in_zero);
        let zc = calc.times(cold_zero, in_zero);
        let nothing = Wide { bits: 0 };
        extending_keeps_fit(onward, zh, in_one, split as i64, room, calc);
        extending_keeps_fit(onward, zc, nothing, split as i64, room, calc);
        attributions_add(
            tree,
            weight,
            row,
            hot,
            onward,
            zh,
            in_one,
            split as i64,
            to_hot,
            phi,
            off,
            room,
            less,
            val,
            calc,
        );
        let half = attributed(
            tree,
            weight,
            row,
            hot,
            onward,
            zh,
            in_one,
            split as i64,
            phi,
            off,
            Condition::Free,
            fraction,
            less,
            calc,
        );
        attributions_add(
            tree,
            weight,
            row,
            cold,
            onward,
            zc,
            nothing,
            split as i64,
            to_cold,
            half,
            off,
            room,
            less,
            val,
            calc,
        );
        let z = all_absent(shares);
        let mh = mean_number(tree, weight, hot, less, val, calc);
        let mc = mean_number(tree, weight, cold, less, val, calc);
        vanish(reached(tree, weight, row, cold, less, val, calc));
        shift(z, hz, mh);
        shift(z, cz, mc);
        spread(z, hz * mh, cz * mc);
        assert(mean_number(tree, weight, nid, fuel, val, calc) == hz * mh + cz * mc);
        assert(reached(tree, weight, row, nid, fuel, val, calc) == reached(
            tree,
            weight,
            row,
            hot,
            less,
            val,
            calc,
        ));
    }
}

/// The sum of the leaf weights that a row reaches in the first `n` trees of an
/// output, each times the weight of its tree.
pub open spec fn leaves_reached<F: Fn(Op, u64, u64) -> u64>(
    model: &BoostedModel,
    data: &DMatrix,
    row: int,
    c: int,
    n: int,
    val: spec_fn(Wide) -> Option<real>,
    calc: &Calc<F>,
) -> real
    decreases n,
{
    if n <= 0 {
        0real
    } else {
        let rest = leaves_reached(model, data, row, c, n - 1, val, calc);
        let tree = model.tree_list()[n - 1];
        if (n - 1) % model.outputs() == c {
            rest + leaf_number(
                &tree,
                model.weight_list()[n - 1],
                tree.leaf_of(row_cells(data, row)),
                val,
                calc,
            )
        } else {
            rest
        }
    }
}

pub(crate) proof fn margins_add_up<F: Fn(Op, u64, u64) -> u64>(
    model: &BoostedModel,
    data: &DMatrix,
    row: int,
    c: int,
    n: int,
    val: spec_fn(Wide) -> Option<real>,
    calc: &Calc<F>,
)
    requires
        singles_add(val, calc),
        data.margin_list() is None,
        0 <= row < data.height(),
        0 <= c < model.outputs(),
        0 <= n <= model.tree_list().len(),
    ensures
        ({
            let k = model.outputs();
            let m = margins_of(
                model.tree_list(),
                model.weight_list(),
                Seq::empty(),
                data,
                model.base(),
                k,
                n,
                calc,
            );
            &&& m.len() == data.height() * k
            &&& stands(
                calc.widened(m[row * k + c]),
                val(calc.widened(model.base()))->0 + leaves_reached(
                    model,
                    data,
                    row,
                    c,
                    n,
                    val,
                    calc,
                ),
                val,
            )
        }),
    decreases n,
{
    let k = model.outputs();
    entry_place(data.height(), k, row, c);
    if n > 0 {
        margins_add_up(model, data, row, c, n - 1, val, calc);
        let tree = model.tree_list()[n - 1];
        assert((|f: u32| data.cell(row, f as int)) =~= row_cells(data, row));
        assert(tree_value(&tree, data, row) == tree.node_list()[tree.leaf_of(
            row_cells(data, row),
        )].leaf_value);
    }
}

proof fn sums_part(
    phi: Seq<Wide>,
    from: int,
    n: int,
    val: spec_fn(Wide) -> Option<real>,
)
    requires
        0 <= n,
    ensures
        sum_of(phi, from, n + 1, val) == sum_of(phi, from, n, val) + val(phi[from + n])->0,
{
}

pub(crate) proof fn equal_places_have_equal_sums(
    x: Seq<Wide>,
    y: Seq<Wide>,
    from: int,
    n: int,
    val: spec_fn(Wide) -> Option<real>,
)
    requires
        forall|p: int| from <= p < from + n ==> #[trigger] x[p] == #[trigger] y[p],
    ensures
        sum_of(x, from, n, val) == sum_of(y, from, n, val),
    decreases n,
{
    if n > 0 {
        equal_places_have_equal_sums(x, y, from, n - 1, val);
        assert(x[from + n - 1] == y[from + n - 1]);
    }
}

/// Whether the sums of Hessians of all trees of a model stand for numbers.
pub open spec fn model_covers_stand<F: Fn(Op, u64, u64) -> u64>(
    model: &BoostedModel,
    val: spec_fn(Wide) -> Option<real>,
    calc: &Calc<F>,
) -> bool {
    forall|t: int|
        0 <= t < model.tree_list().len() ==> covers_stand(
            (#[trigger] model.tree_list()[t]).node_list(),
            val,
            calc,
        )
}

/// The path of a root has no shares.
pub(crate) proof fn roots_follow<F: Fn(Op, u64, u64) -> u64>(
    val: spec_fn(Wide) -> Option<real>,
    calc: &Calc<F>,
)
    requires
        is_exact(val, calc),
    ensures
        ({
            let one = Wide { bits: ONE };
            follows(
                extended(Seq::<PathElement>::empty(), one, one, -1i64, calc),
                Seq::<Shares>::empty(),
                val,
            )
        }),
{
    let one = Wide { bits: ONE };
    let first = extended(Seq::<PathElement>::empty(), one, one, -1i64, calc);
    let no_shares = Seq::<Shares>::empty();
    assert(path_weight(no_shares, 0) == 1real) by {
        assert(counts(no_shares) =~= seq![1real]);
        reveal_with_fuel(orders, 2);
        assert(1real * (1 as real) == 1real) by (nonlinear_arith);
        quotient(1real, 1real, 1real);
    }
    assert(first[0].pweight == one);
}

pub(crate) proof fn trees_add_up<F: Fn(Op, u64, u64) -> u64>(
    model: &BoostedModel,
    data: &DMatrix,
    row: int,
    c: int,
    start: Seq<Wide>,
    n: int,
    val: spec_fn(Wide) -> Option<real>,
    calc: &Calc<F>,
)
    requires
        is_exact(val, calc),
        model.well_formed(),
        model.laid_out(),
        model_covers_stand(model, val, calc),
        0 <= c < model.outputs(),
        0 <= n <= model.tree_list().len(),
        start.len() == model.outputs() * (model.width() + 1),
    ensures
        ({
            let width = model.width() + 1;
            let r = with_means(model, data, row, start, n, calc);
            &&& r.len() == start.len()
            &&& all_stand(r, c * width, width, val) ==> all_stand(start, c * width, width, val)
                && sum_of(r, c * width, width, val) == sum_of(start, c * width, width, val)
                + leaves_reached(model, data, row, c, n, val, calc)
        }),
    decreases n,
{
    if n > 0 {
        trees_add_up(model, data, row, c, start, n - 1, val, calc);
        model.shape();
        let k = model.outputs();
        let nf = model.width();
        let width = nf + 1;
        let t = n - 1;
        let o = t % k;
        let off = o * width;
        let one = Wide { bits: ONE };
        let tree = model.tree_list()[t];
        let weight = model.weight_list()[t];
        let nodes = tree.node_list();
        let cells = row_cells(data, row);
        let none = Seq::<PathElement>::empty();
        let before = with_means(model, data, row, start, t, calc);
        let after = after_tree(model, data, row, before, t, Condition::Free, calc);
        let bias = off + nf;
        let mean = tree_mean(model, t, calc);
        let r = after.update(bias, calc.plus(after[bias], mean));
        assert(r == with_means(model, data, row, start, n, calc));
        assert(walkable(&model.tree_list()[t], nf));
        assert(model.tree_list()[t].grown());
        entry_place(k, width, o, nf);
        entry_place(k, width, o, 0);
        entry_place(k, width, c, nf);
        entry_place(k, width, c, 0);
        let no_shares = Seq::<Shares>::empty();
        roots_follow(val, calc);
        attributions_add(
            &tree,
            weight,
            cells,
            0,
            none,
            one,
            one,
            -1i64,
            no_shares,
            before,
            off,
            nf,
            nodes.len(),
            val,
            calc,
        );
        means_stand(&tree, weight, 0, nodes.len(), val, calc);
        let got = reached(&tree, weight, cells, 0, nodes.len(), val, calc);
        let average = mean_number(&tree, weight, 0, nodes.len(), val, calc);
        assert(1real * got == got) by (nonlinear_arith);
        assert(1real * average == average) by (nonlinear_arith);
        let from = c * width;
        if o == c {
            if all_stand(r, from, width, val) {
                assert(val(r[bias]) is Some);
                assert forall|p: int| off <= p < off + nf implies val(
                    #[trigger] after[p],
                ) is Some by {
                    assert(r[p] == after[p]);
                }
                equal_places_have_equal_sums(r, after, off, nf, val);
                sums_part(r, off, nf, val);
                sums_part(before, off, nf, val);
                assert(after[bias] == before[bias]);
                assert forall|p: int| from <= p < from + width implies val(
                    #[trigger] before[p],
                ) is Some by {
                    if p == bias {
                        assert(val(after[bias]) is Some);
                    }
                }
            }
        } else {
            blocks_lie_apart(width, o, c);
            assert forall|p: int| from <= p < from + width implies #[trigger] r[p]
                == #[trigger] before[p] by {}
            equal_places_have_equal_sums(r, before, from, width, val);
            if all_stand(r, from, width, val) {
                assert forall|p: int| from <= p < from + width implies val(
                    #[trigger] before[p],
                ) is Some by {
                    assert(r[p] == before[p]);
                }
            }
        }
    }
}

pub(crate) proof fn blocks_lie_apart(width: int, a: int, b: int)
    requires
        0 < width,
        a != b,
    ensures
        a * width + width <= b * width || b * width + width <= a * width,
{
    if a < b {
        assert(a * width + width <= b * width) by (nonlinear_arith)
            requires
                a < b,
                0 < width,
        ;
    } else {
        assert(b * width + width <= a * width) by (nonlinear_arith)
            requires
                b < a,
                0 < width,
        ;
    }
}

pub(crate) proof fn zeros_sum_to_zero(
    phi: Seq<Wide>,
    from: int,
    n: int,
    val: spec_fn(Wide) -> Option<real>,
)
    requires
        val(Wide { bits: 0 }) == Some(0real),
        0 <= n,
        forall|p: int| from <= p < from + n ==> #[trigger] phi[p] == (Wide { bits: 0 }),
    ensures
        sum_of(phi, from, n, val) == 0real,
    decreases n,
{
    if n > 0 {
        zeros_sum_to_zero(phi, from, n - 1, val);
    }
}

/// In an arithmetic that does not round, the contributions of a row to an output
/// of a model of trees, that of the bias among them, add up to the row's margin.
pub proof fn contributions_add_up<F: Fn(Op, u64, u64) -> u64>(
    model: &BoostedModel,
    data: &DMatrix,
    row: int,
    c: int,
    val: spec_fn(Wide) -> Option<real>,
    calc: &Calc<F>,
)
    requires
        is_exact(val, calc),
        singles_add(val, calc),
        model.well_formed(),
        model.laid_out(),
        model.linear_part() is None,
        model_covers_stand(model, val, calc),
        data.margin_list() is None,
        0 <= row < data.height(),
        0 <= c < model.outputs(),
        all_stand(
            row_contribs(model, data, row, calc),
            c * (model.width() + 1),
            model.width() + 1,
            val,
        ),
        val(calc.widened(model.margins(data, 0, calc)[row * model.outputs() + c])) is Some,
    ensures
        sum_of(
            row_contribs(model, data, row, calc),
            c * (model.width() + 1),
            model.width() + 1,
            val,
        ) == val(calc.widened(model.margins(data, 0, calc)[row * model.outputs() + c]))->0,
{
    let k = model.outputs();
    let nf = model.width();
    let width = nf + 1;
    let n = model.tree_list().len() as int;
    let from = c * width;
    model.shape();
    let start = base_row(model, data, row, calc);
    trees_add_up(model, data, row, c, start, n, val, calc);
    margins_add_up(model, data, row, c, n, val, calc);
    entry_place(k, width, c, nf);
    assert forall|p: int| from <= p < from + nf implies #[trigger] start[p] == (Wide {
        bits: 0,
    }) by {
        entry_place(k, width, c, p - from);
    }
    zeros_sum_to_zero(start, from, nf, val);
    sums_part(start, from, nf, val);
    assert(start[from + nf] == calc.plus(Wide { bits: 0 }, calc.widened(model.base())));
    assert(val(start[from + nf]) is Some);
}

} // verus!
