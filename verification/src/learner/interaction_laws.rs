//! What interaction matrices add up to.

use vstd::prelude::*;

use crate::arith::{Calc, Op};
use crate::data::dmatrix::DMatrix;
use crate::exact::{adds_exactly, is_exact, singles_add};
use crate::layout::entry_place;
use crate::learner::additivity::{
    all_stand, equal_places_have_equal_sums, margins_add_up, model_covers_stand,
    one_place_moves_the_sum, sum_of, trees_add_up, zeros_sum_to_zero,
};
use crate::learner::contribs::{
    base_row, diagonals, linear_row, row_cells, row_contribs, row_interactions,
    under_condition, with_columns, with_interactions, with_means, with_output_columns,
};
use crate::learner::margin::{walkable, weighed};
use crate::learner::model::BoostedModel;
use crate::learner::shap::{
    attributed, child_share, condition_shares, extended, feature_place, feature_place_bounds,
    leaf_shares, unwinding, unwinding_keeps_features, unwound, Condition, PathElement,
};
use crate::number::{Single, Wide, HALF, ONE};
use crate::tree::regtree::{goes_left, settles, Node, RegTree};

verus! {

/// Whether two lists are equal but for the last of every `width` places.
pub open spec fn agree(x: Seq<Wide>, y: Seq<Wide>, width: int) -> bool {
    &&& x.len() == y.len()
    &&& forall|p: int| 0 <= p < x.len() && p % width != width - 1 ==> #[trigger] x[p] == y[p]
}

/// Whether every feature on a path has its attribution at a place that is not
/// the last of `width`.
spec fn path_counts(path: Seq<PathElement>, off: int, room: int, width: int) -> bool {
    forall|i: int|
        1 <= i < path.len() ==> {
            &&& 0 <= off + (#[trigger] path[i]).feature_index < room
            &&& (off + path[i].feature_index) % width != width - 1
        }
}

/// Whether every split has its attribution at a place that is not the last of
/// `width`.
spec fn splits_count(nodes: Seq<Node>, off: int, room: int, width: int) -> bool {
    forall|i: int|
        0 <= i < nodes.len() && !(#[trigger] nodes[i]).leafy() ==> {
            &&& 0 <= off + nodes[i].split_feature < room
            &&& (off + nodes[i].split_feature) % width != width - 1
        }
}

proof fn leaves_agree<F: Fn(Op, u64, u64) -> u64>(
    path: Seq<PathElement>,
    leaf: Wide,
    fraction: Wide,
    phi: Seq<Wide>,
    psi: Seq<Wide>,
    off: int,
    n: int,
    width: int,
    calc: &Calc<F>,
)
    requires
        path_counts(path, off, phi.len() as int, width),
        n < path.len(),
        agree(phi, psi, width),
    ensures
        agree(
            leaf_shares(path, leaf, fraction, phi, off, n, calc),
            leaf_shares(path, leaf, fraction, psi, off, n, calc),
            width,
        ),
        leaf_shares(path, leaf, fraction, phi, off, n, calc).len() == phi.len(),
    decreases n,
{
    if n > 0 {
        leaves_agree(path, leaf, fraction, phi, psi, off, n - 1, width, calc);
        assert(0 <= off + path[n].feature_index < phi.len());
    }
}

proof fn attributions_agree<F: Fn(Op, u64, u64) -> u64>(
    tree: &RegTree,
    weight: Single,
    row: spec_fn(u32) -> Option<Single>,
    nid: int,
    path: Seq<PathElement>,
    zero: Wide,
    one: Wide,
    feature: i64,
    phi: Seq<Wide>,
    psi: Seq<Wide>,
    off: int,
    fraction: Wide,
    fuel: nat,
    width: int,
    calc: &Calc<F>,
)
    requires
        settles(tree.node_list(), tree.category_list(), nid, fuel),
        splits_count(tree.node_list(), off, phi.len() as int, width),
        path_counts(path, off, phi.len() as int, width),
        path.len() > 0 ==> 0 <= off + feature < phi.len() && (off + feature) % width != width - 1,
        agree(phi, psi, width),
    ensures
        ({
            let x = attributed(
                tree,
                weight,
                row,
                nid,
                path,
                zero,
                one,
                feature,
                phi,
                off,
                Condition::Free,
                fraction,
                fuel,
                calc,
            );
            let y = attributed(
                tree,
                weight,
                row,
                nid,
                path,
                zero,
                one,
                feature,
                psi,
                off,
                Condition::Free,
                fraction,
                fuel,
                calc,
            );
            agree(x, y, width) && x.len() == phi.len()
        }),
    decreases fuel,
{
    if !fraction.same(Wide { bits: 0 }) {
        let nodes = tree.node_list();
        let node = nodes[nid];
        let here = extended(path, zero, one, feature, calc);
        let room = phi.len() as int;
        assert(path_counts(here, off, room, width)) by {
            assert forall|i: int| 1 <= i < here.len() implies 0 <= off + (
            #[trigger] here[i]).feature_index < room && (off + here[i].feature_index) % width
                != width - 1 by {
                if i < path.len() {
                    assert(here[i].feature_index == path[i].feature_index);
                }
            }
        }
        if node.leafy() {
            leaves_agree(
                here,
                calc.widened(weighed(weight, node.leaf_value, calc)),
                fraction,
                phi,
                psi,
                off,
                here.len() - 1,
                width,
                calc,
            );
        } else {
            let less = (fuel - 1) as nat;
            let split = node.split_feature as int;
            let left = goes_left(node, tree.category_list(), row(node.split_feature));
            let hot = if left { node.left as int } else { node.right as int };
            let cold = if left { node.right as int } else { node.left as int };
            let hot_zero = child_share(nodes, nid, hot, calc);
            let cold_zero = child_share(nodes, nid, cold, calc);
            let place = feature_place(here, split, 1);
            let met = place < here.len();
            let in_zero = if met { here[place].zero_fraction } else { Wide { bits: ONE } };
            let in_one = if met { here[place].one_fraction } else { Wide { bits: ONE } };
            let onward = if met { unwound(here, place, calc) } else { here };
            assert(path_counts(onward, off, room, width)) by {
                if met {
                    feature_place_bounds(here, split, 1);
                    unwinding_keeps_features(here, place, 0, calc);
                    let p = unwinding(here, place, 0, calc).0;
                    assert forall|i: int| 1 <= i < onward.len() implies 0 <= off + (
                    #[trigger] onward[i]).feature_index < room && (off + onward[i].feature_index)
                        % width != width - 1 by {
                        if i < place {
                            assert(p[i].feature_index == here[i].feature_index);
                        } else {
                            assert(p[i + 1].feature_index == here[i + 1].feature_index);
                        }
                    }
                }
            }
            let (to_hot, to_cold) = condition_shares(
                Condition::Free,
                split,
                fraction,
                hot_zero,
                cold_zero,
                calc,
            );
            assert(nodes[nid].split_feature == split);
            attributions_agree(
                tree,
                weight,
                row,
                hot,
                onward,
                calc.times(hot_zero, in_zero),
                in_one,
                split as i64,
                phi,
                psi,
                off,
                to_hot,
                less,
                width,
                calc,
            );
            let x = attributed(
                tree,
                weight,
                row,
                hot,
                onward,
                calc.times(hot_zero, in_zero),
                in_one,
                split as i64,
                phi,
                off,
                Condition::Free,
                to_hot,
                less,
                calc,
            );
            let y = attributed(
                tree,
                weight,
                row,
                hot,
                onward,
                calc.times(hot_zero, in_zero),
                in_one,
                split as i64,
                psi,
                off,
                Condition::Free,
                to_hot,
                less,
                calc,
            );
            attributions_agree(
                tree,
                weight,
                row,
                cold,
                onward,
                calc.times(cold_zero, in_zero),
                Wide { bits: 0 },
                split as i64,
                x,
                y,
                off,
                to_cold,
                less,
                width,
                calc,
            );
        }
    }
}

proof fn trees_agree<F: Fn(Op, u64, u64) -> u64>(
    model: &BoostedModel,
    data: &DMatrix,
    row: int,
    x: Seq<Wide>,
    y: Seq<Wide>,
    n: int,
    calc: &Calc<F>,
)
    requires
        model.well_formed(),
        0 <= n <= model.tree_list().len(),
        x.len() == model.outputs() * (model.width() + 1),
        agree(x, y, model.width() + 1),
    ensures
        agree(
            with_means(model, data, row, x, n, calc),
            with_means(model, data, row, y, n, calc),
            model.width() + 1,
        ),
        with_means(model, data, row, x, n, calc).len() == x.len(),
    decreases n,
{
    if n > 0 {
        trees_agree(model, data, row, x, y, n - 1, calc);
        model.shape();
        let k = model.outputs();
        let width = model.width() + 1;
        let t = n - 1;
        let tree = model.tree_list()[t];
        let nodes = tree.node_list();
        let off = (t % k) * width;
        let p = with_means(model, data, row, x, t, calc);
        let q = with_means(model, data, row, y, t, calc);
        assert(walkable(&model.tree_list()[t], model.width()));
        assert(splits_count(nodes, off, p.len() as int, width)) by {
            assert forall|i: int| 0 <= i < nodes.len() && !(#[trigger] nodes[i]).leafy() implies 0
                <= off + nodes[i].split_feature < p.len() && (off + nodes[i].split_feature)
                % width != width - 1 by {
                entry_place(k, width, t % k, nodes[i].split_feature as int);
            }
        }
        attributions_agree(
            &tree,
            model.weight_list()[t],
            row_cells(data, row),
            0,
            Seq::empty(),
            Wide { bits: ONE },
            Wide { bits: ONE },
            -1i64,
            p,
            q,
            off,
            Wide { bits: ONE },
            nodes.len(),
            width,
            calc,
        );
        entry_place(k, width, t % k, model.width());
    }
}

/// The contributions of features do not depend on what the bias columns start
/// from.
pub proof fn base_scores_stay_in_the_bias<F: Fn(Op, u64, u64) -> u64>(
    model: &BoostedModel,
    data: &DMatrix,
    row: int,
    c: int,
    j: int,
    calc: &Calc<F>,
)
    requires
        model.well_formed(),
        0 <= c < model.outputs(),
        0 <= j < model.width(),
    ensures
        row_contribs(model, data, row, calc)[c * (model.width() + 1) + j] == with_means(
            model,
            data,
            row,
            linear_row(model, data, row, calc),
            model.tree_list().len() as int,
            calc,
        )[c * (model.width() + 1) + j],
{
    let k = model.outputs();
    let width = model.width() + 1;
    model.shape();
    let x = base_row(model, data, row, calc);
    let y = linear_row(model, data, row, calc);
    entry_place(k, width, c, j);
    trees_agree(model, data, row, x, y, model.tree_list().len() as int, calc);
}

proof fn columns_keep_the_sum<F: Fn(Op, u64, u64) -> u64>(
    mat: Seq<Wide>,
    on: Seq<Wide>,
    off: Seq<Wide>,
    mbase: int,
    dbase: int,
    width: int,
    j: int,
    n: int,
    val: spec_fn(Wide) -> Option<real>,
    calc: &Calc<F>,
)
    requires
        adds_exactly(val, calc),
        0 <= j < width,
        0 <= n <= width,
        0 <= mbase + j * width,
        mbase + j * width + width <= mat.len(),
    ensures
        ({
            let from = mbase + j * width;
            let r = with_columns(mat, on, off, mbase, dbase, width, j, n, calc);
            &&& r.len() == mat.len()
            &&& forall|p: int|
                0 <= p < mat.len() && !(from <= p < from + width) ==> #[trigger] r[p] == mat[p]
            &&& all_stand(r, from, width, val) ==> all_stand(mat, from, width, val) && sum_of(
                r,
                from,
                width,
                val,
            ) == sum_of(mat, from, width, val)
        }),
    decreases n,
{
    if n > 0 {
        columns_keep_the_sum(mat, on, off, mbase, dbase, width, j, n - 1, val, calc);
        let from = mbase + j * width;
        let m = with_columns(mat, on, off, mbase, dbase, width, j, n - 1, calc);
        let v = calc.times(
            Wide { bits: HALF },
            calc.minus(on[dbase + n - 1], off[dbase + n - 1]),
        );
        let cell = mbase + j * width + (n - 1);
        let diag = mbase + j * width + j;
        let up = calc.plus(m[cell], v);
        let raised = m.update(cell, up);
        let down = calc.minus(raised[diag], v);
        let r = raised.update(diag, down);
        assert(r == with_columns(mat, on, off, mbase, dbase, width, j, n, calc));
        if all_stand(r, from, width, val) {
            assert(val(r[diag]) is Some);
            assert(val(r[cell]) is Some);
            assert(val(raised[diag]) is Some && val(v) is Some);
            assert(val(raised[cell]) is Some);
            assert(val(m[cell]) is Some);
            assert forall|p: int| from <= p < from + width implies val(#[trigger] m[p]) is Some by {
                if p != cell && p != diag {
                    assert(r[p] == m[p]);
                }
            }
            one_place_moves_the_sum(m, cell, up, from, width, val);
            one_place_moves_the_sum(raised, diag, down, from, width, val);
        }
    }
}

/// Where row `t` of the matrix of output `c` starts.
pub open spec fn row_start(c: int, t: int, width: int) -> int {
    c * (width * width) + t * width
}

pub(crate) proof fn rows_lie_apart(k: int, width: int, c: int, t: int, d: int, j: int)
    requires
        0 <= c < k,
        0 <= t < width,
        0 <= d < k,
        0 <= j < width,
    ensures
        0 <= row_start(c, t, width),
        row_start(c, t, width) + width <= k * (width * width),
        c != d || t != j ==> row_start(c, t, width) + width <= row_start(d, j, width)
            || row_start(d, j, width) + width <= row_start(c, t, width),
{
    let u = c * width + t;
    let v = d * width + j;
    entry_place(k, width, c, t);
    entry_place(k, width, d, j);
    let all = k * width;
    assert(c * (width * width) == (c * width) * width) by (nonlinear_arith);
    assert(d * (width * width) == (d * width) * width) by (nonlinear_arith);
    assert(k * (width * width) == (k * width) * width) by (nonlinear_arith);
    let a = c * width;
    let b = d * width;
    assert(a * width + t * width == (a + t) * width) by (nonlinear_arith);
    assert(b * width + j * width == (b + j) * width) by (nonlinear_arith);
    assert(0 <= u * width && u * width + width <= all * width) by (nonlinear_arith)
        requires
            0 <= u < all,
            0 < width,
    ;
    if u < v {
        assert(u * width + width <= v * width) by (nonlinear_arith)
            requires
                u < v,
                0 < width,
        ;
    }
    if v < u {
        assert(v * width + width <= u * width) by (nonlinear_arith)
            requires
                v < u,
                0 < width,
        ;
    }
}

proof fn outputs_keep_the_sum<F: Fn(Op, u64, u64) -> u64>(
    mat: Seq<Wide>,
    on: Seq<Wide>,
    off: Seq<Wide>,
    width: int,
    j: int,
    n: int,
    k: int,
    c: int,
    t: int,
    val: spec_fn(Wide) -> Option<real>,
    calc: &Calc<F>,
)
    requires
        adds_exactly(val, calc),
        0 <= j < width,
        0 <= n <= k,
        0 <= c < k,
        0 <= t < width,
        mat.len() == k * (width * width),
    ensures
        ({
            let from = row_start(c, t, width);
            let r = with_output_columns(mat, on, off, width, j, n, calc);
            &&& r.len() == mat.len()
            &&& all_stand(r, from, width, val) ==> all_stand(mat, from, width, val) && sum_of(
                r,
                from,
                width,
                val,
            ) == sum_of(mat, from, width, val)
        }),
    decreases n,
{
    if n > 0 {
        outputs_keep_the_sum(mat, on, off, width, j, n - 1, k, c, t, val, calc);
        let from = row_start(c, t, width);
        let m = with_output_columns(mat, on, off, width, j, n - 1, calc);
        let mbase = (n - 1) * (width * width);
        rows_lie_apart(k, width, c, t, n - 1, j);
        rows_lie_apart(k, width, n - 1, j, c, t);
        columns_keep_the_sum(
            m,
            on,
            off,
            mbase,
            (n - 1) * width,
            width,
            j,
            width,
            val,
            calc,
        );
        let r = with_output_columns(mat, on, off, width, j, n, calc);
        if !(c == n - 1 && t == j) {
            assert forall|p: int| from <= p < from + width implies #[trigger] r[p]
                == #[trigger] m[p] by {}
            equal_places_have_equal_sums(r, m, from, width, val);
            if all_stand(r, from, width, val) {
                assert forall|p: int| from <= p < from + width implies val(
                    #[trigger] m[p],
                ) is Some by {
                    assert(r[p] == m[p]);
                }
            }
        }
    }
}

proof fn features_keep_the_sum<F: Fn(Op, u64, u64) -> u64>(
    model: &BoostedModel,
    data: &DMatrix,
    row: int,
    mat: Seq<Wide>,
    n: int,
    c: int,
    t: int,
    val: spec_fn(Wide) -> Option<real>,
    calc: &Calc<F>,
)
    requires
        adds_exactly(val, calc),
        0 <= n <= model.width(),
        0 <= c < model.outputs(),
        0 <= t <= model.width(),
        mat.len() == model.outputs() * ((model.width() + 1) * (model.width() + 1)),
    ensures
        ({
            let width = model.width() + 1;
            let from = row_start(c, t, width);
            let r = with_interactions(model, data, row, mat, n, calc);
            &&& r.len() == mat.len()
            &&& all_stand(r, from, width, val) ==> all_stand(mat, from, width, val) && sum_of(
                r,
                from,
                width,
                val,
            ) == sum_of(mat, from, width, val)
        }),
    decreases n,
{
    if n > 0 {
        features_keep_the_sum(model, data, row, mat, n - 1, c, t, val, calc);
        let all = model.tree_list().len() as int;
        let f = (n - 1) as u32;
        outputs_keep_the_sum(
            with_interactions(model, data, row, mat, n - 1, calc),
            under_condition(model, data, row, Condition::Present(f), all, calc),
            under_condition(model, data, row, Condition::Absent(f), all, calc),
            model.width() + 1,
            n - 1,
            model.outputs(),
            model.outputs(),
            c,
            t,
            val,
            calc,
        );
    }
}

proof fn diagonal_rows_sum_to_one_place(
    mat: Seq<Wide>,
    from: int,
    t: int,
    n: int,
    val: spec_fn(Wide) -> Option<real>,
)
    requires
        val(Wide { bits: 0 }) == Some(0real),
        0 <= n,
        0 <= t,
        forall|p: int| from <= p < from + n && p != from + t ==> #[trigger] mat[p] == (Wide {
            bits: 0,
        }),
    ensures
        sum_of(mat, from, n, val) == if t < n {
            val(mat[from + t])->0
        } else {
            0real
        },
    decreases n,
{
    if n > 0 {
        diagonal_rows_sum_to_one_place(mat, from, t, n - 1, val);
    }
}

/// The contributions of a row without the base score.
pub open spec fn bare_contribs<F: Fn(Op, u64, u64) -> u64>(
    model: &BoostedModel,
    data: &DMatrix,
    row: int,
    calc: &Calc<F>,
) -> Seq<Wide> {
    with_means(
        model,
        data,
        row,
        linear_row(model, data, row, calc),
        model.tree_list().len() as int,
        calc,
    )
}

proof fn rows_sum_to_diagonals<F: Fn(Op, u64, u64) -> u64>(
    model: &BoostedModel,
    data: &DMatrix,
    row: int,
    c: int,
    j: int,
    val: spec_fn(Wide) -> Option<real>,
    calc: &Calc<F>,
)
    requires
        adds_exactly(val, calc),
        model.well_formed(),
        0 <= c < model.outputs(),
        0 <= j <= model.width(),
        all_stand(
            row_interactions(model, data, row, calc),
            row_start(c, j, model.width() + 1),
            model.width() + 1,
            val,
        ),
    ensures
        val(bare_contribs(model, data, row, calc)[c * (model.width() + 1) + j]) == Some(
            sum_of(
                row_interactions(model, data, row, calc),
                row_start(c, j, model.width() + 1),
                model.width() + 1,
                val,
            ),
        ),
{
    let k = model.outputs();
    let width = model.width() + 1;
    let square = width * width;
    let from = row_start(c, j, width);
    model.shape();
    let mat = diagonals(model, data, row, calc);
    let diag = bare_contribs(model, data, row, calc);
    rows_lie_apart(k, width, c, j, c, j);
    assert(0 < square) by (nonlinear_arith)
        requires
            0 < width,
            square == width * width,
    ;
    features_keep_the_sum(model, data, row, mat, model.width(), c, j, val, calc);
    assert forall|i: int| 0 <= i < width implies #[trigger] mat[from + i] == if i == j {
        diag[c * width + j]
    } else {
        Wide { bits: 0 }
    } by {
        entry_place(width, width, j, i);
        entry_place(k, square, c, j * width + i);
        assert(from + i == c * square + (j * width + i));
    }
    assert(mat[from + j] == diag[c * width + j]);
    assert forall|p: int| from <= p < from + width && p != from + j implies #[trigger] mat[p] == (
    Wide { bits: 0 }) by {
        assert(mat[from + (p - from)] == mat[p]);
    }
    diagonal_rows_sum_to_one_place(mat, from, j, width, val);
}

/// In an arithmetic that does not round sums, the row of a feature in an
/// interaction matrix adds up to the feature's contribution.
pub proof fn interactions_sum_to_contributions<F: Fn(Op, u64, u64) -> u64>(
    model: &BoostedModel,
    data: &DMatrix,
    row: int,
    c: int,
    j: int,
    val: spec_fn(Wide) -> Option<real>,
    calc: &Calc<F>,
)
    requires
        adds_exactly(val, calc),
        model.well_formed(),
        0 <= c < model.outputs(),
        0 <= j < model.width(),
        all_stand(
            row_interactions(model, data, row, calc),
            row_start(c, j, model.width() + 1),
            model.width() + 1,
            val,
        ),
    ensures
        val(row_contribs(model, data, row, calc)[c * (model.width() + 1) + j]) == Some(
            sum_of(
                row_interactions(model, data, row, calc),
                row_start(c, j, model.width() + 1),
                model.width() + 1,
                val,
            ),
        ),
{
    rows_sum_to_diagonals(model, data, row, c, j, val, calc);
    base_scores_stay_in_the_bias(model, data, row, c, j, calc);
}

proof fn sums_join(
    phi: Seq<Wide>,
    from: int,
    a: int,
    b: int,
    val: spec_fn(Wide) -> Option<real>,
)
    requires
        0 <= a,
        0 <= b,
    ensures
        sum_of(phi, from, a + b, val) == sum_of(phi, from, a, val) + sum_of(
            phi,
            from + a,
            b,
            val,
        ),
    decreases b,
{
    if b > 0 {
        sums_join(phi, from, a, b - 1, val);
    }
}

proof fn first_rows_sum_to_diagonals<F: Fn(Op, u64, u64) -> u64>(
    model: &BoostedModel,
    data: &DMatrix,
    row: int,
    c: int,
    n: int,
    val: spec_fn(Wide) -> Option<real>,
    calc: &Calc<F>,
)
    requires
        adds_exactly(val, calc),
        model.well_formed(),
        0 <= c < model.outputs(),
        0 <= n <= model.width() + 1,
        all_stand(
            row_interactions(model, data, row, calc),
            row_start(c, 0, model.width() + 1),
            (model.width() + 1) * (model.width() + 1),
            val,
        ),
    ensures
        all_stand(
            bare_contribs(model, data, row, calc),
            c * (model.width() + 1),
            n,
            val,
        ),
        sum_of(
            row_interactions(model, data, row, calc),
            row_start(c, 0, model.width() + 1),
            n * (model.width() + 1),
            val,
        ) == sum_of(
            bare_contribs(model, data, row, calc),
            c * (model.width() + 1),
            n,
            val,
        ),
    decreases n,
{
    let width = model.width() + 1;
    let mat = row_interactions(model, data, row, calc);
    let from = row_start(c, 0, width);
    model.shape();
    if n <= 0 {
        assert(0 * width == 0) by (nonlinear_arith);
    } else {
        first_rows_sum_to_diagonals(model, data, row, c, n - 1, val, calc);
        let t = n - 1;
        assert(0 * width == 0) by (nonlinear_arith);
        assert(n * width == t * width + width) by (nonlinear_arith)
            requires
                n == t + 1,
        ;
        assert(0 <= t * width && t * width + width <= width * width) by (nonlinear_arith)
            requires
                0 <= t < width,
        ;
        assert(row_start(c, t, width) == from + t * width);
        assert(all_stand(mat, row_start(c, t, width), width, val));
        rows_sum_to_diagonals(model, data, row, c, t, val, calc);
        sums_join(mat, from, t * width, width, val);
        let diag = bare_contribs(model, data, row, calc);
        assert forall|p: int| c * width <= p < c * width + n implies val(
            #[trigger] diag[p],
        ) is Some by {
            if p < c * width + t {
                assert(all_stand(diag, c * width, t, val));
            }
        }
    }
}

/// In an arithmetic that does not round, an interaction matrix of a model of
/// trees adds up to the row's margin less the base score.
pub proof fn interactions_sum_to_margins<F: Fn(Op, u64, u64) -> u64>(
    model: &BoostedModel,
    data: &DMatrix,
    row: int,
    c: int,
    val: spec_fn(Wide) -> Option<real>,
    calc: &Calc<F>,
)
    requires
        is_exact(val, calc),
        singles_add(val, calc),
        model.well_formed(),
        model.laid_out(),
        model.linear_part() is None,
        model_covers_stand(model, val, calc),
        data.margin_list() is None,
        0 <= row < data.height(),
        0 <= c < model.outputs(),
        all_stand(
            row_interactions(model, data, row, calc),
            row_start(c, 0, model.width() + 1),
            (model.width() + 1) * (model.width() + 1),
            val,
        ),
        val(calc.widened(model.margins(data, 0, calc)[row * model.outputs() + c])) is Some,
    ensures
        sum_of(
            row_interactions(model, data, row, calc),
            row_start(c, 0, model.width() + 1),
            (model.width() + 1) * (model.width() + 1),
            val,
        ) == val(calc.widened(model.margins(data, 0, calc)[row * model.outputs() + c]))->0 - val(
            calc.widened(model.base()),
        )->0,
{
    let k = model.outputs();
    let width = model.width() + 1;
    let n = model.tree_list().len() as int;
    let from = c * width;
    model.shape();
    let start = linear_row(model, data, row, calc);
    first_rows_sum_to_diagonals(model, data, row, c, width, val, calc);
    trees_add_up(model, data, row, c, start, n, val, calc);
    margins_add_up(model, data, row, c, n, val, calc);
    entry_place(k, width, c, model.width());
    assert forall|p: int| from <= p < from + width implies #[trigger] start[p] == (Wide {
        bits: 0,
    }) by {
        entry_place(k, width, c, p - from);
    }
    zeros_sum_to_zero(start, from, width, val);
}

} // verus!
