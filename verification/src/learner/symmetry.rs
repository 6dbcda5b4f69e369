//! Interaction matrices are symmetric.

use vstd::prelude::*;

use crate::arith::{Calc, Op};
use crate::data::dmatrix::DMatrix;
use crate::exact::is_exact;
use crate::layout::entry_place;
use crate::learner::additivity::{blocks_lie_apart, model_covers_stand, roots_follow};
use crate::learner::contribs::{
    diagonals, row_cells, row_interactions, under_condition, with_columns, with_interactions,
    with_output_columns, zeros,
};
use crate::learner::flows::{
    fixed_attributions_flow, fixing, flow, flows_differ_alike, path_is, shares_of, without, Met,
};
use crate::learner::interaction_laws::{row_start, rows_lie_apart};
use crate::learner::margin::walkable;
use crate::learner::model::BoostedModel;
use crate::learner::orderings::Shares;
use crate::learner::shap::{extended, Condition, PathElement};
use crate::number::{Wide, HALF, ONE};

verus! {

/// The attribution of feature `a` to an output over the first `n` trees while
/// feature `b` is held fixed.
pub open spec fn flows<F: Fn(Op, u64, u64) -> u64>(
    model: &BoostedModel,
    data: &DMatrix,
    row: int,
    c: int,
    a: int,
    b: int,
    present: bool,
    n: int,
    val: spec_fn(Wide) -> Option<real>,
    calc: &Calc<F>,
) -> real
    decreases n,
{
    if n <= 0 {
        0real
    } else {
        let rest = flows(model, data, row, c, a, b, present, n - 1, val, calc);
        let tree = model.tree_list()[n - 1];
        if (n - 1) % model.outputs() == c {
            rest + flow(
                &tree,
                model.weight_list()[n - 1],
                row_cells(data, row),
                0,
                tree.node_list().len(),
                Seq::empty(),
                a,
                b,
                present,
                val,
                calc,
            )
        } else {
            rest
        }
    }
}

proof fn flows_swap<F: Fn(Op, u64, u64) -> u64>(
    model: &BoostedModel,
    data: &DMatrix,
    row: int,
    c: int,
    a: int,
    b: int,
    n: int,
    val: spec_fn(Wide) -> Option<real>,
    calc: &Calc<F>,
)
    ensures
        flows(model, data, row, c, a, b, true, n, val, calc) - flows(
            model,
            data,
            row,
            c,
            a,
            b,
            false,
            n,
            val,
            calc,
        ) == flows(model, data, row, c, b, a, true, n, val, calc) - flows(
            model,
            data,
            row,
            c,
            b,
            a,
            false,
            n,
            val,
            calc,
        ),
    decreases n,
{
    if n > 0 {
        flows_swap(model, data, row, c, a, b, n - 1, val, calc);
        let tree = model.tree_list()[n - 1];
        flows_differ_alike(
            &tree,
            model.weight_list()[n - 1],
            row_cells(data, row),
            0,
            tree.node_list().len(),
            Seq::empty(),
            a,
            b,
            val,
            calc,
        );
    }
}

proof fn conditions_flow<F: Fn(Op, u64, u64) -> u64>(
    model: &BoostedModel,
    data: &DMatrix,
    row: int,
    c: int,
    a: int,
    b: int,
    present: bool,
    n: int,
    val: spec_fn(Wide) -> Option<real>,
    calc: &Calc<F>,
)
    requires
        is_exact(val, calc),
        model.well_formed(),
        model.laid_out(),
        model_covers_stand(model, val, calc),
        0 <= c < model.outputs(),
        0 <= a < model.width(),
        0 <= b < model.width(),
        b <= u32::MAX,
        a != b,
        0 <= n <= model.tree_list().len(),
    ensures
        ({
            let width = model.width() + 1;
            let r = under_condition(model, data, row, fixing(b, present), n, calc);
            &&& r.len() == model.outputs() * width
            &&& val(r[c * width + a]) is Some ==> val(r[c * width + a])->0 == flows(
                model,
                data,
                row,
                c,
                a,
                b,
                present,
                n,
                val,
                calc,
            )
        }),
    decreases n,
{
    let k = model.outputs();
    let nf = model.width();
    let width = nf + 1;
    model.shape();
    entry_place(k, width, c, a);
    if n <= 0 {
        assert(zeros(k * width)[c * width + a] == (Wide { bits: 0 }));
    } else {
        conditions_flow(model, data, row, c, a, b, present, n - 1, val, calc);
        let t = n - 1;
        let o = t % k;
        let off = o * width;
        let one = Wide { bits: ONE };
        let tree = model.tree_list()[t];
        let nodes = tree.node_list();
        let none = Seq::<PathElement>::empty();
        let before = under_condition(model, data, row, fixing(b, present), t, calc);
        assert(walkable(&model.tree_list()[t], nf));
        assert(model.tree_list()[t].grown());
        entry_place(k, width, o, nf);
        entry_place(k, width, o, 0);
        roots_follow(val, calc);
        let nobody = Seq::<Met>::empty();
        assert(without(nobody, b) =~= nobody) by {
            reveal(Seq::filter);
        }
        assert(shares_of(nobody) =~= Seq::<Shares>::empty());
        assert(path_is(extended(none, one, one, -1i64, calc), without(nobody, b), val));
        assert(!fixing(b, present).fixes(-1));
        fixed_attributions_flow(
            &tree,
            model.weight_list()[t],
            row_cells(data, row),
            0,
            none,
            one,
            one,
            -1i64,
            nobody,
            a,
            b,
            present,
            before,
            off,
            nf,
            one,
            nodes.len(),
            val,
            calc,
        );
        if o != c {
            blocks_lie_apart(width, o, c);
        }
    }
}

/// What a pair of features takes up: half of the difference that the one makes
/// to the other.
pub open spec fn taken_up<F: Fn(Op, u64, u64) -> u64>(
    on: Seq<Wide>,
    off: Seq<Wide>,
    at: int,
    calc: &Calc<F>,
) -> Wide {
    calc.times(Wide { bits: HALF }, calc.minus(on[at], off[at]))
}

proof fn columns_take_up<F: Fn(Op, u64, u64) -> u64>(
    mat: Seq<Wide>,
    on: Seq<Wide>,
    off: Seq<Wide>,
    mbase: int,
    dbase: int,
    width: int,
    j: int,
    n: int,
    i: int,
    calc: &Calc<F>,
)
    requires
        0 <= j < width,
        0 <= i < width,
        i != j,
        0 <= n <= width,
        0 <= mbase + j * width,
        mbase + j * width + width <= mat.len(),
    ensures
        ({
            let from = mbase + j * width;
            let r = with_columns(mat, on, off, mbase, dbase, width, j, n, calc);
            &&& r.len() == mat.len()
            &&& forall|p: int|
                0 <= p < mat.len() && !(from <= p < from + width) ==> #[trigger] r[p] == mat[p]
            &&& r[from + i] == if i < n {
                calc.plus(mat[from + i], taken_up(on, off, dbase + i, calc))
            } else {
                mat[from + i]
            }
        }),
    decreases n,
{
    if n > 0 {
        columns_take_up(mat, on, off, mbase, dbase, width, j, n - 1, i, calc);
    }
}

proof fn outputs_take_up<F: Fn(Op, u64, u64) -> u64>(
    mat: Seq<Wide>,
    on: Seq<Wide>,
    off: Seq<Wide>,
    width: int,
    j: int,
    n: int,
    k: int,
    c: int,
    t: int,
    i: int,
    calc: &Calc<F>,
)
    requires
        0 <= j < width,
        0 <= t < width,
        0 <= i < width,
        i != t,
        0 <= n <= k,
        0 <= c < k,
        mat.len() == k * (width * width),
    ensures
        ({
            let at = row_start(c, t, width) + i;
            let r = with_output_columns(mat, on, off, width, j, n, calc);
            &&& r.len() == mat.len()
            &&& r[at] == if c < n && t == j {
                calc.plus(mat[at], taken_up(on, off, c * width + i, calc))
            } else {
                mat[at]
            }
        }),
    decreases n,
{
    if n > 0 {
        outputs_take_up(mat, on, off, width, j, n - 1, k, c, t, i, calc);
        let m = with_output_columns(mat, on, off, width, j, n - 1, calc);
        let mbase = (n - 1) * (width * width);
        rows_lie_apart(k, width, c, t, n - 1, j);
        rows_lie_apart(k, width, n - 1, j, c, t);
        let other = if i != j {
            i
        } else {
            t
        };
        columns_take_up(m, on, off, mbase, (n - 1) * width, width, j, width, other, calc);
    }
}

proof fn features_take_up<F: Fn(Op, u64, u64) -> u64>(
    model: &BoostedModel,
    data: &DMatrix,
    row: int,
    mat: Seq<Wide>,
    n: int,
    c: int,
    t: int,
    i: int,
    calc: &Calc<F>,
)
    requires
        0 <= n <= model.width(),
        0 <= c < model.outputs(),
        0 <= t < model.width(),
        0 <= i < model.width(),
        i != t,
        mat.len() == model.outputs() * ((model.width() + 1) * (model.width() + 1)),
    ensures
        ({
            let width = model.width() + 1;
            let at = row_start(c, t, width) + i;
            let all = model.tree_list().len() as int;
            let r = with_interactions(model, data, row, mat, n, calc);
            &&& r.len() == mat.len()
            &&& r[at] == if t < n {
                calc.plus(
                    mat[at],
                    taken_up(
                        under_condition(model, data, row, Condition::Present(t as u32), all, calc),
                        under_condition(model, data, row, Condition::Absent(t as u32), all, calc),
                        c * width + i,
                        calc,
                    ),
                )
            } else {
                mat[at]
            }
        }),
    decreases n,
{
    if n > 0 {
        features_take_up(model, data, row, mat, n - 1, c, t, i, calc);
        let all = model.tree_list().len() as int;
        let f = (n - 1) as u32;
        outputs_take_up(
            with_interactions(model, data, row, mat, n - 1, calc),
            under_condition(model, data, row, Condition::Present(f), all, calc),
            under_condition(model, data, row, Condition::Absent(f), all, calc),
            model.width() + 1,
            n - 1,
            model.outputs(),
            model.outputs(),
            c,
            t,
            i,
            calc,
        );
    }
}

proof fn cells_are_flows<F: Fn(Op, u64, u64) -> u64>(
    model: &BoostedModel,
    data: &DMatrix,
    row: int,
    c: int,
    t: int,
    i: int,
    val: spec_fn(Wide) -> Option<real>,
    calc: &Calc<F>,
)
    requires
        is_exact(val, calc),
        model.well_formed(),
        model.laid_out(),
        model_covers_stand(model, val, calc),
        model.width() <= u32::MAX,
        0 <= c < model.outputs(),
        0 <= t < model.width(),
        0 <= i < model.width(),
        i != t,
        val(
            row_interactions(model, data, row, calc)[row_start(c, t, model.width() + 1) + i],
        ) is Some,
    ensures
        val(
            row_interactions(model, data, row, calc)[row_start(c, t, model.width() + 1) + i],
        )->0 == val(Wide { bits: HALF })->0 * (flows(
            model,
            data,
            row,
            c,
            i,
            t,
            true,
            model.tree_list().len() as int,
            val,
            calc,
        ) - flows(
            model,
            data,
            row,
            c,
            i,
            t,
            false,
            model.tree_list().len() as int,
            val,
            calc,
        )),
{
    let k = model.outputs();
    let width = model.width() + 1;
    let square = width * width;
    let n = model.tree_list().len() as int;
    let at = row_start(c, t, width) + i;
    model.shape();
    let mat = diagonals(model, data, row, calc);
    rows_lie_apart(k, width, c, t, c, t);
    assert(0 < square) by (nonlinear_arith)
        requires
            0 < width,
            square == width * width,
    ;
    entry_place(width, width, t, i);
    entry_place(k, square, c, t * width + i);
    assert(mat[at] == (Wide { bits: 0 }));
    features_take_up(model, data, row, mat, model.width(), c, t, i, calc);
    conditions_flow(model, data, row, c, i, t, true, n, val, calc);
    conditions_flow(model, data, row, c, i, t, false, n, val, calc);
    let on = under_condition(model, data, row, Condition::Present(t as u32), n, calc);
    let off = under_condition(model, data, row, Condition::Absent(t as u32), n, calc);
    let d = calc.minus(on[c * width + i], off[c * width + i]);
    let v = calc.times(Wide { bits: HALF }, d);
    let cell = row_interactions(model, data, row, calc)[at];
    assert(cell == calc.plus(mat[at], v));
    assert(val(v) is Some);
    assert(val(d) is Some);
    assert(fixing(t, true) == Condition::Present(t as u32));
    assert(fixing(t, false) == Condition::Absent(t as u32));
}

/// In an arithmetic that does not round, an interaction matrix is symmetric: two
/// features have the same interaction, whichever of them is held fixed.
pub proof fn interactions_are_symmetric<F: Fn(Op, u64, u64) -> u64>(
    model: &BoostedModel,
    data: &DMatrix,
    row: int,
    c: int,
    i: int,
    j: int,
    val: spec_fn(Wide) -> Option<real>,
    calc: &Calc<F>,
)
    requires
        is_exact(val, calc),
        model.well_formed(),
        model.laid_out(),
        model_covers_stand(model, val, calc),
        model.width() <= u32::MAX,
        0 <= c < model.outputs(),
        0 <= i < model.width(),
        0 <= j < model.width(),
        val(
            row_interactions(model, data, row, calc)[row_start(c, i, model.width() + 1) + j],
        ) is Some,
        val(
            row_interactions(model, data, row, calc)[row_start(c, j, model.width() + 1) + i],
        ) is Some,
    ensures
        val(row_interactions(model, data, row, calc)[row_start(c, i, model.width() + 1) + j])
            == val(
            row_interactions(model, data, row, calc)[row_start(c, j, model.width() + 1) + i],
        ),
{
    if i != j {
        cells_are_flows(model, data, row, c, i, j, val, calc);
        cells_are_flows(model, data, row, c, j, i, val, calc);
        flows_swap(model, data, row, c, i, j, model.tree_list().len() as int, val, calc);
    }
}

} // verus!
