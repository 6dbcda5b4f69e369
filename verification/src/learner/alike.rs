//! What training depends on: the cells of a dataset and what is attached to
//! it, not the way in which it is stored.

use vstd::prelude::*;

use crate::arith::{Calc, Op};
use crate::config::TrainingParams;
use crate::data::dmatrix::{csr_row, dense_row, DMatrix};
use crate::layout::entry_place;
use crate::learner::boost::data_groups;
use crate::learner::margin::{margins_of, start_margins, tree_value, with_tree};
use crate::learner::prepare::{exact_tree, Prepared};
use crate::number::Single;
use crate::objective::pair::GradPair;
use crate::tree::builder::exact::{
    applied, by_value, first_stage, last_stage, level_best, level_limit, new_weights, next_stage,
    row_of, stage_bests, Setting, Stage,
};
use crate::tree::builder::growth::{target_of, Best, Grown, Target};
use crate::tree::gain::RegParams;
use crate::tree::interaction::groups_view;
use crate::tree::regtree::RegTree;
use crate::tree::sampler::draw_at;

verus! {

/// Whether two datasets hold the same cells and have the same things attached.
pub open spec fn alike(a: &DMatrix, b: &DMatrix) -> bool {
    &&& a.same_cells(b)
    &&& a.label_list() == b.label_list()
    &&& a.weight_list() == b.weight_list()
    &&& a.margin_list() == b.margin_list()
    &&& data_groups(a) == data_groups(b)
    &&& a.types() == b.types()
}

/// A sparse matrix that lists every cell of a dense one, row by row and column
/// by column, holds the same rows.
pub proof fn full_sparse_rows_are_dense_rows(
    data: Seq<Single>,
    n_rows: int,
    n_cols: int,
    indptr: Seq<usize>,
    indices: Seq<u32>,
    r: int,
)
    requires
        0 <= r < n_rows,
        0 < n_cols <= u32::MAX,
        data.len() == n_rows * n_cols,
        indptr.len() == n_rows + 1,
        forall|i: int| 0 <= i <= n_rows ==> #[trigger] indptr[i] == i * n_cols,
        indices.len() == data.len(),
        forall|k: int| 0 <= k < indices.len() ==> #[trigger] indices[k] == k % n_cols,
    ensures
        csr_row(indptr, indices, data, r) == dense_row(data, n_cols, r),
{
    assert(indptr[r] == r * n_cols);
    assert(indptr[r + 1] == (r + 1) * n_cols);
    assert((r + 1) * n_cols == r * n_cols + n_cols) by (nonlinear_arith);
    let sparse = csr_row(indptr, indices, data, r);
    let dense = dense_row(data, n_cols, r);
    assert forall|c: int| 0 <= c < n_cols implies #[trigger] sparse[c] == dense[c] by {
        entry_place(n_rows, n_cols, r, c);
        assert(indices[r * n_cols + c] == c);
    }
    assert(sparse =~= dense);
}

pub(crate) proof fn cells_are_alike(a: &DMatrix, b: &DMatrix, r: int, c: int)
    requires
        a.same_cells(b),
    ensures
        a.cell(r, c) == b.cell(r, c),
        a.entries(r) == b.entries(r),
{
    assert(a.stored(r) == b.stored(r));
}

pub(crate) proof fn columns_are_alike(a: &DMatrix, b: &DMatrix, c: int, n: int)
    requires
        a.same_cells(b),
    ensures
        a.column_prefix(c, n) == b.column_prefix(c, n),
    decreases n,
{
    if n > 0 {
        columns_are_alike(a, b, c, n - 1);
        cells_are_alike(a, b, n - 1, c);
    }
}

/// Whether two settings are the same but for how their columns are stored.
pub open spec fn same_setting(a: Setting, b: Setting) -> bool {
    &&& forall|c: int| #[trigger] a.cols.pairs(c) == b.cols.pairs(c)
    &&& a.types == b.types
    &&& a.gp == b.gp
    &&& a.cons.directions() == b.cons.directions()
    &&& a.reg == b.reg
    &&& a.gamma == b.gamma
    &&& a.groups == b.groups
}

proof fn level_bests_are_alike<F: Fn(Op, u64, u64) -> u64>(
    a: Setting,
    b: Setting,
    node_of: Seq<Option<usize>>,
    fs: Seq<u32>,
    nid: int,
    path: Seq<u32>,
    target: Target,
    n: int,
    calc: &Calc<F>,
)
    requires
        same_setting(a, b),
    ensures
        level_best(a, node_of, fs, nid, path, target, n, calc) == level_best(
            b,
            node_of,
            fs,
            nid,
            path,
            target,
            n,
            calc,
        ),
    decreases n,
{
    if n > 0 {
        level_bests_are_alike(a, b, node_of, fs, nid, path, target, n - 1, calc);
        let f = fs[n - 1];
        assert(a.cols.pairs(f as int) == b.cols.pairs(f as int));
        assert(a.cons.direction(f as int) == b.cons.direction(f as int));
    }
}

proof fn applications_are_alike<F: Fn(Op, u64, u64) -> u64>(
    a: Setting,
    b: Setting,
    g: Grown,
    active: Seq<usize>,
    bests: Seq<Best>,
    n: int,
    calc: &Calc<F>,
)
    requires
        same_setting(a, b),
    ensures
        applied(a, g, active, bests, n, calc) == applied(b, g, active, bests, n, calc),
    decreases n,
{
    if n > 0 {
        applications_are_alike(a, b, g, active, bests, n - 1, calc);
        let best = bests[n - 1];
        assert(a.cons.direction(best.feature as int) == b.cons.direction(best.feature as int));
        assert(a.cons.active() == b.cons.active());
        assert(new_weights(a, best, calc) == new_weights(b, best, calc));
    }
}

proof fn stages_are_alike<F: Fn(Op, u64, u64) -> u64>(
    a: Setting,
    b: Setting,
    da: &DMatrix,
    db: &DMatrix,
    stage: Stage,
    calc: &Calc<F>,
)
    requires
        same_setting(a, b),
        da.same_cells(db),
    ensures
        next_stage(a, da, stage, calc) == next_stage(b, db, stage, calc),
{
    let fs = draw_at(stage.sampling, calc);
    let x = stage_bests(a, stage, calc);
    let y = stage_bests(b, stage, calc);
    assert(a.cons.active() == b.cons.active());
    assert forall|s: int| 0 <= s < stage.active.len() implies #[trigger] x[s] == y[s] by {
        level_bests_are_alike(
            a,
            b,
            stage.node_of,
            fs,
            stage.active[s] as int,
            stage.g.paths[stage.active[s] as int],
            target_of(
                stage.g.stats[stage.active[s] as int],
                stage.g.bounds[stage.active[s] as int],
                a.cons.active(),
                a.reg,
                calc,
            ),
            fs.len() as int,
            calc,
        );
    }
    assert(x =~= y);
    applications_are_alike(a, b, stage.g, stage.active, x, stage.active.len() as int, calc);
    let p = next_stage(a, da, stage, calc);
    let q = next_stage(b, db, stage, calc);
    assert forall|r: int| 0 <= r < stage.node_of.len() implies #[trigger] p.node_of[r]
        == q.node_of[r] by {
        if let Some(nid) = stage.node_of[r] {
            let f = p.g.nodes[nid as int].split_feature;
            cells_are_alike(da, db, r, f as int);
            assert(row_of(da, r)(f) == row_of(db, r)(f));
        }
    }
    assert(p.node_of =~= q.node_of);
    assert(p =~= q);
}

proof fn ends_are_alike<F: Fn(Op, u64, u64) -> u64>(
    a: Setting,
    b: Setting,
    da: &DMatrix,
    db: &DMatrix,
    stage: Stage,
    levels: nat,
    calc: &Calc<F>,
)
    requires
        same_setting(a, b),
        da.same_cells(db),
    ensures
        last_stage(a, da, stage, levels, calc) == last_stage(b, db, stage, levels, calc),
    decreases levels,
{
    if levels > 0 && stage.active.len() > 0 {
        stages_are_alike(a, b, da, db, stage, calc);
        ends_are_alike(
            a,
            b,
            da,
            db,
            next_stage(a, da, stage, calc),
            (levels - 1) as nat,
            calc,
        );
    }
}

/// Whether two trees have the same nodes and categories.
pub open spec fn same_tree(a: &RegTree, b: &RegTree) -> bool {
    &&& a.node_list() == b.node_list()
    &&& a.category_list() == b.category_list()
}

pub(crate) proof fn exact_trees_are_alike<F: Fn(Op, u64, u64) -> u64>(
    params: TrainingParams,
    pa: &Prepared,
    pb: &Prepared,
    da: &DMatrix,
    db: &DMatrix,
    gp: Seq<GradPair>,
    rows: Seq<u32>,
    sampling: crate::tree::sampler::Sampling,
    ta: &RegTree,
    tb: &RegTree,
    calc: &Calc<F>,
)
    requires
        alike(da, db),
        pa is Exact,
        pb is Exact,
        pa.fits(params, da, calc),
        pb.fits(params, db, calc),
        pa.may_grow(params, da, gp, rows, sampling, ta, calc),
        pb.may_grow(params, db, gp, rows, sampling, tb, calc),
    ensures
        same_tree(ta, tb),
{
    let ca = pa->Exact_0;
    let cb = pb->Exact_0;
    let ka = choose|k: crate::tree::constraints::MonotoneConstraints| #[trigger]
        exact_tree(params, k, &ca, da, gp, rows, sampling, ta, calc);
    let kb = choose|k: crate::tree::constraints::MonotoneConstraints| #[trigger]
        exact_tree(params, k, &cb, db, gp, rows, sampling, tb, calc);
    let a = Setting {
        cols: ca,
        types: da.types(),
        gp,
        cons: ka,
        reg: RegParams::of(&params),
        gamma: params.gamma,
        groups: groups_view(params.interaction_constraints@),
    };
    let b = Setting {
        cols: cb,
        types: db.types(),
        gp,
        cons: kb,
        reg: RegParams::of(&params),
        gamma: params.gamma,
        groups: groups_view(params.interaction_constraints@),
    };
    assert forall|c: int| #[trigger] a.cols.pairs(c) == b.cols.pairs(c) by {
        if 0 <= c < da.width() {
            columns_are_alike(da, db, c, da.height());
            assert(ca.pairs(c) == by_value(da.column_prefix(c, da.height())));
            assert(cb.pairs(c) == by_value(db.column_prefix(c, db.height())));
        } else {
            ca.no_pairs_beyond(c);
            cb.no_pairs_beyond(c);
            assert(ca.pairs(c) =~= cb.pairs(c));
        }
    }
    assert(same_setting(a, b));
    ends_are_alike(
        a,
        b,
        da,
        db,
        first_stage(gp, rows, da.height(), sampling, calc),
        level_limit(params.max_depth),
        calc,
    );
}

pub(crate) proof fn margins_are_alike<F: Fn(Op, u64, u64) -> u64>(
    ta: Seq<RegTree>,
    tb: Seq<RegTree>,
    weights: Seq<Single>,
    dropped: Seq<bool>,
    da: &DMatrix,
    db: &DMatrix,
    base: Single,
    k: int,
    n: int,
    calc: &Calc<F>,
)
    requires
        alike(da, db),
        forall|t: int| 0 <= t < n ==> same_tree(#[trigger] &ta[t], &tb[t]),
    ensures
        margins_of(ta, weights, dropped, da, base, k, n, calc) == margins_of(
            tb,
            weights,
            dropped,
            db,
            base,
            k,
            n,
            calc,
        ),
    decreases n,
{
    if n <= 0 {
        assert(start_margins(da, base, k) =~= start_margins(db, base, k));
    } else {
        margins_are_alike(ta, tb, weights, dropped, da, db, base, k, n - 1, calc);
        let rest = margins_of(ta, weights, dropped, da, base, k, n - 1, calc);
        let x = &ta[n - 1];
        let y = &tb[n - 1];
        assert(same_tree(&ta[n - 1], &tb[n - 1]));
        assert forall|row: int| #[trigger] tree_value(x, da, row) == tree_value(y, db, row) by {
            let fa = |f: u32| da.cell(row, f as int);
            let fb = |f: u32| db.cell(row, f as int);
            assert forall|f: u32| #[trigger] fa(f) == fb(f) by {
                cells_are_alike(da, db, row, f as int);
            }
            assert(fa =~= fb);
        }
        assert(with_tree(rest, x, weights[n - 1], da, (n - 1) % k, k, calc) =~= with_tree(
            rest,
            y,
            weights[n - 1],
            db,
            (n - 1) % k,
            k,
            calc,
        ));
    }
}

} // verus!
