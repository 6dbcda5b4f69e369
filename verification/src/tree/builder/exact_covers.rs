//! Trees grown over values have the covers and leaf weights of their rows.

use vstd::prelude::*;

use crate::arith::{Calc, Op};
use crate::data::dmatrix::DMatrix;
use crate::data::laws::{columns_fit_the_rows, distinct_columns, no_cells_beyond};
use crate::data::quantile::{places, sortable, values_of};
use crate::exact::{adds_exactly, singles_halve};
use crate::number::{Single, Wide};
use crate::sort::{stable_order, stable_order_exists};
use crate::tree::builder::covers::{
    growth_adds_up, intervals_are_free, node_adds_up, passes, passing, settled_trees_add_up,
    split_nodes_send_as_splits, splits_extend_ways, splits_keep_adding_up,
    ways_end_at_the_leaf_they_pass,
};
use crate::tree::builder::exact::{
    active_leaves, applied, applying_keeps_the_tree, by_value, first_stage, is_taken,
    last_stage, new_weights, next_stage, row_of, rows_stats, stage_bests, value_order,
    Setting, SortedColumns, Stage,
};
use crate::tree::builder::exact_sums::{
    at_node, best_sides_add_up, by_data, found_sides_add_up, lists_column, lists_row,
    sorted_columns_list_the_matrix,
};
use crate::tree::builder::growth::{
    roots_are_well_formed, splits_keep_growth_well_formed, target_of, Best, Grown,
};
use crate::tree::builder::laws::{
    reached, rows_stand_at_their_leaves, training_rows_follow_the_tree,
};
use crate::tree::builder::sums::{both, listed_rows_add_up, named, only, same_rows_add_up};
use crate::tree::regtree::{goes_left, route, Node};
use crate::tree::sampler::{draw_at, Sampling};

verus! {

/// Whether sorted columns list a matrix.
pub open spec fn columns_list(cols: &SortedColumns, data: &DMatrix) -> bool {
    forall|f: u32|
        #![trigger cols.pairs(f as int)]
        lists_column(cols.pairs(f as int), data, f, data.height()) && cols.pairs(f as int).len()
            <= usize::MAX
}

/// Whether the thresholds of a tree stand for numbers.
pub open spec fn thresholds_stand<F: Fn(Op, u64, u64) -> u64>(
    nodes: Seq<Node>,
    val: spec_fn(Wide) -> Option<real>,
    calc: &Calc<F>,
) -> bool {
    forall|i: int|
        0 <= i < nodes.len() && !(#[trigger] nodes[i]).leafy() && !nodes[i].is_categorical ==> val(
            calc.widened(nodes[i].split_cond),
        ) is Some
}

proof fn earlier_thresholds_stand<F: Fn(Op, u64, u64) -> u64>(
    g: Grown,
    nid: int,
    b: Best,
    dir: i8,
    lw: Single,
    rw: Single,
    val: spec_fn(Wide) -> Option<real>,
    calc: &Calc<F>,
)
    requires
        g.well_formed(),
        0 <= nid < g.nodes.len(),
        g.nodes[nid].leafy(),
        g.has_room(b),
        thresholds_stand(g.after_split(nid, b, dir, lw, rw, calc).nodes, val, calc),
    ensures
        thresholds_stand(g.nodes, val, calc),
        b.is_categorical || val(calc.widened(b.threshold)) is Some,
{
    let after = g.after_split(nid, b, dir, lw, rw, calc);
    split_nodes_send_as_splits(g, nid, b, dir, lw, rw, None, calc);
    assert(after.nodes[nid] == g.split_node(nid, b, calc));
    assert(!after.nodes[nid].leafy());
    assert forall|i: int|
        0 <= i < g.nodes.len() && !(#[trigger] g.nodes[i]).leafy()
            && !g.nodes[i].is_categorical implies val(calc.widened(g.nodes[i].split_cond)) is Some by {
        assert(after.nodes[i] == g.nodes[i]);
    }
}

/// Splitting active nodes by splits whose sides add up gives a growth that adds up.
proof fn applying_keeps_adding_up<F: Fn(Op, u64, u64) -> u64>(
    st: Setting,
    data: &DMatrix,
    rows: Seq<u32>,
    g: Grown,
    active: Seq<usize>,
    bests: Seq<Best>,
    n: int,
    val: spec_fn(Wide) -> Option<real>,
    calc: &Calc<F>,
)
    requires
        g.well_formed(),
        active_leaves(g.nodes, active),
        bests.len() == active.len(),
        0 <= n <= active.len(),
        thresholds_stand(g.nodes, val, calc) ==> {
            &&& growth_adds_up(g, data, st.gp, rows, val, calc)
            &&& forall|s: int|
                0 <= s < active.len() ==> found_sides_add_up(
                    #[trigger] bests[s],
                    data,
                    st.gp,
                    passing(g.nodes, g.cats, data, rows, active[s] as int),
                    val,
                    calc,
                )
        },
    ensures
        ({
            let after = applied(st, g, active, bests, n, calc).0;
            &&& thresholds_stand(after.nodes, val, calc) ==> thresholds_stand(g.nodes, val, calc)
                && growth_adds_up(after, data, st.gp, rows, val, calc)
            &&& after.well_formed()
            &&& after.nodes.len() >= g.nodes.len()
            &&& forall|i: int, row: spec_fn(u32) -> Option<Single>|
                0 <= i < g.nodes.len() ==> #[trigger] passes(after.nodes, after.cats, row, 0, i)
                    == passes(g.nodes, g.cats, row, 0, i)
        }),
    decreases n,
{
    if n > 0 {
        applying_keeps_adding_up(st, data, rows, g, active, bests, n - 1, val, calc);
        let top = u32::MAX + 1;
        applying_keeps_the_tree(st, g, active, bests, n - 1, top, calc);
        let (so_far, next) = applied(st, g, active, bests, n - 1, calc);
        let b = bests[n - 1];
        let nid = active[n - 1] as int;
        assert(so_far.nodes[active[n - 1] as int] == g.nodes[nid]);
        if is_taken(st, so_far, b) {
            let (lw, rw) = new_weights(st, b, calc);
            let dir = st.cons.direction(b.feature as int);
            let after = so_far.after_split(nid, b, dir, lw, rw, calc);
            splits_keep_growth_well_formed(so_far, nid, b, dir, lw, rw, calc);
            assert forall|i: int, row: spec_fn(u32) -> Option<Single>|
                0 <= i < g.nodes.len() implies #[trigger] passes(
                after.nodes,
                after.cats,
                row,
                0,
                i,
            ) == passes(g.nodes, g.cats, row, 0, i) by {
                splits_extend_ways(so_far, nid, b, dir, lw, rw, row, i, calc);
                assert(passes(so_far.nodes, so_far.cats, row, 0, i) == passes(
                    g.nodes,
                    g.cats,
                    row,
                    0,
                    i,
                ));
            }
            if thresholds_stand(after.nodes, val, calc) {
                earlier_thresholds_stand(so_far, nid, b, dir, lw, rw, val, calc);
                let was = passing(g.nodes, g.cats, data, rows, nid);
                let at = passing(so_far.nodes, so_far.cats, data, rows, nid);
                let goes = by_data(b, data);
                assert(found_sides_add_up(b, data, st.gp, was, val, calc));
                assert forall|r: int| #[trigger] at(r) == was(r) by {
                    assert(passes(so_far.nodes, so_far.cats, row_of(data, r), 0, nid) == passes(
                        g.nodes,
                        g.cats,
                        row_of(data, r),
                        0,
                        nid,
                    ));
                }
                same_rows_add_up(b.left, st.gp, both(was, goes), both(at, goes), val, calc);
                same_rows_add_up(b.right, st.gp, only(was, goes), only(at, goes), val, calc);
                assert forall|r: int| 0 <= r < st.gp.len() && at(r) implies #[trigger] goes(r)
                    == goes_left(
                    after.nodes[nid],
                    after.cats,
                    row_of(data, r)(after.nodes[nid].split_feature),
                ) by {
                    split_nodes_send_as_splits(
                        so_far,
                        nid,
                        b,
                        dir,
                        lw,
                        rw,
                        data.cell(r, b.feature as int),
                        calc,
                    );
                }
                splits_keep_adding_up(
                    so_far,
                    nid,
                    b,
                    dir,
                    lw,
                    rw,
                    data,
                    st.gp,
                    rows,
                    goes,
                    val,
                    calc,
                );
            }
        }
    }
}

/// What growth over values keeps: the tree is well-formed, exactly the listed rows
/// take part and stand at the leaves they reach, and if no threshold is rounded,
/// the growth adds up.
pub open spec fn stage_adds_up<F: Fn(Op, u64, u64) -> u64>(
    st: Setting,
    data: &DMatrix,
    rows: Seq<u32>,
    stage: Stage,
    val: spec_fn(Wide) -> Option<real>,
    calc: &Calc<F>,
) -> bool {
    &&& stage.g.well_formed()
    &&& active_leaves(stage.g.nodes, stage.active)
    &&& rows_stand_at_their_leaves(data, stage)
    &&& stage.node_of.len() == st.gp.len()
    &&& forall|r: int|
        0 <= r < stage.node_of.len() ==> (#[trigger] stage.node_of[r] is Some) == named(rows)(r)
    &&& thresholds_stand(stage.g.nodes, val, calc) ==> growth_adds_up(
        stage.g,
        data,
        st.gp,
        rows,
        val,
        calc,
    )
    &&& !st.cons.active() ==> intervals_are_free(stage.g)
}

proof fn applying_keeps_intervals_free<F: Fn(Op, u64, u64) -> u64>(
    st: Setting,
    g: Grown,
    active: Seq<usize>,
    bests: Seq<Best>,
    n: int,
    calc: &Calc<F>,
)
    requires
        !st.cons.active(),
        intervals_are_free(g),
        forall|s: int| 0 <= s < active.len() ==> (#[trigger] active[s]) < g.nodes.len(),
        0 <= n <= active.len(),
    ensures
        intervals_are_free(applied(st, g, active, bests, n, calc).0),
        applied(st, g, active, bests, n, calc).0.nodes.len() >= g.nodes.len(),
    decreases n,
{
    if n > 0 {
        applying_keeps_intervals_free(st, g, active, bests, n - 1, calc);
        let so_far = applied(st, g, active, bests, n - 1, calc).0;
        let b = bests[n - 1];
        assert(active[n - 1] < g.nodes.len());
        if is_taken(st, so_far, b) {
            let f = b.feature as int;
            if 0 <= f < st.cons.directions().len() {
                assert(st.cons.directions()[f] == 0);
            }
        }
    }
}

proof fn levels_keep_adding_up<F: Fn(Op, u64, u64) -> u64>(
    st: Setting,
    data: &DMatrix,
    rows: Seq<u32>,
    stage: Stage,
    val: spec_fn(Wide) -> Option<real>,
    calc: &Calc<F>,
)
    requires
        adds_exactly(val, calc),
        singles_halve(val, calc),
        columns_list(&st.cols, data),
        st.gp.len() == data.height(),
        data.height() <= usize::MAX,
        stage_adds_up(st, data, rows, stage, val, calc),
    ensures
        stage_adds_up(st, data, rows, next_stage(st, data, stage, calc), val, calc),
{
    let bests = stage_bests(st, stage, calc);
    let fs = draw_at(stage.sampling, calc);
    let n = stage.active.len() as int;
    let next = next_stage(st, data, stage, calc);
    let g = stage.g;
    let top = u32::MAX + 1;
    applying_keeps_the_tree(st, g, stage.active, bests, n, top, calc);
    training_rows_follow_the_tree(st, data, stage, calc);
    if !st.cons.active() {
        applying_keeps_intervals_free(st, g, stage.active, bests, n, calc);
    }
    assert forall|r: int| 0 <= r < next.node_of.len() implies (#[trigger] next.node_of[r] is Some)
        == named(rows)(r) by {
        assert((stage.node_of[r] is Some) == named(rows)(r));
    }
    if thresholds_stand(g.nodes, val, calc) {
        assert forall|s: int| 0 <= s < stage.active.len() implies found_sides_add_up(
            #[trigger] bests[s],
            data,
            st.gp,
            passing(g.nodes, g.cats, data, rows, stage.active[s] as int),
            val,
            calc,
        ) by {
            let nid = stage.active[s] as int;
            let b = bests[s];
            let at = at_node(stage.node_of, nid);
            let there = passing(g.nodes, g.cats, data, rows, nid);
            assert(g.nodes[nid].leafy());
            assert forall|r: int| 0 <= r < st.gp.len() implies #[trigger] at(r) == there(r) by {
                ways_end_at_the_leaf_they_pass(g, row_of(data, r), nid);
                assert((stage.node_of[r] is Some) == named(rows)(r));
                if let Some(x) = stage.node_of[r] {
                    assert(x == reached(g, row_of(data, r)));
                }
            }
            assert(stage.active[s] < g.nodes.len());
            same_rows_add_up(g.stats[nid], st.gp, there, at, val, calc);
            let target = target_of(g.stats[nid], g.bounds[nid], st.cons.active(), st.reg, calc);
            best_sides_add_up(
                st,
                data,
                stage.node_of,
                fs,
                nid,
                g.paths[nid],
                target,
                fs.len() as int,
                val,
                calc,
            );
            assert(found_sides_add_up(b, data, st.gp, at, val, calc));
            if b.is_found() && (b.is_categorical || val(calc.widened(b.threshold)) is Some) {
                let goes = by_data(b, data);
                same_rows_add_up(b.left, st.gp, both(at, goes), both(there, goes), val, calc);
                same_rows_add_up(b.right, st.gp, only(at, goes), only(there, goes), val, calc);
            }
        }
    }
    applying_keeps_adding_up(st, data, rows, g, stage.active, bests, n, val, calc);
}

proof fn growth_keeps_adding_up<F: Fn(Op, u64, u64) -> u64>(
    st: Setting,
    data: &DMatrix,
    rows: Seq<u32>,
    stage: Stage,
    levels: nat,
    val: spec_fn(Wide) -> Option<real>,
    calc: &Calc<F>,
)
    requires
        adds_exactly(val, calc),
        singles_halve(val, calc),
        columns_list(&st.cols, data),
        st.gp.len() == data.height(),
        data.height() <= usize::MAX,
        stage_adds_up(st, data, rows, stage, val, calc),
    ensures
        stage_adds_up(st, data, rows, last_stage(st, data, stage, levels, calc), val, calc),
    decreases levels,
{
    if levels > 0 && stage.active.len() > 0 {
        levels_keep_adding_up(st, data, rows, stage, val, calc);
        growth_keeps_adding_up(
            st,
            data,
            rows,
            next_stage(st, data, stage, calc),
            (levels - 1) as nat,
            val,
            calc,
        );
    }
}

proof fn the_first_stage_adds_up<F: Fn(Op, u64, u64) -> u64>(
    st: Setting,
    data: &DMatrix,
    rows: Seq<u32>,
    sampling: Sampling,
    val: spec_fn(Wide) -> Option<real>,
    calc: &Calc<F>,
)
    requires
        adds_exactly(val, calc),
        st.gp.len() == data.height(),
        data.height() <= 0x1_0000_0000,
        rows.no_duplicates(),
        forall|i: int| 0 <= i < rows.len() ==> #[trigger] rows[i] < data.height(),
    ensures
        stage_adds_up(
            st,
            data,
            rows,
            first_stage(st.gp, rows, data.height(), sampling, calc),
            val,
            calc,
        ),
{
    let stage = first_stage(st.gp, rows, data.height(), sampling, calc);
    let g = stage.g;
    let n = rows.len() as int;
    listed_rows_add_up(st.gp, rows, n, val, calc);
    assert(rows.take(n) =~= rows);
    let at = named(rows);
    let there = passing(g.nodes, g.cats, data, rows, 0);
    assert forall|r: int| 0 <= r < st.gp.len() implies #[trigger] there(r) == at(r) by {
        assert(route(g.nodes, g.cats, row_of(data, r), 0, 0) == 0);
    }
    same_rows_add_up(rows_stats(st.gp, rows, n, calc), st.gp, at, there, val, calc);
    roots_are_well_formed(rows_stats(st.gp, rows, n, calc), calc);
    assert forall|r: int| 0 <= r < stage.node_of.len() implies (
    #[trigger] stage.node_of[r] is Some) == named(rows)(r) by {
        if rows.contains(r as u32) {
            let k = choose|k: int| 0 <= k < rows.len() && rows[k] == r as u32;
            assert(rows[k] as int == r);
        }
        if named(rows)(r) {
            let k = choose|k: int| 0 <= k < rows.len() && #[trigger] rows[k] as int == r;
            assert(rows[k] == r as u32);
        }
    }
}

/// Where nothing is rounded, growth over values ends with the covers and leaf
/// weights of its rows: the statistics of every node are the sums over the rows
/// whose way passes it.
pub proof fn growth_over_values_adds_up<F: Fn(Op, u64, u64) -> u64>(
    st: Setting,
    data: &DMatrix,
    rows: Seq<u32>,
    sampling: Sampling,
    levels: nat,
    i: int,
    val: spec_fn(Wide) -> Option<real>,
    calc: &Calc<F>,
)
    requires
        adds_exactly(val, calc),
        singles_halve(val, calc),
        columns_list(&st.cols, data),
        st.gp.len() == data.height(),
        data.height() <= 0x1_0000_0000,
        data.height() <= usize::MAX,
        rows.no_duplicates(),
        forall|k: int| 0 <= k < rows.len() ==> #[trigger] rows[k] < data.height(),
        ({
            let g = last_stage(
                st,
                data,
                first_stage(st.gp, rows, data.height(), sampling, calc),
                levels,
                calc,
            ).g;
            thresholds_stand(g.nodes, val, calc) && 0 <= i < g.nodes.len()
        }),
    ensures
        ({
            let g = last_stage(
                st,
                data,
                first_stage(st.gp, rows, data.height(), sampling, calc),
                levels,
                calc,
            ).g;
            &&& growth_adds_up(g, data, st.gp, rows, val, calc)
            &&& node_adds_up(
                g.settled(st.reg, g.nodes.len() as int, calc),
                g.cats,
                i,
                data,
                st.gp,
                rows,
                !st.cons.active(),
                st.reg,
                val,
                calc,
            )
        }),
{
    let first = first_stage(st.gp, rows, data.height(), sampling, calc);
    the_first_stage_adds_up(st, data, rows, sampling, val, calc);
    growth_keeps_adding_up(st, data, rows, first, levels, val, calc);
    let g = last_stage(st, data, first, levels, calc).g;
    settled_trees_add_up(g, data, st.gp, rows, !st.cons.active(), st.reg, i, val, calc);
}

/// The sorted columns of a matrix list it, where no row lists a column twice.
pub proof fn sorted_columns_list(cols: &SortedColumns, data: &DMatrix)
    requires
        data.well_formed(),
        data.readable(),
        data.height() <= 0x1_0000_0000,
        cols.width() == data.width(),
        forall|c: int|
            0 <= c < data.width() ==> #[trigger] cols.pairs(c) == by_value(
                data.column_prefix(c, data.height()),
            ),
        forall|c: int|
            0 <= c < data.width() ==> sortable(
                values_of(#[trigger] data.column_prefix(c, data.height())),
            ),
        forall|r: int| 0 <= r < data.height() ==> distinct_columns(#[trigger] data.stored(r)),
    ensures
        columns_list(cols, data),
{
    let n = data.height();
    data.shape();
    assert forall|f: u32|
        #![trigger cols.pairs(f as int)]
        lists_column(cols.pairs(f as int), data, f, n) && cols.pairs(f as int).len()
            <= usize::MAX by {
        if f < data.width() {
            columns_fit_the_rows(data, f as int, n);
            sorted_columns_list_the_matrix(data, f);
            assert(sortable(values_of(data.column_prefix(f as int, n))));
            let pairs = data.column_prefix(f as int, n);
            stable_order_exists(places(values_of(pairs)));
            assert(stable_order(places(values_of(pairs)), value_order(pairs)));
            assert(by_value(pairs).len() == pairs.len());
        } else {
            cols.no_pairs_beyond(f as int);
            assert forall|r: int| 0 <= r < n && #[trigger] data.cell(r, f as int) is Some implies
                lists_row(cols.pairs(f as int), r) by {
                assert(data.readable_row(r));
                no_cells_beyond(data, r, f as int);
            }
        }
    }
}

} // verus!
