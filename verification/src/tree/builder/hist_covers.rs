//! Trees grown over bins have the covers and leaf weights of their rows.

use vstd::prelude::*;

use crate::arith::{Calc, Op};
use crate::data::dmatrix::DMatrix;
use crate::exact::adds_exactly;
use crate::number::Wide;
use crate::tree::builder::covers::{
    growth_adds_up, intervals_are_free, node_adds_up, passing, settled_trees_add_up,
    splits_extend_ways, splits_keep_adding_up,
};
use crate::tree::builder::exact::{row_of, rows_stats};
use crate::tree::builder::growth::{
    roots_are_well_formed, splits_keep_growth_well_formed, target_of, Best,
};
use crate::tree::builder::hist::{left_rows, right_rows, row_goes_left, OpenNode, Plan, Step};
use crate::tree::builder::hist_laws::{bins_route_as_values, row_is_binned};
use crate::tree::builder::hist_sums::{
    best_binned_sides_add_up, binned_sides_add_up, bins_add_up, by_bins, categories_differ,
    histograms_add_up, rows_are_binned, subtracted_bins_add_up,
};
use crate::tree::builder::sums::{
    both, listed_rows_add_up, named, only, parts, same_rows_add_up,
};
use crate::tree::constraints::unbounded;
use crate::tree::gain::GradStats;
use crate::tree::regtree::{goes_left, route};
use crate::tree::sampler::Sampling;

verus! {

/// Whether what growth over bins starts from fits together: the listed rows exist,
/// none is listed twice, and each was binned from the matrix; and the categories of
/// every feature are different whole numbers.
pub open spec fn plan_fits(plan: Plan, data: &DMatrix, rows: Seq<u32>) -> bool {
    &&& rows_are_binned(data, &plan.ghist, named(rows), plan.gp.len() as int)
    &&& rows.no_duplicates()
    &&& forall|k: int| 0 <= k < rows.len() ==> #[trigger] rows[k] < plan.gp.len()
    &&& forall|f: int| #[trigger]
        plan.ghist.table().categorical(f) ==> categories_differ(&plan.ghist.table(), f)
}

/// Whether an open node lists exactly the rows that pass it, each once, with their
/// histogram.
pub open spec fn open_node_adds_up<F: Fn(Op, u64, u64) -> u64>(
    plan: Plan,
    data: &DMatrix,
    rows: Seq<u32>,
    s: Step,
    e: OpenNode,
    val: spec_fn(Wide) -> Option<real>,
    calc: &Calc<F>,
) -> bool {
    &&& 0 <= e.nid < s.g.nodes.len()
    &&& s.g.nodes[e.nid].leafy()
    &&& e.rows.no_duplicates()
    &&& forall|k: int| 0 <= k < e.rows.len() ==> #[trigger] e.rows[k] < plan.gp.len()
    &&& forall|r: int|
        0 <= r < plan.gp.len() ==> #[trigger] named(e.rows)(r) == passing(
            s.g.nodes,
            s.g.cats,
            data,
            rows,
            e.nid,
        )(r)
    &&& bins_add_up(e.hist, &plan.ghist, plan.gp, named(e.rows), val, calc)
}

/// What growth over bins keeps: the growth adds up, and so does every open node.
pub open spec fn step_adds_up<F: Fn(Op, u64, u64) -> u64>(
    plan: Plan,
    data: &DMatrix,
    rows: Seq<u32>,
    s: Step,
    val: spec_fn(Wide) -> Option<real>,
    calc: &Calc<F>,
) -> bool {
    &&& s.g.well_formed()
    &&& growth_adds_up(s.g, data, plan.gp, rows, val, calc)
    &&& forall|i: int|
        0 <= i < s.open.len() ==> open_node_adds_up(
            plan,
            data,
            rows,
            s,
            #[trigger] s.open[i],
            val,
            calc,
        )
    &&& forall|i: int, j: int|
        0 <= i < j < s.open.len() ==> (#[trigger] s.open[i]).nid != (#[trigger] s.open[j]).nid
    &&& !plan.cons.active() ==> intervals_are_free(s.g)
}

proof fn filtering_keeps_rows(rows: Seq<u32>, keeps: spec_fn(u32) -> bool)
    requires
        rows.no_duplicates(),
    ensures
        rows.filter(keeps).no_duplicates(),
        forall|x: u32| #[trigger]
            rows.filter(keeps).contains(x) <==> rows.contains(x) && keeps(x),
    decreases rows.len(),
{
    reveal(Seq::filter);
    let kept = rows.filter(keeps);
    if rows.len() > 0 {
        let front = rows.drop_last();
        let x = rows.last();
        assert forall|i: int, j: int|
            0 <= i < front.len() && 0 <= j < front.len() && i != j implies front[i] != front[j] by {
            assert(rows[i] != rows[j]);
        }
        filtering_keeps_rows(front, keeps);
        let some = front.filter(keeps);
        assert(!front.contains(x)) by {
            if front.contains(x) {
                let k = choose|k: int| 0 <= k < front.len() && front[k] == x;
                assert(rows[k] != rows[rows.len() - 1]);
            }
        }
        assert forall|y: u32| #[trigger] rows.contains(y) <==> (front.contains(y) || y == x) by {
            if rows.contains(y) {
                let k = choose|k: int| 0 <= k < rows.len() && rows[k] == y;
                if k < rows.len() - 1 {
                    assert(front[k] == y);
                }
            }
            if front.contains(y) {
                let k = choose|k: int| 0 <= k < front.len() && front[k] == y;
                assert(rows[k] == y);
            }
            if y == x {
                assert(rows[rows.len() - 1] == y);
            }
        }
        if keeps(x) {
            assert(kept == some.push(x));
            assert(!some.contains(x));
            assert forall|y: u32| #[trigger] kept.contains(y) <==> (some.contains(y) || y == x) by {
                if kept.contains(y) {
                    let k = choose|k: int| 0 <= k < kept.len() && kept[k] == y;
                    if k < some.len() {
                        assert(some[k] == y);
                    }
                }
                if some.contains(y) {
                    let k = choose|k: int| 0 <= k < some.len() && some[k] == y;
                    assert(kept[k] == y);
                }
                if y == x {
                    assert(kept[some.len() as int] == y);
                }
            }
            assert forall|i: int, j: int|
                0 <= i < kept.len() && 0 <= j < kept.len() && i != j implies kept[i] != kept[j] by {
                if i < some.len() {
                    assert(some.contains(kept[i]));
                }
                if j < some.len() {
                    assert(some.contains(kept[j]));
                }
            }
        }
        assert forall|y: u32| #[trigger] kept.contains(y) <==> rows.contains(y) && keeps(y) by {
            assert(some.contains(y) <==> front.contains(y) && keeps(y));
        }
    }
}

proof fn named_is_contained(rows: Seq<u32>, r: int)
    requires
        0 <= r <= u32::MAX,
    ensures
        named(rows)(r) <==> rows.contains(r as u32),
{
    if named(rows)(r) {
        let k = choose|k: int| 0 <= k < rows.len() && #[trigger] rows[k] as int == r;
        assert(rows[k] == r as u32);
    }
    if rows.contains(r as u32) {
        let k = choose|k: int| 0 <= k < rows.len() && rows[k] == r as u32;
        assert(rows[k] as int == r);
    }
}

/// The rows of a split's sides.
proof fn sides_list_their_rows(plan: Plan, e: OpenNode, b: Best)
    requires
        e.rows.no_duplicates(),
        plan.gp.len() <= 0x1_0000_0000,
        forall|k: int| 0 <= k < e.rows.len() ==> #[trigger] e.rows[k] < plan.gp.len(),
    ensures
        ({
            let ls = left_rows(&plan.ghist, b, e.rows);
            let rs = right_rows(&plan.ghist, b, e.rows);
            let at = named(e.rows);
            let goes = by_bins(b, &plan.ghist);
            &&& ls.no_duplicates()
            &&& rs.no_duplicates()
            &&& forall|k: int| 0 <= k < ls.len() ==> #[trigger] ls[k] < plan.gp.len()
            &&& forall|k: int| 0 <= k < rs.len() ==> #[trigger] rs[k] < plan.gp.len()
            &&& forall|r: int|
                0 <= r < plan.gp.len() ==> #[trigger] named(ls)(r) == (at(r) && goes(r))
            &&& forall|r: int|
                0 <= r < plan.gp.len() ==> #[trigger] named(rs)(r) == (at(r) && !goes(r))
        }),
{
    let ls = left_rows(&plan.ghist, b, e.rows);
    let rs = right_rows(&plan.ghist, b, e.rows);
    let at = named(e.rows);
    let goes = by_bins(b, &plan.ghist);
    let left = |r: u32| row_goes_left(&plan.ghist, b, r);
    let right = |r: u32| !row_goes_left(&plan.ghist, b, r);
    filtering_keeps_rows(e.rows, left);
    filtering_keeps_rows(e.rows, right);
    assert forall|k: int| 0 <= k < ls.len() implies #[trigger] ls[k] < plan.gp.len() by {
        assert(e.rows.filter(left).contains(ls[k]));
        let j = choose|j: int| 0 <= j < e.rows.len() && e.rows[j] == ls[k];
        assert(e.rows[j] < plan.gp.len());
    }
    assert forall|k: int| 0 <= k < rs.len() implies #[trigger] rs[k] < plan.gp.len() by {
        assert(e.rows.filter(right).contains(rs[k]));
        let j = choose|j: int| 0 <= j < e.rows.len() && e.rows[j] == rs[k];
        assert(e.rows[j] < plan.gp.len());
    }
    assert forall|r: int| 0 <= r < plan.gp.len() implies #[trigger] named(ls)(r) == (at(r) && goes(
        r,
    )) by {
        named_is_contained(ls, r);
        named_is_contained(e.rows, r);
        assert(e.rows.filter(left).contains(r as u32) <==> e.rows.contains(r as u32) && left(
            r as u32,
        ));
    }
    assert forall|r: int| 0 <= r < plan.gp.len() implies #[trigger] named(rs)(r) == (at(r)
        && !goes(r)) by {
        named_is_contained(rs, r);
        named_is_contained(e.rows, r);
        assert(e.rows.filter(right).contains(r as u32) <==> e.rows.contains(r as u32) && right(
            r as u32,
        ));
    }
}

/// The histograms of a split's children add up.
proof fn children_add_up<F: Fn(Op, u64, u64) -> u64>(
    plan: Plan,
    data: &DMatrix,
    e: OpenNode,
    b: Best,
    hl: Seq<GradStats>,
    hr: Seq<GradStats>,
    val: spec_fn(Wide) -> Option<real>,
    calc: &Calc<F>,
)
    requires
        adds_exactly(val, calc),
        rows_are_binned(data, &plan.ghist, named(e.rows), plan.gp.len() as int),
        e.rows.no_duplicates(),
        forall|k: int| 0 <= k < e.rows.len() ==> #[trigger] e.rows[k] < plan.gp.len(),
        bins_add_up(e.hist, &plan.ghist, plan.gp, named(e.rows), val, calc),
        plan.are_children(e, b, hl, hr, calc),
    ensures
        bins_add_up(
            hl,
            &plan.ghist,
            plan.gp,
            named(left_rows(&plan.ghist, b, e.rows)),
            val,
            calc,
        ),
        bins_add_up(
            hr,
            &plan.ghist,
            plan.gp,
            named(right_rows(&plan.ghist, b, e.rows)),
            val,
            calc,
        ),
{
    let ls = left_rows(&plan.ghist, b, e.rows);
    let rs = right_rows(&plan.ghist, b, e.rows);
    let n = plan.gp.len() as int;
    sides_list_their_rows(plan, e, b);
    assert forall|r: int| 0 <= r < n && #[trigger] named(ls)(r) implies row_is_binned(
        data,
        &plan.ghist,
        r,
    ) by {
        assert(named(e.rows)(r));
    }
    assert forall|r: int| 0 <= r < n && #[trigger] named(rs)(r) implies row_is_binned(
        data,
        &plan.ghist,
        r,
    ) by {
        assert(named(e.rows)(r));
    }
    if ls.len() <= rs.len() {
        histograms_add_up(hl, data, &plan.ghist, ls, plan.gp, val, calc);
        assert(parts(named(e.rows), named(ls), named(rs), n)) by {
            assert forall|r: int|
                #![trigger named(e.rows)(r)]
                #![trigger named(ls)(r)]
                #![trigger named(rs)(r)]
                0 <= r < n implies named(e.rows)(r) == (named(ls)(r) || named(rs)(r)) && !(named(
                ls,
            )(r) && named(rs)(r)) by {
                assert(named(ls)(r) == (named(e.rows)(r) && by_bins(b, &plan.ghist)(r)));
                assert(named(rs)(r) == (named(e.rows)(r) && !by_bins(b, &plan.ghist)(r)));
            }
        }
        subtracted_bins_add_up(
            e.hist,
            hl,
            &plan.ghist,
            plan.gp,
            named(e.rows),
            named(ls),
            named(rs),
            val,
            calc,
        );
    } else {
        histograms_add_up(hr, data, &plan.ghist, rs, plan.gp, val, calc);
        assert(parts(named(e.rows), named(rs), named(ls), n)) by {
            assert forall|r: int|
                #![trigger named(e.rows)(r)]
                #![trigger named(rs)(r)]
                #![trigger named(ls)(r)]
                0 <= r < n implies named(e.rows)(r) == (named(rs)(r) || named(ls)(r)) && !(named(
                rs,
            )(r) && named(ls)(r)) by {
                assert(named(ls)(r) == (named(e.rows)(r) && by_bins(b, &plan.ghist)(r)));
                assert(named(rs)(r) == (named(e.rows)(r) && !by_bins(b, &plan.ghist)(r)));
            }
        }
        subtracted_bins_add_up(
            e.hist,
            hr,
            &plan.ghist,
            plan.gp,
            named(e.rows),
            named(rs),
            named(ls),
            val,
            calc,
        );
    }
}

/// A split of an open node keeps adding up.
proof fn splits_over_bins_keep_adding_up<F: Fn(Op, u64, u64) -> u64>(
    plan: Plan,
    data: &DMatrix,
    rows: Seq<u32>,
    s: Step,
    i: int,
    hl: Seq<GradStats>,
    hr: Seq<GradStats>,
    val: spec_fn(Wide) -> Option<real>,
    calc: &Calc<F>,
)
    requires
        adds_exactly(val, calc),
        plan_fits(plan, data, rows),
        step_adds_up(plan, data, rows, s, val, calc),
        0 <= i < s.open.len(),
        plan.is_taken(s.g, s.open[i], calc),
        plan.are_children(s.open[i], plan.best(s.g, s.open[i], calc), hl, hr, calc),
    ensures
        step_adds_up(plan, data, rows, plan.after_split(s, i, hl, hr, calc), val, calc),
{
    let t = plan.after_split(s, i, hl, hr, calc);
    let e = s.open[i];
    let b = plan.best(s.g, e, calc);
    let dir = plan.cons.direction(b.feature as int);
    let lw = calc.narrowed(b.w_left);
    let rw = calc.narrowed(b.w_right);
    let n = plan.gp.len() as int;
    let len = s.g.nodes.len() as int;
    let at = passing(s.g.nodes, s.g.cats, data, rows, e.nid);
    let listed = named(e.rows);
    let goes = by_bins(b, &plan.ghist);
    let ls = left_rows(&plan.ghist, b, e.rows);
    let rs = right_rows(&plan.ghist, b, e.rows);
    assert(open_node_adds_up(plan, data, rows, s, e, val, calc));
    assert forall|r: int| 0 <= r < n implies #[trigger] at(r) == listed(r) by {
        assert(named(e.rows)(r) == passing(s.g.nodes, s.g.cats, data, rows, e.nid)(r));
    }
    assert forall|r: int| 0 <= r < n && #[trigger] listed(r) implies row_is_binned(
        data,
        &plan.ghist,
        r,
    ) by {
        assert(at(r));
        assert(named(rows)(r));
    }
    assert(rows_are_binned(data, &plan.ghist, listed, n));
    same_rows_add_up(s.g.stats[e.nid], plan.gp, at, listed, val, calc);
    let target = target_of(s.g.stats[e.nid], s.g.bounds[e.nid], true, plan.reg, calc);
    best_binned_sides_add_up(
        plan.rules(),
        e.hist,
        target,
        e.features,
        e.features.len() as int,
        data,
        &plan.ghist,
        plan.gp,
        listed,
        val,
        calc,
    );
    assert(binned_sides_add_up(b, &plan.ghist, plan.gp, listed, val, calc));
    same_rows_add_up(b.left, plan.gp, both(listed, goes), both(at, goes), val, calc);
    same_rows_add_up(b.right, plan.gp, only(listed, goes), only(at, goes), val, calc);
    splits_keep_growth_well_formed(s.g, e.nid, b, dir, lw, rw, calc);
    let split = s.g.split_node(e.nid, b, calc);
    assert(t.g.nodes[e.nid] == split);
    assert(!s.g.nodes[e.nid].is_categorical);
    if b.is_categorical {
        assert(t.g.cats.subrange(split.cat_begin as int, split.cat_end as int) =~= b.cat_left);
    }
    plan.ghist.shape();
    assert forall|r: int| 0 <= r < n && at(r) implies #[trigger] goes(r) == goes_left(
        t.g.nodes[e.nid],
        t.g.cats,
        row_of(data, r)(t.g.nodes[e.nid].split_feature),
    ) by {
        assert(listed(r));
        assert((r as u32) as int == r);
        bins_route_as_values(data, &plan.ghist, b, r as u32, split, t.g.cats);
    }
    splits_keep_adding_up(
        s.g,
        e.nid,
        b,
        dir,
        lw,
        rw,
        data,
        plan.gp,
        rows,
        goes,
        val,
        calc,
    );
    sides_list_their_rows(plan, e, b);
    children_add_up(plan, data, e, b, hl, hr, val, calc);
    let rest = s.open.remove(i);
    assert(t.g.nodes[len].leafy() && t.g.nodes[len + 1].leafy());
    assert forall|k: int| 0 <= k < t.open.len() implies open_node_adds_up(
        plan,
        data,
        rows,
        t,
        #[trigger] t.open[k],
        val,
        calc,
    ) by {
        let o = t.open[k];
        let there = passing(t.g.nodes, t.g.cats, data, rows, o.nid);
        if k < rest.len() {
            let k0 = if k < i { k } else { k + 1 };
            assert(o == s.open[k0]);
            assert(open_node_adds_up(plan, data, rows, s, s.open[k0], val, calc));
            if k0 < i {
                assert(s.open[k0].nid != s.open[i].nid);
            } else {
                assert(s.open[i].nid != s.open[k0].nid);
            }
            assert(t.g.nodes[o.nid] == s.g.nodes[o.nid]);
            assert forall|r: int| 0 <= r < n implies #[trigger] named(o.rows)(r) == there(r) by {
                splits_extend_ways(s.g, e.nid, b, dir, lw, rw, row_of(data, r), o.nid, calc);
                assert(named(o.rows)(r) == passing(s.g.nodes, s.g.cats, data, rows, o.nid)(r));
            }
        } else {
            assert forall|r: int| 0 <= r < n implies #[trigger] named(o.rows)(r) == there(r) by {
                splits_extend_ways(s.g, e.nid, b, dir, lw, rw, row_of(data, r), o.nid, calc);
                assert(at(r) == listed(r));
                assert(named(ls)(r) == (listed(r) && goes(r)));
                assert(named(rs)(r) == (listed(r) && !goes(r)));
            }
        }
    }
    assert forall|a: int, c: int| 0 <= a < c < t.open.len() implies (#[trigger] t.open[a]).nid != (
    #[trigger] t.open[c]).nid by {
        if a < rest.len() {
            let a0 = if a < i { a } else { a + 1 };
            assert(t.open[a] == s.open[a0]);
            assert(open_node_adds_up(plan, data, rows, s, s.open[a0], val, calc));
            if c < rest.len() {
                let c0 = if c < i { c } else { c + 1 };
                assert(t.open[c] == s.open[c0]);
                assert(s.open[a0].nid != s.open[c0].nid);
            }
        }
    }
    if !plan.cons.active() {
        let f = b.feature as int;
        if 0 <= f < plan.cons.directions().len() {
            assert(plan.cons.directions()[f] == 0);
        }
        assert(s.g.bounds[e.nid] == unbounded());
    }
}

proof fn steps_keep_adding_up<F: Fn(Op, u64, u64) -> u64>(
    plan: Plan,
    data: &DMatrix,
    rows: Seq<u32>,
    s: Step,
    t: Step,
    val: spec_fn(Wide) -> Option<real>,
    calc: &Calc<F>,
)
    requires
        adds_exactly(val, calc),
        plan_fits(plan, data, rows),
        step_adds_up(plan, data, rows, s, val, calc),
        plan.steps(s, t, calc),
    ensures
        step_adds_up(plan, data, rows, t, val, calc),
{
    let i = choose|i: int| #[trigger] plan.may_pick(s, i, calc) && plan.picked(s, i, t, calc);
    let e = s.open[i];
    if plan.is_taken(s.g, e, calc) {
        let b = plan.best(s.g, e, calc);
        let (hl, hr) = choose|hl: Seq<GradStats>, hr: Seq<GradStats>|
            plan.are_children(e, b, hl, hr, calc) && t == #[trigger] plan.after_split(
                s,
                i,
                hl,
                hr,
                calc,
            );
        splits_over_bins_keep_adding_up(plan, data, rows, s, i, hl, hr, val, calc);
    } else {
        assert forall|k: int| 0 <= k < t.open.len() implies open_node_adds_up(
            plan,
            data,
            rows,
            t,
            #[trigger] t.open[k],
            val,
            calc,
        ) by {
            let k0 = if k < i { k } else { k + 1 };
            assert(t.open[k] == s.open[k0]);
            assert(open_node_adds_up(plan, data, rows, s, s.open[k0], val, calc));
        }
        assert forall|a: int, c: int| 0 <= a < c < t.open.len() implies (#[trigger] t.open[a]).nid
            != (#[trigger] t.open[c]).nid by {
            let a0 = if a < i { a } else { a + 1 };
            let c0 = if c < i { c } else { c + 1 };
            assert(t.open[a] == s.open[a0] && t.open[c] == s.open[c0]);
        }
    }
}

proof fn runs_keep_adding_up<F: Fn(Op, u64, u64) -> u64>(
    plan: Plan,
    data: &DMatrix,
    rows: Seq<u32>,
    sampling: Sampling,
    run: Seq<Step>,
    j: int,
    val: spec_fn(Wide) -> Option<real>,
    calc: &Calc<F>,
)
    requires
        adds_exactly(val, calc),
        plan_fits(plan, data, rows),
        plan.is_run(rows, sampling, run, calc),
        0 <= j < run.len(),
    ensures
        step_adds_up(plan, data, rows, run[j], val, calc),
    decreases j,
{
    if j > 0 {
        runs_keep_adding_up(plan, data, rows, sampling, run, j - 1, val, calc);
        assert(plan.steps(run[j - 1], run[j], calc));
        steps_keep_adding_up(plan, data, rows, run[j - 1], run[j], val, calc);
    } else {
        let s = run[0];
        let n = rows.len() as int;
        let total = rows_stats(plan.gp, rows, n, calc);
        listed_rows_add_up(plan.gp, rows, n, val, calc);
        assert(rows.take(n) =~= rows);
        roots_are_well_formed(total, calc);
        let at = named(rows);
        let there = passing(s.g.nodes, s.g.cats, data, rows, 0);
        assert forall|r: int|
            #![trigger there(r)]
            #![trigger at(r)]
            there(r) == at(r) by {
            assert(route(s.g.nodes, s.g.cats, row_of(data, r), 0, 0) == 0);
        }
        same_rows_add_up(total, plan.gp, at, there, val, calc);
        histograms_add_up(s.open[0].hist, data, &plan.ghist, rows, plan.gp, val, calc);
    }
}

/// Where nothing is rounded, growth over bins ends with the covers and leaf weights
/// of its rows: the statistics of every node are the sums over the rows whose way
/// passes it.
pub proof fn growth_over_bins_adds_up<F: Fn(Op, u64, u64) -> u64>(
    plan: Plan,
    data: &DMatrix,
    rows: Seq<u32>,
    sampling: Sampling,
    run: Seq<Step>,
    i: int,
    val: spec_fn(Wide) -> Option<real>,
    calc: &Calc<F>,
)
    requires
        adds_exactly(val, calc),
        plan_fits(plan, data, rows),
        plan.is_run(rows, sampling, run, calc),
        0 <= i < run.last().g.nodes.len(),
    ensures
        ({
            let g = run.last().g;
            &&& growth_adds_up(g, data, plan.gp, rows, val, calc)
            &&& node_adds_up(
                g.settled(plan.reg, g.nodes.len() as int, calc),
                g.cats,
                i,
                data,
                plan.gp,
                rows,
                !plan.cons.active(),
                plan.reg,
                val,
                calc,
            )
        }),
{
    runs_keep_adding_up(plan, data, rows, sampling, run, run.len() - 1, val, calc);
    settled_trees_add_up(
        run.last().g,
        data,
        plan.gp,
        rows,
        !plan.cons.active(),
        plan.reg,
        i,
        val,
        calc,
    );
}

} // verus!
