//! The sides of splits over values are sums over the rows that go there.

use vstd::prelude::*;

use crate::arith::{Calc, Op};
use crate::data::dmatrix::DMatrix;
use crate::data::laws::{
    columns_are_cells, columns_list_rows_once, distinct_columns, rows_of_a_column,
};
use crate::data::meta::FeatureType;
use crate::data::quantile::{places, sortable, values_of};
use crate::exact::{adds_exactly, singles_halve};
use crate::number::{Single, Wide, HALF_S};
use crate::objective::pair::GradPair;
use crate::sort::{before, stable_order, stable_order_exists};
use crate::tree::builder::exact::{by_value, level_best, place_of, value_order, Pass, Setting};
use crate::tree::builder::growth::{nothing_is_not_found, Best, Target};
use crate::tree::builder::sums::{
    adds_up, both, boundary_is_either, boundary_sides_add_up, categorical_sides_add_up,
    categories_add_up, joined_rows_add_up, left_side, no_rows_add_up, nothing, of_categories,
    one_row, one_row_adds_up, only, same_rows_add_up, sends_left, sides_add_up,
};
use crate::tree::gain::{no_stats, RegParams};

verus! {

/// The rows that stand at a node.
pub open spec fn at_node(node_of: Seq<Option<usize>>, nid: int) -> spec_fn(int) -> bool {
    |r: int| node_of[r] matches Some(x) && x == nid
}

/// The rows of some that have a value of a feature.
pub open spec fn having(
    at: spec_fn(int) -> bool,
    data: &DMatrix,
    f: u32,
) -> spec_fn(int) -> bool {
    |r: int| at(r) && data.cell(r, f as int) is Some
}

/// The rows of some whose value of a feature lies below a threshold.
pub open spec fn below(
    at: spec_fn(int) -> bool,
    data: &DMatrix,
    f: u32,
    t: Single,
) -> spec_fn(int) -> bool {
    |r: int| at(r) && (data.cell(r, f as int) matches Some(v) && v.lt(t))
}

/// The rows that a split sends left by their values.
pub open spec fn by_data(b: Best, data: &DMatrix) -> spec_fn(int) -> bool {
    |r: int| sends_left(b, data.cell(r, b.feature as int))
}

/// Whether the sides of a split that was found are the sums over the rows that its
/// values send there, if its threshold is not rounded.
pub open spec fn found_sides_add_up<F: Fn(Op, u64, u64) -> u64>(
    b: Best,
    data: &DMatrix,
    gp: Seq<GradPair>,
    at: spec_fn(int) -> bool,
    val: spec_fn(Wide) -> Option<real>,
    calc: &Calc<F>,
) -> bool {
    b.is_found() && (b.is_categorical || val(calc.widened(b.threshold)) is Some) ==> sides_add_up(
        b,
        gp,
        at,
        by_data(b, data),
        val,
        calc,
    )
}

/// Whether a list pairs the rows of a matrix that have a value of a feature with
/// these values, each row once, in ascending order of the values.
pub open spec fn lists_column(col: Seq<(u32, Single)>, data: &DMatrix, f: u32, n: int) -> bool {
    &&& forall|k: int|
        0 <= k < col.len() ==> (#[trigger] col[k]).0 < n && data.cell(col[k].0 as int, f as int)
            == Some(col[k].1)
    &&& forall|i: int, j: int|
        0 <= i < j < col.len() ==> (#[trigger] col[i]).0 != (#[trigger] col[j]).0 && col[i].1.le(
            col[j].1,
        )
    &&& forall|r: int|
        0 <= r < n && #[trigger] data.cell(r, f as int) is Some ==> lists_row(col, r)
}

/// Whether a list has an entry of a row.
pub open spec fn lists_row(col: Seq<(u32, Single)>, r: int) -> bool {
    exists|k: int| 0 <= k < col.len() && (#[trigger] col[k]).0 as int == r
}

/// The columns of a matrix, sorted by value, list it.
pub proof fn sorted_columns_list_the_matrix(m: &DMatrix, f: u32)
    requires
        m.height() <= 0x1_0000_0000,
        m.column_prefix(f as int, m.height()).len() <= usize::MAX,
        sortable(values_of(m.column_prefix(f as int, m.height()))),
        forall|r: int| 0 <= r < m.height() ==> distinct_columns(#[trigger] m.stored(r)),
    ensures
        lists_column(
            by_value(m.column_prefix(f as int, m.height())),
            m,
            f,
            m.height(),
        ),
{
    let n = m.height();
    let pairs = m.column_prefix(f as int, n);
    let keys = places(values_of(pairs));
    stable_order_exists(keys);
    let order = value_order(pairs);
    assert(stable_order(keys, order));
    let col = by_value(pairs);
    rows_of_a_column(m, f as int, n);
    assert forall|k: int| 0 <= k < col.len() implies (#[trigger] col[k]).0 < n && m.cell(
        col[k].0 as int,
        f as int,
    ) == Some(col[k].1) by {
        assert(col[k] == pairs[order[k] as int]);
        let r = col[k].0 as int;
        assert(pairs[order[k] as int].0 < n);
        columns_are_cells(m, n, r, f, col[k].1);
        assert(pairs.contains((r as u32, col[k].1)));
    }
    assert forall|i: int, j: int| 0 <= i < j < col.len() implies (#[trigger] col[i]).0 != (
    #[trigger] col[j]).0 && col[i].1.le(col[j].1) by {
        let a = order[i] as int;
        let b = order[j] as int;
        assert(before(keys, a, b));
        assert(col[i] == pairs[a] && col[j] == pairs[b]);
        assert(values_of(pairs)[a] == pairs[a].1 && values_of(pairs)[b] == pairs[b].1);
        if a < b {
            columns_list_rows_once(m, f as int, n, a, b);
        } else {
            columns_list_rows_once(m, f as int, n, b, a);
        }
    }
    assert forall|r: int| 0 <= r < n && #[trigger] m.cell(r, f as int) is Some implies lists_row(
        col,
        r,
    ) by {
        let v = m.cell(r, f as int)->0;
        columns_are_cells(m, n, r, f, v);
        let k = choose|k: int| 0 <= k < pairs.len() && pairs[k] == (r as u32, v);
        assert(order.contains(k as usize));
        let a = choose|a: int| 0 <= a < order.len() && order[a] == k as usize;
        assert(col[a] == pairs[k]);
    }
}

/// The rows of a node among the first `n` entries of a column.
pub open spec fn seen(pass: Pass, nid: int, n: int) -> spec_fn(int) -> bool {
    |r: int|
        at_node(pass.node_of, nid)(r) && exists|k: int|
            0 <= k < n && (#[trigger] pass.col[k]).0 as int == r
}

proof fn one_more_is_seen(pass: Pass, nid: int, n: int, data: &DMatrix, f: u32)
    requires
        lists_column(pass.col, data, f, pass.gp.len() as int),
        0 < n <= pass.col.len(),
    ensures
        ({
            let x = pass.col[n - 1].0 as int;
            let was = seen(pass, nid, n - 1);
            let now = seen(pass, nid, n);
            &&& 0 <= x < pass.gp.len()
            &&& !was(x)
            &&& pass.belongs(n - 1, nid) ==> forall|r: int| #[trigger] now(r) == (was(r) || r == x)
            &&& !pass.belongs(n - 1, nid) ==> forall|r: int| #[trigger] now(r) == was(r)
        }),
{
    let x = pass.col[n - 1].0 as int;
    let was = seen(pass, nid, n - 1);
    let now = seen(pass, nid, n);
    let at = at_node(pass.node_of, nid);
    assert(at(x) == pass.belongs(n - 1, nid));
    if was(x) {
        let k = choose|k: int| 0 <= k < n - 1 && (#[trigger] pass.col[k]).0 as int == x;
        assert(pass.col[k].0 != pass.col[n - 1].0);
    }
    assert forall|r: int| #[trigger] now(r) == (was(r) || (at(r) && r == x)) by {
        if now(r) {
            let k = choose|k: int| 0 <= k < n && (#[trigger] pass.col[k]).0 as int == r;
            if k < n - 1 {
                assert(was(r));
            }
        }
        if at(r) && r == x {
            assert(pass.col[n - 1].0 as int == r);
        }
    }
}

proof fn present_rows_add_up<F: Fn(Op, u64, u64) -> u64>(
    pass: Pass,
    nid: int,
    n: int,
    data: &DMatrix,
    f: u32,
    val: spec_fn(Wide) -> Option<real>,
    calc: &Calc<F>,
)
    requires
        adds_exactly(val, calc),
        lists_column(pass.col, data, f, pass.gp.len() as int),
        0 <= n <= pass.col.len(),
    ensures
        adds_up(pass.present(nid, n, calc), pass.gp, seen(pass, nid, n), val, calc),
    decreases n,
{
    if n <= 0 {
        no_rows_add_up(pass.gp, val, calc);
        same_rows_add_up(no_stats(), pass.gp, nothing(), seen(pass, nid, n), val, calc);
    } else {
        present_rows_add_up(pass, nid, n - 1, data, f, val, calc);
        one_more_is_seen(pass, nid, n, data, f);
        let so_far = pass.present(nid, n - 1, calc);
        let x = pass.col[n - 1].0 as int;
        let was = seen(pass, nid, n - 1);
        let now = seen(pass, nid, n);
        if pass.belongs(n - 1, nid) {
            one_row_adds_up(pass.gp, x, val, calc);
            joined_rows_add_up(
                so_far,
                pass.gp[x].stats(calc),
                pass.gp,
                now,
                was,
                one_row(x),
                val,
                calc,
            );
        } else {
            same_rows_add_up(so_far, pass.gp, was, now, val, calc);
        }
    }
}

/// The rows seen before a boundary are those below its threshold.
proof fn rows_before_a_boundary_lie_below(
    pass: Pass,
    nid: int,
    i: int,
    j: int,
    t: Single,
    r: int,
    data: &DMatrix,
    f: u32,
)
    requires
        lists_column(pass.col, data, f, pass.gp.len() as int),
        0 <= i < j < pass.col.len(),
        forall|k: int| i < k < j ==> !#[trigger] pass.belongs(k, nid),
        pass.col[i].1.lt(t),
        t.le(pass.col[j].1),
        0 <= r < pass.gp.len(),
    ensures
        seen(pass, nid, j)(r) == below(at_node(pass.node_of, nid), data, f, t)(r),
{
    let at = at_node(pass.node_of, nid);
    if seen(pass, nid, j)(r) {
        let k = choose|k: int| 0 <= k < j && (#[trigger] pass.col[k]).0 as int == r;
        assert(pass.belongs(k, nid));
        assert(k <= i);
        if k < i {
            assert(pass.col[k].1.le(pass.col[i].1));
        }
    }
    if below(at, data, f, t)(r) {
        assert(lists_row(pass.col, r));
        let k = choose|k: int| 0 <= k < pass.col.len() && (#[trigger] pass.col[k]).0 as int == r;
        assert(data.cell(r, f as int) == Some(pass.col[k].1));
        if k > j {
            assert(pass.col[j].1.le(pass.col[k].1));
        }
        assert(k < j);
    }
}

/// Where a pass has had an entry of a node, it knows the last one.
proof fn scan_has_a_last<F: Fn(Op, u64, u64) -> u64>(
    pass: Pass,
    nid: int,
    best: Best,
    target: Target,
    dir: i8,
    f: u32,
    n: int,
    reg: RegParams,
    calc: &Calc<F>,
) -> (i: int)
    requires
        0 <= n <= pass.col.len(),
    ensures
        ({
            let scan = pass.scan(nid, best, target, dir, f, n, reg, calc);
            &&& scan.acc == pass.present(nid, n, calc)
            &&& scan.has ==> {
                &&& 0 <= i < n
                &&& scan.last == pass.col[i].1
                &&& forall|k: int| i < k < n ==> !#[trigger] pass.belongs(k, nid)
            }
        }),
    decreases n,
{
    if n <= 0 {
        0
    } else {
        let i = scan_has_a_last(pass, nid, best, target, dir, f, n - 1, reg, calc);
        if pass.belongs(n - 1, nid) {
            n - 1
        } else {
            i
        }
    }
}

proof fn halves_lie_between<F: Fn(Op, u64, u64) -> u64>(
    a: Single,
    b: Single,
    val: spec_fn(Wide) -> Option<real>,
    calc: &Calc<F>,
)
    requires
        singles_halve(val, calc),
        a.le(b),
        !b.same(a),
        val(calc.widened(calc.times_s(Single { bits: HALF_S }, calc.plus_s(a, b)))) is Some,
    ensures
        a.lt(calc.times_s(Single { bits: HALF_S }, calc.plus_s(a, b))),
        calc.times_s(Single { bits: HALF_S }, calc.plus_s(a, b)).le(b),
{
    let t = calc.times_s(Single { bits: HALF_S }, calc.plus_s(a, b));
    assert(val(calc.widened(calc.plus_s(a, b))) is Some);
    assert(a.lt(b));
}

proof fn scan_sides_add_up<F: Fn(Op, u64, u64) -> u64>(
    pass: Pass,
    nid: int,
    best: Best,
    target: Target,
    dir: i8,
    f: u32,
    n: int,
    reg: RegParams,
    data: &DMatrix,
    val: spec_fn(Wide) -> Option<real>,
    calc: &Calc<F>,
)
    requires
        adds_exactly(val, calc),
        singles_halve(val, calc),
        lists_column(pass.col, data, f, pass.gp.len() as int),
        0 <= n <= pass.col.len(),
        found_sides_add_up(best, data, pass.gp, at_node(pass.node_of, nid), val, calc),
        adds_up(target.total, pass.gp, at_node(pass.node_of, nid), val, calc),
    ensures
        found_sides_add_up(
            pass.scan(nid, best, target, dir, f, n, reg, calc).best,
            data,
            pass.gp,
            at_node(pass.node_of, nid),
            val,
            calc,
        ),
    decreases n,
{
    if n > 0 {
        scan_sides_add_up(pass, nid, best, target, dir, f, n - 1, reg, data, val, calc);
        let so_far = pass.scan(nid, best, target, dir, f, n - 1, reg, calc);
        let v = pass.col[n - 1].1;
        if pass.belongs(n - 1, nid) && so_far.has && !v.same(so_far.last) {
            let at = at_node(pass.node_of, nid);
            let i = scan_has_a_last(pass, nid, best, target, dir, f, n - 1, reg, calc);
            let t = calc.times_s(Single { bits: HALF_S }, calc.plus_s(so_far.last, v));
            let all = pass.col.len() as int;
            assert(pass.col[i].1.le(pass.col[n - 1].1));
            present_rows_add_up(pass, nid, n - 1, data, f, val, calc);
            present_rows_add_up(pass, nid, all, data, f, val, calc);
            all_rows_are_seen(pass, nid, data, f);
            same_rows_add_up(
                pass.total(nid, calc),
                pass.gp,
                seen(pass, nid, all),
                having(at, data, f),
                val,
                calc,
            );
            let after = pass.scan(nid, best, target, dir, f, n, reg, calc).best;
            let present = pass.total(nid, calc);
            boundary_is_either(
                so_far.best,
                target,
                dir,
                present,
                so_far.acc,
                f,
                t,
                0,
                reg,
                calc,
            );
            if val(calc.widened(t)) is Some {
                halves_lie_between(so_far.last, v, val, calc);
                let low = below(at, data, f, t);
                assert forall|r: int| 0 <= r < pass.gp.len() implies #[trigger] low(r) == seen(
                    pass,
                    nid,
                    n - 1,
                )(r) by {
                    rows_before_a_boundary_lie_below(pass, nid, i, n - 1, t, r, data, f);
                }
                same_rows_add_up(so_far.acc, pass.gp, seen(pass, nid, n - 1), low, val, calc);
                let valued = having(at, data, f);
                boundary_sides_add_up(
                    so_far.best,
                    target,
                    dir,
                    present,
                    so_far.acc,
                    f,
                    t,
                    0,
                    reg,
                    pass.gp,
                    at,
                    valued,
                    low,
                    val,
                    calc,
                );
                if after != so_far.best {
                    let left = left_side(at, valued, low, after.default_left);
                    let goes = by_data(after, data);
                    same_rows_add_up(after.left, pass.gp, left, both(at, goes), val, calc);
                    same_rows_add_up(
                        after.right,
                        pass.gp,
                        only(at, left),
                        only(at, goes),
                        val,
                        calc,
                    );
                }
            }
        }
    }
}

/// The category of a row, if it has a value of the feature.
pub open spec fn category_in(data: &DMatrix, f: u32) -> spec_fn(int) -> Option<u32> {
    |r: int|
        match data.cell(r, f as int) {
            Some(v) => Some(v.count(u32::MAX as int) as u32),
            None => None,
        }
}

proof fn places_are_found(cats: Seq<u32>, c: u32, k: int)
    requires
        0 <= k <= cats.len(),
    ensures
        k <= place_of(cats, c, k) <= cats.len(),
        place_of(cats, c, k) < cats.len() ==> cats[place_of(cats, c, k)] == c,
        place_of(cats, c, k) == cats.len() ==> forall|j: int|
            k <= j < cats.len() ==> #[trigger] cats[j] != c,
    decreases cats.len() - k,
{
    if k < cats.len() && cats[k] != c {
        places_are_found(cats, c, k + 1);
    }
}

proof fn table_adds_up<F: Fn(Op, u64, u64) -> u64>(
    pass: Pass,
    nid: int,
    n: int,
    data: &DMatrix,
    f: u32,
    val: spec_fn(Wide) -> Option<real>,
    calc: &Calc<F>,
)
    requires
        adds_exactly(val, calc),
        lists_column(pass.col, data, f, pass.gp.len() as int),
        0 <= n <= pass.col.len(),
    ensures
        ({
            let (cats, stats) = pass.table(nid, n, calc);
            &&& cats.len() <= n
            &&& categories_add_up(
                cats,
                stats,
                pass.gp,
                seen(pass, nid, n),
                category_in(data, f),
                val,
                calc,
            )
        }),
    decreases n,
{
    if n > 0 {
        table_adds_up(pass, nid, n - 1, data, f, val, calc);
        one_more_is_seen(pass, nid, n, data, f);
        let (cats, stats) = pass.table(nid, n - 1, calc);
        let (more, sums) = pass.table(nid, n, calc);
        let x = pass.col[n - 1].0 as int;
        let was = seen(pass, nid, n - 1);
        let now = seen(pass, nid, n);
        let category = category_in(data, f);
        let gp = pass.gp;
        assert(category(x) == Some(pass.col[n - 1].1.count(u32::MAX as int) as u32));
        let c = pass.col[n - 1].1.count(u32::MAX as int) as u32;
        let p = place_of(cats, c, 0);
        places_are_found(cats, c, 0);
        one_row_adds_up(gp, x, val, calc);
        assert forall|i: int| 0 <= i < more.len() implies adds_up(
            #[trigger] sums[i],
            gp,
            of_categories(now, category, seq![more[i]]),
            val,
            calc,
        ) by {
            let only_it = seq![more[i]];
            assert(only_it[0] == more[i]);
            let old = of_categories(was, category, only_it);
            let new = of_categories(now, category, only_it);
            if i < cats.len() {
                assert(more[i] == cats[i]);
                assert(adds_up(stats[i], gp, old, val, calc));
            }
            if pass.belongs(n - 1, nid) && i == p {
                assert(only_it.contains(c));
                assert forall|r: int| 0 <= r < gp.len() implies (#[trigger] new(r) == (old(r)
                    || one_row(x)(r))) && !(old(r) && one_row(x)(r)) by {
                    assert(now(r) == (was(r) || r == x));
                }
                if i == cats.len() {
                    no_rows_add_up(gp, val, calc);
                    assert forall|r: int| 0 <= r < gp.len() implies #[trigger] old(r) == nothing()(
                        r,
                    ) by {
                        if old(r) {
                            no_row_of_a_new_category(pass, nid, n - 1, data, f, r, calc);
                            assert(cats.contains(c));
                        }
                    }
                    same_rows_add_up(no_stats(), gp, nothing(), old, val, calc);
                    joined_rows_add_up(
                        no_stats(),
                        gp[x].stats(calc),
                        gp,
                        new,
                        old,
                        one_row(x),
                        val,
                        calc,
                    );
                } else {
                    joined_rows_add_up(
                        stats[i],
                        gp[x].stats(calc),
                        gp,
                        new,
                        old,
                        one_row(x),
                        val,
                        calc,
                    );
                }
            } else {
                assert forall|r: int| 0 <= r < gp.len() implies #[trigger] new(r) == old(r) by {
                    if pass.belongs(n - 1, nid) {
                        assert(now(r) == (was(r) || r == x));
                        if r == x && only_it.contains(c) {
                            assert(more[i] == c);
                            assert(cats[i] == cats[p]);
                        }
                    } else {
                        assert(now(r) == was(r));
                    }
                }
                same_rows_add_up(sums[i], gp, old, new, val, calc);
            }
        }
    } else {
        assert(pass.table(nid, n, calc).0.no_duplicates());
    }
}

/// The categories of the rows seen are listed.
proof fn no_row_of_a_new_category<F: Fn(Op, u64, u64) -> u64>(
    pass: Pass,
    nid: int,
    n: int,
    data: &DMatrix,
    f: u32,
    r: int,
    calc: &Calc<F>,
)
    requires
        lists_column(pass.col, data, f, pass.gp.len() as int),
        0 <= n <= pass.col.len(),
        seen(pass, nid, n)(r),
    ensures
        category_in(data, f)(r) matches Some(c) && pass.table(nid, n, calc).0.contains(c),
    decreases n,
{
    if n > 0 {
        one_more_is_seen(pass, nid, n, data, f);
        let (cats, stats) = pass.table(nid, n - 1, calc);
        let (more, sums) = pass.table(nid, n, calc);
        let x = pass.col[n - 1].0 as int;
        let c = pass.col[n - 1].1.count(u32::MAX as int) as u32;
        places_are_found(cats, c, 0);
        if seen(pass, nid, n - 1)(r) {
            no_row_of_a_new_category(pass, nid, n - 1, data, f, r, calc);
            let d = category_in(data, f)(r)->0;
            let k = choose|k: int| 0 <= k < cats.len() && cats[k] == d;
            assert(more[k] == d);
        } else {
            assert(r == x);
            assert(data.cell(r, f as int) == Some(pass.col[n - 1].1));
            assert(more[place_of(cats, c, 0)] == c);
        }
    }
}

/// The sides of a node's best split are the sums over the rows that its values send
/// there, if its threshold is not rounded.
pub proof fn best_sides_add_up<F: Fn(Op, u64, u64) -> u64>(
    st: Setting,
    data: &DMatrix,
    node_of: Seq<Option<usize>>,
    fs: Seq<u32>,
    nid: int,
    path: Seq<u32>,
    target: Target,
    n: int,
    val: spec_fn(Wide) -> Option<real>,
    calc: &Calc<F>,
)
    requires
        adds_exactly(val, calc),
        singles_halve(val, calc),
        0 <= n <= fs.len(),
        st.gp.len() <= usize::MAX,
        forall|i: int|
            0 <= i < fs.len() ==> lists_column(
                st.cols.pairs(#[trigger] fs[i] as int),
                data,
                fs[i],
                st.gp.len() as int,
            ) && st.cols.pairs(fs[i] as int).len() <= usize::MAX,
        adds_up(target.total, st.gp, at_node(node_of, nid), val, calc),
    ensures
        found_sides_add_up(
            level_best(st, node_of, fs, nid, path, target, n, calc),
            data,
            st.gp,
            at_node(node_of, nid),
            val,
            calc,
        ),
    decreases n,
{
    if n <= 0 {
        nothing_is_not_found();
    } else {
        best_sides_add_up(st, data, node_of, fs, nid, path, target, n - 1, val, calc);
        let so_far = level_best(st, node_of, fs, nid, path, target, n - 1, calc);
        let after = level_best(st, node_of, fs, nid, path, target, n, calc);
        let f = fs[n - 1];
        let dir = st.cons.direction(f as int);
        let pass = Pass { col: st.cols.pairs(f as int), node_of, gp: st.gp };
        let all = pass.col.len() as int;
        let at = at_node(node_of, nid);
        assert(lists_column(pass.col, data, f, st.gp.len() as int));
        if st.types[f as int] == FeatureType::Categorical {
            let (cats, stats) = pass.table(nid, all, calc);
            let category = category_in(data, f);
            table_adds_up(pass, nid, all, data, f, val, calc);
            all_rows_are_seen(pass, nid, data, f);
            let seen_all = seen(pass, nid, all);
            assert forall|i: int| 0 <= i < cats.len() implies adds_up(
                #[trigger] stats[i],
                st.gp,
                of_categories(at, category, seq![cats[i]]),
                val,
                calc,
            ) by {
                let new = of_categories(at, category, seq![cats[i]]);
                let old = of_categories(seen_all, category, seq![cats[i]]);
                assert forall|r: int| 0 <= r < st.gp.len() implies #[trigger] new(r) == old(r) by {
                    assert(having(at, data, f)(r) == seen_all(r));
                }
                same_rows_add_up(stats[i], st.gp, old, new, val, calc);
            }
            categorical_sides_add_up(
                so_far,
                target,
                dir,
                f,
                cats,
                stats,
                st.reg,
                st.gp,
                at,
                category,
                val,
                calc,
            );
            if after != so_far {
                let left = of_categories(at, category, after.cat_left);
                let goes = by_data(after, data);
                same_rows_add_up(after.left, st.gp, left, both(at, goes), val, calc);
                same_rows_add_up(after.right, st.gp, only(at, left), only(at, goes), val, calc);
            }
        } else {
            scan_sides_add_up(pass, nid, so_far, target, dir, f, all, st.reg, data, val, calc);
        }
    }
}

proof fn all_rows_are_seen(pass: Pass, nid: int, data: &DMatrix, f: u32)
    requires
        lists_column(pass.col, data, f, pass.gp.len() as int),
    ensures
        forall|r: int|
            0 <= r < pass.gp.len() ==> #[trigger] having(
                at_node(pass.node_of, nid),
                data,
                f,
            )(r) == seen(pass, nid, pass.col.len() as int)(r),
{
    let at = at_node(pass.node_of, nid);
    let n = pass.col.len() as int;
    assert forall|r: int| 0 <= r < pass.gp.len() implies #[trigger] having(at, data, f)(r) == seen(
        pass,
        nid,
        n,
    )(r) by {
        if having(at, data, f)(r) {
            assert(lists_row(pass.col, r));
        }
        if seen(pass, nid, n)(r) {
            let k = choose|k: int| 0 <= k < n && (#[trigger] pass.col[k]).0 as int == r;
            assert(data.cell(r, f as int) == Some(pass.col[k].1));
        }
    }
}

} // verus!
