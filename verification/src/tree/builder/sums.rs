//! Statistics that are sums over rows, in an arithmetic that does not round.

use vstd::prelude::*;

use crate::arith::{Calc, Op};
use crate::exact::{adds_exactly, stands};
use crate::number::{Single, Wide};
use crate::objective::pair::GradPair;
use crate::tree::builder::exact::rows_stats;
use crate::sort::{before, stable_order, stable_order_exists};
use crate::tree::builder::growth::{
    arranged, better, boundary, categorical, category_place, numeric_place, prefix_stats,
    ratio_keys, ratio_order, sweep, Best, Place, Target,
};
use crate::tree::gain::{no_stats, GradStats, RegParams};

verus! {

/// What row `r` adds to a sum: its Hessian or its gradient.
pub open spec fn amount<F: Fn(Op, u64, u64) -> u64>(
    gp: Seq<GradPair>,
    r: int,
    hess: bool,
    val: spec_fn(Wide) -> Option<real>,
    calc: &Calc<F>,
) -> real {
    let stats = gp[r].stats(calc);
    if hess { val(stats.hess)->0 } else { val(stats.grad)->0 }
}

/// The sum of the Hessians or the gradients of those of the first `n` rows that
/// are kept.
pub open spec fn sum_where<F: Fn(Op, u64, u64) -> u64>(
    gp: Seq<GradPair>,
    keeps: spec_fn(int) -> bool,
    n: int,
    hess: bool,
    val: spec_fn(Wide) -> Option<real>,
    calc: &Calc<F>,
) -> real
    decreases n,
{
    if n <= 0 {
        0real
    } else {
        sum_where(gp, keeps, n - 1, hess, val, calc) + if keeps(n - 1) {
            amount(gp, n - 1, hess, val, calc)
        } else {
            0real
        }
    }
}

/// Whether statistics are the sums over the rows that are kept, as far as they
/// stand for numbers.
pub open spec fn adds_up<F: Fn(Op, u64, u64) -> u64>(
    stats: GradStats,
    gp: Seq<GradPair>,
    keeps: spec_fn(int) -> bool,
    val: spec_fn(Wide) -> Option<real>,
    calc: &Calc<F>,
) -> bool {
    &&& stands(stats.grad, sum_where(gp, keeps, gp.len() as int, false, val, calc), val)
    &&& stands(stats.hess, sum_where(gp, keeps, gp.len() as int, true, val, calc), val)
}

/// The rows of one kind that are of another one too.
pub open spec fn both(p: spec_fn(int) -> bool, q: spec_fn(int) -> bool) -> spec_fn(int) -> bool {
    |r: int| p(r) && q(r)
}

/// The rows of one kind that are not of another one.
pub open spec fn only(p: spec_fn(int) -> bool, q: spec_fn(int) -> bool) -> spec_fn(int) -> bool {
    |r: int| p(r) && !q(r)
}

/// No rows.
pub open spec fn nothing() -> spec_fn(int) -> bool {
    |r: int| false
}

/// Row `x` alone.
pub open spec fn one_row(x: int) -> spec_fn(int) -> bool {
    |r: int| r == x
}

/// Whether the first `n` rows of one kind are parted into those of two others.
pub open spec fn parts(
    whole: spec_fn(int) -> bool,
    p: spec_fn(int) -> bool,
    q: spec_fn(int) -> bool,
    n: int,
) -> bool {
    forall|r: int|
        #![trigger whole(r)]
        #![trigger p(r)]
        #![trigger q(r)]
        0 <= r < n ==> whole(r) == (p(r) || q(r)) && !(p(r) && q(r))
}

proof fn sums_part<F: Fn(Op, u64, u64) -> u64>(
    gp: Seq<GradPair>,
    whole: spec_fn(int) -> bool,
    p: spec_fn(int) -> bool,
    q: spec_fn(int) -> bool,
    n: int,
    hess: bool,
    val: spec_fn(Wide) -> Option<real>,
    calc: &Calc<F>,
)
    requires
        parts(whole, p, q, n),
    ensures
        sum_where(gp, whole, n, hess, val, calc) == sum_where(gp, p, n, hess, val, calc)
            + sum_where(gp, q, n, hess, val, calc),
    decreases n,
{
    if n > 0 {
        sums_part(gp, whole, p, q, n - 1, hess, val, calc);
        assert(whole(n - 1) == (p(n - 1) || q(n - 1)));
    }
}

proof fn sum_of_one<F: Fn(Op, u64, u64) -> u64>(
    gp: Seq<GradPair>,
    x: int,
    n: int,
    hess: bool,
    val: spec_fn(Wide) -> Option<real>,
    calc: &Calc<F>,
)
    ensures
        sum_where(gp, one_row(x), n, hess, val, calc) == if 0 <= x < n {
            amount(gp, x, hess, val, calc)
        } else {
            0real
        },
    decreases n,
{
    if n > 0 {
        sum_of_one(gp, x, n - 1, hess, val, calc);
    }
}

proof fn sum_of_nothing<F: Fn(Op, u64, u64) -> u64>(
    gp: Seq<GradPair>,
    n: int,
    hess: bool,
    val: spec_fn(Wide) -> Option<real>,
    calc: &Calc<F>,
)
    ensures
        sum_where(gp, nothing(), n, hess, val, calc) == 0real,
    decreases n,
{
    if n > 0 {
        sum_of_nothing(gp, n - 1, hess, val, calc);
    }
}

/// Sums over the same rows are the same.
pub proof fn same_rows_add_up<F: Fn(Op, u64, u64) -> u64>(
    stats: GradStats,
    gp: Seq<GradPair>,
    p: spec_fn(int) -> bool,
    q: spec_fn(int) -> bool,
    val: spec_fn(Wide) -> Option<real>,
    calc: &Calc<F>,
)
    requires
        adds_up(stats, gp, p, val, calc),
        forall|r: int| 0 <= r < gp.len() ==> #[trigger] q(r) == p(r),
    ensures
        adds_up(stats, gp, q, val, calc),
{
    let n = gp.len() as int;
    sums_part(gp, q, p, nothing(), n, false, val, calc);
    sums_part(gp, q, p, nothing(), n, true, val, calc);
    sum_of_nothing(gp, n, false, val, calc);
    sum_of_nothing(gp, n, true, val, calc);
}

/// The statistics of no rows add up.
pub proof fn no_rows_add_up<F: Fn(Op, u64, u64) -> u64>(
    gp: Seq<GradPair>,
    val: spec_fn(Wide) -> Option<real>,
    calc: &Calc<F>,
)
    requires
        adds_exactly(val, calc),
    ensures
        adds_up(no_stats(), gp, nothing(), val, calc),
{
    sum_of_nothing(gp, gp.len() as int, false, val, calc);
    sum_of_nothing(gp, gp.len() as int, true, val, calc);
}

/// The statistics of one row add up.
pub proof fn one_row_adds_up<F: Fn(Op, u64, u64) -> u64>(
    gp: Seq<GradPair>,
    x: int,
    val: spec_fn(Wide) -> Option<real>,
    calc: &Calc<F>,
)
    requires
        0 <= x < gp.len(),
    ensures
        adds_up(gp[x].stats(calc), gp, one_row(x), val, calc),
{
    sum_of_one(gp, x, gp.len() as int, false, val, calc);
    sum_of_one(gp, x, gp.len() as int, true, val, calc);
}

/// The statistics of two disjoint kinds of rows, joined, are those of all of them.
pub proof fn joined_rows_add_up<F: Fn(Op, u64, u64) -> u64>(
    a: GradStats,
    b: GradStats,
    gp: Seq<GradPair>,
    whole: spec_fn(int) -> bool,
    p: spec_fn(int) -> bool,
    q: spec_fn(int) -> bool,
    val: spec_fn(Wide) -> Option<real>,
    calc: &Calc<F>,
)
    requires
        adds_exactly(val, calc),
        adds_up(a, gp, p, val, calc),
        adds_up(b, gp, q, val, calc),
        parts(whole, p, q, gp.len() as int),
    ensures
        adds_up(a.joined(b, calc), gp, whole, val, calc),
{
    sums_part(gp, whole, p, q, gp.len() as int, false, val, calc);
    sums_part(gp, whole, p, q, gp.len() as int, true, val, calc);
}

/// The statistics of some rows without those of a part are those of the rest.
pub proof fn other_rows_add_up<F: Fn(Op, u64, u64) -> u64>(
    a: GradStats,
    b: GradStats,
    gp: Seq<GradPair>,
    whole: spec_fn(int) -> bool,
    p: spec_fn(int) -> bool,
    q: spec_fn(int) -> bool,
    val: spec_fn(Wide) -> Option<real>,
    calc: &Calc<F>,
)
    requires
        adds_exactly(val, calc),
        adds_up(a, gp, whole, val, calc),
        adds_up(b, gp, p, val, calc),
        parts(whole, p, q, gp.len() as int),
    ensures
        adds_up(a.without(b, calc), gp, q, val, calc),
{
    sums_part(gp, whole, p, q, gp.len() as int, false, val, calc);
    sums_part(gp, whole, p, q, gp.len() as int, true, val, calc);
}

/// A list of rows that names none twice adds up to the rows it names.
pub proof fn listed_rows_add_up<F: Fn(Op, u64, u64) -> u64>(
    gp: Seq<GradPair>,
    rows: Seq<u32>,
    n: int,
    val: spec_fn(Wide) -> Option<real>,
    calc: &Calc<F>,
)
    requires
        adds_exactly(val, calc),
        rows.no_duplicates(),
        0 <= n <= rows.len(),
        forall|i: int| 0 <= i < rows.len() ==> #[trigger] rows[i] < gp.len(),
    ensures
        adds_up(
            rows_stats(gp, rows, n, calc),
            gp,
            named(rows.take(n)),
            val,
            calc,
        ),
    decreases n,
{
    if n <= 0 {
        no_rows_add_up(gp, val, calc);
        same_rows_add_up(no_stats(), gp, nothing(), named(rows.take(n)), val, calc);
    } else {
        listed_rows_add_up(gp, rows, n - 1, val, calc);
        let x = rows[n - 1] as int;
        one_row_adds_up(gp, x, val, calc);
        let before = named(rows.take(n - 1));
        let after = named(rows.take(n));
        assert forall|r: int| 0 <= r < gp.len() implies (#[trigger] after(r) == (before(r)
            || one_row(x)(r))) && !(before(r) && one_row(x)(r)) by {
            if before(r) {
                let k = choose|k: int| 0 <= k < n - 1 && #[trigger] rows.take(n - 1)[k] as int == r;
                assert(rows.take(n)[k] as int == r);
                assert(rows[k] != rows[n - 1]);
            }
            if one_row(x)(r) {
                assert(rows.take(n)[n - 1] as int == r);
            }
            if after(r) {
                let k = choose|k: int| 0 <= k < n && #[trigger] rows.take(n)[k] as int == r;
                if k < n - 1 {
                    assert(rows.take(n - 1)[k] as int == r);
                }
            }
        }
        joined_rows_add_up(
            rows_stats(gp, rows, n - 1, calc),
            gp[x].stats(calc),
            gp,
            after,
            before,
            one_row(x),
            val,
            calc,
        );
    }
}

/// The rows that a list names.
pub open spec fn named(rows: Seq<u32>) -> spec_fn(int) -> bool {
    |r: int| exists|k: int| 0 <= k < rows.len() && #[trigger] rows[k] as int == r
}

/// Whether the sides of a split are the sums over those rows of a node that go
/// left and those that do not.
pub open spec fn sides_add_up<F: Fn(Op, u64, u64) -> u64>(
    b: Best,
    gp: Seq<GradPair>,
    at: spec_fn(int) -> bool,
    goes: spec_fn(int) -> bool,
    val: spec_fn(Wide) -> Option<real>,
    calc: &Calc<F>,
) -> bool {
    &&& adds_up(b.left, gp, both(at, goes), val, calc)
    &&& adds_up(b.right, gp, only(at, goes), val, calc)
}

/// Weighing a candidate gives the best so far or that candidate.
pub(crate) proof fn better_is_either<F: Fn(Op, u64, u64) -> u64>(
    best: Best,
    target: Target,
    dir: i8,
    left: GradStats,
    right: GradStats,
    place: Place,
    reg: RegParams,
    calc: &Calc<F>,
)
    ensures
        ({
            let after = better(best, target, dir, left, right, place, reg, calc);
            after == best || {
                &&& after.left == left
                &&& after.right == right
                &&& after.feature == place.feature
                &&& after.threshold == place.threshold
                &&& after.split_bin == place.split_bin
                &&& after.default_left == place.default_left
                &&& after.is_categorical == place.is_categorical
                &&& after.cat_left == place.cat_left
            }
        }),
{
}

/// Which side a split sends a value to.
pub open spec fn sends_left(b: Best, v: Option<Single>) -> bool {
    match v {
        Some(x) => if b.is_categorical {
            b.cat_left.contains(x.count(u32::MAX as int) as u32)
        } else {
            x.lt(b.threshold)
        },
        None => b.default_left,
    }
}

/// The rows of a node that a boundary sends left: those below it, and those
/// without a value where these go left.
pub open spec fn left_side(
    at: spec_fn(int) -> bool,
    valued: spec_fn(int) -> bool,
    low: spec_fn(int) -> bool,
    default_left: bool,
) -> spec_fn(int) -> bool {
    |r: int| low(r) || (default_left && at(r) && !valued(r))
}

/// Where what lies before a boundary adds up, so do the sides of the boundary.
pub(crate) proof fn boundary_sides_add_up<F: Fn(Op, u64, u64) -> u64>(
    best: Best,
    target: Target,
    dir: i8,
    present: GradStats,
    before: GradStats,
    f: u32,
    t: Single,
    bin: usize,
    reg: RegParams,
    gp: Seq<GradPair>,
    at: spec_fn(int) -> bool,
    valued: spec_fn(int) -> bool,
    low: spec_fn(int) -> bool,
    val: spec_fn(Wide) -> Option<real>,
    calc: &Calc<F>,
)
    requires
        adds_exactly(val, calc),
        adds_up(target.total, gp, at, val, calc),
        adds_up(present, gp, valued, val, calc),
        adds_up(before, gp, low, val, calc),
        forall|r: int| #[trigger] valued(r) ==> at(r),
        forall|r: int| #[trigger] low(r) ==> valued(r),
    ensures
        ({
            let after = boundary(best, target, dir, present, before, f, t, bin, reg, calc);
            let left = left_side(at, valued, low, after.default_left);
            after == best || {
                &&& !after.is_categorical
                &&& after.feature == f
                &&& after.threshold == t
                &&& after.split_bin == bin
                &&& adds_up(after.left, gp, left, val, calc)
                &&& adds_up(after.right, gp, only(at, left), val, calc)
            }
        }),
{
    let mcw = reg.min_child_weight;
    let ra = target.total.without(before, calc);
    let on_the_right = numeric_place(f, t, bin, false);
    let on_the_left = numeric_place(f, t, bin, true);
    let first = if mcw.le(before.hess) && mcw.le(ra.hess) {
        better(best, target, dir, before, ra, on_the_right, reg, calc)
    } else {
        best
    };
    better_is_either(best, target, dir, before, ra, on_the_right, reg, calc);
    let missing = target.total.without(present, calc);
    let lb = before.joined(missing, calc);
    let rb = present.without(before, calc);
    better_is_either(first, target, dir, lb, rb, on_the_left, reg, calc);
    let short = left_side(at, valued, low, false);
    let long = left_side(at, valued, low, true);
    assert forall|r: int| #[trigger] low(r) implies at(r) by {
        assert(valued(r));
    }
    same_rows_add_up(before, gp, low, short, val, calc);
    assert forall|r: int| 0 <= r < gp.len() implies (#[trigger] at(r) == (low(r) || only(
        at,
        short,
    )(r))) && !(low(r) && only(at, short)(r)) by {}
    other_rows_add_up(target.total, before, gp, at, low, only(at, short), val, calc);
    assert forall|r: int| 0 <= r < gp.len() implies (#[trigger] at(r) == (valued(r) || only(
        at,
        valued,
    )(r))) && !(valued(r) && only(at, valued)(r)) by {}
    other_rows_add_up(target.total, present, gp, at, valued, only(at, valued), val, calc);
    joined_rows_add_up(before, missing, gp, long, low, only(at, valued), val, calc);
    assert forall|r: int| 0 <= r < gp.len() implies (#[trigger] valued(r) == (low(r) || only(
        at,
        long,
    )(r))) && !(low(r) && only(at, long)(r)) by {}
    other_rows_add_up(present, before, gp, valued, low, only(at, long), val, calc);
}

/// Weighing a boundary gives the best so far or that boundary.
pub(crate) proof fn boundary_is_either<F: Fn(Op, u64, u64) -> u64>(
    best: Best,
    target: Target,
    dir: i8,
    present: GradStats,
    before: GradStats,
    f: u32,
    t: Single,
    bin: usize,
    reg: RegParams,
    calc: &Calc<F>,
)
    ensures
        ({
            let after = boundary(best, target, dir, present, before, f, t, bin, reg, calc);
            after == best || (!after.is_categorical && after.threshold == t)
        }),
{
}

/// The rows of a node whose category is listed.
pub open spec fn of_categories(
    at: spec_fn(int) -> bool,
    category: spec_fn(int) -> Option<u32>,
    cats: Seq<u32>,
) -> spec_fn(int) -> bool {
    |r: int| at(r) && (category(r) matches Some(c) && cats.contains(c))
}

/// Whether categories are listed once each, with the sums over their rows.
pub open spec fn categories_add_up<F: Fn(Op, u64, u64) -> u64>(
    cats: Seq<u32>,
    stats: Seq<GradStats>,
    gp: Seq<GradPair>,
    at: spec_fn(int) -> bool,
    category: spec_fn(int) -> Option<u32>,
    val: spec_fn(Wide) -> Option<real>,
    calc: &Calc<F>,
) -> bool {
    &&& cats.len() == stats.len()
    &&& cats.no_duplicates()
    &&& forall|i: int|
        0 <= i < cats.len() ==> adds_up(
            #[trigger] stats[i],
            gp,
            of_categories(at, category, seq![cats[i]]),
            val,
            calc,
        )
}

proof fn prefixes_add_up<F: Fn(Op, u64, u64) -> u64>(
    cats: Seq<u32>,
    stats: Seq<GradStats>,
    gp: Seq<GradPair>,
    n: int,
    at: spec_fn(int) -> bool,
    category: spec_fn(int) -> Option<u32>,
    val: spec_fn(Wide) -> Option<real>,
    calc: &Calc<F>,
)
    requires
        adds_exactly(val, calc),
        categories_add_up(cats, stats, gp, at, category, val, calc),
        0 <= n <= cats.len(),
    ensures
        adds_up(
            prefix_stats(stats, n, calc),
            gp,
            of_categories(at, category, cats.take(n)),
            val,
            calc,
        ),
    decreases n,
{
    let now = of_categories(at, category, cats.take(n));
    if n <= 0 {
        no_rows_add_up(gp, val, calc);
        same_rows_add_up(no_stats(), gp, nothing(), now, val, calc);
    } else {
        prefixes_add_up(cats, stats, gp, n - 1, at, category, val, calc);
        let was = of_categories(at, category, cats.take(n - 1));
        let new = of_categories(at, category, seq![cats[n - 1]]);
        assert(seq![cats[n - 1]][0] == cats[n - 1]);
        assert forall|r: int| 0 <= r < gp.len() implies (#[trigger] now(r) == (was(r) || new(r)))
            && !(was(r) && new(r)) by {
            if let Some(c) = category(r) {
                if cats.take(n - 1).contains(c) {
                    let k = choose|k: int| 0 <= k < n - 1 && #[trigger] cats.take(n - 1)[k] == c;
                    assert(cats.take(n)[k] == c);
                    assert(cats[k] != cats[n - 1]);
                }
                if c == cats[n - 1] {
                    assert(cats.take(n)[n - 1] == c);
                    assert(seq![cats[n - 1]].contains(c));
                }
                if cats.take(n).contains(c) {
                    let k = choose|k: int| 0 <= k < n && #[trigger] cats.take(n)[k] == c;
                    if k < n - 1 {
                        assert(cats.take(n - 1)[k] == c);
                    }
                }
            }
        }
        joined_rows_add_up(
            prefix_stats(stats, n - 1, calc),
            stats[n - 1],
            gp,
            now,
            was,
            new,
            val,
            calc,
        );
    }
}

proof fn sweep_sides_add_up<F: Fn(Op, u64, u64) -> u64>(
    best: Best,
    target: Target,
    dir: i8,
    f: u32,
    cats: Seq<u32>,
    stats: Seq<GradStats>,
    n: int,
    reg: RegParams,
    gp: Seq<GradPair>,
    at: spec_fn(int) -> bool,
    category: spec_fn(int) -> Option<u32>,
    val: spec_fn(Wide) -> Option<real>,
    calc: &Calc<F>,
)
    requires
        adds_exactly(val, calc),
        adds_up(target.total, gp, at, val, calc),
        categories_add_up(cats, stats, gp, at, category, val, calc),
        n <= cats.len(),
    ensures
        ({
            let after = sweep(best, target, dir, f, cats, stats, n, reg, calc);
            after == best || category_sides_add_up(after, f, gp, at, category, val, calc)
        }),
    decreases n,
{
    if n > 0 {
        sweep_sides_add_up(
            best,
            target,
            dir,
            f,
            cats,
            stats,
            n - 1,
            reg,
            gp,
            at,
            category,
            val,
            calc,
        );
        let so_far = sweep(best, target, dir, f, cats, stats, n - 1, reg, calc);
        let left = prefix_stats(stats, n, calc);
        let right = target.total.without(left, calc);
        let place = category_place(f, cats.take(n));
        better_is_either(so_far, target, dir, left, right, place, reg, calc);
        prefixes_add_up(cats, stats, gp, n, at, category, val, calc);
        let goes = of_categories(at, category, cats.take(n));
        assert forall|r: int| 0 <= r < gp.len() implies (#[trigger] at(r) == (goes(r) || only(
            at,
            goes,
        )(r))) && !(goes(r) && only(at, goes)(r)) by {}
        other_rows_add_up(target.total, left, gp, at, goes, only(at, goes), val, calc);
    }
}

/// Whether a split by categories has the sums over the rows of the categories that
/// it sends left, and over the others.
pub open spec fn category_sides_add_up<F: Fn(Op, u64, u64) -> u64>(
    b: Best,
    f: u32,
    gp: Seq<GradPair>,
    at: spec_fn(int) -> bool,
    category: spec_fn(int) -> Option<u32>,
    val: spec_fn(Wide) -> Option<real>,
    calc: &Calc<F>,
) -> bool {
    let goes = of_categories(at, category, b.cat_left);
    &&& b.is_categorical
    &&& b.feature == f
    &&& !b.default_left
    &&& adds_up(b.left, gp, goes, val, calc)
    &&& adds_up(b.right, gp, only(at, goes), val, calc)
}

/// Where the categories of a feature add up, so do the sides of a split by them.
pub(crate) proof fn categorical_sides_add_up<F: Fn(Op, u64, u64) -> u64>(
    best: Best,
    target: Target,
    dir: i8,
    f: u32,
    cats: Seq<u32>,
    stats: Seq<GradStats>,
    reg: RegParams,
    gp: Seq<GradPair>,
    at: spec_fn(int) -> bool,
    category: spec_fn(int) -> Option<u32>,
    val: spec_fn(Wide) -> Option<real>,
    calc: &Calc<F>,
)
    requires
        adds_exactly(val, calc),
        adds_up(target.total, gp, at, val, calc),
        categories_add_up(cats, stats, gp, at, category, val, calc),
        cats.len() <= usize::MAX,
    ensures
        ({
            let after = categorical(best, target, dir, f, cats, stats, reg, calc);
            after == best || category_sides_add_up(after, f, gp, at, category, val, calc)
        }),
{
    if cats.len() >= 2 {
        let keys = ratio_keys(stats, reg, calc);
        let order = ratio_order(stats, reg, calc);
        stable_order_exists(keys);
        assert(stable_order(keys, order));
        let c = arranged(cats, order);
        let s = arranged(stats, order);
        assert forall|i: int, j: int| 0 <= i < c.len() && 0 <= j < c.len() && i != j implies c[i]
            != c[j] by {
            if i < j {
                assert(before(keys, order[i] as int, order[j] as int));
            } else {
                assert(before(keys, order[j] as int, order[i] as int));
            }
        }
        assert forall|i: int| 0 <= i < c.len() implies adds_up(
            #[trigger] s[i],
            gp,
            of_categories(at, category, seq![c[i]]),
            val,
            calc,
        ) by {
            assert(s[i] == stats[order[i] as int]);
            assert(c[i] == cats[order[i] as int]);
        }
        sweep_sides_add_up(
            best,
            target,
            dir,
            f,
            c,
            s,
            cats.len() - 1,
            reg,
            gp,
            at,
            category,
            val,
            calc,
        );
    }
}

} // verus!
