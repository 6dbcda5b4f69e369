//! The sides of splits over bins are sums over the rows that go there.

use vstd::prelude::*;

use crate::arith::{Calc, Op};
use crate::data::dmatrix::{missing_under, DMatrix, Entry};
use crate::data::ghist::{
    bin_belongs_to_its_feature, first_within, first_within_finds, GHistIndex,
};
use crate::data::laws::filtering_keeps_columns_distinct;
use crate::data::quantile::HistCuts;
use crate::exact::adds_exactly;
use crate::number::Wide;
use crate::objective::pair::GradPair;
use crate::tree::builder::growth::{nothing_is_not_found, Best, Target};
use crate::tree::builder::hist::{
    bins_stats, category_table, features_scan, numeric_scan, row_goes_left, Rules,
};
use crate::tree::builder::hist_laws::{lies_within, row_is_binned};
use crate::tree::builder::sums::{
    adds_up, both, boundary_sides_add_up, categorical_sides_add_up, categories_add_up,
    joined_rows_add_up, left_side, named, no_rows_add_up, nothing,
    of_categories, one_row, one_row_adds_up, only, other_rows_add_up, parts, same_rows_add_up,
    sides_add_up,
};
use crate::tree::gain::{no_stats, GradStats};
use crate::tree::hist::{
    accumulated, chunk, chunk_count, chunked, empty_histogram, histogram, is_histogram, spread,
    subtracted, PARALLEL_THRESHOLD,
};

verus! {

/// The rows of some that have a bin.
pub open spec fn in_bin(
    at: spec_fn(int) -> bool,
    ghist: &GHistIndex,
    x: int,
) -> spec_fn(int) -> bool {
    |r: int| at(r) && ghist.row_bins(r).contains(x)
}

/// Whether every bin of a histogram has the sums over the rows in that bin.
pub open spec fn bins_add_up<F: Fn(Op, u64, u64) -> u64>(
    h: Seq<GradStats>,
    ghist: &GHistIndex,
    gp: Seq<GradPair>,
    at: spec_fn(int) -> bool,
    val: spec_fn(Wide) -> Option<real>,
    calc: &Calc<F>,
) -> bool {
    &&& h.len() == ghist.table().cuts().len()
    &&& forall|x: int|
        0 <= x < h.len() ==> adds_up(#[trigger] h[x], gp, in_bin(at, ghist, x), val, calc)
}

/// The bin of a row for a feature, if it has a value of it.
pub open spec fn bin_of(ghist: &GHistIndex, f: int, r: int) -> Option<u32> {
    first_within(ghist.row_bins(r), ghist.table().start(f), ghist.table().start(f + 1), 0)
}

/// Whether rows of a matrix were binned into an index.
pub open spec fn rows_are_binned(
    data: &DMatrix,
    ghist: &GHistIndex,
    at: spec_fn(int) -> bool,
    n: int,
) -> bool {
    &&& data.well_formed()
    &&& ghist.well_formed()
    &&& data.width() <= ghist.table().features()
    &&& n <= ghist.height()
    &&& n <= 0x1_0000_0000
    &&& forall|r: int| 0 <= r < n && #[trigger] at(r) ==> row_is_binned(data, ghist, r)
}

/// A binned row has different bins, at most one per feature.
pub proof fn rows_have_one_bin_per_feature(data: &DMatrix, ghist: &GHistIndex, r: int, f: int)
    requires
        data.well_formed(),
        ghist.table().well_formed(),
        data.width() <= ghist.table().features(),
        row_is_binned(data, ghist, r),
        0 <= f < ghist.table().features(),
    ensures
        ghist.row_bins(r).no_duplicates(),
        forall|x: int|
            ghist.table().start(f) <= x < ghist.table().start(f + 1) ==> (
            #[trigger] ghist.row_bins(r).contains(x) <==> bin_of(ghist, f, r) == Some(x as u32)),
        bin_of(ghist, f, r) matches Some(x) ==> ghist.table().start(f) <= x
            < ghist.table().start(f + 1),
{
    let cuts = ghist.table();
    let es = data.entries(r);
    let bins = ghist.row_bins(r);
    let missing = data.sentinel();
    filtering_keeps_columns_distinct(
        data.stored(r),
        |e: Entry| !missing_under(e.value, missing),
    );
    assert forall|i: int, g: int| 0 <= i < es.len() && 0 <= g < cuts.features() implies (cuts.start(
        g,
    ) <= #[trigger] bins[i] < #[trigger] cuts.start(g + 1)) == (es[i].index == g) by {
        let own = es[i].index as int;
        data.entry_columns_exist(r, i);
        bin_belongs_to_its_feature(&cuts, own, es[i].value);
        assert(bins[i] == cuts.bin(own, es[i].value));
        if own < g {
            cuts.features_do_not_overlap(own, g);
        } else if own > g {
            cuts.features_do_not_overlap(g, own);
        }
    }
    assert forall|i: int, j: int| 0 <= i < bins.len() && 0 <= j < bins.len() && i != j implies bins[i]
        != bins[j] by {
        let own = es[i].index as int;
        data.entry_columns_exist(r, i);
        assert((cuts.start(own) <= bins[i] < cuts.start(own + 1)) == (es[i].index == own));
        assert((cuts.start(own) <= bins[j] < cuts.start(own + 1)) == (es[j].index == own));
        if i < j {
            assert(es[i].index != es[j].index);
        } else {
            assert(es[j].index != es[i].index);
        }
    }
    let fs = cuts.start(f);
    let fe = cuts.start(f + 1);
    first_within_finds(bins, fs, fe, 0);
    cuts.layout(f);
    assert forall|x: int| fs <= x < fe implies (#[trigger] bins.contains(x) <==> bin_of(ghist, f, r)
        == Some(x as u32)) by {
        if let Some(b) = bin_of(ghist, f, r) {
            let i = choose|i: int|
                0 <= i < bins.len() && fs <= #[trigger] bins[i] < fe && b == bins[i] as u32;
            assert((fs <= bins[i] < fe) == (es[i].index == f));
            if bins.contains(x) {
                let j = choose|j: int| 0 <= j < bins.len() && bins[j] == x;
                assert((fs <= bins[j] < fe) == (es[j].index == f));
                if i < j {
                    assert(es[i].index != es[j].index);
                } else if j < i {
                    assert(es[j].index != es[i].index);
                }
            }
        } else if bins.contains(x) {
            let j = choose|j: int| 0 <= j < bins.len() && bins[j] == x;
            assert(!(fs <= bins[j] < fe));
        }
    }
}

proof fn spreading_adds_to_listed_bins<F: Fn(Op, u64, u64) -> u64>(
    h: Seq<GradStats>,
    bins: Seq<int>,
    g: GradStats,
    n: int,
    x: int,
    calc: &Calc<F>,
)
    requires
        bins.no_duplicates(),
        0 <= n <= bins.len(),
        forall|k: int| 0 <= k < bins.len() ==> 0 <= #[trigger] bins[k] < h.len(),
        0 <= x < h.len(),
    ensures
        spread(h, bins, g, n, calc).len() == h.len(),
        spread(h, bins, g, n, calc)[x] == if bins.take(n).contains(x) {
            h[x].joined(g, calc)
        } else {
            h[x]
        },
    decreases n,
{
    if n > 0 {
        spreading_adds_to_listed_bins(h, bins, g, n - 1, x, calc);
        let so_far = spread(h, bins, g, n - 1, calc);
        assert(0 <= bins[n - 1] < h.len());
        if bins.take(n - 1).contains(x) {
            let k = choose|k: int| 0 <= k < n - 1 && #[trigger] bins.take(n - 1)[k] == x;
            assert(bins.take(n)[k] == x);
            assert(bins[k] != bins[n - 1]);
        }
        if bins[n - 1] == x {
            assert(bins.take(n)[n - 1] == x);
        }
        if bins.take(n).contains(x) {
            let k = choose|k: int| 0 <= k < n && #[trigger] bins.take(n)[k] == x;
            if k < n - 1 {
                assert(bins.take(n - 1)[k] == x);
            }
        }
    }
}

/// The histogram of rows of which none is listed twice adds up.
proof fn accumulated_bins_add_up<F: Fn(Op, u64, u64) -> u64>(
    data: &DMatrix,
    ghist: &GHistIndex,
    rows: Seq<u32>,
    gp: Seq<GradPair>,
    n: int,
    val: spec_fn(Wide) -> Option<real>,
    calc: &Calc<F>,
)
    requires
        adds_exactly(val, calc),
        rows_are_binned(data, ghist, named(rows), gp.len() as int),
        rows.no_duplicates(),
        forall|i: int| 0 <= i < rows.len() ==> #[trigger] rows[i] < gp.len(),
        0 <= n <= rows.len(),
    ensures
        bins_add_up(
            accumulated(
                empty_histogram(ghist.table().cuts().len() as int),
                ghist,
                rows,
                gp,
                n,
                calc,
            ),
            ghist,
            gp,
            named(rows.take(n)),
            val,
            calc,
        ),
    decreases n,
{
    let total = ghist.table().cuts().len() as int;
    let empty = empty_histogram(total);
    let now = accumulated(empty, ghist, rows, gp, n, calc);
    if n <= 0 {
        assert forall|x: int| 0 <= x < now.len() implies adds_up(
            #[trigger] now[x],
            gp,
            in_bin(named(rows.take(n)), ghist, x),
            val,
            calc,
        ) by {
            no_rows_add_up(gp, val, calc);
            same_rows_add_up(
                no_stats(),
                gp,
                nothing(),
                in_bin(named(rows.take(n)), ghist, x),
                val,
                calc,
            );
        }
    } else {
        accumulated_bins_add_up(data, ghist, rows, gp, n - 1, val, calc);
        let was = accumulated(empty, ghist, rows, gp, n - 1, calc);
        let row = rows[n - 1] as int;
        let bins = ghist.row_bins(row);
        let g = gp[row].stats(calc);
        assert(named(rows)(row)) by {
            assert(rows[n - 1] as int == row);
        }
        assert(row_is_binned(data, ghist, row));
        ghist.shape();
        data.shape();
        rows_have_one_bin_per_feature(data, ghist, row, 0);
        ghist.layout(row);
        one_row_adds_up(gp, row, val, calc);
        assert(bins.take(bins.len() as int) =~= bins);
        let before = named(rows.take(n - 1));
        let after = named(rows.take(n));
        assert forall|r: int| 0 <= r < gp.len() implies #[trigger] after(r) == (before(r) || r
            == row) && !(before(r) && r == row) by {
            if before(r) {
                let k = choose|k: int| 0 <= k < n - 1 && #[trigger] rows.take(n - 1)[k] as int == r;
                assert(rows.take(n)[k] as int == r);
                assert(rows[k] != rows[n - 1]);
            }
            if r == row {
                assert(rows.take(n)[n - 1] as int == r);
            }
            if after(r) {
                let k = choose|k: int| 0 <= k < n && #[trigger] rows.take(n)[k] as int == r;
                if k < n - 1 {
                    assert(rows.take(n - 1)[k] as int == r);
                }
            }
        }
        if total > 0 {
            spreading_adds_to_listed_bins(was, bins, g, bins.len() as int, 0, calc);
        } else if bins.len() > 0 {
            assert(0 <= bins[0] < total);
        }
        assert(now.len() == total) by {
            if total == 0 {
                assert(bins.len() == 0);
            }
        }
        assert forall|x: int| 0 <= x < now.len() implies adds_up(
            #[trigger] now[x],
            gp,
            in_bin(after, ghist, x),
            val,
            calc,
        ) by {
            spreading_adds_to_listed_bins(was, bins, g, bins.len() as int, x, calc);
            let p = in_bin(before, ghist, x);
            let q = in_bin(after, ghist, x);
            assert(adds_up(was[x], gp, p, val, calc));
            if bins.contains(x) {
                assert(parts(q, p, one_row(row), gp.len() as int)) by {
                    assert forall|r: int|
                        #![trigger q(r)]
                        #![trigger p(r)]
                        #![trigger one_row(row)(r)]
                        0 <= r < gp.len() implies q(r) == (p(r) || one_row(row)(r)) && !(p(r)
                        && one_row(row)(r)) by {
                        assert(after(r) == (before(r) || r == row));
                    }
                }
                joined_rows_add_up(was[x], g, gp, q, p, one_row(row), val, calc);
            } else {
                assert forall|r: int| 0 <= r < gp.len() implies #[trigger] q(r) == p(r) by {
                    assert(after(r) == (before(r) || r == row));
                }
                same_rows_add_up(was[x], gp, p, q, val, calc);
            }
        }
    }
}

proof fn histograms_of_lists_add_up<F: Fn(Op, u64, u64) -> u64>(
    data: &DMatrix,
    ghist: &GHistIndex,
    rows: Seq<u32>,
    gp: Seq<GradPair>,
    val: spec_fn(Wide) -> Option<real>,
    calc: &Calc<F>,
)
    requires
        adds_exactly(val, calc),
        rows_are_binned(data, ghist, named(rows), gp.len() as int),
        rows.no_duplicates(),
        forall|i: int| 0 <= i < rows.len() ==> #[trigger] rows[i] < gp.len(),
    ensures
        bins_add_up(histogram(ghist, rows, gp, calc), ghist, gp, named(rows), val, calc),
{
    let n = rows.len() as int;
    accumulated_bins_add_up(data, ghist, rows, gp, n, val, calc);
    assert(rows.take(n) =~= rows);
}

/// The end of chunk number `i - 1` of a list.
spec fn chunk_end(len: int, grain: int, i: int) -> int {
    if i * grain < len { i * grain } else { len }
}

proof fn chunks_add_up<F: Fn(Op, u64, u64) -> u64>(
    data: &DMatrix,
    ghist: &GHistIndex,
    rows: Seq<u32>,
    gp: Seq<GradPair>,
    grain: int,
    n: int,
    val: spec_fn(Wide) -> Option<real>,
    calc: &Calc<F>,
)
    requires
        adds_exactly(val, calc),
        rows_are_binned(data, ghist, named(rows), gp.len() as int),
        rows.no_duplicates(),
        forall|i: int| 0 <= i < rows.len() ==> #[trigger] rows[i] < gp.len(),
        1 <= grain,
        0 <= n,
        (n - 1) * grain <= rows.len(),
    ensures
        bins_add_up(
            chunked(ghist, rows, gp, grain, n, calc),
            ghist,
            gp,
            named(rows.take(chunk_end(rows.len() as int, grain, n))),
            val,
            calc,
        ),
    decreases n,
{
    let len = rows.len() as int;
    let total = ghist.table().cuts().len() as int;
    let now = chunked(ghist, rows, gp, grain, n, calc);
    if n <= 0 {
        let none = rows.take(chunk_end(len, grain, n));
        assert(n * grain == 0) by (nonlinear_arith)
            requires
                n == 0,
        ;
        assert forall|x: int| 0 <= x < now.len() implies adds_up(
            #[trigger] now[x],
            gp,
            in_bin(named(none), ghist, x),
            val,
            calc,
        ) by {
            no_rows_add_up(gp, val, calc);
            same_rows_add_up(no_stats(), gp, nothing(), in_bin(named(none), ghist, x), val, calc);
        }
    } else {
        let from = (n - 1) * grain;
        let end = chunk_end(len, grain, n);
        assert(n * grain == from + grain) by (nonlinear_arith)
            requires
                from == (n - 1) * grain,
        ;
        assert((n - 2) * grain == from - grain) by (nonlinear_arith)
            requires
                from == (n - 1) * grain,
        ;
        assert(0 <= from) by (nonlinear_arith)
            requires
                from == (n - 1) * grain,
                1 <= grain,
                1 <= n,
        ;
        assert(chunk_end(len, grain, n - 1) == from);
        chunks_add_up(data, ghist, rows, gp, grain, n - 1, val, calc);
        let part = chunk(rows, grain, n - 1);
        assert(part == rows.subrange(from, end));
        assert forall|r: int| 0 <= r < gp.len() && #[trigger] named(part)(r) implies row_is_binned(
            data,
            ghist,
            r,
        ) by {
            let k = choose|k: int| 0 <= k < part.len() && #[trigger] part[k] as int == r;
            assert(rows[from + k] as int == r);
            assert(named(rows)(r));
        }
        assert forall|i: int| 0 <= i < part.len() implies #[trigger] part[i] < gp.len() by {
            assert(rows[from + i] < gp.len());
        }
        assert forall|i: int, j: int|
            0 <= i < part.len() && 0 <= j < part.len() && i != j implies part[i] != part[j] by {
            assert(rows[from + i] != rows[from + j]);
        }
        histograms_of_lists_add_up(data, ghist, part, gp, val, calc);
        let was = chunked(ghist, rows, gp, grain, n - 1, calc);
        let new = histogram(ghist, part, gp, calc);
        let before = named(rows.take(from));
        let after = named(rows.take(end));
        let added = named(part);
        assert forall|r: int| 0 <= r < gp.len() implies #[trigger] after(r) == (before(r) || added(
            r,
        )) && !(before(r) && added(r)) by {
            if before(r) {
                let k = choose|k: int| 0 <= k < from && #[trigger] rows.take(from)[k] as int == r;
                assert(rows.take(end)[k] as int == r);
                if added(r) {
                    let j = choose|j: int| 0 <= j < part.len() && #[trigger] part[j] as int == r;
                    assert(rows[k] != rows[from + j]);
                }
            }
            if added(r) {
                let j = choose|j: int| 0 <= j < part.len() && #[trigger] part[j] as int == r;
                assert(rows.take(end)[from + j] as int == r);
            }
            if after(r) {
                let k = choose|k: int| 0 <= k < end && #[trigger] rows.take(end)[k] as int == r;
                if k < from {
                    assert(rows.take(from)[k] as int == r);
                } else {
                    assert(part[k - from] as int == r);
                }
            }
        }
        assert forall|x: int| 0 <= x < now.len() implies adds_up(
            #[trigger] now[x],
            gp,
            in_bin(after, ghist, x),
            val,
            calc,
        ) by {
            let p = in_bin(before, ghist, x);
            let q = in_bin(added, ghist, x);
            let all = in_bin(after, ghist, x);
            assert(adds_up(was[x], gp, p, val, calc));
            assert(adds_up(new[x], gp, q, val, calc));
            assert(parts(all, p, q, gp.len() as int)) by {
                assert forall|r: int|
                    #![trigger all(r)]
                    #![trigger p(r)]
                    #![trigger q(r)]
                    0 <= r < gp.len() implies all(r) == (p(r) || q(r)) && !(p(r) && q(r)) by {
                    assert(after(r) == (before(r) || added(r)));
                }
            }
            joined_rows_add_up(was[x], new[x], gp, all, p, q, val, calc);
        }
    }
}

/// Where nothing is rounded, the bins of a histogram add up, however its rows are
/// cut into chunks.
pub proof fn histograms_add_up<F: Fn(Op, u64, u64) -> u64>(
    h: Seq<GradStats>,
    data: &DMatrix,
    ghist: &GHistIndex,
    rows: Seq<u32>,
    gp: Seq<GradPair>,
    val: spec_fn(Wide) -> Option<real>,
    calc: &Calc<F>,
)
    requires
        adds_exactly(val, calc),
        rows_are_binned(data, ghist, named(rows), gp.len() as int),
        rows.no_duplicates(),
        forall|i: int| 0 <= i < rows.len() ==> #[trigger] rows[i] < gp.len(),
        is_histogram(h, ghist, rows, gp, calc),
    ensures
        bins_add_up(h, ghist, gp, named(rows), val, calc),
{
    histograms_of_lists_add_up(data, ghist, rows, gp, val, calc);
    if rows.len() >= PARALLEL_THRESHOLD {
        let len = rows.len() as int;
        let grain = choose|grain: int|
            1 <= grain && h == #[trigger] chunked(
                ghist,
                rows,
                gp,
                grain,
                chunk_count(rows.len() as int, grain),
                calc,
            );
        let n = chunk_count(len, grain);
        assert(0 <= n && (n - 1) * grain <= len && len <= n * grain) by (nonlinear_arith)
            requires
                n == (len + grain - 1) / grain,
                1 <= grain,
                0 <= len,
        ;
        chunks_add_up(data, ghist, rows, gp, grain, n, val, calc);
        assert(rows.take(chunk_end(len, grain, n)) =~= rows);
    }
}

/// What is left of a histogram without that of some rows adds up to the others.
pub proof fn subtracted_bins_add_up<F: Fn(Op, u64, u64) -> u64>(
    parent: Seq<GradStats>,
    child: Seq<GradStats>,
    ghist: &GHistIndex,
    gp: Seq<GradPair>,
    at: spec_fn(int) -> bool,
    part: spec_fn(int) -> bool,
    rest: spec_fn(int) -> bool,
    val: spec_fn(Wide) -> Option<real>,
    calc: &Calc<F>,
)
    requires
        adds_exactly(val, calc),
        bins_add_up(parent, ghist, gp, at, val, calc),
        bins_add_up(child, ghist, gp, part, val, calc),
        parts(at, part, rest, gp.len() as int),
    ensures
        bins_add_up(subtracted(parent, child, calc), ghist, gp, rest, val, calc),
{
    let left = subtracted(parent, child, calc);
    assert forall|x: int| 0 <= x < left.len() implies adds_up(
        #[trigger] left[x],
        gp,
        in_bin(rest, ghist, x),
        val,
        calc,
    ) by {
        let whole = in_bin(at, ghist, x);
        let p = in_bin(part, ghist, x);
        let q = in_bin(rest, ghist, x);
        assert(adds_up(parent[x], gp, whole, val, calc));
        assert(adds_up(child[x], gp, p, val, calc));
        assert(parts(whole, p, q, gp.len() as int)) by {
            assert forall|r: int|
                #![trigger whole(r)]
                #![trigger p(r)]
                #![trigger q(r)]
                0 <= r < gp.len() implies whole(r) == (p(r) || q(r)) && !(p(r) && q(r)) by {
                assert(at(r) == (part(r) || rest(r)) && !(part(r) && rest(r)));
            }
        }
        other_rows_add_up(parent[x], child[x], gp, whole, p, q, val, calc);
    }
}

/// The rows of some whose bin for a feature comes before bin `n`.
pub open spec fn before_bin(
    at: spec_fn(int) -> bool,
    ghist: &GHistIndex,
    f: int,
    n: int,
) -> spec_fn(int) -> bool {
    |r: int| at(r) && (bin_of(ghist, f, r) matches Some(x) && x < n)
}

proof fn feature_bins_add_up<F: Fn(Op, u64, u64) -> u64>(
    hist: Seq<GradStats>,
    data: &DMatrix,
    ghist: &GHistIndex,
    gp: Seq<GradPair>,
    at: spec_fn(int) -> bool,
    f: int,
    n: int,
    val: spec_fn(Wide) -> Option<real>,
    calc: &Calc<F>,
)
    requires
        adds_exactly(val, calc),
        rows_are_binned(data, ghist, at, gp.len() as int),
        bins_add_up(hist, ghist, gp, at, val, calc),
        0 <= f < ghist.table().features(),
        ghist.table().start(f) <= n <= ghist.table().start(f + 1),
    ensures
        adds_up(
            bins_stats(hist, ghist.table().start(f), n, calc),
            gp,
            before_bin(at, ghist, f, n),
            val,
            calc,
        ),
    decreases n,
{
    let fs = ghist.table().start(f);
    let now = before_bin(at, ghist, f, n);
    ghist.shape();
    ghist.table().layout(f);
    assert forall|r: int| 0 <= r < gp.len() && #[trigger] at(r) implies (bin_of(ghist, f, r) matches
        Some(x) ==> fs <= x < ghist.table().start(f + 1)) by {
        rows_have_one_bin_per_feature(data, ghist, r, f);
    }
    if n <= fs {
        no_rows_add_up(gp, val, calc);
        assert forall|r: int| 0 <= r < gp.len() implies #[trigger] now(r) == nothing()(r) by {
            if now(r) {
                assert(at(r));
            }
        }
        same_rows_add_up(no_stats(), gp, nothing(), now, val, calc);
    } else {
        feature_bins_add_up(hist, data, ghist, gp, at, f, n - 1, val, calc);
        let was = before_bin(at, ghist, f, n - 1);
        let new = in_bin(at, ghist, n - 1);
        assert(adds_up(hist[n - 1], gp, new, val, calc));
        assert(parts(now, was, new, gp.len() as int)) by {
            assert forall|r: int|
                #![trigger now(r)]
                #![trigger was(r)]
                #![trigger new(r)]
                0 <= r < gp.len() implies now(r) == (was(r) || new(r)) && !(was(r) && new(r)) by {
                if at(r) {
                    rows_have_one_bin_per_feature(data, ghist, r, f);
                    assert(ghist.row_bins(r).contains(n - 1) <==> bin_of(ghist, f, r) == Some(
                        (n - 1) as u32,
                    ));
                }
            }
        }
        joined_rows_add_up(
            bins_stats(hist, fs, n - 1, calc),
            hist[n - 1],
            gp,
            now,
            was,
            new,
            val,
            calc,
        );
    }
}

/// The rows that a split sends left by their bins.
pub open spec fn by_bins(b: Best, ghist: &GHistIndex) -> spec_fn(int) -> bool {
    |r: int| row_goes_left(ghist, b, r as u32)
}

/// Whether a split that was found lies within its feature and has the sums over the
/// rows that their bins send to its sides.
pub open spec fn binned_sides_add_up<F: Fn(Op, u64, u64) -> u64>(
    b: Best,
    ghist: &GHistIndex,
    gp: Seq<GradPair>,
    at: spec_fn(int) -> bool,
    val: spec_fn(Wide) -> Option<real>,
    calc: &Calc<F>,
) -> bool {
    b.is_found() ==> lies_within(&ghist.table(), b) && sides_add_up(
        b,
        gp,
        at,
        by_bins(b, ghist),
        val,
        calc,
    )
}

proof fn numeric_sides_add_up<F: Fn(Op, u64, u64) -> u64>(
    rules: Rules,
    hist: Seq<GradStats>,
    target: Target,
    best: Best,
    f: u32,
    n: int,
    data: &DMatrix,
    ghist: &GHistIndex,
    gp: Seq<GradPair>,
    at: spec_fn(int) -> bool,
    val: spec_fn(Wide) -> Option<real>,
    calc: &Calc<F>,
)
    requires
        adds_exactly(val, calc),
        rules.cuts == ghist.table(),
        rows_are_binned(data, ghist, at, gp.len() as int),
        bins_add_up(hist, ghist, gp, at, val, calc),
        adds_up(target.total, gp, at, val, calc),
        f < rules.cuts.features(),
        !rules.cuts.categorical(f as int),
        n <= rules.cuts.start(f + 1) - 1,
        binned_sides_add_up(best, ghist, gp, at, val, calc),
    ensures
        binned_sides_add_up(
            numeric_scan(
                rules,
                hist,
                target,
                best,
                f,
                rules.cuts.start(f as int),
                rules.cuts.start(f + 1),
                n,
                calc,
            ),
            ghist,
            gp,
            at,
            val,
            calc,
        ),
    decreases n - rules.cuts.start(f as int),
{
    let fs = rules.cuts.start(f as int);
    let fe = rules.cuts.start(f + 1);
    if n > fs {
        numeric_sides_add_up(
            rules,
            hist,
            target,
            best,
            f,
            n - 1,
            data,
            ghist,
            gp,
            at,
            val,
            calc,
        );
        ghist.shape();
        rules.cuts.layout(f as int);
        let so_far = numeric_scan(rules, hist, target, best, f, fs, fe, n - 1, calc);
        let after = numeric_scan(rules, hist, target, best, f, fs, fe, n, calc);
        let dir = rules.cons.direction(f as int);
        let present = bins_stats(hist, fs, fe, calc);
        let before = bins_stats(hist, fs, n, calc);
        let t = rules.cuts.cuts()[n - 1];
        let bin = (n - 1) as usize;
        let valued = before_bin(at, ghist, f as int, fe);
        let low = before_bin(at, ghist, f as int, n);
        feature_bins_add_up(hist, data, ghist, gp, at, f as int, fe, val, calc);
        feature_bins_add_up(hist, data, ghist, gp, at, f as int, n, val, calc);
        boundary_sides_add_up(
            so_far,
            target,
            dir,
            present,
            before,
            f,
            t,
            bin,
            rules.reg,
            gp,
            at,
            valued,
            low,
            val,
            calc,
        );
        if after != so_far {
            assert(bin as int == n - 1);
            let left = left_side(at, valued, low, after.default_left);
            let goes = by_bins(after, ghist);
            assert forall|r: int| 0 <= r < gp.len() implies #[trigger] both(at, goes)(r) == left(
                r,
            ) by {
                if at(r) {
                    rows_have_one_bin_per_feature(data, ghist, r, f as int);
                }
                assert((r as u32) as int == r);
            }
            same_rows_add_up(after.left, gp, left, both(at, goes), val, calc);
            assert forall|r: int| 0 <= r < gp.len() implies #[trigger] only(at, goes)(r) == only(
                at,
                left,
            )(r) by {
                assert(both(at, goes)(r) == left(r));
            }
            same_rows_add_up(after.right, gp, only(at, left), only(at, goes), val, calc);
        }
    }
}

/// Whether the categories of a feature's bins are different whole numbers.
pub open spec fn categories_differ(cuts: &HistCuts, f: int) -> bool {
    forall|x: int, y: int|
        cuts.start(f) <= x < y < cuts.start(f + 1) ==> (#[trigger] cuts.cuts()[x]).count(
            u32::MAX as int,
        ) as u32 != (#[trigger] cuts.cuts()[y]).count(u32::MAX as int) as u32
}

/// The category of a row by its bin, if it has a value of the feature.
pub open spec fn category_by_bin(ghist: &GHistIndex, f: int) -> spec_fn(int) -> Option<u32> {
    |r: int|
        match bin_of(ghist, f, r) {
            Some(x) => Some(ghist.table().cuts()[x as int].count(u32::MAX as int) as u32),
            None => None,
        }
}

proof fn bin_categories_add_up<F: Fn(Op, u64, u64) -> u64>(
    hist: Seq<GradStats>,
    data: &DMatrix,
    ghist: &GHistIndex,
    gp: Seq<GradPair>,
    at: spec_fn(int) -> bool,
    f: int,
    n: int,
    val: spec_fn(Wide) -> Option<real>,
    calc: &Calc<F>,
)
    requires
        rows_are_binned(data, ghist, at, gp.len() as int),
        bins_add_up(hist, ghist, gp, at, val, calc),
        0 <= f < ghist.table().features(),
        ghist.table().start(f) <= n <= ghist.table().start(f + 1),
        categories_differ(&ghist.table(), f),
    ensures
        ({
            let cuts = ghist.table();
            let (cats, stats) = category_table(&cuts, hist, cuts.start(f), n);
            &&& categories_add_up(
                cats,
                stats,
                gp,
                at,
                category_by_bin(ghist, f),
                val,
                calc,
            )
            &&& cats.len() <= n - cuts.start(f)
            &&& forall|i: int|
                0 <= i < cats.len() ==> exists|x: int|
                    cuts.start(f) <= x < n && #[trigger] cats[i] == (
                    #[trigger] cuts.cuts()[x]).count(u32::MAX as int) as u32
        }),
    decreases n,
{
    let cuts = ghist.table();
    let fs = cuts.start(f);
    let category = category_by_bin(ghist, f);
    ghist.shape();
    cuts.layout(f);
    if n > fs {
        bin_categories_add_up(hist, data, ghist, gp, at, f, n - 1, val, calc);
        let (cats, stats) = category_table(&cuts, hist, fs, n - 1);
        let (more, sums) = category_table(&cuts, hist, fs, n);
        let c = cuts.cuts()[n - 1].count(u32::MAX as int) as u32;
        if (Wide { bits: 0 }).lt(hist[n - 1].hess) {
            let last = cats.len() as int;
            assert forall|i: int| 0 <= i < cats.len() implies #[trigger] cats[i] != c by {
                let x = choose|x: int|
                    fs <= x < n - 1 && cats[i] == (#[trigger] cuts.cuts()[x]).count(
                        u32::MAX as int,
                    ) as u32;
                assert(cuts.cuts()[x].count(u32::MAX as int) as u32 != cuts.cuts()[n - 1].count(
                    u32::MAX as int,
                ) as u32);
            }
            let new = of_categories(at, category, seq![c]);
            let old = in_bin(at, ghist, n - 1);
            assert(seq![c][0] == c);
            assert forall|r: int| 0 <= r < gp.len() implies #[trigger] new(r) == old(r) by {
                if at(r) {
                    rows_have_one_bin_per_feature(data, ghist, r, f);
                    assert(ghist.row_bins(r).contains(n - 1) <==> bin_of(ghist, f, r) == Some(
                        (n - 1) as u32,
                    ));
                    if let Some(x) = bin_of(ghist, f, r) {
                        if x < n - 1 {
                            assert(cuts.cuts()[x as int].count(u32::MAX as int) as u32 != c);
                        } else if x > n - 1 {
                            assert(cuts.cuts()[n - 1].count(u32::MAX as int) as u32 == c);
                            assert(cuts.cuts()[x as int].count(u32::MAX as int) as u32 != c);
                        } else {
                            assert(seq![c].contains(c));
                        }
                    }
                }
            }
            assert(adds_up(hist[n - 1], gp, old, val, calc));
            same_rows_add_up(hist[n - 1], gp, old, new, val, calc);
            assert forall|i: int| 0 <= i < more.len() implies adds_up(
                #[trigger] sums[i],
                gp,
                of_categories(at, category, seq![more[i]]),
                val,
                calc,
            ) by {
                if i < last {
                    assert(sums[i] == stats[i] && more[i] == cats[i]);
                } else {
                    assert(sums[i] == hist[n - 1] && more[i] == c);
                }
            }
            assert forall|i: int, j: int|
                0 <= i < more.len() && 0 <= j < more.len() && i != j implies more[i] != more[j] by {
                if i < last {
                    assert(more[i] == cats[i]);
                }
                if j < last {
                    assert(more[j] == cats[j]);
                }
            }
        }
        assert forall|i: int| 0 <= i < more.len() implies exists|x: int|
            fs <= x < n && #[trigger] more[i] == (#[trigger] cuts.cuts()[x]).count(
                u32::MAX as int,
            ) as u32 by {
            if i < cats.len() {
                let x = choose|x: int|
                    fs <= x < n - 1 && cats[i] == (#[trigger] cuts.cuts()[x]).count(
                        u32::MAX as int,
                    ) as u32;
                assert(more[i] == cuts.cuts()[x].count(u32::MAX as int) as u32);
            } else {
                assert(more[i] == cuts.cuts()[n - 1].count(u32::MAX as int) as u32);
            }
        }
    }
}

/// The sides of a node's best split over bins are the sums over the rows that their
/// bins send there.
pub proof fn best_binned_sides_add_up<F: Fn(Op, u64, u64) -> u64>(
    rules: Rules,
    hist: Seq<GradStats>,
    target: Target,
    features: Seq<u32>,
    n: int,
    data: &DMatrix,
    ghist: &GHistIndex,
    gp: Seq<GradPair>,
    at: spec_fn(int) -> bool,
    val: spec_fn(Wide) -> Option<real>,
    calc: &Calc<F>,
)
    requires
        adds_exactly(val, calc),
        rules.cuts == ghist.table(),
        rows_are_binned(data, ghist, at, gp.len() as int),
        bins_add_up(hist, ghist, gp, at, val, calc),
        adds_up(target.total, gp, at, val, calc),
        forall|f: int| #[trigger]
            rules.cuts.categorical(f) ==> categories_differ(&rules.cuts, f),
        0 <= n <= features.len(),
    ensures
        binned_sides_add_up(
            features_scan(rules, hist, target, features, n, calc),
            ghist,
            gp,
            at,
            val,
            calc,
        ),
    decreases n,
{
    if n <= 0 {
        nothing_is_not_found();
    } else {
        best_binned_sides_add_up(
            rules,
            hist,
            target,
            features,
            n - 1,
            data,
            ghist,
            gp,
            at,
            val,
            calc,
        );
        let so_far = features_scan(rules, hist, target, features, n - 1, calc);
        let after = features_scan(rules, hist, target, features, n, calc);
        let f = features[n - 1];
        let fs = rules.cuts.start(f as int);
        let fe = rules.cuts.start(f + 1);
        ghist.shape();
        data.shape();
        rules.cuts.layout(0);
        rules.cuts.no_bins_beyond(f as int);
        rules.cuts.no_bins_beyond(f + 1);
        if fe > fs + 1 {
            assert(f < rules.cuts.features());
            rules.cuts.layout(f as int);
            if rules.cuts.categorical(f as int) {
                let (cats, stats) = category_table(&rules.cuts, hist, fs, fe);
                let category = category_by_bin(ghist, f as int);
                bin_categories_add_up(hist, data, ghist, gp, at, f as int, fe, val, calc);
                categorical_sides_add_up(
                    so_far,
                    target,
                    rules.cons.direction(f as int),
                    f,
                    cats,
                    stats,
                    rules.reg,
                    gp,
                    at,
                    category,
                    val,
                    calc,
                );
                if after != so_far {
                    let left = of_categories(at, category, after.cat_left);
                    let goes = by_bins(after, ghist);
                    assert forall|r: int| 0 <= r < gp.len() implies #[trigger] both(at, goes)(r)
                        == left(r) by {
                        assert((r as u32) as int == r);
                    }
                    same_rows_add_up(after.left, gp, left, both(at, goes), val, calc);
                    assert forall|r: int| 0 <= r < gp.len() implies #[trigger] only(at, goes)(r)
                        == only(at, left)(r) by {
                        assert(both(at, goes)(r) == left(r));
                    }
                    same_rows_add_up(after.right, gp, only(at, left), only(at, goes), val, calc);
                }
            } else {
                numeric_sides_add_up(
                    rules,
                    hist,
                    target,
                    so_far,
                    f,
                    fe - 1,
                    data,
                    ghist,
                    gp,
                    at,
                    val,
                    calc,
                );
            }
        }
    }
}

} // verus!
