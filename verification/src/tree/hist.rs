//! Gradient histograms: one bucket of statistics per bin.
//!
//! A histogram is built row by row, in parallel chunks when there are many
//! rows; the histogram of a node's other child follows by subtraction.

use rayon::iter::ParallelIterator;
use rayon::slice::ParallelSlice;
use vstd::prelude::*;

use crate::arith::{Calc, Op};
use crate::data::ghist::GHistIndex;
use crate::objective::pair::GradPair;
use crate::tree::gain::{no_stats, GradStats};

verus! {

/// A gradient histogram.
pub type Histogram = Vec<GradStats>;

/// The histogram of nothing.
pub open spec fn empty_histogram(total_bins: int) -> Seq<GradStats> {
    Seq::new(total_bins as nat, |i: int| no_stats())
}

/// A histogram after adding `g` to the first `n` of the given bins.
pub open spec fn spread<F: Fn(Op, u64, u64) -> u64>(
    h: Seq<GradStats>,
    bins: Seq<int>,
    g: GradStats,
    n: int,
    calc: &Calc<F>,
) -> Seq<GradStats>
    decreases n,
{
    if n <= 0 {
        h
    } else {
        let so_far = spread(h, bins, g, n - 1, calc);
        so_far.update(bins[n - 1], so_far[bins[n - 1]].joined(g, calc))
    }
}

/// A histogram after adding the gradients of the first `n` of the given rows,
/// each to the bins of its row.
pub open spec fn accumulated<F: Fn(Op, u64, u64) -> u64>(
    h: Seq<GradStats>,
    ghist: &GHistIndex,
    rows: Seq<u32>,
    gp: Seq<GradPair>,
    n: int,
    calc: &Calc<F>,
) -> Seq<GradStats>
    decreases n,
{
    if n <= 0 {
        h
    } else {
        let bins = ghist.row_bins(rows[n - 1] as int);
        spread(
            accumulated(h, ghist, rows, gp, n - 1, calc),
            bins,
            gp[rows[n - 1] as int].stats(calc),
            bins.len() as int,
            calc,
        )
    }
}

/// The histogram of the given rows.
pub open spec fn histogram<F: Fn(Op, u64, u64) -> u64>(
    ghist: &GHistIndex,
    rows: Seq<u32>,
    gp: Seq<GradPair>,
    calc: &Calc<F>,
) -> Seq<GradStats> {
    accumulated(
        empty_histogram(ghist.table().cuts().len() as int),
        ghist,
        rows,
        gp,
        rows.len() as int,
        calc,
    )
}

/// Chunk number `i` of a list cut into chunks of `grain`.
pub open spec fn chunk<T>(list: Seq<T>, grain: int, i: int) -> Seq<T> {
    let end = if (i + 1) * grain < list.len() { (i + 1) * grain } else { list.len() as int };
    list.subrange(i * grain, end)
}

/// The number of chunks of a list.
pub open spec fn chunk_count(len: int, grain: int) -> int {
    (len + grain - 1) / grain
}

/// Two histograms added bin by bin.
pub open spec fn merged<F: Fn(Op, u64, u64) -> u64>(
    a: Seq<GradStats>,
    b: Seq<GradStats>,
    calc: &Calc<F>,
) -> Seq<GradStats> {
    Seq::new(a.len(), |i: int| a[i].joined(b[i], calc))
}

/// The histograms of the first `n` chunks added to an empty one.
pub open spec fn chunked<F: Fn(Op, u64, u64) -> u64>(
    ghist: &GHistIndex,
    rows: Seq<u32>,
    gp: Seq<GradPair>,
    grain: int,
    n: int,
    calc: &Calc<F>,
) -> Seq<GradStats>
    decreases n,
{
    if n <= 0 {
        empty_histogram(ghist.table().cuts().len() as int)
    } else {
        merged(
            chunked(ghist, rows, gp, grain, n - 1, calc),
            histogram(ghist, chunk(rows, grain, n - 1), gp, calc),
            calc,
        )
    }
}

/// Whether a histogram is one that building over these rows may give: that of
/// all rows in their order where there are few, else a sum over chunks.
pub open spec fn is_histogram<F: Fn(Op, u64, u64) -> u64>(
    h: Seq<GradStats>,
    ghist: &GHistIndex,
    rows: Seq<u32>,
    gp: Seq<GradPair>,
    calc: &Calc<F>,
) -> bool {
    if rows.len() < PARALLEL_THRESHOLD {
        h == histogram(ghist, rows, gp, calc)
    } else {
        exists|grain: int|
            1 <= grain && h == #[trigger] chunked(
                ghist,
                rows,
                gp,
                grain,
                chunk_count(rows.len() as int, grain),
                calc,
            )
    }
}

/// One histogram less another, bin by bin.
pub open spec fn subtracted<F: Fn(Op, u64, u64) -> u64>(
    parent: Seq<GradStats>,
    child: Seq<GradStats>,
    calc: &Calc<F>,
) -> Seq<GradStats> {
    Seq::new(parent.len(), |i: int| parent[i].without(child[i], calc))
}

/// Whether rows and gradients belong to a binned dataset.
pub open spec fn rows_fit(ghist: &GHistIndex, rows: Seq<u32>, gp: Seq<GradPair>) -> bool {
    &&& ghist.well_formed()
    &&& gp.len() >= ghist.height()
    &&& forall|i: int| 0 <= i < rows.len() ==> #[trigger] rows[i] < ghist.height()
}

/// An empty histogram.
pub fn zeroed(total_bins: usize) -> (r: Histogram)
    ensures
        r@ == empty_histogram(total_bins as int),
{
    let r: Histogram = vec![GradStats::default(); total_bins];
    assert(r@ =~= empty_histogram(total_bins as int));
    r
}

/// Row count from which histograms are built in parallel.
pub const PARALLEL_THRESHOLD: usize = 4096;

/// Builds and combines gradient histograms.
pub trait HistogramBackend {
    /// Replace `out` by the histogram of the given rows.
    fn build<F: Fn(Op, u64, u64) -> u64 + Sync>(
        &self,
        ghist: &GHistIndex,
        rows: &[u32],
        gpair: &[GradPair],
        out: &mut Histogram,
        calc: &Calc<F>,
    )
        requires
            rows_fit(ghist, rows@, gpair@),
            old(out).len() == ghist.table().cuts().len(),
        ensures
            is_histogram(final(out)@, ghist, rows@, gpair@, calc),
            final(out).len() == ghist.table().cuts().len(),
    ;

    /// Replace `out` by `parent` less `child`.
    fn subtract<F: Fn(Op, u64, u64) -> u64>(
        &self,
        parent: &Histogram,
        child: &Histogram,
        out: &mut Histogram,
        calc: &Calc<F>,
    )
        requires
            parent.len() == child.len(),
            old(out).len() == parent.len(),
        ensures
            final(out)@ == subtracted(parent@, child@, calc),
    ;
}

/// Multi-core histogram building.
#[derive(Clone, Copy, Debug)]
pub struct CpuBackend;

impl Default for CpuBackend {
    fn default() -> (r: Self)
        ensures
            r == CpuBackend,
    {
        CpuBackend
    }
}

/// Add the gradients of the given rows to a histogram.
pub fn accumulate<F: Fn(Op, u64, u64) -> u64>(
    ghist: &GHistIndex,
    rows: &[u32],
    gpair: &[GradPair],
    out: &mut Histogram,
    calc: &Calc<F>,
)
    requires
        rows_fit(ghist, rows@, gpair@),
        old(out).len() == ghist.table().cuts().len(),
    ensures
        final(out)@ == accumulated(
            old(out)@,
            ghist,
            rows@,
            gpair@,
            rows.len() as int,
            calc,
        ),
        final(out).len() == old(out).len(),
{
    let ptr = ghist.row_ptr();
    let bins = ghist.bins();
    let ghost start = out@;
    let mut i: usize = 0;
    while i < rows.len()
        invariant
            rows_fit(ghist, rows@, gpair@),
            ptr.len() == ghist.height() + 1,
            forall|k: int| 0 <= k <= ghist.height() ==> #[trigger] ptr[k] == ghist.row_start(k),
            bins.length() == ghist.all_bins().len(),
            forall|k: int|
                0 <= k < bins.length() ==> #[trigger] bins.at(k) == ghist.all_bins()[k],
            out.len() == ghist.table().cuts().len(),
            i <= rows.len(),
            out@ == accumulated(start, ghist, rows@, gpair@, i as int, calc),
        decreases rows.len() - i,
    {
        let r: usize = rows[i] as usize;
        let g = gpair[r].to_stats(calc);
        proof {
            ghist.layout(r as int);
        }
        let first: usize = ptr[r];
        let end: usize = ptr[r + 1];
        let ghost row = ghist.row_bins(r as int);
        let ghost before = out@;
        let mut k: usize = first;
        while k < end
            invariant
                first <= k <= end <= bins.length(),
                row == ghist.all_bins().subrange(first as int, end as int),
                bins.length() == ghist.all_bins().len(),
                forall|j: int|
                    0 <= j < bins.length() ==> #[trigger] bins.at(j) == ghist.all_bins()[j],
                forall|j: int|
                    0 <= j < row.len() ==> 0 <= #[trigger] row[j] < ghist.table().cuts().len(),
                out.len() == ghist.table().cuts().len(),
                out@ == spread(before, row, g, k - first, calc),
            decreases end - k,
        {
            let b: usize = bins.get(k) as usize;
            assert(row[k - first] == b);
            let mut sum = out[b];
            sum.add(g, calc);
            out.set(b, sum);
            k = k + 1;
        }
        i = i + 1;
    }
}

/// The histogram of the given rows, built row by row.
pub fn partial<F: Fn(Op, u64, u64) -> u64>(
    ghist: &GHistIndex,
    rows: &[u32],
    gpair: &[GradPair],
    calc: &Calc<F>,
) -> (r: Histogram)
    requires
        rows_fit(ghist, rows@, gpair@),
    ensures
        r@ == histogram(ghist, rows@, gpair@, calc),
        r.len() == ghist.table().cuts().len(),
{
    let mut out = zeroed(ghist.total_bins());
    accumulate(ghist, rows, gpair, &mut out, calc);
    out
}

/// Calls `rayon::current_num_threads`, which depends on the machine.
#[verifier::external_body]
fn threads() -> usize {
    rayon::current_num_threads()
}

/// Calls `ParallelSlice::par_chunks`, `ParallelIterator::map` and
/// `ParallelIterator::collect`: the rows are cut into chunks of `grain` rows,
/// the last of which may be shorter, [`partial`] is called on each, and the
/// results are listed in the order of the chunks. A grain of zero would panic.
#[verifier::external_body]
fn partials<F: Fn(Op, u64, u64) -> u64 + Sync>(
    ghist: &GHistIndex,
    rows: &[u32],
    gpair: &[GradPair],
    grain: usize,
    calc: &Calc<F>,
) -> (r: Vec<Histogram>)
    requires
        rows_fit(ghist, rows@, gpair@),
        grain > 0,
    ensures
        r.len() == chunk_count(rows.len() as int, grain as int),
        forall|i: int|
            0 <= i < r.len() ==> (#[trigger] r[i])@ == histogram(
                ghist,
                chunk(rows@, grain as int, i),
                gpair@,
                calc,
            ),
{
    rows.par_chunks(grain).map(|chunk| partial(ghist, chunk, gpair, calc)).collect()
}

proof fn histograms_have_all_bins<F: Fn(Op, u64, u64) -> u64>(
    h: Seq<GradStats>,
    ghist: &GHistIndex,
    rows: Seq<u32>,
    gp: Seq<GradPair>,
    n: int,
    calc: &Calc<F>,
)
    requires
        rows_fit(ghist, rows, gp),
        n <= rows.len(),
        h.len() == ghist.table().cuts().len(),
    ensures
        accumulated(h, ghist, rows, gp, n, calc).len() == h.len(),
    decreases n,
{
    if n > 0 {
        ghist.layout(rows[n - 1] as int);
        histograms_have_all_bins(h, ghist, rows, gp, n - 1, calc);
        let bins = ghist.row_bins(rows[n - 1] as int);
        spreading_keeps_bins(
            accumulated(h, ghist, rows, gp, n - 1, calc),
            bins,
            gp[rows[n - 1] as int].stats(calc),
            bins.len() as int,
            calc,
        );
    }
}

proof fn spreading_keeps_bins<F: Fn(Op, u64, u64) -> u64>(
    h: Seq<GradStats>,
    bins: Seq<int>,
    g: GradStats,
    n: int,
    calc: &Calc<F>,
)
    requires
        n <= bins.len(),
        forall|i: int| 0 <= i < bins.len() ==> 0 <= #[trigger] bins[i] < h.len(),
    ensures
        spread(h, bins, g, n, calc).len() == h.len(),
    decreases n,
{
    if n > 0 {
        spreading_keeps_bins(h, bins, g, n - 1, calc);
    }
}

proof fn chunks_lie_within(len: int, grain: int, i: int)
    requires
        0 < grain,
        0 <= len,
        0 <= i < chunk_count(len, grain),
    ensures
        0 <= i * grain <= len,
        i * grain <= (i + 1) * grain,
{
    assert(0 <= i * grain && i * grain <= (i + 1) * grain && i * grain <= len) by (nonlinear_arith)
        requires
            0 < grain,
            0 <= i,
            i <= (len + grain - 1) / grain - 1,
    ;
}

impl HistogramBackend for CpuBackend {
    fn build<F: Fn(Op, u64, u64) -> u64 + Sync>(
        &self,
        ghist: &GHistIndex,
        rows: &[u32],
        gpair: &[GradPair],
        out: &mut Histogram,
        calc: &Calc<F>,
    ) {
        let total: usize = out.len();
        if rows.len() < PARALLEL_THRESHOLD {
            *out = zeroed(total);
            accumulate(ghist, rows, gpair, out, calc);
            return ;
        }
        let threads: usize = threads();
        let share: usize = if threads == 0 { rows.len() } else { rows.len() / threads };
        let grain: usize = if share == 0 { 1 } else { share };
        let parts = partials(ghist, rows, gpair, grain, calc);
        *out = zeroed(total);
        let mut i: usize = 0;
        while i < parts.len()
            invariant
                rows_fit(ghist, rows@, gpair@),
                grain > 0,
                parts.len() == chunk_count(rows.len() as int, grain as int),
                total == ghist.table().cuts().len(),
                out.len() == total,
                i <= parts.len(),
                forall|k: int|
                    0 <= k < parts.len() ==> (#[trigger] parts[k])@ == histogram(
                        ghist,
                        chunk(rows@, grain as int, k),
                        gpair@,
                        calc,
                    ),
                out@ == chunked(ghist, rows@, gpair@, grain as int, i as int, calc),
            decreases parts.len() - i,
        {
            let part = &parts[i];
            proof {
                let c = chunk(rows@, grain as int, i as int);
                chunks_lie_within(rows.len() as int, grain as int, i as int);
                assert(rows_fit(ghist, c, gpair@));
                histograms_have_all_bins(
                    empty_histogram(total as int),
                    ghist,
                    c,
                    gpair@,
                    c.len() as int,
                    calc,
                );
            }
            let ghost before = out@;
            let mut b: usize = 0;
            while b < total
                invariant
                    total == before.len(),
                    out.len() == total,
                    part.len() == total,
                    b <= total,
                    forall|j: int| b <= j < total ==> #[trigger] out[j] == before[j],
                    forall|j: int|
                        0 <= j < b ==> #[trigger] out[j] == before[j].joined(part[j], calc),
                decreases total - b,
            {
                let mut sum = out[b];
                assert(sum == before[b as int]);
                sum.add(part[b], calc);
                out.set(b, sum);
                b = b + 1;
            }
            assert(out@ =~= merged(before, part@, calc));
            i = i + 1;
        }
        assert(1 <= grain as int && out@ == chunked(
            ghist,
            rows@,
            gpair@,
            grain as int,
            chunk_count(rows.len() as int, grain as int),
            calc,
        ));
    }

    fn subtract<F: Fn(Op, u64, u64) -> u64>(
        &self,
        parent: &Histogram,
        child: &Histogram,
        out: &mut Histogram,
        calc: &Calc<F>,
    ) {
        let mut i: usize = 0;
        while i < out.len()
            invariant
                parent.len() == child.len(),
                out.len() == parent.len(),
                i <= out.len(),
                forall|k: int|
                    0 <= k < i ==> #[trigger] out[k] == parent[k].without(child[k], calc),
            decreases out.len() - i,
        {
            let d = parent[i].sub(child[i], calc);
            out.set(i, d);
            i = i + 1;
        }
        assert(out@ =~= subtracted(parent@, child@, calc));
    }
}

} // verus!
