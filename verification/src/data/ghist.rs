//! Pre-binned feature storage.
//!
//! Every entry that is not missing is replaced by its bin among the bins of
//! all features (see [`HistCuts`]), row after row. Bins are held in 16 bits
//! where all of them fit, else in 32.

use vstd::prelude::*;

use crate::data::dmatrix::{DMatrix, Entry};
use crate::data::laws::{cells_are_entries, distinct_columns};
use crate::data::quantile::{category_bin, numeric_bin, HistCuts};
use crate::number::Single;

verus! {

/// Backing storage for bins, in the narrowest width that fits.
#[derive(Clone, Debug)]
enum BinStore {
    U16(Vec<u16>),
    U32(Vec<u32>),
}

/// The bins of all rows, tagged by width.
pub enum Bins<'a> {
    /// 16-bit bins.
    U16(&'a [u16]),
    /// 32-bit bins.
    U32(&'a [u32]),
}

impl<'a> Bins<'a> {
    /// Bin number `i`.
    pub open spec fn at(&self, i: int) -> int {
        match self {
            Bins::U16(v) => v@[i] as int,
            Bins::U32(v) => v@[i] as int,
        }
    }

    /// The number of bins held.
    pub open spec fn length(&self) -> int {
        match self {
            Bins::U16(v) => v@.len() as int,
            Bins::U32(v) => v@.len() as int,
        }
    }

    /// Bin number `i`.
    pub fn get(&self, i: usize) -> (r: u32)
        requires
            i < self.length(),
        ensures
            r == self.at(i as int),
    {
        match self {
            Bins::U16(v) => v[i] as u32,
            Bins::U32(v) => v[i],
        }
    }
}

/// The bins of a row's entries.
pub open spec fn binned(entries: Seq<Entry>, cuts: &HistCuts) -> Seq<int> {
    Seq::new(entries.len(), |k: int| cuts.bin(entries[k].index as int, entries[k].value))
}

/// The number of entries in the first `n` rows.
pub open spec fn entries_before(data: &DMatrix, n: int) -> int
    decreases n,
{
    if n <= 0 { 0 } else { entries_before(data, n - 1) + data.entries(n - 1).len() }
}

/// Whether a row lists every one of `n_cols` features in ascending order.
pub open spec fn complete_row(entries: Seq<Entry>, n_cols: int) -> bool {
    &&& entries.len() == n_cols
    &&& forall|k: int| 0 <= k < entries.len() ==> (#[trigger] entries[k]).index == k
}

/// The first bin within `[fs, fe)` from position `k` on.
pub open spec fn first_within(bins: Seq<int>, fs: int, fe: int, k: int) -> Option<u32>
    decreases bins.len() - k,
{
    if k >= bins.len() {
        None
    } else if fs <= bins[k] < fe {
        Some(bins[k] as u32)
    } else {
        first_within(bins, fs, fe, k + 1)
    }
}

/// Whether the values of a row's categorical entries can be looked up.
pub open spec fn binnable(entries: Seq<Entry>, cuts: &HistCuts) -> bool {
    forall|k: int|
        0 <= k < entries.len() && cuts.categorical((#[trigger] entries[k]).index as int)
            ==> !entries[k].value.nan() && !cuts.cuts_of(entries[k].index as int)[0].nan()
}

/// A binned dataset: for each row, the bins of its entries.
#[derive(Clone, Debug)]
pub struct GHistIndex {
    n_rows: usize,
    n_cols: usize,
    row_ptr: Vec<usize>,
    store: BinStore,
    cuts: HistCuts,
    dense: bool,
}

impl GHistIndex {
    /// Number of rows.
    pub closed spec fn height(&self) -> int {
        self.n_rows as int
    }

    /// Number of features.
    pub closed spec fn width(&self) -> int {
        self.n_cols as int
    }

    /// Where the bins of row `r` start; the number of all bins beyond the last
    /// row.
    pub closed spec fn row_start(&self, r: int) -> int {
        if 0 <= r <= self.n_rows {
            self.row_ptr[r] as int
        } else {
            self.all_bins().len() as int
        }
    }

    /// There are no bins beyond the last row.
    pub proof fn no_bins_beyond(&self, r: int)
        requires
            self.well_formed(),
        ensures
            r >= self.height() ==> self.row_bins(r).len() == 0,
    {
    }

    /// All bins, row after row.
    pub closed spec fn all_bins(&self) -> Seq<int> {
        match self.store {
            BinStore::U16(v) => Seq::new(v@.len(), |i: int| v@[i] as int),
            BinStore::U32(v) => Seq::new(v@.len(), |i: int| v@[i] as int),
        }
    }

    /// The bins of row `r`.
    pub open spec fn row_bins(&self, r: int) -> Seq<int> {
        self.all_bins().subrange(self.row_start(r), self.row_start(r + 1))
    }

    /// The cuts that the dataset was binned by.
    pub closed spec fn table(&self) -> HistCuts {
        self.cuts
    }

    /// Whether every row lists all features in ascending order.
    pub closed spec fn complete(&self) -> bool {
        self.dense
    }

    /// Whether bins are held in 16 bits.
    pub closed spec fn narrow(&self) -> bool {
        self.store is U16
    }

    /// Rows are laid out one after the other, and every bin exists.
    pub closed spec fn well_formed(&self) -> bool {
        &&& self.cuts.well_formed()
        &&& self.row_ptr.len() == self.n_rows + 1
        &&& self.row_ptr[0] == 0
        &&& self.row_ptr[self.n_rows as int] == self.all_bins().len()
        &&& forall|a: int, b: int|
            0 <= a <= b <= self.n_rows ==> #[trigger] self.row_ptr[a] <= #[trigger] self.row_ptr[b]
        &&& forall|i: int|
            0 <= i < self.all_bins().len() ==> 0 <= #[trigger] self.all_bins()[i]
                < self.cuts.cuts().len()
        &&& self.dense ==> forall|r: int|
            0 <= r < self.n_rows ==> #[trigger] self.row_ptr[r] + self.n_cols == self.row_ptr[r + 1]
        &&& self.narrow() == (self.cuts.cuts().len() <= 0x1_0000)
    }

    /// The cuts of a well-formed index are well-formed.
    pub proof fn shape(&self)
        requires
            self.well_formed(),
        ensures
            self.table().well_formed(),
    {
    }

    /// What every well-formed index has.
    pub proof fn layout(&self, r: int)
        requires
            self.well_formed(),
            0 <= r < self.height(),
        ensures
            0 <= self.row_start(r) <= self.row_start(r + 1) <= self.all_bins().len(),
            self.row_start(0) == 0,
            self.row_start(self.height()) == self.all_bins().len(),
            self.table().well_formed(),
            self.complete() ==> self.row_start(r + 1) == self.row_start(r) + self.width(),
            forall|k: int|
                0 <= k < self.row_bins(r).len() ==> 0 <= #[trigger] self.row_bins(r)[k]
                    < self.table().cuts().len(),
    {
        assert(self.row_ptr[0] <= self.row_ptr[r]);
        assert(self.row_ptr[r] <= self.row_ptr[r + 1]);
        assert(self.row_ptr[r + 1] <= self.row_ptr[self.n_rows as int]);
        assert forall|k: int| 0 <= k < self.row_bins(r).len() implies 0
            <= #[trigger] self.row_bins(r)[k] < self.table().cuts().len() by {
            assert(self.row_bins(r)[k] == self.all_bins()[self.row_ptr[r] + k]);
        }
    }

    /// Bin a dataset by precomputed cuts.
    pub fn from_dmatrix(data: &DMatrix, cuts: HistCuts) -> (r: Self)
        requires
            data.well_formed(),
            data.readable(),
            cuts.well_formed(),
            data.width() <= cuts.features(),
            forall|i: int| 0 <= i < data.height() ==> binnable(#[trigger] data.entries(i), &cuts),
            entries_before(data, data.height()) <= usize::MAX,
        ensures
            r.well_formed(),
            r.height() == data.height(),
            r.width() == cuts.features(),
            r.table() == cuts,
            r.narrow() == (cuts.cuts().len() <= 0x1_0000),
            forall|i: int|
                0 <= i < data.height() ==> #[trigger] r.row_bins(i) == binned(
                    data.entries(i),
                    &cuts,
                ),
            r.complete() == forall|i: int|
                0 <= i < data.height() ==> complete_row(
                    #[trigger] data.entries(i),
                    cuts.features(),
                ),
    {
        let n_rows: usize = data.n_rows();
        let n_cols: usize = cuts.n_features();
        let mut row_ptr: Vec<usize> = Vec::new();
        row_ptr.push(0);
        let mut bins: Vec<u32> = Vec::new();
        let mut row: Vec<Entry> = Vec::new();
        let mut dense = true;
        let mut r: usize = 0;
        while r < n_rows
            invariant
                data.well_formed(),
                data.readable(),
                cuts.well_formed(),
                n_rows == data.height(),
                n_cols == cuts.features(),
                data.width() <= cuts.features(),
                forall|i: int|
                    0 <= i < data.height() ==> binnable(#[trigger] data.entries(i), &cuts),
                entries_before(data, data.height()) <= usize::MAX,
                r <= n_rows,
                row_ptr.len() == r + 1,
                row_ptr[0] == 0,
                bins.len() == row_ptr[r as int],
                bins.len() == entries_before(data, r as int),
                forall|a: int, b: int|
                    0 <= a <= b <= r ==> #[trigger] row_ptr[a] <= #[trigger] row_ptr[b],
                forall|i: int|
                    0 <= i < bins.len() ==> 0 <= #[trigger] bins[i] < cuts.cuts().len(),
                forall|i: int|
                    0 <= i < r ==> row_ptr[i + 1] - row_ptr[i] == (#[trigger] data.entries(
                        i,
                    )).len(),
                forall|i: int, k: int|
                    0 <= i < r && 0 <= k < data.entries(i).len() ==> bins[row_ptr[i] + k]
                        == cuts.bin(
                        (#[trigger] data.entries(i)[k]).index as int,
                        data.entries(i)[k].value,
                    ),
                dense == forall|i: int|
                    0 <= i < r ==> complete_row(#[trigger] data.entries(i), cuts.features()),
            decreases n_rows - r,
        {
            assert(data.readable_row(r as int));
            data.row_into(r, &mut row);
            let ghost was = bins@;
            proof {
                entries_before_grows(data, r + 1, n_rows as int);
            }
            let full = is_complete(&row, n_cols);
            dense = dense && full;
            let mut k: usize = 0;
            while k < row.len()
                invariant
                    data.well_formed(),
                    cuts.well_formed(),
                    r < data.height(),
                    data.readable_row(r as int),
                    data.width() <= cuts.features(),
                    row@ == data.entries(r as int),
                    binnable(row@, &cuts),
                    k <= row.len(),
                    bins.len() == was.len() + k,
                    forall|i: int| 0 <= i < was.len() ==> #[trigger] bins[i] == was[i],
                    forall|i: int|
                        0 <= i < bins.len() ==> 0 <= #[trigger] bins[i] < cuts.cuts().len(),
                    forall|i: int|
                        0 <= i < k ==> bins[was.len() + i] == cuts.bin(
                            (#[trigger] row[i]).index as int,
                            row[i].value,
                        ),
                decreases row.len() - k,
            {
                proof {
                    data.entry_columns_exist(r as int, k as int);
                    cuts.layout(row[k as int].index as int);
                }
                let e = row[k];
                bins.push(cuts.bin_of(e.index as usize, e.value));
                k = k + 1;
            }
            let ghost ptr = row_ptr@;
            row_ptr.push(bins.len());
            proof {
                assert forall|i: int, j: int|
                    0 <= i < r + 1 && 0 <= j < data.entries(i).len() implies bins[row_ptr[i] + j]
                    == cuts.bin(
                    (#[trigger] data.entries(i)[j]).index as int,
                    data.entries(i)[j].value,
                ) by {
                    assert(row_ptr[i] == ptr[i]);
                    if i < r {
                        assert(ptr[i + 1] - ptr[i] == data.entries(i).len());
                        assert(ptr[i + 1] <= ptr[r as int]);
                        assert(bins[ptr[i] + j] == was[ptr[i] + j]);
                    } else {
                        assert(row[j] == data.entries(i)[j]);
                    }
                }
                assert(dense == forall|i: int|
                    0 <= i < r + 1 ==> complete_row(#[trigger] data.entries(i), cuts.features()))
                    by {
                    assert(full == complete_row(data.entries(r as int), cuts.features()));
                }
            }
            r = r + 1;
        }
        let ghost wide = bins@;
        let total: usize = cuts.total_bins();
        let store = if total <= 0x1_0000 {
            let mut narrow: Vec<u16> = Vec::new();
            let mut i: usize = 0;
            while i < bins.len()
                invariant
                    i <= bins.len(),
                    narrow.len() == i,
                    total <= 0x1_0000,
                    total == cuts.cuts().len(),
                    forall|j: int|
                        0 <= j < bins.len() ==> 0 <= #[trigger] bins[j] < cuts.cuts().len(),
                    forall|j: int| 0 <= j < i ==> #[trigger] narrow[j] == bins[j],
                decreases bins.len() - i,
            {
                assert(bins[i as int] < 0x1_0000);
                narrow.push(bins[i] as u16);
                i = i + 1;
            }
            BinStore::U16(narrow)
        } else {
            BinStore::U32(bins)
        };
        let out = GHistIndex { n_rows, n_cols, row_ptr, store, cuts, dense };
        proof {
            assert(out.all_bins() =~= Seq::new(wide.len(), |i: int| wide[i] as int));
            assert forall|i: int| 0 <= i < data.height() implies #[trigger] out.row_bins(i)
                == binned(data.entries(i), &cuts) by {
                assert(row_ptr[i] <= row_ptr[i + 1]);
                assert(row_ptr[i + 1] <= row_ptr[n_rows as int]);
                assert(row_ptr[i + 1] - row_ptr[i] == data.entries(i).len());
                assert forall|k: int| 0 <= k < data.entries(i).len() implies out.row_bins(i)[k]
                    == binned(data.entries(i), &cuts)[k] by {
                    assert(wide[row_ptr[i] + k] == cuts.bin(
                        data.entries(i)[k].index as int,
                        data.entries(i)[k].value,
                    ));
                }
                assert(out.row_bins(i) =~= binned(data.entries(i), &cuts));
            }
            if dense {
                assert forall|i: int| 0 <= i < n_rows implies #[trigger] out.row_ptr[i] + n_cols
                    == out.row_ptr[i + 1] by {
                    assert(complete_row(data.entries(i), cuts.features()));
                }
            }
        }
        out
    }

    /// Number of rows.
    pub fn n_rows(&self) -> (r: usize)
        ensures
            r == self.height(),
    {
        self.n_rows
    }

    /// Number of feature columns.
    pub fn n_cols(&self) -> (r: usize)
        ensures
            r == self.width(),
    {
        self.n_cols
    }

    /// The cuts that this index was built by.
    pub fn cuts(&self) -> (r: &HistCuts)
        ensures
            *r == self.table(),
    {
        &self.cuts
    }

    /// Total number of histogram bins.
    pub fn total_bins(&self) -> (r: usize)
        ensures
            r == self.table().cuts().len(),
    {
        self.cuts.total_bins()
    }

    /// Where the bins of each row start, and where the last row ends.
    pub fn row_ptr(&self) -> (r: &[usize])
        requires
            self.well_formed(),
        ensures
            r.len() == self.height() + 1,
            forall|i: int| 0 <= i <= self.height() ==> #[trigger] r[i] == self.row_start(i),
    {
        self.row_ptr.as_slice()
    }

    /// All bins, tagged by width.
    pub fn bins(&self) -> (r: Bins<'_>)
        ensures
            r is U16 == self.narrow(),
            r.length() == self.all_bins().len(),
            forall|i: int| 0 <= i < r.length() ==> #[trigger] r.at(i) == self.all_bins()[i],
    {
        match &self.store {
            BinStore::U16(v) => Bins::U16(v.as_slice()),
            BinStore::U32(v) => Bins::U32(v.as_slice()),
        }
    }

    /// Number of entries in row `r`.
    pub fn row_len(&self, r: usize) -> (n: usize)
        requires
            self.well_formed(),
            r < self.height(),
        ensures
            n == self.row_bins(r as int).len(),
    {
        proof {
            self.layout(r as int);
        }
        self.row_ptr[r + 1] - self.row_ptr[r]
    }

    fn bin_at(&self, i: usize) -> (b: u32)
        requires
            i < self.all_bins().len(),
        ensures
            b == self.all_bins()[i as int],
    {
        match &self.store {
            BinStore::U16(v) => v[i] as u32,
            BinStore::U32(v) => v[i],
        }
    }

    /// The bin of a feature with bins `[fs, fe)` in row `r`, or `None` if the
    /// feature is missing there. A complete index reads it by position.
    pub fn feature_bin_at(&self, r: usize, feature: usize, fs: usize, fe: usize) -> (b: Option<u32>)
        requires
            self.well_formed(),
            r < self.height(),
            feature < self.width(),
        ensures
            b == if self.complete() {
                Some(self.row_bins(r as int)[feature as int] as u32)
            } else {
                first_within(self.row_bins(r as int), fs as int, fe as int, 0)
            },
    {
        if self.dense {
            proof {
                self.layout(r as int);
            }
            assert(self.row_ptr[r as int] == self.row_start(r as int));
            let idx: usize = self.row_ptr[r] + feature;
            let b: u32 = self.bin_at(idx);
            assert(self.row_bins(r as int)[feature as int] == b);
            return Some(b);
        }
        self.feature_bin(r, fs, fe)
    }

    /// The bin of a feature with bins `[fs, fe)` in row `r`, or `None` if the
    /// feature is missing there.
    pub fn feature_bin(&self, r: usize, fs: usize, fe: usize) -> (b: Option<u32>)
        requires
            self.well_formed(),
            r < self.height(),
        ensures
            b == first_within(self.row_bins(r as int), fs as int, fe as int, 0),
    {
        proof {
            self.layout(r as int);
        }
        let start: usize = self.row_ptr[r];
        let end: usize = self.row_ptr[r + 1];
        let ghost row = self.row_bins(r as int);
        let mut k: usize = start;
        while k < end
            invariant
                start <= k <= end <= self.all_bins().len(),
                row == self.all_bins().subrange(start as int, end as int),
                row == self.row_bins(r as int),
                first_within(row, fs as int, fe as int, 0) == first_within(
                    row,
                    fs as int,
                    fe as int,
                    k - start,
                ),
            decreases end - k,
        {
            let b: u32 = self.bin_at(k);
            assert(row[k - start] == b);
            if b as usize >= fs && (b as usize) < fe {
                return Some(b);
            }
            k = k + 1;
        }
        None
    }
}

proof fn entries_before_grows(data: &DMatrix, a: int, b: int)
    requires
        a <= b,
    ensures
        entries_before(data, a) <= entries_before(data, b),
    decreases b - a,
{
    if a < b {
        entries_before_grows(data, a, b - 1);
    }
}

fn is_complete(row: &Vec<Entry>, n_cols: usize) -> (r: bool)
    ensures
        r == complete_row(row@, n_cols as int),
{
    if row.len() != n_cols {
        return false;
    }
    let mut k: usize = 0;
    while k < row.len()
        invariant
            k <= row.len(),
            forall|j: int| 0 <= j < k ==> (#[trigger] row[j]).index == j,
        decreases row.len() - k,
    {
        if row[k].index as usize != k {
            return false;
        }
        k = k + 1;
    }
    true
}

pub(crate) proof fn bin_belongs_to_its_feature(cuts: &HistCuts, f: int, v: Single)
    requires
        cuts.well_formed(),
        0 <= f < cuts.features(),
    ensures
        cuts.start(f) <= cuts.bin(f, v) < cuts.start(f + 1),
{
    cuts.layout(f);
    let own = cuts.cuts_of(f);
    count_is_bounded(own, v, own.len() as int);
    if cuts.categorical(f) {
        let i = category_bin(own, v);
        assert(0 <= i < own.len());
    } else {
        assert(0 <= numeric_bin(own, v) < own.len());
    }
}

proof fn count_is_bounded(cuts: Seq<Single>, v: Single, n: int)
    requires
        0 <= n,
    ensures
        0 <= crate::data::quantile::count_le(cuts, v, n) <= n,
    decreases n,
{
    if n > 0 {
        count_is_bounded(cuts, v, n - 1);
    }
}

/// What a search for a feature's bin finds is one of the row's bins.
pub proof fn first_within_finds(bins: Seq<int>, fs: int, fe: int, k: int)
    requires
        0 <= k <= bins.len(),
    ensures
        first_within(bins, fs, fe, k) is None ==> forall|i: int|
            k <= i < bins.len() ==> !(fs <= #[trigger] bins[i] < fe),
        first_within(bins, fs, fe, k) matches Some(b) ==> exists|i: int|
            k <= i < bins.len() && fs <= #[trigger] bins[i] < fe && b == bins[i] as u32,
    decreases bins.len() - k,
{
    if k < bins.len() && !(fs <= bins[k] < fe) {
        first_within_finds(bins, fs, fe, k + 1);
    }
}

/// Looking up a feature's bin in a row gives the bin of the value in the cell,
/// and nothing where the cell is missing, if the row lists no column twice.
pub proof fn feature_bin_is_the_bin_of_the_cell(data: &DMatrix, cuts: &HistCuts, r: int, f: u32)
    requires
        data.well_formed(),
        cuts.well_formed(),
        data.width() <= cuts.features(),
        0 <= r < data.height(),
        data.readable_row(r),
        f < cuts.features(),
        distinct_columns(data.stored(r)),
    ensures
        first_within(
            binned(data.entries(r), cuts),
            cuts.start(f as int),
            cuts.start(f + 1),
            0,
        ) == match data.cell(r, f as int) {
            Some(v) => Some(cuts.bin(f as int, v) as u32),
            None => None,
        },
{
    let es = data.entries(r);
    let bins = binned(es, cuts);
    let fs = cuts.start(f as int);
    let fe = cuts.start(f + 1);
    first_within_finds(bins, fs, fe, 0);
    assert forall|i: int| 0 <= i < es.len() implies (fs <= #[trigger] bins[i] < fe) == (es[i].index
        == f) by {
        let g = es[i].index as int;
        data.entry_columns_exist(r, i);
        bin_belongs_to_its_feature(cuts, g, es[i].value);
        if g < f {
            cuts.features_do_not_overlap(g, f as int);
        } else if g > f {
            cuts.features_do_not_overlap(f as int, g);
        }
    }
    match data.cell(r, f as int) {
        Some(v) => {
            cells_are_entries(data, r, f, v);
            let k = choose|k: int| 0 <= k < es.len() && es[k] == (Entry { index: f, value: v });
            assert(fs <= bins[k] < fe);
            let b = first_within(bins, fs, fe, 0);
            let i = choose|i: int|
                0 <= i < bins.len() && fs <= #[trigger] bins[i] < fe && b == Some(bins[i] as u32);
            assert(es[i].index == f);
            let w = es[i].value;
            assert(es[i] == (Entry { index: f, value: w }));
            cells_are_entries(data, r, f, w);
        },
        None => {
            if let Some(b) = first_within(bins, fs, fe, 0) {
                let i = choose|i: int|
                    0 <= i < bins.len() && fs <= #[trigger] bins[i] < fe && b == bins[i] as u32;
                let w = es[i].value;
                assert(es[i] == (Entry { index: f, value: w }));
                cells_are_entries(data, r, f, w);
            }
        },
    }
}

/// In a complete row, the bin at a feature's position is the bin that a scan
/// of the row finds.
pub proof fn complete_rows_are_read_by_position(
    data: &DMatrix,
    cuts: &HistCuts,
    r: int,
    f: int,
)
    requires
        cuts.well_formed(),
        complete_row(data.entries(r), cuts.features()),
        0 <= f < cuts.features(),
    ensures
        first_within(binned(data.entries(r), cuts), cuts.start(f), cuts.start(f + 1), 0) == Some(
            binned(data.entries(r), cuts)[f] as u32,
        ),
{
    let es = data.entries(r);
    let bins = binned(es, cuts);
    let fs = cuts.start(f);
    let fe = cuts.start(f + 1);
    assert forall|i: int| 0 <= i < es.len() implies (fs <= #[trigger] bins[i] < fe) == (i == f) by {
        assert(es[i].index == i);
        bin_belongs_to_its_feature(cuts, i, es[i].value);
        if i < f {
            cuts.features_do_not_overlap(i, f);
        } else if i > f {
            cuts.features_do_not_overlap(f, i);
        }
    }
    first_within_finds(bins, fs, fe, 0);
    assert(fs <= bins[f] < fe);
}

} // verus!
