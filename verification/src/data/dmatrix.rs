//! The core dataset container: a feature matrix plus training metadata.

use vstd::prelude::*;

use crate::data::meta::{sum_of, FeatureType, GroupInfo};
use crate::error::SequoiaError;
use crate::number::Single;

verus! {

/// Whether `v` stands for an absent value under the sentinel `missing`: a
/// sentinel that is not a number stands for every such value, any other only
/// for values equal to it.
pub open spec fn missing_under(v: Single, missing: Single) -> bool {
    if missing.nan() { v.nan() } else { v.same(missing) }
}

/// Whether `v` stands for an absent value under the sentinel `missing`.
pub fn is_missing(v: Single, missing: Single) -> (r: bool)
    ensures
        r == missing_under(v, missing),
{
    if missing.is_nan() { v.is_nan() } else { v.is_same(missing) }
}

/// Backing storage for the feature matrix.
#[derive(Clone, Debug)]
enum Storage {
    /// Row-major dense matrix of length `n_rows * n_cols`.
    Dense(Vec<Single>),
    /// Compressed sparse rows: `indptr` has `n_rows + 1` entries.
    Csr { indptr: Vec<usize>, indices: Vec<u32>, values: Vec<Single> },
}

/// A dataset: features in dense or sparse form, plus labels, weights, base
/// margins, ranking groups, and per-feature metadata.
///
/// A dense cell equal to the missing sentinel is absent; so is a cell that a
/// sparse row does not list.
#[derive(Clone, Debug)]
pub struct DMatrix {
    n_rows: usize,
    n_cols: usize,
    storage: Storage,
    missing: Single,
    labels: Option<Vec<Single>>,
    weights: Option<Vec<Single>>,
    base_margin: Option<Vec<Single>>,
    group: Option<GroupInfo>,
    feature_types: Vec<FeatureType>,
    feature_names: Option<Vec<String>>,
}

/// A `(feature_index, value)` entry of a row.
#[derive(Clone, Copy, Debug, PartialEq, Eq, Structural)]
pub struct Entry {
    /// Column index of the feature.
    pub index: u32,
    /// Feature value.
    pub value: Single,
}

/// Row `r` of a row-major matrix with `n_cols` columns.
pub open spec fn dense_row(data: Seq<Single>, n_cols: int, r: int) -> Seq<Entry> {
    Seq::new(
        n_cols as nat,
        |c: int| Entry { index: c as u32, value: data[r * n_cols + c] },
    )
}

/// Row `r` of a matrix in compressed sparse rows.
pub open spec fn csr_row(
    indptr: Seq<usize>,
    indices: Seq<u32>,
    values: Seq<Single>,
    r: int,
) -> Seq<Entry> {
    if indptr[r] >= indptr[r + 1] {
        Seq::empty()
    } else {
        Seq::new(
            (indptr[r + 1] - indptr[r]) as nat,
            |k: int| Entry { index: indices[indptr[r] + k], value: values[indptr[r] + k] },
        )
    }
}

/// Whether the listed entries of row `r` are all there to be read.
pub open spec fn csr_row_in_bounds(indptr: Seq<usize>, len: int, r: int) -> bool {
    indptr[r] >= indptr[r + 1] || indptr[r + 1] <= len
}

/// The entries among `stored` that are not missing.
pub open spec fn present(stored: Seq<Entry>, missing: Single) -> Seq<Entry> {
    stored.filter(|e: Entry| !missing_under(e.value, missing))
}

/// The first position from `k` on at which `stored` lists column `c`, or the
/// length of `stored`.
pub open spec fn first_at(stored: Seq<Entry>, c: int, k: int) -> int
    decreases stored.len() - k,
{
    if k >= stored.len() {
        stored.len() as int
    } else if stored[k].index == c {
        k
    } else {
        first_at(stored, c, k + 1)
    }
}

/// What a row holds in column `c`: the value of its first entry for that
/// column, unless that value is missing.
pub open spec fn lookup(stored: Seq<Entry>, missing: Single, c: int) -> Option<Single> {
    let k = first_at(stored, c, 0);
    if k < stored.len() && !missing_under(stored[k].value, missing) {
        Some(stored[k].value)
    } else {
        None
    }
}

/// The `(row, value)` pairs that row `row` contributes to column `c`.
pub open spec fn picks(entries: Seq<Entry>, c: int, row: int) -> Seq<(u32, Single)> {
    entries.filter(|e: Entry| e.index == c).map_values(|e: Entry| (row as u32, e.value))
}

/// The greatest of the first `n` numbers (and zero).
pub open spec fn greatest(indices: Seq<u32>, n: int) -> int
    decreases n,
{
    if n <= 0 {
        0
    } else if indices[n - 1] > greatest(indices, n - 1) {
        indices[n - 1] as int
    } else {
        greatest(indices, n - 1)
    }
}

/// What a list holds at the given positions.
pub open spec fn gathered(values: Seq<Single>, rows: Seq<usize>) -> Seq<Single> {
    Seq::new(rows.len(), |i: int| values[rows[i] as int])
}

/// The view of an optional list.
pub open spec fn view_of<T>(list: Option<Vec<T>>) -> Option<Seq<T>> {
    match list {
        Some(v) => Some(v@),
        None => None,
    }
}

/// The view of an optional slice.
pub open spec fn slice_view<T>(list: Option<&[T]>) -> Option<Seq<T>> {
    match list {
        Some(v) => Some(v@),
        None => None,
    }
}

proof fn filter_step<A>(s: Seq<A>, k: int, pred: spec_fn(A) -> bool)
    requires
        0 <= k < s.len(),
    ensures
        s.take(k + 1).filter(pred) == if pred(s[k]) {
            s.take(k).filter(pred).push(s[k])
        } else {
            s.take(k).filter(pred)
        },
{
    assert(s.take(k + 1) =~= s.take(k).push(s[k]));
    s.take(k).lemma_filter_push(s[k], pred);
}

proof fn cell_in_bounds(r: int, c: int, n_rows: int, n_cols: int)
    requires
        0 <= r < n_rows,
        0 <= c < n_cols,
    ensures
        0 <= r * n_cols <= r * n_cols + c < n_rows * n_cols,
{
    assert(0 <= r * n_cols && r * n_cols + n_cols <= n_rows * n_cols) by (nonlinear_arith)
        requires
            0 <= r < n_rows,
            0 <= n_cols,
    ;
}

/// The error that compressed sparse rows of the wrong shape give.
pub open spec fn csr_error(
    indptr: Seq<usize>,
    indices: Seq<u32>,
    values: Seq<Single>,
    n_cols: usize,
) -> Option<SequoiaError> {
    if indptr.len() == 0 {
        Some(SequoiaError::EmptyDataset("from_csr: empty indptr"))
    } else if indptr.len() == 1 || n_cols == 0 {
        Some(SequoiaError::EmptyDataset("from_csr: zero rows or columns"))
    } else if indices.len() != values.len() {
        Some(
            SequoiaError::DimensionMismatch {
                what: "csr indices/values length",
                expected: indices.len() as usize,
                got: values.len() as usize,
            },
        )
    } else if indptr.last() != values.len() {
        Some(
            SequoiaError::DimensionMismatch {
                what: "csr indptr terminal",
                expected: values.len() as usize,
                got: indptr.last(),
            },
        )
    } else if indices.len() > 0 && greatest(indices, indices.len() as int) >= n_cols {
        Some(
            SequoiaError::FeatureOutOfBounds {
                index: greatest(indices, indices.len() as int) as usize,
                num_features: n_cols,
            },
        )
    } else {
        None
    }
}

impl DMatrix {
    /// Number of rows.
    pub closed spec fn height(&self) -> int {
        self.n_rows as int
    }

    /// Number of columns.
    pub closed spec fn width(&self) -> int {
        self.n_cols as int
    }

    /// The entries that row `r` lists, the missing ones among them.
    pub closed spec fn stored(&self, r: int) -> Seq<Entry> {
        match self.storage {
            Storage::Dense(data) => dense_row(data@, self.n_cols as int, r),
            Storage::Csr { indptr, indices, values } => csr_row(indptr@, indices@, values@, r),
        }
    }

    /// The missing sentinel.
    pub closed spec fn sentinel(&self) -> Single {
        self.missing
    }

    /// The entries of row `r` that are not missing.
    pub open spec fn entries(&self, r: int) -> Seq<Entry> {
        present(self.stored(r), self.sentinel())
    }

    /// The value in row `r` and column `c`, if it is not missing.
    pub open spec fn cell(&self, r: int, c: int) -> Option<Single> {
        lookup(self.stored(r), self.sentinel(), c)
    }

    /// Whether every row lists every column, one after the other.
    pub closed spec fn dense(&self) -> bool {
        self.storage is Dense
    }

    /// The value in row `r` and column `c`, if it is not missing, of a dense
    /// matrix also beyond the columns that entries can name.
    pub open spec fn held(&self, r: int, c: int) -> Option<Single> {
        if self.dense() && c > u32::MAX {
            let v = self.stored(r)[c].value;
            if missing_under(v, self.sentinel()) { None } else { Some(v) }
        } else {
            self.cell(r, c)
        }
    }

    /// Column `c` over the first `n` rows, as `(row, value)` pairs.
    pub open spec fn column_prefix(&self, c: int, n: int) -> Seq<(u32, Single)>
        decreases n,
    {
        if n <= 0 {
            Seq::empty()
        } else {
            self.column_prefix(c, n - 1) + picks(self.entries(n - 1), c, n - 1)
        }
    }

    /// Labels, weights and base margin, where they are attached.
    pub closed spec fn label_list(&self) -> Option<Seq<Single>> {
        view_of(self.labels)
    }

    /// Per-instance weights.
    pub closed spec fn weight_list(&self) -> Option<Seq<Single>> {
        view_of(self.weights)
    }

    /// Per-instance base margin.
    pub closed spec fn margin_list(&self) -> Option<Seq<Single>> {
        view_of(self.base_margin)
    }

    /// Ranking groups.
    pub closed spec fn group_info(&self) -> Option<GroupInfo> {
        self.group
    }

    /// The type of each feature.
    pub closed spec fn types(&self) -> Seq<FeatureType> {
        self.feature_types@
    }

    /// The name of each feature.
    pub closed spec fn names(&self) -> Option<Seq<String>> {
        view_of(self.feature_names)
    }

    /// Whether the entries that row `r` lists are all there to be read.
    pub closed spec fn readable_row(&self, r: int) -> bool {
        match self.storage {
            Storage::Dense(data) => true,
            Storage::Csr { indptr, indices, values } => csr_row_in_bounds(
                indptr@,
                values.len() as int,
                r,
            ),
        }
    }

    /// Whether every row can be read.
    pub open spec fn readable(&self) -> bool {
        forall|r: int| 0 <= r < self.height() ==> #[trigger] self.readable_row(r)
    }

    /// The shapes of all parts fit together.
    pub closed spec fn well_formed(&self) -> bool {
        &&& self.n_rows > 0
        &&& self.n_cols > 0
        &&& self.feature_types.len() == self.n_cols
        &&& (self.labels matches Some(l) ==> l.len() == self.n_rows)
        &&& (self.weights matches Some(w) ==> w.len() == self.n_rows)
        &&& (self.feature_names matches Some(names) ==> names.len() == self.n_cols)
        &&& (self.group matches Some(g) ==> g.well_formed() && g.group_ptr@.last() == self.n_rows)
        &&& match self.storage {
            Storage::Dense(data) => data.len() == self.n_rows * self.n_cols,
            Storage::Csr { indptr, indices, values } => {
                &&& indptr.len() == self.n_rows + 1
                &&& indices.len() == values.len()
                &&& forall|k: int| 0 <= k < indices.len() ==> #[trigger] indices[k] < self.n_cols
            },
        }
    }

    /// No metadata beyond the default feature types is attached.
    pub open spec fn bare(&self) -> bool {
        &&& self.label_list() is None
        &&& self.weight_list() is None
        &&& self.margin_list() is None
        &&& self.group_info() is None
        &&& self.names() is None
        &&& self.types() == Seq::new(self.width() as nat, |c: int| FeatureType::Numerical)
    }

    /// Both matrices hold the same cells.
    pub open spec fn same_cells(&self, other: &DMatrix) -> bool {
        &&& self.height() == other.height()
        &&& self.width() == other.width()
        &&& self.sentinel() == other.sentinel()
        &&& forall|r: int| #[trigger] self.stored(r) == other.stored(r)
        &&& forall|r: int| #[trigger] self.readable_row(r) == other.readable_row(r)
    }

    /// What every well-formed matrix has.
    pub proof fn shape(&self)
        requires
            self.well_formed(),
        ensures
            0 < self.height() <= usize::MAX,
            0 < self.width() <= usize::MAX,
            self.types().len() == self.width(),
            self.label_list() matches Some(l) ==> l.len() == self.height(),
            self.weight_list() matches Some(w) ==> w.len() == self.height(),
            self.names() matches Some(names) ==> names.len() == self.width(),
            self.group_info() matches Some(g) ==> g.well_formed() && g.group_ptr@.last()
                == self.height(),
    {
    }

    /// Every column that a row lists exists.
    pub proof fn listed_columns_exist(&self, r: int, k: int)
        requires
            self.well_formed(),
            0 <= r < self.height(),
            self.readable_row(r),
            0 <= k < self.stored(r).len(),
        ensures
            self.stored(r)[k].index < self.width(),
            self.stored(r).len() <= usize::MAX,
    {
        assert(self.stored(r)[k].index < self.width()) by {
            if self.storage is Dense && k <= u32::MAX {
                assert(k as u32 == k);
            }
        }
    }

    /// A dense matrix from a row-major slice; the missing sentinel is "not a
    /// number".
    pub fn from_dense(data: &[Single], n_rows: usize, n_cols: usize) -> (r: Result<
        Self,
        SequoiaError,
    >)
        requires
            n_rows * n_cols <= usize::MAX,
        ensures
            n_rows == 0 || n_cols == 0 ==> r == Err::<DMatrix, SequoiaError>(
                SequoiaError::EmptyDataset("from_dense: zero rows or columns"),
            ),
            n_rows > 0 && n_cols > 0 && data.len() != n_rows * n_cols ==> r == Err::<
                DMatrix,
                SequoiaError,
            >(
                SequoiaError::DimensionMismatch {
                    what: "dense data length",
                    expected: (n_rows * n_cols) as usize,
                    got: data.len(),
                },
            ),
            n_rows > 0 && n_cols > 0 && data.len() == n_rows * n_cols ==> r is Ok,
            r matches Ok(m) ==> {
                &&& m.well_formed()
                &&& m.readable()
                &&& m.dense()
                &&& m.bare()
                &&& m.height() == n_rows
                &&& m.width() == n_cols
                &&& m.sentinel().nan()
                &&& forall|i: int|
                    0 <= i < n_rows ==> #[trigger] m.stored(i) == dense_row(data@, n_cols as int, i)
            },
    {
        Self::from_dense_with_missing(data, n_rows, n_cols, Single::not_a_number())
    }

    /// A dense matrix with an explicit missing sentinel.
    pub fn from_dense_with_missing(
        data: &[Single],
        n_rows: usize,
        n_cols: usize,
        missing: Single,
    ) -> (r: Result<Self, SequoiaError>)
        requires
            n_rows * n_cols <= usize::MAX,
        ensures
            n_rows == 0 || n_cols == 0 ==> r == Err::<DMatrix, SequoiaError>(
                SequoiaError::EmptyDataset("from_dense: zero rows or columns"),
            ),
            n_rows > 0 && n_cols > 0 && data.len() != n_rows * n_cols ==> r == Err::<
                DMatrix,
                SequoiaError,
            >(
                SequoiaError::DimensionMismatch {
                    what: "dense data length",
                    expected: (n_rows * n_cols) as usize,
                    got: data.len(),
                },
            ),
            n_rows > 0 && n_cols > 0 && data.len() == n_rows * n_cols ==> r is Ok,
            r matches Ok(m) ==> {
                &&& m.well_formed()
                &&& m.readable()
                &&& m.dense()
                &&& m.bare()
                &&& m.height() == n_rows
                &&& m.width() == n_cols
                &&& m.sentinel() == missing
                &&& forall|i: int|
                    0 <= i < n_rows ==> #[trigger] m.stored(i) == dense_row(data@, n_cols as int, i)
            },
    {
        if n_rows == 0 || n_cols == 0 {
            return Err(SequoiaError::EmptyDataset("from_dense: zero rows or columns"));
        }
        if data.len() != n_rows * n_cols {
            return Err(
                SequoiaError::DimensionMismatch {
                    what: "dense data length",
                    expected: n_rows * n_cols,
                    got: data.len(),
                },
            );
        }
        let m = DMatrix {
            n_rows,
            n_cols,
            storage: Storage::Dense(vstd::slice::slice_to_vec(data)),
            missing,
            labels: None,
            weights: None,
            base_margin: None,
            group: None,
            feature_types: vec![FeatureType::Numerical; n_cols],
            feature_names: None,
        };
        assert(m.types() =~= Seq::new(m.width() as nat, |c: int| FeatureType::Numerical));
        Ok(m)
    }

    /// A matrix from compressed sparse rows: row `i` lists
    /// `indices[indptr[i]..indptr[i + 1]]`. Columns that a row does not list
    /// are missing.
    pub fn from_csr(
        indptr: Vec<usize>,
        indices: Vec<u32>,
        values: Vec<Single>,
        n_cols: usize,
    ) -> (r: Result<Self, SequoiaError>)
        ensures
            match csr_error(indptr@, indices@, values@, n_cols) {
                Some(e) => r == Err::<DMatrix, SequoiaError>(e),
                None => r is Ok,
            },
            r matches Ok(m) ==> {
                &&& m.well_formed()
                &&& !m.dense()
                &&& m.bare()
                &&& m.height() == indptr.len() - 1
                &&& m.width() == n_cols
                &&& m.sentinel().nan()
                &&& forall|i: int|
                    0 <= i < m.height() ==> #[trigger] m.stored(i) == csr_row(
                        indptr@,
                        indices@,
                        values@,
                        i,
                    )
                &&& forall|i: int|
                    0 <= i < m.height() ==> #[trigger] m.readable_row(i) == csr_row_in_bounds(
                        indptr@,
                        values.len() as int,
                        i,
                    )
            },
    {
        if indptr.len() == 0 {
            return Err(SequoiaError::EmptyDataset("from_csr: empty indptr"));
        }
        let n_rows: usize = indptr.len() - 1;
        if n_rows == 0 || n_cols == 0 {
            return Err(SequoiaError::EmptyDataset("from_csr: zero rows or columns"));
        }
        if indices.len() != values.len() {
            return Err(
                SequoiaError::DimensionMismatch {
                    what: "csr indices/values length",
                    expected: indices.len(),
                    got: values.len(),
                },
            );
        }
        if indptr[n_rows] != values.len() {
            return Err(
                SequoiaError::DimensionMismatch {
                    what: "csr indptr terminal",
                    expected: values.len(),
                    got: indptr[n_rows],
                },
            );
        }
        let mut top: u32 = 0;
        let mut k: usize = 0;
        while k < indices.len()
            invariant
                k <= indices.len(),
                top == greatest(indices@, k as int),
                forall|j: int| 0 <= j < k ==> #[trigger] indices[j] <= top,
            decreases indices.len() - k,
        {
            if indices[k] > top {
                top = indices[k];
            }
            k = k + 1;
        }
        if indices.len() > 0 && top as usize >= n_cols {
            return Err(
                SequoiaError::FeatureOutOfBounds { index: top as usize, num_features: n_cols },
            );
        }
        let m = DMatrix {
            n_rows,
            n_cols,
            storage: Storage::Csr { indptr, indices, values },
            missing: Single::not_a_number(),
            labels: None,
            weights: None,
            base_margin: None,
            group: None,
            feature_types: vec![FeatureType::Numerical; n_cols],
            feature_names: None,
        };
        assert(m.types() =~= Seq::new(m.width() as nat, |c: int| FeatureType::Numerical));
        Ok(m)
    }

    fn check_row_len(&self, what: &'static str, got: usize) -> (r: Result<(), SequoiaError>)
        ensures
            r == if got != self.height() {
                Err::<(), SequoiaError>(
                    SequoiaError::DimensionMismatch {
                        what,
                        expected: self.height() as usize,
                        got,
                    },
                )
            } else {
                Ok(())
            },
    {
        if got != self.n_rows {
            return Err(SequoiaError::DimensionMismatch { what, expected: self.n_rows, got });
        }
        Ok(())
    }

    /// Attach labels, one per row.
    pub fn with_labels(self, labels: &[Single]) -> (r: Result<Self, SequoiaError>)
        requires
            self.well_formed(),
        ensures
            labels.len() != self.height() ==> r == Err::<DMatrix, SequoiaError>(
                SequoiaError::DimensionMismatch {
                    what: "labels",
                    expected: self.height() as usize,
                    got: labels.len(),
                },
            ),
            labels.len() == self.height() ==> r is Ok,
            r matches Ok(m) ==> {
                &&& m.well_formed()
                &&& m.same_cells(&self)
                &&& m.dense() == self.dense()
                &&& m.label_list() == Some(labels@)
                &&& m.weight_list() == self.weight_list()
                &&& m.margin_list() == self.margin_list()
                &&& m.group_info() == self.group_info()
                &&& m.types() == self.types()
                &&& m.names() == self.names()
            },
    {
        match self.check_row_len("labels", labels.len()) {
            Err(e) => Err(e),
            Ok(_) => {
                let mut out = self;
                out.labels = Some(vstd::slice::slice_to_vec(labels));
                Ok(out)
            },
        }
    }

    /// Attach weights, one per row.
    pub fn with_weights(self, weights: &[Single]) -> (r: Result<Self, SequoiaError>)
        requires
            self.well_formed(),
        ensures
            weights.len() != self.height() ==> r == Err::<DMatrix, SequoiaError>(
                SequoiaError::DimensionMismatch {
                    what: "weights",
                    expected: self.height() as usize,
                    got: weights.len(),
                },
            ),
            weights.len() == self.height() ==> r is Ok,
            r matches Ok(m) ==> {
                &&& m.well_formed()
                &&& m.same_cells(&self)
                &&& m.dense() == self.dense()
                &&& m.label_list() == self.label_list()
                &&& m.weight_list() == Some(weights@)
                &&& m.margin_list() == self.margin_list()
                &&& m.group_info() == self.group_info()
                &&& m.types() == self.types()
                &&& m.names() == self.names()
            },
    {
        match self.check_row_len("weights", weights.len()) {
            Err(e) => Err(e),
            Ok(_) => {
                let mut out = self;
                out.weights = Some(vstd::slice::slice_to_vec(weights));
                Ok(out)
            },
        }
    }

    /// Attach a base margin, of any length.
    pub fn with_base_margin(self, base_margin: &[Single]) -> (r: Result<Self, SequoiaError>)
        requires
            self.well_formed(),
        ensures
            r is Ok,
            r matches Ok(m) ==> {
                &&& m.well_formed()
                &&& m.same_cells(&self)
                &&& m.dense() == self.dense()
                &&& m.label_list() == self.label_list()
                &&& m.weight_list() == self.weight_list()
                &&& m.margin_list() == Some(base_margin@)
                &&& m.group_info() == self.group_info()
                &&& m.types() == self.types()
                &&& m.names() == self.names()
            },
    {
        let mut out = self;
        out.base_margin = Some(vstd::slice::slice_to_vec(base_margin));
        Ok(out)
    }

    /// Attach ranking groups, whose sizes sum to the number of rows.
    pub fn with_group_sizes(self, sizes: &[usize]) -> (r: Result<Self, SequoiaError>)
        requires
            self.well_formed(),
            sum_of(sizes@, sizes.len() as int) <= usize::MAX,
        ensures
            sum_of(sizes@, sizes.len() as int) != self.height() ==> r == Err::<
                DMatrix,
                SequoiaError,
            >(
                SequoiaError::DimensionMismatch {
                    what: "group sizes sum",
                    expected: self.height() as usize,
                    got: sum_of(sizes@, sizes.len() as int) as usize,
                },
            ),
            sum_of(sizes@, sizes.len() as int) == self.height() ==> r is Ok,
            r matches Ok(m) ==> {
                &&& m.well_formed()
                &&& m.same_cells(&self)
                &&& m.dense() == self.dense()
                &&& m.label_list() == self.label_list()
                &&& m.weight_list() == self.weight_list()
                &&& m.margin_list() == self.margin_list()
                &&& m.types() == self.types()
                &&& m.names() == self.names()
                &&& m.group_info() matches Some(g)
                &&& g.well_formed()
                &&& g.group_ptr.len() == sizes.len() + 1
                &&& forall|k: int|
                    0 <= k <= sizes.len() ==> #[trigger] g.group_ptr[k] == sum_of(sizes@, k)
            },
    {
        let g = GroupInfo::from_sizes(sizes);
        if g.num_rows() != self.n_rows {
            return Err(
                SequoiaError::DimensionMismatch {
                    what: "group sizes sum",
                    expected: self.n_rows,
                    got: g.num_rows(),
                },
            );
        }
        let mut out = self;
        out.group = Some(g);
        Ok(out)
    }

    /// Set the feature types, one per column.
    pub fn with_feature_types(self, types: &[FeatureType]) -> (r: Result<Self, SequoiaError>)
        requires
            self.well_formed(),
        ensures
            types.len() != self.width() ==> r == Err::<DMatrix, SequoiaError>(
                SequoiaError::DimensionMismatch {
                    what: "feature_types length",
                    expected: self.width() as usize,
                    got: types.len(),
                },
            ),
            types.len() == self.width() ==> r is Ok,
            r matches Ok(m) ==> {
                &&& m.well_formed()
                &&& m.same_cells(&self)
                &&& m.dense() == self.dense()
                &&& m.label_list() == self.label_list()
                &&& m.weight_list() == self.weight_list()
                &&& m.margin_list() == self.margin_list()
                &&& m.group_info() == self.group_info()
                &&& m.types() == types@
                &&& m.names() == self.names()
            },
    {
        if types.len() != self.n_cols {
            return Err(
                SequoiaError::DimensionMismatch {
                    what: "feature_types length",
                    expected: self.n_cols,
                    got: types.len(),
                },
            );
        }
        let mut out = self;
        out.feature_types = vstd::slice::slice_to_vec(types);
        Ok(out)
    }

    /// Set the feature names, one per column.
    pub fn with_feature_names(self, names: &[String]) -> (r: Result<Self, SequoiaError>)
        requires
            self.well_formed(),
        ensures
            names.len() != self.width() ==> r == Err::<DMatrix, SequoiaError>(
                SequoiaError::DimensionMismatch {
                    what: "feature_names length",
                    expected: self.width() as usize,
                    got: names.len(),
                },
            ),
            names.len() == self.width() ==> r is Ok,
            r matches Ok(m) ==> {
                &&& m.well_formed()
                &&& m.same_cells(&self)
                &&& m.dense() == self.dense()
                &&& m.label_list() == self.label_list()
                &&& m.weight_list() == self.weight_list()
                &&& m.margin_list() == self.margin_list()
                &&& m.group_info() == self.group_info()
                &&& m.types() == self.types()
                &&& m.names() == Some(names@)
            },
    {
        if names.len() != self.n_cols {
            return Err(
                SequoiaError::DimensionMismatch {
                    what: "feature_names length",
                    expected: self.n_cols,
                    got: names.len(),
                },
            );
        }
        let mut copy: Vec<String> = Vec::new();
        copy.extend_from_slice(names);
        assert(copy@ =~= names@);
        let mut out = self;
        out.feature_names = Some(copy);
        Ok(out)
    }

    /// Number of rows (instances).
    pub fn n_rows(&self) -> (r: usize)
        ensures
            r == self.height(),
    {
        self.n_rows
    }

    /// Number of feature columns.
    pub fn n_cols(&self) -> (r: usize)
        ensures
            r == self.width(),
    {
        self.n_cols
    }

    /// The missing sentinel.
    pub fn missing(&self) -> (r: Single)
        ensures
            r == self.sentinel(),
    {
        self.missing
    }

    /// Labels, if attached.
    pub fn labels(&self) -> (r: Option<&[Single]>)
        ensures
            slice_view(r) == self.label_list(),
    {
        match &self.labels {
            Some(v) => Some(v.as_slice()),
            None => None,
        }
    }

    /// Weights, if attached.
    pub fn weights(&self) -> (r: Option<&[Single]>)
        ensures
            slice_view(r) == self.weight_list(),
    {
        match &self.weights {
            Some(v) => Some(v.as_slice()),
            None => None,
        }
    }

    /// Base margin, if attached.
    pub fn base_margin(&self) -> (r: Option<&[Single]>)
        ensures
            slice_view(r) == self.margin_list(),
    {
        match &self.base_margin {
            Some(v) => Some(v.as_slice()),
            None => None,
        }
    }

    /// Ranking groups, if attached.
    pub fn group(&self) -> (r: Option<&GroupInfo>)
        ensures
            r == (match self.group_info() {
                Some(g) => Some(&g),
                None => None,
            }),
    {
        self.group.as_ref()
    }

    /// Feature types, one per column.
    pub fn feature_types(&self) -> (r: &[FeatureType])
        ensures
            r@ == self.types(),
    {
        self.feature_types.as_slice()
    }

    /// Feature names, if attached.
    pub fn feature_names(&self) -> (r: Option<&[String]>)
        ensures
            slice_view(r) == self.names(),
    {
        match &self.feature_names {
            Some(v) => Some(v.as_slice()),
            None => None,
        }
    }

    /// The value in a cell, or `None` when it is missing.
    pub fn get(&self, row: usize, col: usize) -> (r: Option<Single>)
        requires
            self.well_formed(),
            row < self.height(),
            col < self.width(),
            self.readable_row(row as int),
        ensures
            r == self.held(row as int, col as int),
    {
        let ghost stored = self.stored(row as int);
        match &self.storage {
            Storage::Dense(data) => {
                proof {
                    cell_in_bounds(
                        row as int,
                        col as int,
                        self.n_rows as int,
                        self.n_cols as int,
                    );
                    if col <= u32::MAX {
                        dense_first(data@, self.n_cols as int, row as int, col as int, 0);
                    }
                }
                let v = data[row * self.n_cols + col];
                if is_missing(v, self.missing) {
                    None
                } else {
                    Some(v)
                }
            },
            Storage::Csr { indptr, indices, values } => {
                let start: usize = indptr[row];
                let end: usize = indptr[row + 1];
                let mut k: usize = start;
                while k < end
                    invariant
                        start <= k,
                        start >= end || k <= end,
                        start >= end || end <= values.len(),
                        indices.len() == values.len(),
                        stored == csr_row(indptr@, indices@, values@, row as int),
                        start == indptr[row as int],
                        end == indptr[row + 1],
                        start < end ==> first_at(stored, col as int, 0) == first_at(
                            stored,
                            col as int,
                            k - start,
                        ),
                        stored == self.stored(row as int),
                        self.missing == self.sentinel(),
                    decreases end - k,
                {
                    assert(stored[k - start].index == indices[k as int]);
                    if indices[k] as usize == col {
                        let v = values[k];
                        return if is_missing(v, self.missing) { None } else { Some(v) };
                    }
                    k = k + 1;
                }
                None
            },
        }
    }

    /// Replace `out` by the entries of a row that are not missing.
    pub fn row_into(&self, row: usize, out: &mut Vec<Entry>)
        requires
            self.well_formed(),
            row < self.height(),
            self.readable_row(row as int),
        ensures
            final(out)@ == self.entries(row as int),
    {
        let ghost stored = self.stored(row as int);
        let ghost keep = |e: Entry| !missing_under(e.value, self.sentinel());
        out.clear();
        match &self.storage {
            Storage::Dense(data) => {
                let mut c: usize = 0;
                assert(out@ =~= stored.take(0).filter(keep)) by {
                    reveal(Seq::filter);
                }
                proof {
                    cell_in_bounds(row as int, 0, self.n_rows as int, self.n_cols as int);
                }
                let base: usize = row * self.n_cols;
                while c < self.n_cols
                    invariant
                        self.well_formed(),
                        row < self.n_rows,
                        base == row * self.n_cols,
                        self.storage == Storage::Dense(*data),
                        c <= self.n_cols,
                        stored == dense_row(data@, self.n_cols as int, row as int),
                        keep == (|e: Entry| !missing_under(e.value, self.sentinel())),
                        out@ == stored.take(c as int).filter(keep),
                    decreases self.n_cols - c,
                {
                    proof {
                        cell_in_bounds(
                            row as int,
                            c as int,
                            self.n_rows as int,
                            self.n_cols as int,
                        );
                        filter_step(stored, c as int, keep);
                    }
                    let v = data[base + c];
                    assert(stored[c as int] == Entry { index: c as u32, value: v });
                    if !is_missing(v, self.missing) {
                        out.push(Entry { index: c as u32, value: v });
                    }
                    c = c + 1;
                }
                assert(stored.take(c as int) =~= stored);
            },
            Storage::Csr { indptr, indices, values } => {
                let start: usize = indptr[row];
                let end: usize = indptr[row + 1];
                let mut k: usize = start;
                assert(out@ =~= stored.take(0).filter(keep)) by {
                    reveal(Seq::filter);
                }
                while k < end
                    invariant
                        start <= k,
                        start >= end ==> k == start && stored.len() == 0,
                        start < end ==> k <= end && end <= values.len() && stored.len() == end
                            - start,
                        indices.len() == values.len(),
                        stored == csr_row(indptr@, indices@, values@, row as int),
                        start == indptr[row as int],
                        end == indptr[row + 1],
                        keep == (|e: Entry| !missing_under(e.value, self.sentinel())),
                        out@ == stored.take(k - start).filter(keep),
                        self.missing == self.sentinel(),
                    decreases end - k,
                {
                    proof {
                        filter_step(stored, k - start, keep);
                    }
                    let v = values[k];
                    assert(stored[k - start] == Entry { index: indices[k as int], value: v });
                    if !is_missing(v, self.missing) {
                        out.push(Entry { index: indices[k], value: v });
                    }
                    k = k + 1;
                }
                assert(stored.take(k - start) =~= stored);
            },
        }
    }
}

proof fn dense_first(data: Seq<Single>, n_cols: int, r: int, c: int, k: int)
    requires
        0 <= k <= c < n_cols,
        c <= u32::MAX,
    ensures
        first_at(dense_row(data, n_cols, r), c, k) == c,
    decreases c - k,
{
    let row = dense_row(data, n_cols, r);
    assert(row[k].index == k);
    if k < c {
        dense_first(data, n_cols, r, c, k + 1);
    }
}

/// A compressed-sparse-column view of a [`DMatrix`]: each column lists its
/// `(row, value)` pairs in row order, the missing ones left out.
#[derive(Clone, Debug)]
pub struct CscView {
    n_rows: usize,
    n_cols: usize,
    rows: Vec<Vec<u32>>,
    vals: Vec<Vec<Single>>,
}

/// The pairs of two lists of the same length.
pub open spec fn paired(rows: Seq<u32>, vals: Seq<Single>) -> Seq<(u32, Single)> {
    Seq::new(rows.len(), |i: int| (rows[i], vals[i]))
}

impl CscView {
    /// Number of rows of the originating matrix.
    pub closed spec fn height(&self) -> int {
        self.n_rows as int
    }

    /// Number of columns.
    pub closed spec fn width(&self) -> int {
        self.n_cols as int
    }

    /// The `(row, value)` pairs of column `c`.
    pub closed spec fn pairs(&self, c: int) -> Seq<(u32, Single)> {
        paired(self.rows[c]@, self.vals[c]@)
    }

    /// Every column holds as many rows as values.
    pub closed spec fn well_formed(&self) -> bool {
        &&& self.rows.len() == self.n_cols
        &&& self.vals.len() == self.n_cols
        &&& forall|c: int|
            0 <= c < self.n_cols ==> #[trigger] self.rows[c].len() == self.vals[c].len()
    }

    /// Number of rows in the originating matrix.
    pub fn n_rows(&self) -> (r: usize)
        ensures
            r == self.height(),
    {
        self.n_rows
    }

    /// Number of columns.
    pub fn n_cols(&self) -> (r: usize)
        ensures
            r == self.width(),
    {
        self.n_cols
    }

    /// The rows and the values of a column, side by side.
    pub fn column(&self, col: usize) -> (r: (&[u32], &[Single]))
        requires
            self.well_formed(),
            col < self.width(),
        ensures
            r.0.len() == r.1.len(),
            self.pairs(col as int) == paired(r.0@, r.1@),
    {
        assert(self.rows[col as int].len() == self.vals[col as int].len());
        (self.rows[col].as_slice(), self.vals[col].as_slice())
    }

    /// Number of entries in a column.
    pub fn col_len(&self, col: usize) -> (r: usize)
        requires
            self.well_formed(),
            col < self.width(),
        ensures
            r == self.pairs(col as int).len(),
    {
        self.rows[col].len()
    }
}

proof fn picks_step(entries: Seq<Entry>, c: int, row: int, k: int)
    requires
        0 <= k < entries.len(),
    ensures
        picks(entries.take(k + 1), c, row) == if entries[k].index == c {
            picks(entries.take(k), c, row).push((row as u32, entries[k].value))
        } else {
            picks(entries.take(k), c, row)
        },
{
    let pred = |e: Entry| e.index == c;
    filter_step(entries, k, pred);
    assert(picks(entries.take(k + 1), c, row) =~= if entries[k].index == c {
        picks(entries.take(k), c, row).push((row as u32, entries[k].value))
    } else {
        picks(entries.take(k), c, row)
    });
}

proof fn picks_none(entries: Seq<Entry>, c: int, row: int)
    ensures
        picks(entries.take(0), c, row) == Seq::<(u32, Single)>::empty(),
{
    reveal(Seq::filter);
    assert(picks(entries.take(0), c, row) =~= Seq::<(u32, Single)>::empty());
}

impl DMatrix {
    /// Every column that a row holds an entry for exists.
    pub proof fn entry_columns_exist(&self, r: int, k: int)
        requires
            self.well_formed(),
            0 <= r < self.height(),
            self.readable_row(r),
            0 <= k < self.entries(r).len(),
        ensures
            self.entries(r)[k].index < self.width(),
            !missing_under(self.entries(r)[k].value, self.sentinel()),
    {
        let keep = |e: Entry| !missing_under(e.value, self.sentinel());
        let stored = self.stored(r);
        let e = self.entries(r)[k];
        stored.lemma_filter_pred(keep, k);
        assert(stored.filter(keep).contains(e));
        stored.lemma_filter_contains_rev(keep, e);
        let j = choose|j: int| 0 <= j < stored.len() && stored[j] == e;
        self.listed_columns_exist(r, j);
    }

    /// The matrix by columns, for column-oriented split finding.
    pub fn to_csc(&self) -> (r: CscView)
        requires
            self.well_formed(),
            self.readable(),
        ensures
            r.well_formed(),
            r.height() == self.height(),
            r.width() == self.width(),
            forall|c: int|
                0 <= c < self.width() ==> #[trigger] r.pairs(c) == self.column_prefix(
                    c,
                    self.height(),
                ),
    {
        let n_cols: usize = self.n_cols;
        let mut rows: Vec<Vec<u32>> = Vec::new();
        let mut vals: Vec<Vec<Single>> = Vec::new();
        let mut c: usize = 0;
        while c < n_cols
            invariant
                c <= n_cols,
                rows.len() == c,
                vals.len() == c,
                forall|d: int|
                    0 <= d < c ==> #[trigger] rows[d]@.len() == 0 && vals[d]@.len() == 0,
            decreases n_cols - c,
        {
            rows.push(Vec::new());
            vals.push(Vec::new());
            c = c + 1;
        }
        let mut buf: Vec<Entry> = Vec::new();
        let mut r: usize = 0;
        assert forall|d: int| 0 <= d < n_cols implies paired(#[trigger] rows[d]@, vals[d]@)
            == self.column_prefix(d, 0) by {
            assert(paired(rows[d]@, vals[d]@) =~= self.column_prefix(d, 0));
        }
        while r < self.n_rows
            invariant
                self.well_formed(),
                self.readable(),
                n_cols == self.n_cols,
                r <= self.n_rows,
                rows.len() == n_cols,
                vals.len() == n_cols,
                forall|d: int|
                    0 <= d < n_cols ==> #[trigger] rows[d]@.len() == vals[d]@.len() && paired(
                        rows[d]@,
                        vals[d]@,
                    ) == self.column_prefix(d, r as int),
            decreases self.n_rows - r,
        {
            assert(self.readable_row(r as int));
            self.row_into(r, &mut buf);
            let mut k: usize = 0;
            proof {
                assert forall|d: int| 0 <= d < n_cols implies paired(
                    #[trigger] rows[d]@,
                    vals[d]@,
                ) == self.column_prefix(d, r as int) + picks(buf@.take(0), d, r as int) by {
                    picks_none(buf@, d, r as int);
                    assert(self.column_prefix(d, r as int) + picks(buf@.take(0), d, r as int)
                        =~= self.column_prefix(d, r as int));
                }
            }
            while k < buf.len()
                invariant
                    self.well_formed(),
                    self.readable(),
                    n_cols == self.n_cols,
                    r < self.n_rows,
                    k <= buf.len(),
                    buf@ == self.entries(r as int),
                    rows.len() == n_cols,
                    vals.len() == n_cols,
                    forall|d: int|
                        0 <= d < n_cols ==> #[trigger] rows[d]@.len() == vals[d]@.len() && paired(
                            rows[d]@,
                            vals[d]@,
                        ) == self.column_prefix(d, r as int) + picks(
                            buf@.take(k as int),
                            d,
                            r as int,
                        ),
                decreases buf.len() - k,
            {
                let e = buf[k];
                proof {
                    assert(self.readable_row(r as int));
                    self.entry_columns_exist(r as int, k as int);
                }
                let ghost was_rows = rows@;
                let ghost was_vals = vals@;
                let col: usize = e.index as usize;
                rows[col].push(r as u32);
                vals[col].push(e.value);
                proof {
                    assert forall|d: int| 0 <= d < n_cols implies #[trigger] rows[d]@.len()
                        == vals[d]@.len() && paired(rows[d]@, vals[d]@) == self.column_prefix(
                        d,
                        r as int,
                    ) + picks(buf@.take(k + 1), d, r as int) by {
                        picks_step(buf@, d, r as int, k as int);
                        assert(was_rows[d]@.len() == was_vals[d]@.len());
                        if d == col {
                            assert(rows[d]@ == was_rows[d]@.push(r as u32));
                            assert(vals[d]@ == was_vals[d]@.push(e.value));
                            assert(paired(rows[d]@, vals[d]@) =~= paired(
                                was_rows[d]@,
                                was_vals[d]@,
                            ).push(((r as int) as u32, e.value)));
                        } else {
                            assert(rows[d] == was_rows[d]);
                            assert(vals[d] == was_vals[d]);
                        }
                        assert(paired(rows[d]@, vals[d]@) =~= self.column_prefix(d, r as int)
                            + picks(buf@.take(k + 1), d, r as int));
                    }
                }
                k = k + 1;
            }
            proof {
                assert(buf@.take(k as int) =~= buf@);
            }
            r = r + 1;
        }
        let out = CscView { n_rows: self.n_rows, n_cols, rows, vals };
        assert forall|d: int| 0 <= d < self.width() implies #[trigger] out.pairs(d)
            == self.column_prefix(d, self.height()) by {
            assert(rows[d]@.len() == vals[d]@.len());
        }
        assert forall|d: int| 0 <= d < n_cols implies #[trigger] out.rows[d].len()
            == out.vals[d].len() by {
            assert(rows[d]@.len() == vals[d]@.len());
        }
        out
    }

    /// The matrix of the given rows, in the given order, with labels, weights,
    /// base margin and feature metadata. Ranking groups are not carried over.
    pub fn select_rows(&self, rows: &[usize]) -> (r: Result<Self, SequoiaError>)
        requires
            self.well_formed(),
            forall|i: int| 0 <= i < rows.len() ==> #[trigger] rows[i] < self.height(),
            forall|i: int| 0 <= i < rows.len() ==> self.readable_row(#[trigger] rows[i] as int),
            self.margin_list() matches Some(bm) ==> forall|i: int|
                0 <= i < rows.len() ==> #[trigger] rows[i] < bm.len(),
            rows.len() < usize::MAX,
            listed_in(self, rows@, rows.len() as int) <= usize::MAX,
        ensures
            rows.len() == 0 ==> r == Err::<DMatrix, SequoiaError>(
                SequoiaError::EmptyDataset("from_csr: zero rows or columns"),
            ),
            rows.len() > 0 ==> r is Ok,
            r matches Ok(m) ==> {
                &&& m.well_formed()
                &&& m.readable()
                &&& m.height() == rows.len()
                &&& m.width() == self.width()
                &&& m.sentinel().nan()
                &&& forall|i: int|
                    0 <= i < rows.len() ==> #[trigger] m.stored(i) == self.entries(rows[i] as int)
                &&& m.label_list() == match self.label_list() {
                    Some(l) => Some(gathered(l, rows@)),
                    None => None,
                }
                &&& m.weight_list() == match self.weight_list() {
                    Some(w) => Some(gathered(w, rows@)),
                    None => None,
                }
                &&& m.margin_list() == match self.margin_list() {
                    Some(b) => Some(gathered(b, rows@)),
                    None => None,
                }
                &&& m.group_info() is None
                &&& m.types() == self.types()
                &&& m.names() == self.names()
            },
    {
        let mut indptr: Vec<usize> = Vec::new();
        indptr.push(0);
        let mut indices: Vec<u32> = Vec::new();
        let mut values: Vec<Single> = Vec::new();
        let mut buf: Vec<Entry> = Vec::new();
        let mut i: usize = 0;
        while i < rows.len()
            invariant
                self.well_formed(),
                forall|j: int| 0 <= j < rows.len() ==> #[trigger] rows[j] < self.height(),
                forall|j: int| 0 <= j < rows.len() ==> self.readable_row(#[trigger] rows[j] as int),
                listed_in(self, rows@, rows.len() as int) <= usize::MAX,
                i <= rows.len(),
                indptr.len() == i + 1,
                indptr[0] == 0,
                indices.len() == values.len(),
                values.len() == indptr[i as int],
                values.len() == listed_in(self, rows@, i as int),
                forall|j: int, k: int|
                    0 <= j <= k <= i ==> #[trigger] indptr[j] <= #[trigger] indptr[k],
                forall|j: int| 0 <= j < indices.len() ==> #[trigger] indices[j] < self.n_cols,
                forall|j: int|
                    0 <= j < i ==> #[trigger] csr_row(indptr@, indices@, values@, j)
                        == self.entries(rows[j] as int),
            decreases rows.len() - i,
        {
            let row: usize = rows[i];
            self.row_into(row, &mut buf);
            let ghost ptr0 = indptr@;
            let ghost ind0 = indices@;
            let ghost val0 = values@;
            proof {
                listed_in_grows(self, rows@, i + 1, rows.len() as int);
            }
            let mut k: usize = 0;
            while k < buf.len()
                invariant
                    self.well_formed(),
                    row < self.height(),
                    self.readable_row(row as int),
                    k <= buf.len(),
                    buf@ == self.entries(row as int),
                    indices.len() == values.len(),
                    values.len() == val0.len() + k,
                    val0.len() == ind0.len(),
                    forall|j: int| 0 <= j < val0.len() ==> #[trigger] values[j] == val0[j],
                    forall|j: int| 0 <= j < val0.len() ==> #[trigger] indices[j] == ind0[j],
                    forall|j: int|
                        0 <= j < k ==> indices[val0.len() + j] == (#[trigger] buf[j]).index
                            && values[val0.len() + j] == buf[j].value,
                    forall|j: int| 0 <= j < indices.len() ==> #[trigger] indices[j] < self.n_cols,
                decreases buf.len() - k,
            {
                proof {
                    self.entry_columns_exist(row as int, k as int);
                }
                indices.push(buf[k].index);
                values.push(buf[k].value);
                k = k + 1;
            }
            indptr.push(values.len());
            proof {
                assert forall|j: int| 0 <= j < i + 1 implies #[trigger] csr_row(
                    indptr@,
                    indices@,
                    values@,
                    j,
                ) == self.entries(rows[j] as int) by {
                    assert(indptr[j] == ptr0[j]);
                    if j < i {
                        assert(csr_row(ptr0, ind0, val0, j) == self.entries(rows[j] as int));
                        assert(ptr0[j + 1] <= ptr0[i as int]);
                        assert(csr_row(indptr@, indices@, values@, j) =~= csr_row(
                            ptr0,
                            ind0,
                            val0,
                            j,
                        ));
                    } else {
                        assert(csr_row(indptr@, indices@, values@, j) =~= buf@);
                    }
                }
            }
            i = i + 1;
        }
        proof {
            greatest_is_an_element(indices@, indices.len() as int);
        }
        let ghost ptr = indptr@;
        let ghost len = values.len() as int;
        let built = DMatrix::from_csr(indptr, indices, values, self.n_cols);
        let mut out = match built {
            Ok(m) => m,
            Err(e) => {
                return Err(e);
            },
        };
        proof {
            assert forall|j: int| 0 <= j < out.height() implies #[trigger] out.readable_row(j) by {
                assert(ptr[j + 1] <= ptr[rows.len() as int]);
            }
        }
        let ghost cells = out;
        let types = self.feature_types.clone();
        assert(types@ =~= self.feature_types@);
        out.feature_types = types;
        out.feature_names = match &self.feature_names {
            Some(names) => {
                let copy = names.clone();
                assert(copy@ =~= names@);
                Some(copy)
            },
            None => None,
        };
        if let Some(l) = &self.labels {
            out.labels = Some(gather(l.as_slice(), rows));
        }
        if let Some(w) = &self.weights {
            out.weights = Some(gather(w.as_slice(), rows));
        }
        if let Some(b) = &self.base_margin {
            out.base_margin = Some(gather(b.as_slice(), rows));
        }
        proof {
            assert(out.same_cells(&cells));
            assert forall|j: int| 0 <= j < out.height() implies #[trigger] out.readable_row(j) by {
                assert(cells.readable_row(j));
            }
        }
        Ok(out)
    }
}

/// The number of entries in the first `n` of the given rows.
pub open spec fn listed_in(m: &DMatrix, rows: Seq<usize>, n: int) -> int
    decreases n,
{
    if n <= 0 {
        0
    } else {
        listed_in(m, rows, n - 1) + m.entries(rows[n - 1] as int).len()
    }
}

proof fn listed_in_grows(m: &DMatrix, rows: Seq<usize>, a: int, b: int)
    requires
        a <= b,
    ensures
        listed_in(m, rows, a) <= listed_in(m, rows, b),
    decreases b - a,
{
    if a < b {
        listed_in_grows(m, rows, a, b - 1);
    }
}

proof fn greatest_is_an_element(indices: Seq<u32>, n: int)
    requires
        0 <= n <= indices.len(),
    ensures
        greatest(indices, n) == 0 || exists|k: int|
            0 <= k < n && indices[k] == greatest(indices, n),
    decreases n,
{
    if n > 0 {
        greatest_is_an_element(indices, n - 1);
        if indices[n - 1] > greatest(indices, n - 1) {
            assert(indices[n - 1] == greatest(indices, n));
        } else if greatest(indices, n) != 0 {
            let k = choose|k: int| 0 <= k < n - 1 && indices[k] == greatest(indices, n - 1);
            assert(indices[k] == greatest(indices, n));
        }
    }
}

fn gather(values: &[Single], rows: &[usize]) -> (r: Vec<Single>)
    requires
        forall|i: int| 0 <= i < rows.len() ==> #[trigger] rows[i] < values.len(),
    ensures
        r@ == gathered(values@, rows@),
{
    let mut out: Vec<Single> = Vec::new();
    let mut i: usize = 0;
    while i < rows.len()
        invariant
            forall|j: int| 0 <= j < rows.len() ==> #[trigger] rows[j] < values.len(),
            i <= rows.len(),
            out.len() == i,
            forall|j: int| 0 <= j < i ==> #[trigger] out[j] == values[rows[j] as int],
        decreases rows.len() - i,
    {
        out.push(values[rows[i]]);
        i = i + 1;
    }
    assert(out@ =~= gathered(values@, rows@));
    out
}

} // verus!
