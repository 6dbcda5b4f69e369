//! Datasets in text formats: libsvm and CSV.

use vstd::prelude::*;
use vstd::string::{StrSliceExecFns, StringExecFns};

use crate::data::dmatrix::{csr_row, csr_row_in_bounds, dense_row, greatest, DMatrix, Entry};
use crate::error::SequoiaError;
use crate::layout::entry_place;
use crate::number::Single;
use crate::text::{
    chars_of, decimal, decimal_text, fields, fields_from, find_char, first_of, lines, lines_of,
    quote, quoted, read_whole, same_text, texts, trim, trimmed, whole_number, words, words_from,
    Precision, Reader,
};

verus! {

/// A parsed row: its label and its entries.
#[verifier::ext_equal]
pub struct SparseRow {
    /// The label.
    pub label: Single,
    /// The listed entries.
    pub entries: Seq<Entry>,
}

/// The entry that a word `index:value` stands for, or why it stands for none.
pub open spec fn entry_of<P: Fn(Precision, &str) -> Option<u64>>(
    word: Seq<char>,
    reader: &Reader<P>,
) -> Result<Entry, Seq<char>> {
    let at = first_of(word, ':', 0);
    let index = word.subrange(0, at);
    let value = word.subrange(at + 1, word.len() as int);
    if at >= word.len() {
        Err(quoted("expected idx:value, got `"@, word))
    } else {
        match whole_number(index, u32::MAX as int) {
            None => Err(quoted("invalid index `"@, index)),
            Some(i) => match reader.value(value) {
                None => Err(quoted("invalid value `"@, value)),
                Some(v) => Ok(Entry { index: i as u32, value: v }),
            },
        }
    }
}

/// The entries that the first `n` words behind the label stand for.
pub open spec fn entries_of<P: Fn(Precision, &str) -> Option<u64>>(
    parts: Seq<Seq<char>>,
    n: int,
    reader: &Reader<P>,
) -> Result<Seq<Entry>, Seq<char>>
    decreases n,
{
    if n <= 0 {
        Ok(Seq::empty())
    } else {
        match entries_of(parts, n - 1, reader) {
            Err(e) => Err(e),
            Ok(list) => match entry_of(parts[n], reader) {
                Err(e) => Err(e),
                Ok(entry) => Ok(list.push(entry)),
            },
        }
    }
}

/// The row that a line stands for: none if it is empty or a comment.
pub open spec fn libsvm_row<P: Fn(Precision, &str) -> Option<u64>>(
    line: Seq<char>,
    reader: &Reader<P>,
) -> Result<Option<SparseRow>, Seq<char>> {
    let text = trimmed(line);
    let parts = words_from(text, 0);
    if text.len() == 0 || text[0] == '#' {
        Ok(None)
    } else if parts.len() == 0 {
        Err("missing label"@)
    } else {
        match reader.value(parts[0]) {
            None => Err(quoted("invalid label `"@, parts[0])),
            Some(label) => match entries_of(parts, parts.len() - 1, reader) {
                Err(e) => Err(e),
                Ok(entries) => Ok(Some(SparseRow { label, entries })),
            },
        }
    }
}

/// The rows of the first `n` lines, or the number of the first line that is
/// not understood, and why.
pub open spec fn libsvm_rows<P: Fn(Precision, &str) -> Option<u64>>(
    list: Seq<Seq<char>>,
    n: int,
    reader: &Reader<P>,
) -> Result<Seq<SparseRow>, (int, Seq<char>)>
    decreases n,
{
    if n <= 0 {
        Ok(Seq::empty())
    } else {
        match libsvm_rows(list, n - 1, reader) {
            Err(e) => Err(e),
            Ok(rows) => match libsvm_row(list[n - 1], reader) {
                Err(e) => Err((n, e)),
                Ok(None) => Ok(rows),
                Ok(Some(row)) => Ok(rows.push(row)),
            },
        }
    }
}

/// The greatest column of the first `n` entries (and zero).
pub open spec fn top_column(entries: Seq<Entry>, n: int) -> int
    decreases n,
{
    if n <= 0 {
        0
    } else if entries[n - 1].index > top_column(entries, n - 1) {
        entries[n - 1].index as int
    } else {
        top_column(entries, n - 1)
    }
}

/// The greatest column that the first `n` rows list (and zero).
pub open spec fn top_of_rows(rows: Seq<SparseRow>, n: int) -> int
    decreases n,
{
    if n <= 0 {
        0
    } else {
        let before = top_of_rows(rows, n - 1);
        let here = top_column(rows[n - 1].entries, rows[n - 1].entries.len() as int);
        if here > before { here } else { before }
    }
}

/// Whether a dataset holds the given rows and labels, and nothing else.
pub open spec fn holds_rows(m: &DMatrix, rows: Seq<SparseRow>) -> bool {
    &&& m.well_formed()
    &&& m.readable()
    &&& m.height() == rows.len()
    &&& m.width() == top_of_rows(rows, rows.len() as int) + 1
    &&& m.sentinel().nan()
    &&& m.label_list() == Some(Seq::new(rows.len(), |i: int| rows[i].label))
    &&& m.weight_list() is None
    &&& m.margin_list() is None
    &&& m.group_info() is None
    &&& m.names() is None
    &&& forall|i: int| 0 <= i < rows.len() ==> #[trigger] m.stored(i) == rows[i].entries
}

/// Whether an error says that a line is not understood.
pub open spec fn is_parse_error(e: SequoiaError, line: int, reason: Seq<char>) -> bool {
    e matches SequoiaError::Parse { line: l, reason: r } && l == line && r@ == reason
}

proof fn rows_stay_refused<P: Fn(Precision, &str) -> Option<u64>>(
    list: Seq<Seq<char>>,
    a: int,
    b: int,
    reader: &Reader<P>,
)
    requires
        a <= b,
        libsvm_rows(list, a, reader) is Err,
    ensures
        libsvm_rows(list, b, reader) == libsvm_rows(list, a, reader),
    decreases b - a,
{
    if a < b {
        rows_stay_refused(list, a, b - 1, reader);
    }
}

proof fn entries_stay_refused<P: Fn(Precision, &str) -> Option<u64>>(
    parts: Seq<Seq<char>>,
    a: int,
    b: int,
    reader: &Reader<P>,
)
    requires
        a <= b,
        entries_of(parts, a, reader) is Err,
    ensures
        entries_of(parts, b, reader) == entries_of(parts, a, reader),
    decreases b - a,
{
    if a < b {
        entries_stay_refused(parts, a, b - 1, reader);
    }
}

proof fn greatest_is_bounded(indices: Seq<u32>, n: int, top: int)
    requires
        n <= indices.len(),
        0 <= top,
        forall|i: int| 0 <= i < indices.len() ==> (#[trigger] indices[i]) <= top,
    ensures
        greatest(indices, n) <= top,
    decreases n,
{
    if n > 0 {
        greatest_is_bounded(indices, n - 1, top);
    }
}

/// Read a word `index:value`.
fn read_entry<P: Fn(Precision, &str) -> Option<u64>>(word: &str, reader: &Reader<P>) -> (r: Result<
    Entry,
    String,
>)
    ensures
        match r {
            Ok(entry) => entry_of(word@, reader) == Ok::<Entry, Seq<char>>(entry),
            Err(e) => entry_of(word@, reader) == Err::<Entry, Seq<char>>(e@),
        },
{
    let chars = chars_of(word);
    let at: usize = find_char(chars.as_slice(), ':', 0);
    if at >= chars.len() {
        return Err(quote("expected idx:value, got `", word));
    }
    let index = word.substring_char(0, at);
    let value = word.substring_char(at + 1, chars.len());
    match read_whole(index, u32::MAX as u64) {
        None => Err(quote("invalid index `", index)),
        Some(i) => match reader.read_value(value) {
            None => Err(quote("invalid value `", value)),
            Some(v) => {
                proof {
                    assert(0 <= i <= u32::MAX);
                }
                Ok(Entry { index: i as u32, value: v })
            },
        },
    }
}

/// Read a line of libsvm text.
fn read_row<P: Fn(Precision, &str) -> Option<u64>>(line: &str, reader: &Reader<P>) -> (r: Result<
    Option<(Single, Vec<Entry>)>,
    String,
>)
    ensures
        match r {
            Ok(None) => libsvm_row(line@, reader) == Ok::<Option<SparseRow>, Seq<char>>(None),
            Ok(Some((label, entries))) => libsvm_row(line@, reader) == Ok::<
                Option<SparseRow>,
                Seq<char>,
            >(Some(SparseRow { label, entries: entries@ })),
            Err(e) => libsvm_row(line@, reader) == Err::<Option<SparseRow>, Seq<char>>(e@),
        },
{
    let text = trim(line);
    let chars = chars_of(text);
    if chars.len() == 0 || chars[0] == '#' {
        return Ok(None);
    }
    let parts = words(text);
    let ghost all = words_from(text@, 0);
    if parts.len() == 0 {
        return Err("missing label".to_owned());
    }
    assert(all[0] == parts[0]@);
    let label = match reader.read_value(parts[0]) {
        None => {
            return Err(quote("invalid label `", parts[0]));
        },
        Some(v) => v,
    };
    let mut entries: Vec<Entry> = Vec::new();
    let mut i: usize = 1;
    while i < parts.len()
        invariant
            texts(parts@) == all,
            1 <= i <= parts.len(),
            libsvm_row(line@, reader) == (match entries_of(all, all.len() - 1, reader) {
                Err(e) => Err::<Option<SparseRow>, Seq<char>>(e),
                Ok(list) => Ok(Some(SparseRow { label, entries: list })),
            }),
            entries_of(all, i - 1, reader) == Ok::<Seq<Entry>, Seq<char>>(entries@),
        decreases parts.len() - i,
    {
        assert(all[i as int] == parts[i as int]@);
        match read_entry(parts[i], reader) {
            Err(e) => {
                proof {
                    entries_stay_refused(all, i as int, all.len() - 1, reader);
                }
                return Err(e);
            },
            Ok(entry) => {
                entries.push(entry);
            },
        }
        i = i + 1;
    }
    Ok(Some((label, entries)))
}

/// Read a dataset in libsvm format: lines `label index:value ...` with feature
/// indices that start at zero. Empty lines and lines that start with `#` are
/// skipped.
pub fn read_libsvm<P: Fn(Precision, &str) -> Option<u64>>(
    text: &str,
    reader: &Reader<P>,
) -> (r: Result<DMatrix, SequoiaError>)
    ensures
        match libsvm_rows(lines_of(text@), lines_of(text@).len() as int, reader) {
            Err((line, reason)) => r matches Err(e) && is_parse_error(e, line, reason),
            Ok(rows) => if rows.len() == 0 {
                r == Err::<DMatrix, SequoiaError>(
                    SequoiaError::EmptyDataset("libsvm: no rows parsed"),
                )
            } else if top_of_rows(rows, rows.len() as int) >= usize::MAX {
                r == Err::<DMatrix, SequoiaError>(
                    SequoiaError::EmptyDataset("from_csr: zero rows or columns"),
                )
            } else {
                r matches Ok(m) && holds_rows(&m, rows)
            },
        },
{
    let list = lines(text);
    let ghost all = lines_of(text@);
    let mut indptr: Vec<usize> = Vec::new();
    indptr.push(0);
    let mut indices: Vec<u32> = Vec::new();
    let mut values: Vec<Single> = Vec::new();
    let mut labels: Vec<Single> = Vec::new();
    let mut top: u32 = 0;
    let ghost mut rows: Seq<SparseRow> = Seq::empty();
    let mut i: usize = 0;
    while i < list.len()
        invariant
            texts(list@) == all,
            all == lines_of(text@),
            i <= list.len(),
            libsvm_rows(all, i as int, reader) == Ok::<Seq<SparseRow>, (int, Seq<char>)>(rows),
            labels.len() == rows.len(),
            indptr.len() == rows.len() + 1,
            indices.len() == values.len(),
            indptr@.last() == values.len(),
            forall|k: int| 0 <= k < indptr.len() ==> (#[trigger] indptr[k]) <= values.len(),
            top == top_of_rows(rows, rows.len() as int),
            forall|k: int| 0 <= k < indices.len() ==> (#[trigger] indices[k]) <= top,
            forall|k: int| 0 <= k < rows.len() ==> (#[trigger] rows[k]).label == labels[k],
            forall|k: int|
                0 <= k < rows.len() ==> #[trigger] csr_row(indptr@, indices@, values@, k)
                    == rows[k].entries,
        decreases list.len() - i,
    {
        assert(all[i as int] == list[i as int]@);
        match read_row(list[i], reader) {
            Err(reason) => {
                proof {
                    rows_stay_refused(all, i + 1, all.len() as int, reader);
                }
                return Err(SequoiaError::Parse { line: i + 1, reason });
            },
            Ok(None) => {},
            Ok(Some((label, entries))) => {
                let ghost was_rows = rows;
                let ghost was_indices = indices@;
                let ghost was_values = values@;
                let ghost was_ptr = indptr@;
                let ghost row = SparseRow { label, entries: entries@ };
                let start: usize = values.len();
                let ghost start_top = top;
                let mut k: usize = 0;
                while k < entries.len()
                    invariant
                        k <= entries.len(),
                        indices.len() == values.len(),
                        values.len() == start + k,
                        was_values.len() == start,
                        was_indices.len() == start,
                        forall|q: int| 0 <= q < start ==> #[trigger] indices[q] == was_indices[q],
                        forall|q: int| 0 <= q < start ==> #[trigger] values[q] == was_values[q],
                        forall|q: int|
                            start <= q < start + k ==> #[trigger] indices[q]
                                == entries[q - start].index,
                        forall|q: int|
                            start <= q < start + k ==> #[trigger] values[q]
                                == entries[q - start].value,
                        top == (if top_column(entries@, k as int) > start_top {
                            top_column(entries@, k as int)
                        } else {
                            start_top as int
                        }),
                        forall|q: int| 0 <= q < indices.len() ==> (#[trigger] indices[q]) <= top,
                    decreases entries.len() - k,
                {
                    let e = entries[k];
                    indices.push(e.index);
                    values.push(e.value);
                    if e.index > top {
                        top = e.index;
                    }
                    k = k + 1;
                }
                labels.push(label);
                indptr.push(values.len());
                proof {
                    rows = was_rows.push(row);
                    let n = was_rows.len() as int;
                    top_of_rows_is_local(was_rows, rows, n);
                    assert forall|q: int| 0 <= q < rows.len() implies #[trigger] csr_row(
                        indptr@,
                        indices@,
                        values@,
                        q,
                    ) == rows[q].entries by {
                        assert(indptr[q] <= values.len());
                        if q < n {
                            assert(was_ptr[q + 1] <= was_values.len());
                            assert(indptr[q + 1] == was_ptr[q + 1]);
                            assert(csr_row(was_ptr, was_indices, was_values, q)
                                == was_rows[q].entries);
                            assert(csr_row(indptr@, indices@, values@, q) =~= csr_row(
                                was_ptr,
                                was_indices,
                                was_values,
                                q,
                            ));
                        } else {
                            assert(indptr[q] == start);
                            assert(csr_row(indptr@, indices@, values@, q) =~= entries@);
                        }
                    }
                    assert forall|q: int| 0 <= q < rows.len() implies (
                    #[trigger] rows[q]).label == labels[q] by {
                        if q < n {
                            assert(rows[q] == was_rows[q]);
                        }
                    }
                }
            },
        }
        i = i + 1;
    }
    if labels.len() == 0 {
        return Err(SequoiaError::EmptyDataset("libsvm: no rows parsed"));
    }
    let n_cols: usize = if top as usize == usize::MAX {
        0
    } else {
        top as usize + 1
    };
    proof {
        if top < usize::MAX {
            greatest_is_bounded(indices@, indices.len() as int, top as int);
        }
    }
    let ghost ptr = indptr@;
    let ghost idx = indices@;
    let ghost vals = values@;
    match DMatrix::from_csr(indptr, indices, values, n_cols) {
        Err(e) => Err(e),
        Ok(bare) => {
            let r = bare.with_labels(labels.as_slice());
            proof {
                let m = r->Ok_0;
                assert(labels@ =~= Seq::new(rows.len(), |i: int| rows[i].label));
                assert forall|q: int| 0 <= q < m.height() implies #[trigger] m.readable_row(q) by {
                    assert(bare.readable_row(q) == csr_row_in_bounds(ptr, vals.len() as int, q));
                    assert(ptr[q + 1] <= vals.len());
                }
                assert forall|q: int| 0 <= q < rows.len() implies #[trigger] m.stored(q)
                    == rows[q].entries by {
                    assert(bare.stored(q) == csr_row(ptr, idx, vals, q));
                }
            }
            r
        },
    }
}

proof fn top_of_rows_is_local(a: Seq<SparseRow>, b: Seq<SparseRow>, n: int)
    requires
        n <= a.len(),
        n <= b.len(),
        forall|i: int| 0 <= i < n ==> #[trigger] a[i] == b[i],
    ensures
        top_of_rows(a, n) == top_of_rows(b, n),
    decreases n,
{
    if n > 0 {
        top_of_rows_is_local(a, b, n - 1);
        assert(a[n - 1] == b[n - 1]);
    }
}

/// How a CSV text is read.
#[derive(Clone, Debug)]
pub struct CsvOptions {
    /// Whether the first line is a header to skip.
    pub has_header: bool,
    /// What separates fields.
    pub delimiter: char,
    /// The column that holds the label, if any; it is no feature.
    pub label_column: Option<usize>,
    /// The text of a missing value, besides the empty one.
    pub na_value: Option<String>,
}

impl Default for CsvOptions {
    fn default() -> (r: Self)
        ensures
            r.has_header,
            r.delimiter == ',',
            r.label_column == Some(0usize),
            r.na_value is None,
    {
        CsvOptions { has_header: true, delimiter: ',', label_column: Some(0), na_value: None }
    }
}

impl CsvOptions {
    /// Whether a column holds the label.
    pub open spec fn labels(&self, c: int) -> bool {
        self.label_column matches Some(l) && l == c
    }

    /// Whether a field stands for a missing value.
    pub open spec fn misses(&self, field: Seq<char>) -> bool {
        field.len() == 0 || (self.na_value matches Some(t) && t@ == field)
    }
}

/// A parsed row: its features, and its label if there is one.
#[verifier::ext_equal]
pub struct CsvRow {
    /// The features.
    pub features: Seq<Single>,
    /// The label.
    pub label: Option<Single>,
}

/// The row that the first `n` fields of a line stand for.
pub open spec fn csv_row<P: Fn(Precision, &str) -> Option<u64>>(
    parts: Seq<Seq<char>>,
    opts: &CsvOptions,
    n: int,
    reader: &Reader<P>,
) -> Result<CsvRow, Seq<char>>
    decreases n,
{
    if n <= 0 {
        Ok(CsvRow { features: Seq::empty(), label: None })
    } else {
        match csv_row(parts, opts, n - 1, reader) {
            Err(e) => Err(e),
            Ok(row) => {
                let field = trimmed(parts[n - 1]);
                if opts.labels(n - 1) {
                    match reader.value(field) {
                        None => Err(quoted("invalid label `"@, field)),
                        Some(v) => Ok(CsvRow { features: row.features, label: Some(v) }),
                    }
                } else if opts.misses(field) {
                    Ok(
                        CsvRow {
                            features: row.features.push(Single { bits: 0x7fc0_0000 }),
                            label: row.label,
                        },
                    )
                } else {
                    match reader.value(field) {
                        None => Err(quoted("invalid value `"@, field)),
                        Some(v) => Ok(
                            CsvRow { features: row.features.push(v), label: row.label },
                        ),
                    }
                }
            },
        }
    }
}

/// Why a row of another length than the first is refused.
pub open spec fn length_complaint(expected: nat, got: nat) -> Seq<char> {
    "expected "@ + decimal(expected) + " columns, got "@ + decimal(got)
}

/// The rows of the first `n` lines, or the number of the first line that is
/// not understood, and why.
pub open spec fn csv_rows<P: Fn(Precision, &str) -> Option<u64>>(
    list: Seq<Seq<char>>,
    opts: &CsvOptions,
    n: int,
    reader: &Reader<P>,
) -> Result<Seq<CsvRow>, (int, Seq<char>)>
    decreases n,
{
    if n <= 0 {
        Ok(Seq::empty())
    } else {
        match csv_rows(list, opts, n - 1, reader) {
            Err(e) => Err(e),
            Ok(rows) => {
                let parts = fields_from(list[n - 1], opts.delimiter, 0);
                if (opts.has_header && n == 1) || trimmed(list[n - 1]).len() == 0 {
                    Ok(rows)
                } else {
                    match csv_row(parts, opts, parts.len() as int, reader) {
                        Err(e) => Err((n, e)),
                        Ok(row) => if rows.len() > 0 && rows[0].features.len()
                            != row.features.len() {
                            Err(
                                (
                                    n,
                                    length_complaint(
                                        rows[0].features.len(),
                                        row.features.len(),
                                    ),
                                ),
                            )
                        } else {
                            Ok(rows.push(row))
                        },
                    }
                }
            },
        }
    }
}

/// The labels of the first `n` rows that have one.
pub open spec fn csv_labels(rows: Seq<CsvRow>, n: int) -> Seq<Single>
    decreases n,
{
    if n <= 0 {
        Seq::empty()
    } else {
        match rows[n - 1].label {
            Some(v) => csv_labels(rows, n - 1).push(v),
            None => csv_labels(rows, n - 1),
        }
    }
}

/// Whether a dataset holds the given rows, and nothing but labels besides.
pub open spec fn holds_table(m: &DMatrix, rows: Seq<CsvRow>) -> bool {
    let labels = csv_labels(rows, rows.len() as int);
    &&& m.well_formed()
    &&& m.readable()
    &&& m.height() == rows.len()
    &&& m.width() == rows[0].features.len()
    &&& m.sentinel().nan()
    &&& m.label_list() == (if labels.len() > 0 { Some(labels) } else { None })
    &&& m.weight_list() is None
    &&& m.margin_list() is None
    &&& m.group_info() is None
    &&& m.names() is None
    &&& forall|i: int|
        0 <= i < rows.len() ==> #[trigger] m.stored(i) == Seq::new(
            m.width() as nat,
            |c: int| Entry { index: c as u32, value: rows[i].features[c] },
        )
}

proof fn table_stays_refused<P: Fn(Precision, &str) -> Option<u64>>(
    list: Seq<Seq<char>>,
    opts: &CsvOptions,
    a: int,
    b: int,
    reader: &Reader<P>,
)
    requires
        a <= b,
        csv_rows(list, opts, a, reader) is Err,
    ensures
        csv_rows(list, opts, b, reader) == csv_rows(list, opts, a, reader),
    decreases b - a,
{
    if a < b {
        table_stays_refused(list, opts, a, b - 1, reader);
    }
}

proof fn csv_row_stays_refused<P: Fn(Precision, &str) -> Option<u64>>(
    parts: Seq<Seq<char>>,
    opts: &CsvOptions,
    a: int,
    b: int,
    reader: &Reader<P>,
)
    requires
        a <= b,
        csv_row(parts, opts, a, reader) is Err,
    ensures
        csv_row(parts, opts, b, reader) == csv_row(parts, opts, a, reader),
    decreases b - a,
{
    if a < b {
        csv_row_stays_refused(parts, opts, a, b - 1, reader);
    }
}

/// Read the fields of a CSV line.
fn read_fields<P: Fn(Precision, &str) -> Option<u64>>(
    line: &str,
    opts: &CsvOptions,
    reader: &Reader<P>,
) -> (r: Result<(Vec<Single>, Option<Single>), String>)
    ensures
        ({
            let parts = fields_from(line@, opts.delimiter, 0);
            let goal = csv_row(parts, opts, parts.len() as int, reader);
            match r {
                Ok((features, label)) => goal == Ok::<CsvRow, Seq<char>>(
                    CsvRow { features: features@, label },
                ),
                Err(e) => goal == Err::<CsvRow, Seq<char>>(e@),
            }
        }),
{
    let parts = fields(line, opts.delimiter);
    let ghost all = fields_from(line@, opts.delimiter, 0);
    let mut features: Vec<Single> = Vec::new();
    let mut label: Option<Single> = None;
    let mut c: usize = 0;
    while c < parts.len()
        invariant
            texts(parts@) == all,
            all == fields_from(line@, opts.delimiter, 0),
            c <= parts.len(),
            csv_row(all, opts, c as int, reader) == Ok::<CsvRow, Seq<char>>(
                CsvRow { features: features@, label },
            ),
        decreases parts.len() - c,
    {
        assert(all[c as int] == parts[c as int]@);
        let field = trim(parts[c]);
        let is_label = match opts.label_column {
            Some(l) => l == c,
            None => false,
        };
        if is_label {
            match reader.read_value(field) {
                None => {
                    proof {
                        csv_row_stays_refused(all, opts, c + 1, all.len() as int, reader);
                    }
                    return Err(quote("invalid label `", field));
                },
                Some(v) => {
                    label = Some(v);
                },
            }
        } else {
            let is_na = chars_of(field).len() == 0 || (match &opts.na_value {
                Some(t) => same_text(t.as_str(), field),
                None => false,
            });
            if is_na {
                features.push(Single::not_a_number());
            } else {
                match reader.read_value(field) {
                    None => {
                        proof {
                            csv_row_stays_refused(all, opts, c + 1, all.len() as int, reader);
                        }
                        return Err(quote("invalid value `", field));
                    },
                    Some(v) => {
                        features.push(v);
                    },
                }
            }
        }
        c = c + 1;
    }
    Ok((features, label))
}

/// Append the features of a row to a table of full rows.
fn append_row(flat: &mut Vec<Single>, features: &Vec<Single>, rows: Ghost<Seq<CsvRow>>)
    requires
        old(flat).len() == rows@.len() * features.len(),
        forall|r: int, c: int|
            #![trigger rows@[r].features[c]]
            0 <= r < rows@.len() && 0 <= c < features.len() ==> old(flat)[r * features.len() + c]
                == rows@[r].features[c],
    ensures
        final(flat).len() == (rows@.len() + 1) * features.len(),
        forall|r: int, c: int|
            #![trigger rows@[r].features[c]]
            0 <= r < rows@.len() && 0 <= c < features.len() ==> final(flat)[r * features.len() + c]
                == rows@[r].features[c],
        forall|c: int|
            0 <= c < features.len() ==> #[trigger] final(flat)[rows@.len() * features.len() + c]
                == features[c],
{
    let ghost was = flat@;
    let ghost width = features.len() as int;
    let ghost height = rows@.len() as int;
    let mut k: usize = 0;
    while k < features.len()
        invariant
            k <= features.len(),
            flat.len() == was.len() + k,
            forall|q: int| 0 <= q < was.len() ==> #[trigger] flat[q] == was[q],
            forall|q: int|
                was.len() <= q < was.len() + k ==> #[trigger] flat[q] == features[q - was.len()],
        decreases features.len() - k,
    {
        flat.push(features[k]);
        k = k + 1;
    }
    proof {
        assert((height + 1) * width == height * width + width) by (nonlinear_arith);
        assert forall|r: int, c: int|
            #![trigger rows@[r].features[c]]
            0 <= r < height && 0 <= c < width implies flat[r * width + c]
            == rows@[r].features[c] by {
            entry_place(height, width, r, c);
        }
    }
}

/// Read a dataset in CSV format. Empty fields are missing values; the label
/// column, if there is one, becomes the labels.
pub fn read_csv<P: Fn(Precision, &str) -> Option<u64>>(
    text: &str,
    opts: &CsvOptions,
    reader: &Reader<P>,
) -> (r: Result<DMatrix, SequoiaError>)
    ensures
        match csv_rows(lines_of(text@), opts, lines_of(text@).len() as int, reader) {
            Err((line, reason)) => r matches Err(e) && is_parse_error(e, line, reason),
            Ok(rows) => {
                let labels = csv_labels(rows, rows.len() as int);
                if rows.len() == 0 {
                    r == Err::<DMatrix, SequoiaError>(
                        SequoiaError::EmptyDataset("csv: no data rows"),
                    )
                } else if rows[0].features.len() == 0 {
                    r == Err::<DMatrix, SequoiaError>(
                        SequoiaError::EmptyDataset("from_dense: zero rows or columns"),
                    )
                } else if 0 < labels.len() < rows.len() {
                    r == Err::<DMatrix, SequoiaError>(
                        SequoiaError::DimensionMismatch {
                            what: "labels",
                            expected: rows.len() as usize,
                            got: labels.len() as usize,
                        },
                    )
                } else {
                    r matches Ok(m) && holds_table(&m, rows)
                }
            },
        },
{
    let list = lines(text);
    let ghost all = lines_of(text@);
    let mut flat: Vec<Single> = Vec::new();
    let mut labels: Vec<Single> = Vec::new();
    let mut n_cols: Option<usize> = None;
    let mut n_rows: usize = 0;
    let ghost mut rows: Seq<CsvRow> = Seq::empty();
    let mut i: usize = 0;
    while i < list.len()
        invariant
            texts(list@) == all,
            all == lines_of(text@),
            i <= list.len(),
            csv_rows(all, opts, i as int, reader) == Ok::<Seq<CsvRow>, (int, Seq<char>)>(rows),
            n_rows == rows.len(),
            n_rows <= i,
            labels@ == csv_labels(rows, rows.len() as int),
            labels.len() <= rows.len(),
            opts.label_column is None ==> labels.len() == 0,
            match n_cols {
                None => rows.len() == 0 && flat.len() == 0,
                Some(w) => {
                    &&& rows.len() > 0
                    &&& flat.len() == rows.len() * w
                    &&& forall|q: int|
                        0 <= q < rows.len() ==> (#[trigger] rows[q]).features.len() == w
                    &&& forall|q: int, c: int|
                        #![trigger rows[q].features[c]]
                        0 <= q < rows.len() && 0 <= c < w ==> flat[q * w + c]
                            == rows[q].features[c]
                },
            },
        decreases list.len() - i,
    {
        assert(all[i as int] == list[i as int]@);
        let line = list[i];
        if (opts.has_header && i == 0) || chars_of(trim(line)).len() == 0 {
            i = i + 1;
            continue;
        }
        match read_fields(line, opts, reader) {
            Err(reason) => {
                proof {
                    table_stays_refused(all, opts, i + 1, all.len() as int, reader);
                }
                return Err(SequoiaError::Parse { line: i + 1, reason });
            },
            Ok((features, label)) => {
                let ghost was = rows;
                let ghost row = CsvRow { features: features@, label };
                match n_cols {
                    None => {
                        n_cols = Some(features.len());
                        assert(0 * features.len() == 0) by (nonlinear_arith);
                    },
                    Some(expected) => {
                        if expected != features.len() {
                            assert(rows[0].features.len() == expected);
                            proof {
                                table_stays_refused(all, opts, i + 1, all.len() as int, reader);
                            }
                            let reason = "expected ".to_owned().concat(
                                decimal_text(expected as u64).as_str(),
                            ).concat(" columns, got ").concat(
                                decimal_text(features.len() as u64).as_str(),
                            );
                            return Err(SequoiaError::Parse { line: i + 1, reason });
                        }
                    },
                }
                append_row(&mut flat, &features, Ghost(was));
                match label {
                    Some(v) => {
                        labels.push(v);
                    },
                    None => {},
                }
                n_rows = n_rows + 1;
                proof {
                    rows = was.push(row);
                    csv_labels_are_local(was, rows, was.len() as int);
                    if opts.label_column is None {
                        let parts = fields_from(line@, opts.delimiter, 0);
                        no_label_column(parts, opts, parts.len() as int, reader);
                    }
                    let w = features.len() as int;
                    assert forall|q: int, c: int|
                        #![trigger rows[q].features[c]]
                        0 <= q < rows.len() && 0 <= c < w implies flat[q * w + c]
                        == rows[q].features[c] by {
                        if q < was.len() {
                            assert(rows[q] == was[q]);
                            assert(was[q].features[c] == rows[q].features[c]);
                        } else {
                            assert(flat[was.len() * w + c] == features[c]);
                        }
                    }
                    assert forall|q: int| 0 <= q < rows.len() implies (
                    #[trigger] rows[q]).features.len() == w by {
                        if q < was.len() {
                            assert(rows[q] == was[q]);
                        }
                    }
                }
            },
        }
        i = i + 1;
    }
    let width: usize = match n_cols {
        None => {
            return Err(SequoiaError::EmptyDataset("csv: no data rows"));
        },
        Some(w) => w,
    };
    assert(rows[0].features.len() == width);
    assert(flat.len() == n_rows * width);
    match DMatrix::from_dense(flat.as_slice(), n_rows, width) {
        Err(e) => Err(e),
        Ok(bare) => {
            proof {
                assert forall|q: int| 0 <= q < rows.len() implies #[trigger] bare.stored(q)
                    == Seq::new(
                    bare.width() as nat,
                    |c: int| Entry { index: c as u32, value: rows[q].features[c] },
                ) by {
                    assert(bare.stored(q) == dense_row(flat@, width as int, q));
                    assert forall|c: int| 0 <= c < width implies flat[q * width + c]
                        == #[trigger] rows[q].features[c] by {}
                    assert(bare.stored(q) =~= Seq::new(
                        bare.width() as nat,
                        |c: int| Entry { index: c as u32, value: rows[q].features[c] },
                    ));
                }
            }
            if labels.len() > 0 {
                let r = bare.with_labels(labels.as_slice());
                assert(r matches Ok(m) ==> forall|q: int| #[trigger]
                    m.readable_row(q) == bare.readable_row(q));
                r
            } else {
                Ok(bare)
            }
        },
    }
}

proof fn csv_labels_are_local(a: Seq<CsvRow>, b: Seq<CsvRow>, n: int)
    requires
        n <= a.len(),
        n <= b.len(),
        forall|i: int| 0 <= i < n ==> #[trigger] a[i] == b[i],
    ensures
        csv_labels(a, n) == csv_labels(b, n),
    decreases n,
{
    if n > 0 {
        csv_labels_are_local(a, b, n - 1);
        assert(a[n - 1] == b[n - 1]);
    }
}

proof fn no_label_column<P: Fn(Precision, &str) -> Option<u64>>(
    parts: Seq<Seq<char>>,
    opts: &CsvOptions,
    n: int,
    reader: &Reader<P>,
)
    requires
        opts.label_column is None,
    ensures
        csv_row(parts, opts, n, reader) matches Ok(row) ==> row.label is None,
    decreases n,
{
    if n > 0 {
        no_label_column(parts, opts, n - 1, reader);
    }
}

} // verus!
