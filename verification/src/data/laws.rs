//! What holds between the row, cell and column readings of a matrix.

use vstd::prelude::*;

use crate::data::dmatrix::{
    dense_row, first_at, lookup, missing_under, picks, present, DMatrix, Entry,
};
use crate::number::Single;

verus! {

/// Whether a row lists no column twice.
pub open spec fn distinct_columns(row: Seq<Entry>) -> bool {
    forall|i: int, j: int|
        0 <= i < j < row.len() ==> (#[trigger] row[i]).index != (#[trigger] row[j]).index
}

proof fn first_at_is_first(row: Seq<Entry>, c: int, k: int)
    requires
        0 <= k <= row.len(),
    ensures
        k <= first_at(row, c, k) <= row.len(),
        first_at(row, c, k) < row.len() ==> row[first_at(row, c, k)].index == c,
        forall|j: int| k <= j < first_at(row, c, k) ==> (#[trigger] row[j]).index != c,
    decreases row.len() - k,
{
    if k < row.len() && row[k].index != c {
        first_at_is_first(row, c, k + 1);
    }
}

proof fn lookup_finds_the_entry(row: Seq<Entry>, missing: Single, c: u32, v: Single)
    requires
        distinct_columns(row),
    ensures
        lookup(row, missing, c as int) == Some(v) <==> present(row, missing).contains(
            Entry { index: c, value: v },
        ),
{
    let keep = |e: Entry| !missing_under(e.value, missing);
    let k = first_at(row, c as int, 0);
    let e = Entry { index: c, value: v };
    first_at_is_first(row, c as int, 0);
    if lookup(row, missing, c as int) == Some(v) {
        assert(row[k] == e);
        row.lemma_filter_contains(keep, k);
    }
    if present(row, missing).contains(e) {
        let i = choose|i: int| 0 <= i < present(row, missing).len() && present(row, missing)[i] == e;
        row.lemma_filter_pred(keep, i);
        row.lemma_filter_contains_rev(keep, e);
        let j = choose|j: int| 0 <= j < row.len() && row[j] == e;
        if k < j {
            assert(row[k].index != row[j].index);
        }
    }
}

/// A row of a dense matrix lists no column twice.
pub proof fn dense_rows_are_distinct(data: Seq<Single>, n_cols: int, r: int)
    requires
        0 <= n_cols <= 0x1_0000_0000,
    ensures
        distinct_columns(dense_row(data, n_cols, r)),
{
}

/// In a row that lists no column twice, a cell holds a value exactly when the
/// row's entries hold it for that column.
pub proof fn cells_are_entries(m: &DMatrix, r: int, c: u32, v: Single)
    requires
        distinct_columns(m.stored(r)),
    ensures
        m.cell(r, c as int) == Some(v) <==> m.entries(r).contains(Entry { index: c, value: v }),
{
    lookup_finds_the_entry(m.stored(r), m.sentinel(), c, v);
}

pub(crate) proof fn filtering_keeps_columns_distinct(row: Seq<Entry>, keep: spec_fn(Entry) -> bool)
    requires
        distinct_columns(row),
    ensures
        distinct_columns(row.filter(keep)),
    decreases row.len(),
{
    reveal(Seq::filter);
    if row.len() > 0 {
        let head = row.drop_last();
        filtering_keeps_columns_distinct(head, keep);
        let kept = head.filter(keep);
        assert forall|i: int| 0 <= i < kept.len() implies (#[trigger] kept[i]).index
            != row.last().index by {
            head.lemma_filter_contains_rev(keep, kept[i]);
            let j = choose|j: int| 0 <= j < head.len() && head[j] == kept[i];
            assert(row[j].index != row[row.len() - 1].index);
        }
    }
}

/// A matrix of selected rows holds in each cell what the source holds in that
/// row, where the row lists no column twice and no entry of it is "not a
/// number".
pub proof fn selected_rows_keep_their_cells(
    source: &DMatrix,
    selected: &DMatrix,
    rows: Seq<usize>,
    i: int,
    c: u32,
)
    requires
        0 <= i < rows.len(),
        selected.stored(i) == source.entries(rows[i] as int),
        selected.sentinel().nan(),
        distinct_columns(source.stored(rows[i] as int)),
        forall|k: int|
            0 <= k < source.entries(rows[i] as int).len() ==> !(#[trigger] source.entries(
                rows[i] as int,
            )[k]).value.nan(),
    ensures
        selected.cell(i, c as int) == source.cell(rows[i] as int, c as int),
{
    let row = source.stored(rows[i] as int);
    let kept = source.entries(rows[i] as int);
    filtering_keeps_columns_distinct(row, |e: Entry| !missing_under(e.value, source.sentinel()));
    assert forall|v: Single| selected.cell(i, c as int) == Some(v) <==> source.cell(
        rows[i] as int,
        c as int,
    ) == Some(v) by {
        lookup_finds_the_entry(row, source.sentinel(), c, v);
        lookup_finds_the_entry(kept, selected.sentinel(), c, v);
        nothing_filtered(kept, |e: Entry| !missing_under(e.value, selected.sentinel()));
    }
    match selected.cell(i, c as int) {
        Some(v) => {
            assert(source.cell(rows[i] as int, c as int) == Some(v));
        },
        None => {
            if let Some(v) = source.cell(rows[i] as int, c as int) {
                assert(selected.cell(i, c as int) == Some(v));
            }
        },
    }
}

proof fn nothing_filtered<A>(s: Seq<A>, keep: spec_fn(A) -> bool)
    requires
        forall|i: int| 0 <= i < s.len() ==> keep(#[trigger] s[i]),
    ensures
        s.filter(keep) == s,
    decreases s.len(),
{
    reveal(Seq::filter);
    if s.len() > 0 {
        nothing_filtered(s.drop_last(), keep);
        assert(s.drop_last().push(s.last()) =~= s);
    } else {
        assert(s.filter(keep) =~= s);
    }
}

/// A column lists `(row, value)` exactly when the cell in that row holds the
/// value, where no row lists a column twice.
pub proof fn columns_are_cells(m: &DMatrix, n: int, r: int, c: u32, v: Single)
    requires
        0 <= r < n <= 0x1_0000_0000,
        forall|i: int| 0 <= i < n ==> distinct_columns(#[trigger] m.stored(i)),
    ensures
        m.column_prefix(c as int, n).contains((r as u32, v)) <==> m.cell(r, c as int) == Some(v),
    decreases n,
{
    let row = m.entries(n - 1);
    let last = picks(row, c as int, n - 1);
    let front = m.column_prefix(c as int, n - 1);
    let whole = m.column_prefix(c as int, n);
    rows_of_a_column(m, c as int, n - 1);
    if r == n - 1 {
        cells_are_entries(m, r, c, v);
        let pred = |e: Entry| e.index == c as int;
        let e = Entry { index: c, value: v };
        if row.contains(e) {
            let k = choose|k: int| 0 <= k < row.len() && row[k] == e;
            row.lemma_filter_contains(pred, k);
            let j = choose|j: int| 0 <= j < row.filter(pred).len() && row.filter(pred)[j] == e;
            assert(last[j] == (r as u32, v));
            assert(whole[front.len() + j] == (r as u32, v));
        }
        if whole.contains((r as u32, v)) {
            let j = choose|j: int| 0 <= j < whole.len() && whole[j] == (r as u32, v);
            if j < front.len() {
                assert(front[j].0 < n - 1);
            }
            let f = row.filter(pred)[j - front.len()];
            row.lemma_filter_pred(pred, j - front.len());
            row.lemma_filter_contains_rev(pred, f);
            assert(f == e);
        }
    } else {
        columns_are_cells(m, n - 1, r, c, v);
        if front.contains((r as u32, v)) {
            let j = choose|j: int| 0 <= j < front.len() && front[j] == (r as u32, v);
            assert(whole[j] == (r as u32, v));
        }
        if whole.contains((r as u32, v)) {
            let j = choose|j: int| 0 <= j < whole.len() && whole[j] == (r as u32, v);
            if j >= front.len() {
                assert(last[j - front.len()].0 == (n - 1) as u32);
            }
            assert(front[j] == (r as u32, v));
        }
    }
}

/// The rows of a column are rows of the matrix.
pub proof fn rows_of_a_column(m: &DMatrix, c: int, n: int)
    requires
        n <= 0x1_0000_0000,
    ensures
        forall|i: int|
            0 <= i < m.column_prefix(c, n).len() ==> (#[trigger] m.column_prefix(c, n)[i]).0 < n,
    decreases n,
{
    if n > 0 {
        rows_of_a_column(m, c, n - 1);
        let last = picks(m.entries(n - 1), c, n - 1);
        assert forall|i: int| 0 <= i < m.column_prefix(c, n).len() implies (
        #[trigger] m.column_prefix(c, n)[i]).0 < n by {
            let front = m.column_prefix(c, n - 1);
            if i >= front.len() {
                assert(m.column_prefix(c, n)[i] == last[i - front.len()]);
            } else {
                assert(m.column_prefix(c, n)[i] == front[i]);
            }
        }
    }
}

/// Within a column, entries stand in row order.
pub proof fn columns_are_in_row_order(m: &DMatrix, c: int, n: int, i: int, j: int)
    requires
        n <= 0x1_0000_0000,
        0 <= i <= j < m.column_prefix(c, n).len(),
    ensures
        m.column_prefix(c, n)[i].0 <= m.column_prefix(c, n)[j].0,
    decreases n,
{
    if n > 0 {
        let front = m.column_prefix(c, n - 1);
        let last = picks(m.entries(n - 1), c, n - 1);
        rows_of_a_column(m, c, n - 1);
        if j < front.len() {
            columns_are_in_row_order(m, c, n - 1, i, j);
        } else {
            assert(m.column_prefix(c, n)[j] == last[j - front.len()]);
            if i < front.len() {
                assert(m.column_prefix(c, n)[i] == front[i]);
            }
        }
    }
}

/// A column lists a row at most once, where no row lists a column twice.
pub proof fn columns_list_rows_once(m: &DMatrix, c: int, n: int, i: int, j: int)
    requires
        n <= 0x1_0000_0000,
        forall|r: int| 0 <= r < n ==> distinct_columns(#[trigger] m.stored(r)),
        0 <= i < j < m.column_prefix(c, n).len(),
    ensures
        m.column_prefix(c, n)[i].0 < m.column_prefix(c, n)[j].0,
    decreases n,
{
    if n > 0 {
        let front = m.column_prefix(c, n - 1);
        let row = m.entries(n - 1);
        let last = picks(row, c, n - 1);
        let missing = m.sentinel();
        let pred = |e: Entry| e.index == c;
        rows_of_a_column(m, c, n - 1);
        assert(distinct_columns(m.stored(n - 1)));
        filtering_keeps_columns_distinct(
            m.stored(n - 1),
            |e: Entry| !missing_under(e.value, missing),
        );
        filtering_keeps_columns_distinct(row, pred);
        if last.len() >= 2 {
            row.lemma_filter_pred(pred, 0);
            row.lemma_filter_pred(pred, 1);
            assert(row.filter(pred)[0].index != row.filter(pred)[1].index);
        }
        if j < front.len() {
            columns_list_rows_once(m, c, n - 1, i, j);
        } else {
            assert(m.column_prefix(c, n)[j] == last[j - front.len()]);
            assert(i < front.len());
            assert(m.column_prefix(c, n)[i] == front[i]);
        }
    }
}

/// A column is no longer than there are rows, where no row lists a column twice.
pub proof fn columns_fit_the_rows(m: &DMatrix, c: int, n: int)
    requires
        0 <= n <= 0x1_0000_0000,
        forall|r: int| 0 <= r < n ==> distinct_columns(#[trigger] m.stored(r)),
    ensures
        m.column_prefix(c, n).len() <= n,
    decreases n,
{
    let len = m.column_prefix(c, n).len() as int;
    if n > 0 {
        columns_fit_the_rows(m, c, n - 1);
        let front = m.column_prefix(c, n - 1);
        let last = picks(m.entries(n - 1), c, n - 1);
        if last.len() >= 2 {
            columns_list_rows_once(m, c, n, len - 2, len - 1);
            assert(m.column_prefix(c, n)[len - 1] == last[last.len() - 1]);
            assert(m.column_prefix(c, n)[len - 2] == last[last.len() - 2]);
        }
    }
}

/// Cells beyond the last column are missing.
pub proof fn no_cells_beyond(m: &DMatrix, r: int, c: int)
    requires
        m.well_formed(),
        0 <= r < m.height(),
        m.readable_row(r),
        m.width() <= c,
    ensures
        m.cell(r, c) is None,
{
    let row = m.stored(r);
    first_at_is_first(row, c, 0);
    let k = first_at(row, c, 0);
    if k < row.len() {
        m.listed_columns_exist(r, k);
    }
}

} // verus!
