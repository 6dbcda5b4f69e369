//! What is written in a text format is read back.

use vstd::prelude::*;

use crate::data::dmatrix::Entry;
use crate::data::loaders::{
    csv_row, entries_of, entry_of, libsvm_row, top_column, top_of_rows, CsvOptions, CsvRow,
    SparseRow,
};
use crate::number::Single;
use crate::text::{
    blank, decimal, decimals_are_digits, decimals_are_read_back, fields_from, first_blank,
    first_of, text_end, trimmed, words_from, Precision, Reader,
};

verus! {

/// Whether a text holds no white space.
pub open spec fn unbroken(s: Seq<char>) -> bool {
    forall|i: int| 0 <= i < s.len() ==> !blank(#[trigger] s[i])
}

/// A text with another one behind it, set off by a character.
pub open spec fn followed(s: Seq<char>, c: char, w: Seq<char>) -> Seq<char> {
    s + seq![c] + w
}

proof fn blanks_of_a_longer_text(s: Seq<char>, t: Seq<char>, is: bool, k: int)
    requires
        0 <= k <= s.len() <= t.len(),
        t.take(s.len() as int) == s,
    ensures
        k <= first_blank(s, is, k) <= s.len(),
        first_blank(s, is, k) < s.len() ==> first_blank(t, is, k) == first_blank(s, is, k),
        first_blank(s, is, k) == s.len() ==> first_blank(t, is, k) == first_blank(
            t,
            is,
            s.len() as int,
        ),
    decreases s.len() - k,
{
    if k < s.len() {
        assert(t.take(s.len() as int)[k] == t[k]);
        blanks_of_a_longer_text(s, t, is, k + 1);
    }
}

proof fn no_blank_ahead(s: Seq<char>, k: int)
    requires
        0 <= k <= s.len(),
        forall|i: int| k <= i < s.len() ==> !blank(#[trigger] s[i]),
    ensures
        first_blank(s, true, k) == s.len(),
    decreases s.len() - k,
{
    if k < s.len() {
        no_blank_ahead(s, k + 1);
    }
}

/// A word behind a text is the text's last word.
proof fn one_more_word(s: Seq<char>, w: Seq<char>, k: int)
    requires
        0 <= k <= s.len(),
        unbroken(w),
        w.len() > 0,
    ensures
        words_from(followed(s, ' ', w), k) == words_from(s, k).push(w),
    decreases s.len() - k,
{
    let t = followed(s, ' ', w);
    let n = s.len() as int;
    assert(t.take(n) =~= s);
    assert(t[n] == ' ');
    let start = first_blank(s, false, k);
    blanks_of_a_longer_text(s, t, false, k);
    if start < n {
        let end = first_blank(s, true, start);
        blanks_of_a_longer_text(s, t, true, start);
        assert(!blank(s[start])) by {
            stops_at(s, false, k);
        }
        assert(end > start) by {
            if end == start {
                stops_at(s, true, start);
            }
        }
        assert(first_blank(t, true, start) == end);
        assert(t.subrange(start, end) =~= s.subrange(start, end));
        one_more_word(s, w, end);
        assert(words_from(t, k) =~= words_from(s, k).push(w));
    } else {
        assert(!blank(t[n + 1])) by {
            assert(t[n + 1] == w[0]);
        }
        assert(first_blank(t, false, n) == n + 1) by {
            assert(first_blank(t, false, n + 1) == n + 1);
        }
        assert forall|i: int| n + 1 <= i < t.len() implies !blank(#[trigger] t[i]) by {
            assert(t[i] == w[i - n - 1]);
        }
        no_blank_ahead(t, n + 1);
        assert(t.subrange(n + 1, t.len() as int) =~= w);
        assert(words_from(t, t.len() as int) =~= Seq::empty());
        assert(words_from(t, k) =~= words_from(s, k).push(w));
    }
}

proof fn stops_at(s: Seq<char>, is: bool, k: int)
    requires
        0 <= k <= s.len(),
        first_blank(s, is, k) < s.len(),
    ensures
        blank(s[first_blank(s, is, k)]) == is,
    decreases s.len() - k,
{
    if k < s.len() && blank(s[k]) != is {
        stops_at(s, is, k + 1);
    }
}

/// The word of an entry: its column, a colon, and the text of its value.
pub open spec fn entry_word(column: u32, value: Seq<char>) -> Seq<char> {
    followed(decimal(column as nat), ':', value)
}

/// The line of a row: the text of its label, and the words of its first `n` entries.
pub open spec fn row_line(
    label: Seq<char>,
    entries: Seq<Entry>,
    values: Seq<Seq<char>>,
    n: int,
) -> Seq<char>
    decreases n,
{
    if n <= 0 {
        label
    } else {
        followed(
            row_line(label, entries, values, n - 1),
            ' ',
            entry_word(entries[n - 1].index, values[n - 1]),
        )
    }
}

proof fn entry_words_are_unbroken(column: u32, value: Seq<char>)
    requires
        unbroken(value),
    ensures
        unbroken(entry_word(column, value)),
        entry_word(column, value).len() > 0,
{
    let head = decimal(column as nat);
    decimals_are_digits(column as nat);
    let w = entry_word(column, value);
    assert forall|i: int| 0 <= i < w.len() implies !blank(#[trigger] w[i]) by {
        if i < head.len() {
            assert(w[i] == head[i]);
        } else if i == head.len() {
            assert(w[i] == ':');
        } else {
            assert(w[i] == value[i - head.len() - 1]);
        }
    }
}

proof fn lines_have_their_words(
    label: Seq<char>,
    entries: Seq<Entry>,
    values: Seq<Seq<char>>,
    n: int,
)
    requires
        0 <= n <= entries.len(),
        values.len() == entries.len(),
        unbroken(label),
        label.len() > 0,
        forall|j: int| 0 <= j < values.len() ==> unbroken(#[trigger] values[j]),
    ensures
        ({
            let line = row_line(label, entries, values, n);
            let parts = words_from(line, 0);
            &&& line.len() > 0
            &&& line[0] == label[0]
            &&& !blank(line.last())
            &&& parts.len() == n + 1
            &&& parts[0] == label
            &&& forall|j: int|
                1 <= j <= n ==> #[trigger] parts[j] == entry_word(
                    entries[j - 1].index,
                    values[j - 1],
                )
        }),
    decreases n,
{
    let line = row_line(label, entries, values, n);
    if n == 0 {
        assert(!blank(label[0]));
        no_blank_ahead(label, 0);
        assert(words_from(label, label.len() as int) =~= Seq::empty());
        assert(label.subrange(0, label.len() as int) =~= label);
        assert(words_from(label, 0) =~= seq![label]);
    } else {
        lines_have_their_words(label, entries, values, n - 1);
        let before = row_line(label, entries, values, n - 1);
        let word = entry_word(entries[n - 1].index, values[n - 1]);
        assert(unbroken(values[n - 1]));
        entry_words_are_unbroken(entries[n - 1].index, values[n - 1]);
        one_more_word(before, word, 0);
        assert(line.last() == word.last());
        assert(!blank(word[word.len() - 1]));
        assert(line[0] == before[0]);
    }
}

pub(crate) proof fn first_of_skips(s: Seq<char>, c: char, k: int, at: int)
    requires
        0 <= k <= at <= s.len(),
        forall|i: int| k <= i < at ==> #[trigger] s[i] != c,
        at < s.len() ==> s[at] == c,
    ensures
        first_of(s, c, k) == at,
    decreases at - k,
{
    if k < at {
        first_of_skips(s, c, k + 1, at);
    }
}

proof fn entries_are_read_back<P: Fn(Precision, &str) -> Option<u64>>(
    column: u32,
    value: Seq<char>,
    v: Single,
    reader: &Reader<P>,
)
    requires
        reader.value(value) == Some(v),
    ensures
        entry_of(entry_word(column, value), reader) == Ok::<Entry, Seq<char>>(
            Entry { index: column, value: v },
        ),
{
    let head = decimal(column as nat);
    let w = entry_word(column, value);
    let n = head.len() as int;
    decimals_are_digits(column as nat);
    assert forall|i: int| 0 <= i < n implies #[trigger] w[i] != ':' by {
        assert(w[i] == head[i]);
    }
    assert(w[n] == ':');
    first_of_skips(w, ':', 0, n);
    assert(w.subrange(0, n) =~= head);
    assert(w.subrange(n + 1, w.len() as int) =~= value);
    decimals_are_read_back(column as nat, u32::MAX as int);
}

proof fn all_entries_are_read_back<P: Fn(Precision, &str) -> Option<u64>>(
    parts: Seq<Seq<char>>,
    entries: Seq<Entry>,
    values: Seq<Seq<char>>,
    n: int,
    reader: &Reader<P>,
)
    requires
        0 <= n <= entries.len(),
        values.len() == entries.len(),
        parts.len() > n,
        forall|j: int|
            1 <= j <= n ==> #[trigger] parts[j] == entry_word(entries[j - 1].index, values[j - 1]),
        forall|j: int|
            0 <= j < values.len() ==> reader.value(#[trigger] values[j]) == Some(entries[j].value),
    ensures
        entries_of(parts, n, reader) == Ok::<Seq<Entry>, Seq<char>>(entries.take(n)),
    decreases n,
{
    if n > 0 {
        all_entries_are_read_back(parts, entries, values, n - 1, reader);
        assert(reader.value(values[n - 1]) == Some(entries[n - 1].value));
        entries_are_read_back(
            entries[n - 1].index,
            values[n - 1],
            entries[n - 1].value,
            reader,
        );
        assert(parts[n] == entry_word(entries[n - 1].index, values[n - 1]));
        assert(entries.take(n - 1).push(entries[n - 1]) =~= entries.take(n));
    } else {
        assert(entries.take(0) =~= Seq::<Entry>::empty());
    }
}

/// A line that lists a row's label and, column by column, its values is read as that row.
pub proof fn sparse_rows_are_read_back<P: Fn(Precision, &str) -> Option<u64>>(
    label: Seq<char>,
    values: Seq<Seq<char>>,
    row: SparseRow,
    reader: &Reader<P>,
)
    requires
        label.len() > 0,
        label[0] != '#',
        unbroken(label),
        reader.value(label) == Some(row.label),
        values.len() == row.entries.len(),
        forall|j: int|
            0 <= j < values.len() ==> unbroken(#[trigger] values[j]) && reader.value(values[j])
                == Some(row.entries[j].value),
    ensures
        libsvm_row(row_line(label, row.entries, values, values.len() as int), reader) == Ok::<
            Option<SparseRow>,
            Seq<char>,
        >(Some(row)),
{
    let n = values.len() as int;
    let line = row_line(label, row.entries, values, n);
    lines_have_their_words(label, row.entries, values, n);
    assert(!blank(label[0]));
    assert(first_blank(line, false, 0) == 0);
    assert(text_end(line, line.len() as int) == line.len());
    assert(trimmed(line) =~= line);
    all_entries_are_read_back(words_from(line, 0), row.entries, values, n, reader);
    assert(row.entries.take(n) =~= row.entries);
}

/// Fields that a delimiter sets off, the first `n` of a list.
pub open spec fn table_line(fields: Seq<Seq<char>>, c: char, n: int) -> Seq<char>
    decreases n,
{
    if n <= 1 {
        fields[0]
    } else {
        followed(table_line(fields, c, n - 1), c, fields[n - 1])
    }
}

/// Whether a text holds no delimiter.
pub open spec fn whole(s: Seq<char>, c: char) -> bool {
    forall|i: int| 0 <= i < s.len() ==> #[trigger] s[i] != c
}

proof fn delimiters_of_a_longer_text(s: Seq<char>, t: Seq<char>, c: char, k: int)
    requires
        0 <= k <= s.len() < t.len(),
        t.take(s.len() as int) == s,
        t[s.len() as int] == c,
    ensures
        k <= first_of(s, c, k) <= s.len(),
        first_of(t, c, k) == first_of(s, c, k),
    decreases s.len() - k,
{
    if k < s.len() {
        assert(t.take(s.len() as int)[k] == t[k]);
        delimiters_of_a_longer_text(s, t, c, k + 1);
    }
}

/// A field behind a text is the text's last field.
proof fn one_more_field(s: Seq<char>, c: char, w: Seq<char>, k: int)
    requires
        0 <= k <= s.len(),
        whole(w, c),
    ensures
        fields_from(followed(s, c, w), c, k) == fields_from(s, c, k).push(w),
    decreases s.len() - k,
{
    let t = followed(s, c, w);
    let n = s.len() as int;
    assert(t.take(n) =~= s);
    assert(t[n] == c);
    delimiters_of_a_longer_text(s, t, c, k);
    let end = first_of(s, c, k);
    assert(t.subrange(k, end) =~= s.subrange(k, end));
    if end < n {
        one_more_field(s, c, w, end + 1);
        assert(fields_from(t, c, k) =~= fields_from(s, c, k).push(w));
    } else {
        assert forall|i: int| n + 1 <= i < t.len() implies #[trigger] t[i] != c by {
            assert(t[i] == w[i - n - 1]);
        }
        first_of_skips(t, c, n + 1, t.len() as int);
        assert(t.subrange(n + 1, t.len() as int) =~= w);
        assert(fields_from(t, c, n + 1) =~= seq![w]);
        assert(fields_from(t, c, k) =~= fields_from(s, c, k).push(w));
    }
}

proof fn lines_have_their_fields(fields: Seq<Seq<char>>, c: char, n: int)
    requires
        1 <= n <= fields.len(),
        forall|j: int| 0 <= j < fields.len() ==> whole(#[trigger] fields[j], c),
    ensures
        fields_from(table_line(fields, c, n), c, 0) == fields.take(n),
    decreases n,
{
    assert(whole(fields[n - 1], c));
    if n == 1 {
        let s = fields[0];
        first_of_skips(s, c, 0, s.len() as int);
        assert(s.subrange(0, s.len() as int) =~= s);
        assert(fields_from(s, c, 0) =~= fields.take(1));
    } else {
        lines_have_their_fields(fields, c, n - 1);
        one_more_field(table_line(fields, c, n - 1), c, fields[n - 1], 0);
        assert(fields.take(n - 1).push(fields[n - 1]) =~= fields.take(n));
    }
}

/// The values without that of the label's column.
pub open spec fn features_of(values: Seq<Single>, label: Option<usize>) -> Seq<Single> {
    match label {
        Some(l) => if l < values.len() { values.remove(l as int) } else { values },
        None => values,
    }
}

proof fn fields_are_read_back<P: Fn(Precision, &str) -> Option<u64>>(
    fields: Seq<Seq<char>>,
    values: Seq<Single>,
    opts: &CsvOptions,
    n: int,
    reader: &Reader<P>,
)
    requires
        0 <= n <= fields.len(),
        values.len() == fields.len(),
        forall|j: int|
            0 <= j < fields.len() ==> {
                &&& unbroken(#[trigger] fields[j])
                &&& !opts.misses(fields[j])
                &&& reader.value(fields[j]) == Some(values[j])
            },
    ensures
        csv_row(fields, opts, n, reader) == Ok::<CsvRow, Seq<char>>(
            CsvRow {
                features: features_of(values.take(n), opts.label_column),
                label: match opts.label_column {
                    Some(l) => if l < n { Some(values[l as int]) } else { None },
                    None => None,
                },
            },
        ),
    decreases n,
{
    if n > 0 {
        fields_are_read_back(fields, values, opts, n - 1, reader);
        let field = fields[n - 1];
        assert(unbroken(field) && field.len() > 0);
        assert(!blank(field[0]) && !blank(field[field.len() - 1]));
        assert(first_blank(field, false, 0) == 0);
        assert(text_end(field, field.len() as int) == field.len());
        assert(trimmed(field) =~= field);
        let before = values.take(n - 1);
        let now = values.take(n);
        match opts.label_column {
            Some(l) => {
                if l == n - 1 {
                    assert(now.remove(l as int) =~= before);
                } else if l < n - 1 {
                    assert(now.remove(l as int) =~= before.remove(l as int).push(values[n - 1]));
                } else {
                    assert(now =~= before.push(values[n - 1]));
                }
            },
            None => {
                assert(now =~= before.push(values[n - 1]));
            },
        }
    } else {
        assert(values.take(0) =~= Seq::<Single>::empty());
    }
}

/// A line that lists a row's values, set off by the delimiter, is read as that row: the
/// value of the label's column is the label, the others are the features in their order.
pub proof fn table_rows_are_read_back<P: Fn(Precision, &str) -> Option<u64>>(
    fields: Seq<Seq<char>>,
    values: Seq<Single>,
    opts: &CsvOptions,
    reader: &Reader<P>,
)
    requires
        0 < fields.len(),
        values.len() == fields.len(),
        forall|j: int|
            0 <= j < fields.len() ==> {
                &&& unbroken(#[trigger] fields[j])
                &&& whole(fields[j], opts.delimiter)
                &&& !opts.misses(fields[j])
                &&& reader.value(fields[j]) == Some(values[j])
            },
    ensures
        ({
            let n = fields.len() as int;
            let parts = fields_from(table_line(fields, opts.delimiter, n), opts.delimiter, 0);
            csv_row(parts, opts, parts.len() as int, reader) == Ok::<CsvRow, Seq<char>>(
                CsvRow {
                    features: features_of(values, opts.label_column),
                    label: match opts.label_column {
                        Some(l) => if l < n { Some(values[l as int]) } else { None },
                        None => None,
                    },
                },
            )
        }),
{
    let n = fields.len() as int;
    lines_have_their_fields(fields, opts.delimiter, n);
    assert(fields.take(n) =~= fields);
    assert(values.take(n) =~= values);
    fields_are_read_back(fields, values, opts, n, reader);
}

proof fn top_columns_bound(entries: Seq<Entry>, n: int)
    requires
        0 <= n <= entries.len(),
    ensures
        forall|j: int| 0 <= j < n ==> (#[trigger] entries[j]).index <= top_column(entries, n),
        top_column(entries, n) == 0 || exists|j: int|
            0 <= j < n && (#[trigger] entries[j]).index == top_column(entries, n),
    decreases n,
{
    if n > 0 {
        top_columns_bound(entries, n - 1);
        if entries[n - 1].index > top_column(entries, n - 1) {
            assert(entries[n - 1].index == top_column(entries, n));
        }
    }
}

/// Whether some entry of the first `n` rows lies in a column.
pub open spec fn has_column(rows: Seq<SparseRow>, n: int, column: int) -> bool {
    exists|i: int, j: int|
        0 <= i < n && 0 <= j < rows[i].entries.len() && (#[trigger] rows[i].entries[j]).index
            == column
}

/// A dataset that is read from sparse rows is as wide as its last column asks for: every
/// listed entry lies within it, and one lies in its last column, unless that is the first.
pub proof fn widths_reach_the_last_column(rows: Seq<SparseRow>, n: int)
    requires
        0 <= n <= rows.len(),
    ensures
        forall|i: int, j: int|
            0 <= i < n && 0 <= j < rows[i].entries.len() ==> (#[trigger] rows[i].entries[j]).index
                <= top_of_rows(rows, n),
        top_of_rows(rows, n) == 0 || has_column(rows, n, top_of_rows(rows, n)),
    decreases n,
{
    if n > 0 {
        widths_reach_the_last_column(rows, n - 1);
        let last = rows[n - 1].entries;
        top_columns_bound(last, last.len() as int);
        let top = top_of_rows(rows, n);
        if top == top_column(last, last.len() as int) && top > 0 {
            let j = choose|j: int| 0 <= j < last.len() && (#[trigger] last[j]).index == top;
            assert(rows[n - 1].entries[j].index == top);
        } else if top > 0 {
            let (i, j) = choose|i: int, j: int|
                0 <= i < n - 1 && 0 <= j < rows[i].entries.len() && (
                #[trigger] rows[i].entries[j]).index == top;
            assert(rows[i].entries[j].index == top);
        }
    }
}

} // verus!
