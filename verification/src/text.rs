//! Text: comparing it, and reading numbers from it.

use vstd::prelude::*;
use vstd::string::{StrSliceExecFns, StringExecFns};

use crate::number::{Single, Wide};

verus! {

/// Whether two texts are the same.
pub fn same_text(a: &str, b: &str) -> (r: bool)
    ensures
        r == (a@ == b@),
{
    a.to_owned() == b.to_owned()
}

/// The characters of a text.
pub fn chars_of(s: &str) -> (r: Vec<char>)
    ensures
        r@ == s@,
{
    let mut out: Vec<char> = Vec::new();
    for c in it: s.chars()
        invariant
            it.seq() == s@,
            out@ == s@.take(it.index()),
    {
        out.push(c);
        assert(out@ =~= s@.take(it.index() + 1));
    }
    assert(out@ =~= s@);
    out
}

/// Whether a character is white space.
pub open spec fn blank(c: char) -> bool {
    ||| '\u{9}' <= c <= '\u{d}'
    ||| c == ' '
    ||| c == '\u{85}'
    ||| c == '\u{a0}'
    ||| c == '\u{1680}'
    ||| '\u{2000}' <= c <= '\u{200a}'
    ||| c == '\u{2028}'
    ||| c == '\u{2029}'
    ||| c == '\u{202f}'
    ||| c == '\u{205f}'
    ||| c == '\u{3000}'
}

/// Whether a character is white space.
pub fn is_blank(c: char) -> (r: bool)
    ensures
        r == blank(c),
{
    ('\u{9}' <= c && c <= '\u{d}') || c == ' ' || c == '\u{85}' || c == '\u{a0}' || c
        == '\u{1680}' || ('\u{2000}' <= c && c <= '\u{200a}') || c == '\u{2028}' || c
        == '\u{2029}' || c == '\u{202f}' || c == '\u{205f}' || c == '\u{3000}'
}

/// The first place from `k` on whose character is white space, or is not; the
/// length where there is none.
pub open spec fn first_blank(s: Seq<char>, is: bool, k: int) -> int
    decreases s.len() - k,
{
    if k >= s.len() || blank(s[k]) == is { k } else { first_blank(s, is, k + 1) }
}

/// The place after the last character below `n` that is not white space.
pub open spec fn text_end(s: Seq<char>, n: int) -> int
    decreases n,
{
    if n <= 0 || !blank(s[n - 1]) { n } else { text_end(s, n - 1) }
}

/// The text without white space at both ends.
pub open spec fn trimmed(s: Seq<char>) -> Seq<char> {
    let start = first_blank(s, false, 0);
    if start >= s.len() { Seq::empty() } else { s.subrange(start, text_end(s, s.len() as int)) }
}

/// The parts of a text, from `k` on, that white space separates.
pub open spec fn words_from(s: Seq<char>, k: int) -> Seq<Seq<char>>
    decreases s.len() - k,
{
    let start = first_blank(s, false, k);
    if start >= s.len() {
        Seq::empty()
    } else {
        let end = first_blank(s, true, start);
        if end <= k || end > s.len() {
            Seq::empty()
        } else {
            seq![s.subrange(start, end)] + words_from(s, end)
        }
    }
}

/// The first place from `k` on that holds a character; the length where there
/// is none.
pub open spec fn first_of(s: Seq<char>, c: char, k: int) -> int
    decreases s.len() - k,
{
    if k >= s.len() || s[k] == c { k } else { first_of(s, c, k + 1) }
}

/// The parts of a text, from `k` on, that a delimiter separates.
pub open spec fn fields_from(s: Seq<char>, c: char, k: int) -> Seq<Seq<char>>
    decreases s.len() - k,
{
    let end = first_of(s, c, k);
    if end >= s.len() || end < k {
        seq![s.subrange(k, s.len() as int)]
    } else {
        seq![s.subrange(k, end)] + fields_from(s, c, end + 1)
    }
}

/// The texts of a list.
pub open spec fn texts(list: Seq<&str>) -> Seq<Seq<char>> {
    Seq::new(list.len(), |i: int| list[i]@)
}

proof fn blank_bounds(s: Seq<char>, is: bool, k: int)
    requires
        0 <= k <= s.len(),
    ensures
        k <= first_blank(s, is, k) <= s.len(),
        first_blank(s, is, k) < s.len() ==> blank(s[first_blank(s, is, k)]) == is,
    decreases s.len() - k,
{
    if k < s.len() && blank(s[k]) != is {
        blank_bounds(s, is, k + 1);
    }
}

proof fn first_of_bounds(s: Seq<char>, c: char, k: int)
    requires
        0 <= k <= s.len(),
    ensures
        k <= first_of(s, c, k) <= s.len(),
        first_of(s, c, k) < s.len() ==> s[first_of(s, c, k)] == c,
    decreases s.len() - k,
{
    if k < s.len() && s[k] != c {
        first_of_bounds(s, c, k + 1);
    }
}

fn find_blank(s: &[char], is: bool, k: usize) -> (r: usize)
    requires
        k <= s.len(),
    ensures
        r == first_blank(s@, is, k as int),
        k <= r <= s.len(),
{
    let mut i: usize = k;
    while i < s.len() && is_blank(s[i]) != is
        invariant
            k <= i <= s.len(),
            first_blank(s@, is, k as int) == first_blank(s@, is, i as int),
        decreases s.len() - i,
    {
        i = i + 1;
    }
    i
}

/// The first place from `k` on that holds a character.
pub fn find_char(s: &[char], c: char, k: usize) -> (r: usize)
    requires
        k <= s.len(),
    ensures
        r == first_of(s@, c, k as int),
        k <= r <= s.len(),
{
    let mut i: usize = k;
    while i < s.len() && s[i] != c
        invariant
            k <= i <= s.len(),
            first_of(s@, c, k as int) == first_of(s@, c, i as int),
        decreases s.len() - i,
    {
        i = i + 1;
    }
    i
}

/// The text without white space at both ends.
pub fn trim(s: &str) -> (r: &str)
    ensures
        r@ == trimmed(s@),
{
    let chars = chars_of(s);
    let start: usize = find_blank(chars.as_slice(), false, 0);
    if start >= chars.len() {
        let r = s.substring_char(0, 0);
        assert(r@ =~= Seq::<char>::empty());
        return r;
    }
    let mut end: usize = chars.len();
    proof {
        blank_bounds(s@, false, 0);
    }
    while end > 0 && is_blank(chars[end - 1])
        invariant
            chars@ == s@,
            start < end <= chars.len(),
            start == first_blank(s@, false, 0),
            start < s@.len(),
            !blank(s@[start as int]),
            text_end(s@, s@.len() as int) == text_end(s@, end as int),
        decreases end,
    {
        end = end - 1;
    }
    s.substring_char(start, end)
}

/// The parts of a text that white space separates.
pub fn words(s: &str) -> (r: Vec<&str>)
    ensures
        texts(r@) == words_from(s@, 0),
{
    let chars = chars_of(s);
    let mut out: Vec<&str> = Vec::new();
    let mut k: usize = 0;
    let mut more = true;
    assert(texts(out@) + words_from(s@, 0) =~= words_from(s@, 0));
    while more
        invariant
            chars@ == s@,
            k <= chars.len(),
            more ==> texts(out@) + words_from(s@, k as int) == words_from(s@, 0),
            !more ==> texts(out@) == words_from(s@, 0),
        decreases chars.len() - k, if more { 1int } else { 0 },
    {
        let start: usize = find_blank(chars.as_slice(), false, k);
        if start >= chars.len() {
            more = false;
            assert(texts(out@) + words_from(s@, k as int) =~= texts(out@));
        } else {
            let end: usize = find_blank(chars.as_slice(), true, start);
            proof {
                blank_bounds(s@, false, k as int);
                blank_bounds(s@, true, start + 1);
            }
            let ghost was = texts(out@);
            out.push(s.substring_char(start, end));
            proof {
                assert(texts(out@) =~= was + seq![s@.subrange(start as int, end as int)]);
                assert(texts(out@) + words_from(s@, end as int) =~= was + words_from(
                    s@,
                    k as int,
                ));
            }
            k = end;
        }
    }
    out
}

/// The parts of a text that a delimiter separates.
pub fn fields(s: &str, c: char) -> (r: Vec<&str>)
    ensures
        texts(r@) == fields_from(s@, c, 0),
        r.len() > 0,
{
    let chars = chars_of(s);
    let mut out: Vec<&str> = Vec::new();
    let mut k: usize = 0;
    let mut end: usize = find_char(chars.as_slice(), c, 0);
    assert(texts(out@) + fields_from(s@, c, 0) =~= fields_from(s@, c, 0));
    while end < chars.len()
        invariant
            chars@ == s@,
            k <= end <= chars.len(),
            end == first_of(s@, c, k as int),
            texts(out@) + fields_from(s@, c, k as int) == fields_from(s@, c, 0),
        decreases chars.len() - k,
    {
        let ghost was = texts(out@);
        out.push(s.substring_char(k, end));
        proof {
            assert(texts(out@) =~= was + seq![s@.subrange(k as int, end as int)]);
            assert(texts(out@) + fields_from(s@, c, end + 1) =~= was + fields_from(
                s@,
                c,
                k as int,
            ));
        }
        k = end + 1;
        end = find_char(chars.as_slice(), c, k);
    }
    let ghost was = texts(out@);
    out.push(s.substring_char(k, chars.len()));
    assert(texts(out@) =~= was + seq![s@.subrange(k as int, s@.len() as int)]);
    out
}

/// A line without the carriage return at its end.
pub open spec fn chomped(s: Seq<char>) -> Seq<char> {
    if s.len() > 0 && s.last() == '\r' { s.drop_last() } else { s }
}

/// The lines of a text: what line feeds end, without carriage returns before
/// them, and what follows the last line feed, if anything does.
pub open spec fn lines_of(s: Seq<char>) -> Seq<Seq<char>> {
    let parts = fields_from(s, '\n', 0);
    let n = if parts.last().len() == 0 { parts.len() - 1 } else { parts.len() as int };
    Seq::new(n as nat, |i: int| if i < parts.len() - 1 { chomped(parts[i]) } else { parts[i] })
}

/// The lines of a text.
pub fn lines(s: &str) -> (r: Vec<&str>)
    ensures
        texts(r@) == lines_of(s@),
{
    let parts = fields(s, '\n');
    let ghost all = fields_from(s@, '\n', 0);
    let last: usize = parts.len() - 1;
    let mut out: Vec<&str> = Vec::new();
    let mut i: usize = 0;
    while i < last
        invariant
            texts(parts@) == all,
            last == parts.len() - 1,
            i <= last,
            out.len() == i,
            forall|k: int| 0 <= k < i ==> (#[trigger] out[k])@ == chomped(all[k]),
        decreases last - i,
    {
        let part = parts[i];
        assert(all[i as int] == part@);
        let chars = chars_of(part);
        let n: usize = chars.len();
        if n > 0 && chars[n - 1] == '\r' {
            let cut = part.substring_char(0, n - 1);
            assert(cut@ =~= part@.drop_last());
            out.push(cut);
        } else {
            out.push(part);
        }
        i = i + 1;
    }
    let tail = parts[last];
    assert(all[last as int] == tail@);
    if chars_of(tail).len() > 0 {
        out.push(tail);
    }
    assert(texts(out@) =~= lines_of(s@));
    out
}

/// A text between a beginning and a closing quote.
pub open spec fn quoted(head: Seq<char>, s: Seq<char>) -> Seq<char> {
    head + s + "`"@
}

/// A text between a beginning and a closing quote.
pub fn quote(head: &str, s: &str) -> (r: String)
    ensures
        r@ == quoted(head@, s@),
{
    head.to_owned().concat(s).concat("`")
}

/// Whether a character is a decimal digit.
pub open spec fn digit(c: char) -> bool {
    '0' <= c <= '9'
}

/// The number that the digits from `from` up to `n` stand for.
pub open spec fn digits_value(s: Seq<char>, from: int, n: int) -> int
    decreases n - from,
{
    if n <= from { 0 } else { digits_value(s, from, n - 1) * 10 + (s[n - 1] as int - '0' as int) }
}

/// Where the digits of a whole number start: after a sign, if there is one.
pub open spec fn digits_start(s: Seq<char>) -> int {
    if s.len() > 0 && s[0] == '+' { 1 } else { 0 }
}

/// The whole number of at most `max` that a text stands for.
pub open spec fn whole_number(s: Seq<char>, max: int) -> Option<int> {
    let from = digits_start(s);
    if from < s.len() && (forall|i: int| from <= i < s.len() ==> digit(#[trigger] s[i]))
        && digits_value(s, from, s.len() as int) <= max {
        Some(digits_value(s, from, s.len() as int))
    } else {
        None
    }
}

proof fn digits_grow(s: Seq<char>, from: int, a: int, b: int)
    requires
        0 <= from <= a <= b <= s.len(),
        forall|i: int| from <= i < b ==> digit(#[trigger] s[i]),
    ensures
        0 <= digits_value(s, from, a) <= digits_value(s, from, b),
    decreases b,
{
    if a < b {
        digits_grow(s, from, a, b - 1);
    } else if from < a {
        digits_grow(s, from, a - 1, a - 1);
    }
}

/// The whole number of at most `max` that a text stands for.
pub fn read_whole(s: &str, max: u64) -> (r: Option<u64>)
    ensures
        match r {
            Some(n) => whole_number(s@, max as int) == Some(n as int),
            None => whole_number(s@, max as int) is None,
        },
{
    let chars = chars_of(s);
    let from: usize = if chars.len() > 0 && chars[0] == '+' { 1 } else { 0 };
    if from >= chars.len() {
        return None;
    }
    let mut n: u64 = 0;
    let mut i: usize = from;
    while i < chars.len()
        invariant
            chars@ == s@,
            from == digits_start(s@),
            from < chars.len(),
            from <= i <= chars.len(),
            forall|k: int| from <= k < i ==> digit(#[trigger] s@[k]),
            n == digits_value(s@, from as int, i as int),
            n <= max,
        decreases chars.len() - i,
    {
        let c = chars[i];
        if c < '0' || '9' < c {
            assert(!digit(s@[i as int]));
            return None;
        }
        let d: u64 = (c as u32 - '0' as u32) as u64;
        assert(digits_value(s@, from as int, i + 1) == n * 10 + d);
        if d > max || n > (max - d) / 10 {
            proof {
                if forall|k: int| from <= k < s@.len() ==> digit(#[trigger] s@[k]) {
                    digits_grow(s@, from as int, i + 1, s@.len() as int);
                }
            }
            return None;
        }
        n = n * 10 + d;
        i = i + 1;
    }
    Some(n)
}

/// The decimal digits of a number.
pub open spec fn decimal(n: nat) -> Seq<char>
    decreases n,
{
    let last = ('0' as int + n % 10) as char;
    if n < 10 { seq![last] } else { decimal(n / 10).push(last) }
}

proof fn digits_are_local(a: Seq<char>, b: Seq<char>, from: int, n: int)
    requires
        n <= a.len(),
        n <= b.len(),
        0 <= from,
        forall|i: int| from <= i < n ==> #[trigger] a[i] == b[i],
    ensures
        digits_value(a, from, n) == digits_value(b, from, n),
    decreases n - from,
{
    if n > from {
        digits_are_local(a, b, from, n - 1);
        assert(a[n - 1] == b[n - 1]);
    }
}

pub(crate) proof fn decimals_are_digits(n: nat)
    ensures
        decimal(n).len() > 0,
        forall|i: int| 0 <= i < decimal(n).len() ==> digit(#[trigger] decimal(n)[i]),
        digits_value(decimal(n), 0, decimal(n).len() as int) == n,
    decreases n,
{
    let s = decimal(n);
    let last = ('0' as int + n % 10) as char;
    assert(digit(last) && last as int - '0' as int == n % 10);
    if n >= 10 {
        let head = decimal(n / 10);
        decimals_are_digits(n / 10);
        assert(s == head.push(last));
        digits_are_local(s, head, 0, head.len() as int);
        assert(s[s.len() - 1] == last);
    } else {
        assert(s.len() == 1 && s[0] == last);
        assert(digits_value(s, 0, 0) == 0);
    }
}

/// A whole number is read back from its decimal digits.
pub proof fn decimals_are_read_back(n: nat, max: int)
    requires
        n <= max,
    ensures
        whole_number(decimal(n), max) == Some(n as int),
{
    decimals_are_digits(n);
    assert(digit(decimal(n)[0]));
}

/// The text of a decimal digit.
fn digit_text(d: u64) -> (r: &'static str)
    requires
        d < 10,
    ensures
        r@ == seq![('0' as int + d) as char],
{
    let r = match d {
        0 => "0",
        1 => "1",
        2 => "2",
        3 => "3",
        4 => "4",
        5 => "5",
        6 => "6",
        7 => "7",
        8 => "8",
        _ => "9",
    };
    proof {
        reveal_strlit("0");
        reveal_strlit("1");
        reveal_strlit("2");
        reveal_strlit("3");
        reveal_strlit("4");
        reveal_strlit("5");
        reveal_strlit("6");
        reveal_strlit("7");
        reveal_strlit("8");
        reveal_strlit("9");
        assert(r@ =~= seq![('0' as int + d) as char]);
    }
    r
}

/// The decimal digits of a number.
pub fn decimal_text(n: u64) -> (r: String)
    ensures
        r@ == decimal(n as nat),
    decreases n,
{
    if n < 10 {
        digit_text(n).to_owned()
    } else {
        let head = decimal_text(n / 10);
        let r = head.concat(digit_text(n % 10));
        assert(r@ =~= decimal(n as nat));
        r
    }
}

/// Whether a text comes before another in the order of their characters, from
/// place `k` on.
pub open spec fn precedes_from(a: Seq<char>, b: Seq<char>, k: int) -> bool
    decreases a.len() - k,
{
    if k >= b.len() {
        false
    } else if k >= a.len() {
        true
    } else if a[k] != b[k] {
        a[k] < b[k]
    } else {
        precedes_from(a, b, k + 1)
    }
}

/// Whether a text comes before another in the order of their characters.
pub open spec fn precedes(a: Seq<char>, b: Seq<char>) -> bool {
    precedes_from(a, b, 0)
}

/// Whether a text comes before another in the order of their characters.
pub fn is_before(a: &str, b: &str) -> (r: bool)
    ensures
        r == precedes(a@, b@),
{
    let x = chars_of(a);
    let y = chars_of(b);
    let mut k: usize = 0;
    while k < x.len() && k < y.len() && x[k] == y[k]
        invariant
            x@ == a@,
            y@ == b@,
            k <= x.len(),
            k <= y.len(),
            precedes(a@, b@) == precedes_from(a@, b@, k as int),
        decreases x.len() - k,
    {
        k = k + 1;
    }
    if k >= y.len() {
        false
    } else if k >= x.len() {
        true
    } else {
        x[k] < y[k]
    }
}

proof fn precedes_from_is_transitive(a: Seq<char>, b: Seq<char>, c: Seq<char>, k: int)
    requires
        0 <= k,
        precedes_from(a, b, k),
        precedes_from(b, c, k),
    ensures
        precedes_from(a, c, k),
    decreases a.len() - k,
{
    if k < a.len() && k < b.len() && k < c.len() && a[k] == b[k] && b[k] == c[k] {
        precedes_from_is_transitive(a, b, c, k + 1);
    }
}

/// The order of texts is transitive.
pub proof fn precedes_is_transitive(a: Seq<char>, b: Seq<char>, c: Seq<char>)
    requires
        precedes(a, b),
        precedes(b, c),
    ensures
        precedes(a, c),
{
    precedes_from_is_transitive(a, b, c, 0);
}

proof fn precedes_from_is_total(a: Seq<char>, b: Seq<char>, k: int)
    requires
        0 <= k <= a.len(),
        k <= b.len(),
        forall|i: int| 0 <= i < k ==> a[i] == b[i],
        !precedes_from(a, b, k),
        !precedes_from(b, a, k),
    ensures
        a == b,
    decreases a.len() - k,
{
    if k < a.len() && k < b.len() {
        precedes_from_is_total(a, b, k + 1);
    } else {
        assert(a =~= b);
    }
}

/// Of two different texts, one comes before the other.
pub proof fn precedes_is_total(a: Seq<char>, b: Seq<char>)
    requires
        !precedes(a, b),
        !precedes(b, a),
    ensures
        a == b,
{
    precedes_from_is_total(a, b, 0);
}

/// The precision that a number is read in.
#[derive(Clone, Copy, Debug, PartialEq, Eq, Structural)]
pub enum Precision {
    /// Single precision.
    Single,
    /// Double precision.
    Double,
}

/// Whether a function reads every text in one way only.
pub open spec fn reads_steadily<P: Fn(Precision, &str) -> Option<u64>>(p: P) -> bool {
    &&& forall|k: Precision, s: &str| #[trigger] call_requires(p, (k, s))
    &&& forall|k: Precision, s: &str, t: &str, x: Option<u64>, y: Option<u64>|
        #![trigger call_ensures(p, (k, s), x), call_ensures(p, (k, t), y)]
        s@ == t@ && call_ensures(p, (k, s), x) && call_ensures(p, (k, t), y) ==> x == y
}

/// Whether a function may read a number from a text.
pub open spec fn may_read<P: Fn(Precision, &str) -> Option<u64>>(
    p: P,
    k: Precision,
    text: Seq<char>,
    r: Option<u64>,
) -> bool {
    exists|s: &str| s@ == text && #[trigger] call_ensures(p, (k, s), r)
}

/// Reads floating-point numbers from text: the bit pattern of the number that
/// a text stands for, or nothing.
pub struct Reader<P: Fn(Precision, &str) -> Option<u64>> {
    p: P,
}

impl<P: Fn(Precision, &str) -> Option<u64>> Reader<P> {
    #[verifier::type_invariant]
    spec fn is_steady(&self) -> bool {
        reads_steadily(self.p)
    }

    /// What is read from a text.
    pub closed spec fn reading(&self, k: Precision, text: Seq<char>) -> Option<u64> {
        choose|r: Option<u64>| may_read(self.p, k, text, r)
    }

    /// The single-precision number that a text stands for.
    pub open spec fn value(&self, text: Seq<char>) -> Option<Single> {
        match self.reading(Precision::Single, text) {
            Some(bits) => Some(Single { bits: (bits % 0x1_0000_0000) as u32 }),
            None => None,
        }
    }

    /// The double-precision number that a text stands for.
    pub open spec fn wide(&self, text: Seq<char>) -> Option<Wide> {
        match self.reading(Precision::Double, text) {
            Some(bits) => Some(Wide { bits }),
            None => None,
        }
    }

    /// The reader that a function is.
    pub fn new(p: P) -> (r: Self)
        requires
            reads_steadily(p),
        ensures
            forall|k: Precision, s: &str, x: Option<u64>| #[trigger]
                call_ensures(p, (k, s), x) ==> x == r.reading(k, s@),
    {
        let r = Reader { p };
        assert forall|k: Precision, s: &str, x: Option<u64>| #[trigger]
            call_ensures(p, (k, s), x) implies x == r.reading(k, s@) by {
            assert(may_read(p, k, s@, x));
            assert(may_read(p, k, s@, r.reading(k, s@)));
        }
        r
    }

    fn read(&self, k: Precision, text: &str) -> (r: Option<u64>)
        ensures
            r == self.reading(k, text@),
    {
        proof {
            use_type_invariant(self);
        }
        let p = &self.p;
        let r = p(k, text);
        proof {
            assert(call_ensures(self.p, (k, text), r));
            assert(may_read(self.p, k, text@, r));
            assert(may_read(self.p, k, text@, self.reading(k, text@)));
        }
        r
    }

    /// The single-precision number that a text stands for.
    pub fn read_value(&self, text: &str) -> (r: Option<Single>)
        ensures
            r == self.value(text@),
    {
        match self.read(Precision::Single, text) {
            Some(bits) => Some(Single { bits: (bits % 0x1_0000_0000) as u32 }),
            None => None,
        }
    }

    /// The double-precision number that a text stands for.
    pub fn read_wide(&self, text: &str) -> (r: Option<Wide>)
        ensures
            r == self.wide(text@),
    {
        match self.read(Precision::Double, text) {
            Some(bits) => Some(Wide { bits }),
            None => None,
        }
    }
}

/// Whether a function writes every number in one way only.
pub open spec fn writes_steadily<W: Fn(Precision, u64) -> String>(w: W) -> bool {
    &&& forall|k: Precision, bits: u64| #[trigger] call_requires(w, (k, bits))
    &&& forall|k: Precision, bits: u64, x: String, y: String|
        #![trigger call_ensures(w, (k, bits), x), call_ensures(w, (k, bits), y)]
        call_ensures(w, (k, bits), x) && call_ensures(w, (k, bits), y) ==> x@ == y@
}

/// Whether a function may write a number as a text.
pub open spec fn may_write<W: Fn(Precision, u64) -> String>(
    w: W,
    k: Precision,
    bits: u64,
    text: Seq<char>,
) -> bool {
    exists|s: String| s@ == text && #[trigger] call_ensures(w, (k, bits), s)
}

/// Writes floating-point numbers as text, from their bit patterns.
pub struct Writer<W: Fn(Precision, u64) -> String> {
    w: W,
}

impl<W: Fn(Precision, u64) -> String> Writer<W> {
    #[verifier::type_invariant]
    spec fn is_steady(&self) -> bool {
        writes_steadily(self.w)
    }

    /// What is written for a number.
    pub closed spec fn writing(&self, k: Precision, bits: u64) -> Seq<char> {
        choose|t: Seq<char>| may_write(self.w, k, bits, t)
    }

    /// The text of a single-precision number.
    pub open spec fn value(&self, v: Single) -> Seq<char> {
        self.writing(Precision::Single, v.bits as u64)
    }

    /// The text of a double-precision number.
    pub open spec fn wide(&self, v: Wide) -> Seq<char> {
        self.writing(Precision::Double, v.bits)
    }

    /// The writer that a function is.
    pub fn new(w: W) -> (r: Self)
        requires
            writes_steadily(w),
        ensures
            forall|k: Precision, bits: u64, x: String| #[trigger]
                call_ensures(w, (k, bits), x) ==> x@ == r.writing(k, bits),
    {
        let r = Writer { w };
        assert forall|k: Precision, bits: u64, x: String| #[trigger]
            call_ensures(w, (k, bits), x) implies x@ == r.writing(k, bits) by {
            assert(may_write(w, k, bits, x@));
            assert(may_write(w, k, bits, r.writing(k, bits)));
        }
        r
    }

    fn write(&self, k: Precision, bits: u64) -> (r: String)
        ensures
            r@ == self.writing(k, bits),
    {
        proof {
            use_type_invariant(self);
        }
        let w = &self.w;
        let r = w(k, bits);
        proof {
            assert(call_ensures(self.w, (k, bits), r));
            assert(may_write(self.w, k, bits, r@));
            assert(may_write(self.w, k, bits, self.writing(k, bits)));
        }
        r
    }

    /// The text of a single-precision number.
    pub fn write_value(&self, v: Single) -> (r: String)
        ensures
            r@ == self.value(v),
    {
        self.write(Precision::Single, v.bits as u64)
    }

    /// The text of a double-precision number.
    pub fn write_wide(&self, v: Wide) -> (r: String)
        ensures
            r@ == self.wide(v),
    {
        self.write(Precision::Double, v.bits)
    }
}

} // verus!
