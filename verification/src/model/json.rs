//! JSON documents.

use vstd::prelude::*;

use serde_json::{from_str, to_string_pretty, Number, Value};

use crate::arith::{Calc, Op};
use crate::number::{Wide, ONE};
use crate::text::{decimal, same_text, Precision, Reader};

verus! {

/// A JSON document.
#[derive(Debug)]
pub enum Json {
    /// Nothing.
    Null,
    /// A truth value.
    Bool(bool),
    /// A whole number.
    Whole(i64),
    /// Any number, by its digits.
    Number(String),
    /// A text.
    Text(String),
    /// A list.
    List(Vec<Json>),
    /// Members by name.
    Object(Vec<(String, Json)>),
}

/// What a JSON document says.
pub enum Doc {
    /// Nothing.
    Null,
    /// A truth value.
    Bool(bool),
    /// A whole number.
    Whole(i64),
    /// Any number, by its digits.
    Number(Seq<char>),
    /// A text.
    Text(Seq<char>),
    /// A list.
    List(Seq<Doc>),
    /// Members by name.
    Object(Seq<(Seq<char>, Doc)>),
}

impl Json {
    /// What the document says.
    pub open spec fn doc(&self) -> Doc
        decreases self,
    {
        match self {
            Json::Null => Doc::Null,
            Json::Bool(b) => Doc::Bool(*b),
            Json::Whole(n) => Doc::Whole(*n),
            Json::Number(t) => Doc::Number(t@),
            Json::Text(t) => Doc::Text(t@),
            Json::List(items) => Doc::List(
                Seq::new(
                    items.len() as nat,
                    |i: int|
                        if 0 <= i < items.len() {
                            items[i].doc()
                        } else {
                            Doc::Null
                        },
                ),
            ),
            Json::Object(items) => Doc::Object(
                Seq::new(
                    items.len() as nat,
                    |i: int|
                        if 0 <= i < items.len() {
                            (items[i].0@, items[i].1.doc())
                        } else {
                            (Seq::empty(), Doc::Null)
                        },
                ),
            ),
        }
    }
}

/// The first place from `i` on of a member with the given name.
pub open spec fn member_place(items: Seq<(Seq<char>, Doc)>, key: Seq<char>, i: int) -> int
    decreases items.len() - i,
{
    if i >= items.len() || items[i].0 == key { i } else { member_place(items, key, i + 1) }
}

/// The member of a document with the given name.
pub open spec fn member(d: Doc, key: Seq<char>) -> Option<Doc> {
    match d {
        Doc::Object(items) => {
            let i = member_place(items, key, 0);
            if i < items.len() { Some(items[i].1) } else { None }
        },
        _ => None,
    }
}

impl Json {
    /// The member with the given name.
    pub fn get(&self, key: &str) -> (r: Option<&Json>)
        ensures
            match r {
                Some(j) => member(self.doc(), key@) == Some(j.doc()),
                None => member(self.doc(), key@) is None,
            },
    {
        match self {
            Json::Object(items) => {
                let ghost all = self.doc()->Object_0;
                let mut i: usize = 0;
                while i < items.len()
                    invariant
                        self == (Json::Object(*items)),
                        all == self.doc()->Object_0,
                        i <= items.len(),
                        member_place(all, key@, 0) == member_place(all, key@, i as int),
                    decreases items.len() - i,
                {
                    let (name, item) = &items[i];
                    assert(all[i as int] == (name@, item.doc()));
                    if same_text(name.as_str(), key) {
                        return Some(item);
                    }
                    i = i + 1;
                }
                None
            },
            _ => None,
        }
    }
}

/// The members that a list of them stands for.
pub open spec fn members(items: Seq<(String, Json)>) -> Seq<(Seq<char>, Doc)> {
    Seq::new(items.len(), |i: int| (items[i].0@, items[i].1.doc()))
}

/// The documents that a list of them stands for.
pub open spec fn docs(items: Seq<Json>) -> Seq<Doc> {
    Seq::new(items.len(), |i: int| items[i].doc())
}

/// The members of an object, one by one.
pub struct Members {
    items: Vec<(String, Json)>,
}

impl Members {
    /// The members so far.
    pub closed spec fn list(&self) -> Seq<(Seq<char>, Doc)> {
        members(self.items@)
    }

    /// No members.
    pub fn new() -> (r: Self)
        ensures
            r.list() == Seq::<(Seq<char>, Doc)>::empty(),
    {
        let r = Members { items: Vec::new() };
        assert(r.list() =~= Seq::<(Seq<char>, Doc)>::empty());
        r
    }

    /// One more member.
    pub fn with(self, name: &str, item: Json) -> (r: Self)
        ensures
            r.list() == self.list().push((name@, item.doc())),
    {
        let mut items = self.items;
        items.push((name.to_owned(), item));
        let r = Members { items };
        assert(r.list() =~= self.list().push((name@, item.doc())));
        r
    }

    /// The object of these members.
    pub fn object(self) -> (r: Json)
        ensures
            r.doc() == Doc::Object(self.list()),
    {
        let r = Json::Object(self.items);
        assert(r.doc()->Object_0 =~= self.list());
        r
    }
}

/// The list of the given documents.
pub fn list_of(items: Vec<Json>) -> (r: Json)
    ensures
        r.doc() == Doc::List(docs(items@)),
{
    let r = Json::List(items);
    assert(r.doc()->List_0 =~= docs(items@));
    r
}

impl Json {
    /// The text that this document is, if it is one.
    pub fn as_text(&self) -> (r: Option<&str>)
        ensures
            match r {
                Some(t) => self.doc() == Doc::Text(t@),
                None => !(self.doc() is Text),
            },
    {
        match self {
            Json::Text(t) => Some(t.as_str()),
            _ => None,
        }
    }

    /// The items of this document, if it is a list.
    pub fn as_list(&self) -> (r: Option<&Vec<Json>>)
        ensures
            match r {
                Some(items) => self.doc() == Doc::List(docs(items@)),
                None => !(self.doc() is List),
            },
    {
        match self {
            Json::List(items) => {
                assert(self.doc()->List_0 =~= docs(items@));
                Some(items)
            },
            _ => None,
        }
    }
}

/// A whole number in double precision.
pub open spec fn signed<F: Fn(Op, u64, u64) -> u64>(n: int, calc: &Calc<F>) -> Wide {
    if n >= 0 { calc.of(n) } else { calc.of(-n).negated() }
}

/// The number that a document stands for: a number, the digits of one, or a
/// truth value.
pub open spec fn scalar<F: Fn(Op, u64, u64) -> u64, P: Fn(Precision, &str) -> Option<u64>>(
    d: Doc,
    reader: &Reader<P>,
    calc: &Calc<F>,
) -> Option<Wide> {
    match d {
        Doc::Whole(n) => Some(signed(n as int, calc)),
        Doc::Number(t) => reader.wide(t),
        Doc::Text(t) => reader.wide(t),
        Doc::Bool(b) => Some(
            if b {
                Wide { bits: ONE }
            } else {
                Wide { bits: 0 }
            },
        ),
        _ => None,
    }
}

/// The number that a document stands for; zero if it stands for none.
pub open spec fn real_of<F: Fn(Op, u64, u64) -> u64, P: Fn(Precision, &str) -> Option<u64>>(
    d: Doc,
    reader: &Reader<P>,
    calc: &Calc<F>,
) -> Wide {
    match scalar(d, reader, calc) {
        Some(w) => w,
        None => Wide { bits: 0 },
    }
}

/// A whole number, held at the ends of a range.
pub open spec fn held(n: int, low: int, high: int) -> int {
    if n < low {
        low
    } else if n > high {
        high
    } else {
        n
    }
}

/// The signed whole number of 32 bits that a document stands for; zero if it
/// stands for none.
pub open spec fn integer_of<P: Fn(Precision, &str) -> Option<u64>>(
    d: Doc,
    reader: &Reader<P>,
) -> int {
    match d {
        Doc::Whole(n) => held(n as int, i32::MIN as int, i32::MAX as int),
        Doc::Bool(b) => if b { 1 } else { 0 },
        Doc::Number(t) => match reader.wide(t) {
            Some(w) => w.integer(),
            None => 0,
        },
        Doc::Text(t) => match reader.wide(t) {
            Some(w) => w.integer(),
            None => 0,
        },
        _ => 0,
    }
}

/// The count of 32 bits that a document stands for; zero if it stands for
/// none.
pub open spec fn count_of<P: Fn(Precision, &str) -> Option<u64>>(
    d: Doc,
    reader: &Reader<P>,
) -> int {
    match d {
        Doc::Whole(n) => held(n as int, 0, u32::MAX as int),
        Doc::Bool(b) => if b { 1 } else { 0 },
        Doc::Number(t) => match reader.wide(t) {
            Some(w) => w.count(u32::MAX as int),
            None => 0,
        },
        Doc::Text(t) => match reader.wide(t) {
            Some(w) => w.count(u32::MAX as int),
            None => 0,
        },
        _ => 0,
    }
}

/// Whether a document stands for a number other than zero.
pub open spec fn truth_of<P: Fn(Precision, &str) -> Option<u64>>(
    d: Doc,
    reader: &Reader<P>,
) -> bool {
    match d {
        Doc::Whole(n) => n != 0,
        Doc::Bool(b) => b,
        Doc::Number(t) => reader.wide(t) matches Some(w) && !w.same(Wide { bits: 0 }),
        Doc::Text(t) => reader.wide(t) matches Some(w) && !w.same(Wide { bits: 0 }),
        _ => false,
    }
}

impl Json {
    /// The number that this document stands for.
    pub fn to_scalar<F: Fn(Op, u64, u64) -> u64, P: Fn(Precision, &str) -> Option<u64>>(
        &self,
        reader: &Reader<P>,
        calc: &Calc<F>,
    ) -> (r: Option<Wide>)
        ensures
            r == scalar(self.doc(), reader, calc),
    {
        match self {
            Json::Whole(n) => Some(
                if *n >= 0 {
                    calc.of_u64(*n as u64)
                } else {
                    let below: u64 = (-(*n + 1)) as u64;
                    calc.of_u64(below + 1).neg()
                },
            ),
            Json::Number(t) => reader.read_wide(t.as_str()),
            Json::Text(t) => reader.read_wide(t.as_str()),
            Json::Bool(b) => Some(
                if *b {
                    Wide { bits: ONE }
                } else {
                    Wide::zero()
                },
            ),
            _ => None,
        }
    }

    /// The number that this document stands for, or zero.
    pub fn to_real<F: Fn(Op, u64, u64) -> u64, P: Fn(Precision, &str) -> Option<u64>>(
        &self,
        reader: &Reader<P>,
        calc: &Calc<F>,
    ) -> (r: Wide)
        ensures
            r == real_of(self.doc(), reader, calc),
    {
        match self.to_scalar(reader, calc) {
            Some(w) => w,
            None => Wide::zero(),
        }
    }

    /// The signed whole number of 32 bits that this document stands for, or
    /// zero.
    pub fn to_integer<P: Fn(Precision, &str) -> Option<u64>>(
        &self,
        reader: &Reader<P>,
    ) -> (r: i32)
        ensures
            r == integer_of(self.doc(), reader),
    {
        match self {
            Json::Whole(n) => {
                if *n < i32::MIN as i64 {
                    i32::MIN
                } else if *n > i32::MAX as i64 {
                    i32::MAX
                } else {
                    *n as i32
                }
            },
            Json::Bool(b) => if *b { 1 } else { 0 },
            Json::Number(t) => match reader.read_wide(t.as_str()) {
                Some(w) => w.to_i32(),
                None => 0,
            },
            Json::Text(t) => match reader.read_wide(t.as_str()) {
                Some(w) => w.to_i32(),
                None => 0,
            },
            _ => 0,
        }
    }

    /// The count of 32 bits that this document stands for, or zero.
    pub fn to_count<P: Fn(Precision, &str) -> Option<u64>>(&self, reader: &Reader<P>) -> (r: u32)
        ensures
            r == count_of(self.doc(), reader),
    {
        match self {
            Json::Whole(n) => {
                if *n < 0 {
                    0
                } else if *n > u32::MAX as i64 {
                    u32::MAX
                } else {
                    *n as u32
                }
            },
            Json::Bool(b) => if *b { 1 } else { 0 },
            Json::Number(t) => match reader.read_wide(t.as_str()) {
                Some(w) => w.to_u32(),
                None => 0,
            },
            Json::Text(t) => match reader.read_wide(t.as_str()) {
                Some(w) => w.to_u32(),
                None => 0,
            },
            _ => 0,
        }
    }

    /// Whether this document stands for a number other than zero.
    pub fn to_truth<P: Fn(Precision, &str) -> Option<u64>>(&self, reader: &Reader<P>) -> (r: bool)
        ensures
            r == truth_of(self.doc(), reader),
    {
        match self {
            Json::Whole(n) => *n != 0,
            Json::Bool(b) => *b,
            Json::Number(t) => match reader.read_wide(t.as_str()) {
                Some(w) => !w.is_same(Wide::zero()),
                None => false,
            },
            Json::Text(t) => match reader.read_wide(t.as_str()) {
                Some(w) => !w.is_same(Wide::zero()),
                None => false,
            },
            _ => false,
        }
    }
}

/// The value of `serde_json`, carried along unopened.
#[verifier::external_type_specification]
#[verifier::external_body]
pub struct ExJsonValue(serde_json::Value);

/// The document that `serde_json` reads from a text, if the text is one. Every
/// number in it is given by the digits that `serde_json` prints it with.
pub uninterp spec fn parsed(text: Seq<char>) -> Option<Doc>;

/// `serde_json::from_str` into a `serde_json::Value`, which is then taken apart
/// member by member: where `part` is given, it is taken apart instead of the
/// text's value. The document that comes out is a function of the text alone,
/// and there is an error where there is none.
#[verifier::external_body]
pub(crate) fn parse(text: &str, part: Option<Value>) -> (r: Result<
    Json,
    serde_json::Error,
>)
    ensures
        part is None ==> match r {
            Ok(j) => parsed(text@) == Some(j.doc()),
            Err(_) => parsed(text@) is None,
        },
{
    let value = match part { Some(v) => v, None => from_str(text)? };
    Ok(match value {
        Value::Null => Json::Null,
        Value::Bool(b) => Json::Bool(b),
        Value::Number(n) => Json::Number(n.to_string()),
        Value::String(s) => Json::Text(s),
        Value::Array(a) =>
            Json::List(a.into_iter().map(|v| parse(text, Some(v))).collect::<Result<_, _>>()?),
        Value::Object(o) => Json::Object(
            o.into_iter().map(|(k, v)| Ok((k, parse(text, Some(v))?))).collect::<Result<_, _>>()?,
        ),
    })
}

/// The text that `serde_json` prints for a document, laid out over lines.
/// Every number given by digits is printed as the double-precision number that
/// they stand for: zero where they stand for none, and nothing where it is not
/// finite.
pub uninterp spec fn printed(d: Doc) -> Seq<char>;

/// The digits of a whole number.
pub open spec fn whole_digits(n: int) -> Seq<char> {
    if n < 0 { "-"@ + decimal((-n) as nat) } else { decimal(n as nat) }
}

/// What a number given by digits comes back as when it is printed and read.
pub open spec fn number_back(t: Seq<char>) -> Doc {
    let text = printed(Doc::Number(t));
    if text == "null"@ { Doc::Null } else { Doc::Number(text) }
}

/// Whether no other member has the name of member `i`.
pub open spec fn stands_alone(items: Seq<(Seq<char>, Doc)>, i: int) -> bool {
    forall|j: int| 0 <= j < items.len() && j != i ==> (#[trigger] items[j]).0 != items[i].0
}

/// Whether lists and objects are nested at most `n` deep.
pub open spec fn nests_within(d: Doc, n: nat) -> bool
    decreases d,
{
    match d {
        Doc::List(items) => n > 0 && forall|i: int|
            0 <= i < items.len() ==> nests_within(#[trigger] items[i], (n - 1) as nat),
        Doc::Object(items) => n > 0 && forall|i: int|
            0 <= i < items.len() ==> nests_within((#[trigger] items[i]).1, (n - 1) as nat),
        _ => true,
    }
}

/// Whether a document is no list and no object.
pub open spec fn is_flat(d: Doc) -> bool {
    !(d is List) && !(d is Object)
}

/// A list of documents that are no lists and no objects nests one deep.
pub proof fn flat_lists_nest(items: Seq<Doc>, n: nat)
    requires
        forall|i: int| 0 <= i < items.len() ==> is_flat(#[trigger] items[i]),
        n > 0,
    ensures
        nests_within(Doc::List(items), n),
{
    assert forall|i: int| 0 <= i < items.len() implies nests_within(
        #[trigger] items[i],
        (n - 1) as nat,
    ) by {
        assert(is_flat(items[i]));
    }
}

/// Whether a document comes back as another when it is printed and read.
pub open spec fn comes_back_as(d: Doc, e: Doc) -> bool
    decreases d,
{
    match d {
        Doc::Null => e == Doc::Null,
        Doc::Bool(b) => e == Doc::Bool(b),
        Doc::Whole(n) => e == Doc::Number(whole_digits(n as int)),
        Doc::Number(t) => e == number_back(t),
        Doc::Text(t) => e == Doc::Text(t),
        Doc::List(items) => {
            &&& e matches Doc::List(back)
            &&& back.len() == items.len()
            &&& forall|i: int|
                0 <= i < items.len() ==> comes_back_as(#[trigger] items[i], back[i])
        },
        Doc::Object(items) => forall|i: int|
            0 <= i < items.len() && stands_alone(items, i) ==> (member(
                e,
                (#[trigger] items[i]).0,
            ) matches Some(x) && comes_back_as(items[i].1, x)),
    }
}

/// Whether a text is read as what a document comes back as.
pub open spec fn is_read_back(d: Doc, text: Seq<char>) -> bool {
    parsed(text) matches Some(e) && comes_back_as(d, e)
}

/// How deep documents may be nested to be read back.
pub const MAX_NESTING: u8 = 100;

/// A value and its text.
pub(crate) struct Print {
    /// The text.
    pub text: Result<String, serde_json::Error>,
    /// The value.
    pub value: Value,
}

/// `serde_json::to_string_pretty` of the `serde_json::Value` that the document
/// makes. It always succeeds; the text is a function of the document alone, and
/// `serde_json::from_str` gives back what was printed: numbers exactly, as the
/// feature `float_roundtrip` has it, members under their names, and lists in
/// order. Reading takes a limited nesting. With `bare` set, only the value is
/// made, and nothing is printed.
#[verifier::external_body]
pub(crate) fn print(doc: &Json, bare: bool) -> (r: Print)
    ensures
        match r.text {
            Ok(text) => bare || (text@ == printed(doc.doc()) && (nests_within(
                doc.doc(),
                MAX_NESTING as nat,
            ) ==> is_read_back(doc.doc(), text@))),
            Err(_) => bare,
        },
{
    let value = match doc {
        Json::Null => Value::Null,
        Json::Bool(b) => (*b).into(),
        Json::Whole(n) => (*n).into(),
        Json::Number(t) => Number::from_f64(t.parse().unwrap_or_default()).into(),
        Json::Text(t) => t.as_str().into(),
        Json::List(items) => items.iter().map(|v| print(v, true).value).collect(),
        Json::Object(items) =>
            items.iter().map(|(k, v)| (k.clone(), print(v, true).value)).collect(),
    };
    let text = if bare { Ok(String::new()) } else { to_string_pretty(&value) };
    Print { text, value }
}

} // verus!
