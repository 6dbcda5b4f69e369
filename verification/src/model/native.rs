//! The library's own binary model format.
//!
//! A model is a row of words of eight bytes each, lowest byte first. It is made
//! of lists, each a count and then as many words: a header, the objective's
//! name, the weights of trees, the two parts of a linear model, and for every
//! tree its nodes and its categories.

use vstd::bytes::{
    lemma_auto_spec_u64_to_from_le_bytes, spec_u64_from_le_bytes, spec_u64_to_le_bytes,
    u64_from_le_bytes, u64_to_le_bytes,
};
use vstd::prelude::*;
use vstd::utf8::{
    decode_utf8, encode_utf8, encode_utf8_decode_utf8, encode_utf8_valid_utf8, valid_utf8,
};

use crate::error::SequoiaError;
use crate::layout::{entry_place, place_entry};
use crate::learner::model::{BoostedModel, LinearModel};
use crate::number::Single;
use crate::tree::regtree::{Node, RegTree};

verus! {

/// The first word of every model.
pub const MARK: u64 = 0x5351_4f49_4131;

/// The number of words in a header.
pub const HEADER: usize = 8;

/// The number of words in a node.
pub const NODE: usize = 11;

/// What is added to a child's number to make a word of it.
pub const SHIFT: i64 = 0x8000_0000;

/// What a model is made of.
#[verifier::ext_equal]
pub struct Contents {
    /// The nodes and categories of every tree.
    pub trees: Seq<(Seq<Node>, Seq<u32>)>,
    /// The weight of every tree.
    pub weights: Seq<Single>,
    /// The base margin.
    pub base: Single,
    /// The objective's name.
    pub objective: Seq<char>,
    /// The number of classes.
    pub num_class: usize,
    /// The number of features.
    pub width: usize,
    /// The best iteration, if there is one.
    pub best: Option<usize>,
    /// The weights and biases of a linear model, if there is one.
    pub linear: Option<(Seq<Single>, Seq<Single>)>,
}

/// What a model is made of.
pub open spec fn contents_of(m: &BoostedModel) -> Contents {
    Contents {
        trees: Seq::new(
            m.tree_list().len(),
            |t: int| (m.tree_list()[t].node_list(), m.tree_list()[t].category_list()),
        ),
        weights: m.weight_list(),
        base: m.base(),
        objective: m.objective_name(),
        num_class: m.classes(),
        width: m.width() as usize,
        best: m.best(),
        linear: match m.linear_part() {
            Some(l) => Some((l.coefficients(), l.biases())),
            None => None,
        },
    }
}

/// A list, preceded by its length.
pub open spec fn counted(list: Seq<u64>) -> Seq<u64> {
    seq![list.len() as u64] + list
}

/// The words of a truth value.
pub open spec fn flag(b: bool) -> u64 {
    if b { 1 } else { 0 }
}

/// The words of a node.
pub open spec fn node_words(n: Node) -> Seq<u64> {
    seq![
        n.split_feature as u64,
        n.split_cond.bits as u64,
        flag(n.default_left),
        (n.left + SHIFT) as u64,
        (n.right + SHIFT) as u64,
        n.leaf_value.bits as u64,
        n.sum_hess.bits as u64,
        n.split_gain.bits as u64,
        flag(n.is_categorical),
        n.cat_begin as u64,
        n.cat_end as u64,
    ]
}

/// The words of nodes.
pub open spec fn nodes_words(nodes: Seq<Node>) -> Seq<u64> {
    Seq::new(
        nodes.len() * 11,
        |j: int| node_words(nodes[j / 11])[j % 11],
    )
}

/// The words of numbers.
pub open spec fn singles_words(list: Seq<Single>) -> Seq<u64> {
    Seq::new(list.len(), |i: int| list[i].bits as u64)
}

/// The words of categories.
pub open spec fn counts_words(list: Seq<u32>) -> Seq<u64> {
    Seq::new(list.len(), |i: int| list[i] as u64)
}

/// The words of a text: its bytes.
pub open spec fn text_words(text: Seq<char>) -> Seq<u64> {
    Seq::new(encode_utf8(text).len(), |i: int| encode_utf8(text)[i] as u64)
}

/// The words of the first `n` trees.
pub open spec fn trees_words(trees: Seq<(Seq<Node>, Seq<u32>)>, n: int) -> Seq<u64>
    decreases n,
{
    if n <= 0 {
        Seq::empty()
    } else {
        trees_words(trees, n - 1) + counted(nodes_words(trees[n - 1].0)) + counted(
            counts_words(trees[n - 1].1),
        )
    }
}

/// The words of a header.
pub open spec fn header_words(c: Contents) -> Seq<u64> {
    seq![
        MARK,
        c.width as u64,
        c.num_class as u64,
        c.base.bits as u64,
        flag(c.best is Some),
        match c.best {
            Some(b) => b as u64,
            None => 0,
        },
        flag(c.linear is Some),
        c.trees.len() as u64,
    ]
}

/// The weights of the linear part, or none.
pub open spec fn linear_weights(c: Contents) -> Seq<Single> {
    match c.linear {
        Some((weights, _)) => weights,
        None => Seq::empty(),
    }
}

/// The biases of the linear part, or none.
pub open spec fn linear_biases(c: Contents) -> Seq<Single> {
    match c.linear {
        Some((_, biases)) => biases,
        None => Seq::empty(),
    }
}

/// The words of a model.
pub open spec fn model_words(c: Contents) -> Seq<u64> {
    counted(header_words(c)) + counted(text_words(c.objective)) + counted(
        singles_words(c.weights),
    ) + counted(singles_words(linear_weights(c))) + counted(singles_words(linear_biases(c)))
        + trees_words(c.trees, c.trees.len() as int)
}

/// The bytes of words.
pub open spec fn word_bytes(words: Seq<u64>) -> Seq<u8> {
    Seq::new(words.len() * 8, |j: int| spec_u64_to_le_bytes(words[j / 8])[j % 8])
}

/// The words of bytes, if they are whole.
pub open spec fn byte_words(bytes: Seq<u8>) -> Option<Seq<u64>> {
    if bytes.len() % 8 == 0 {
        Some(
            Seq::new(
                bytes.len() / 8,
                |i: int| spec_u64_from_le_bytes(bytes.subrange(i * 8, i * 8 + 8)),
            ),
        )
    } else {
        None
    }
}

/// The list that starts at a place, and the place after it.
pub open spec fn list_at(words: Seq<u64>, at: int) -> Option<(Seq<u64>, int)> {
    if at < words.len() && words[at] <= words.len() - at - 1 {
        Some((words.subrange(at + 1, at + 1 + words[at]), at + 1 + words[at]))
    } else {
        None
    }
}

/// Whether a word is a count of 32 bits.
pub open spec fn small(w: u64) -> bool {
    w <= u32::MAX
}

/// Whether a word is a truth value.
pub open spec fn truth(w: u64) -> bool {
    w <= 1
}

/// Whether the words from a place on are those of a node.
pub open spec fn is_node(list: Seq<u64>, at: int) -> bool {
    &&& small(list[at])
    &&& small(list[at + 1])
    &&& truth(list[at + 2])
    &&& small(list[at + 3])
    &&& small(list[at + 4])
    &&& small(list[at + 5])
    &&& small(list[at + 6])
    &&& small(list[at + 7])
    &&& truth(list[at + 8])
    &&& small(list[at + 9])
    &&& small(list[at + 10])
}

/// The node whose words start at a place.
pub open spec fn node_at(list: Seq<u64>, at: int) -> Node {
    Node {
        split_feature: list[at] as u32,
        split_cond: Single { bits: list[at + 1] as u32 },
        default_left: list[at + 2] == 1,
        left: (list[at + 3] - SHIFT) as i32,
        right: (list[at + 4] - SHIFT) as i32,
        leaf_value: Single { bits: list[at + 5] as u32 },
        sum_hess: Single { bits: list[at + 6] as u32 },
        split_gain: Single { bits: list[at + 7] as u32 },
        is_categorical: list[at + 8] == 1,
        cat_begin: list[at + 9] as u32,
        cat_end: list[at + 10] as u32,
    }
}

/// The nodes of a list of words.
pub open spec fn nodes_read(list: Seq<u64>) -> Option<Seq<Node>> {
    if list.len() % 11 == 0 && forall|i: int|
        0 <= i < list.len() / 11 ==> #[trigger] is_node(list, i * 11) {
        Some(Seq::new((list.len() / 11) as nat, |i: int| node_at(list, i * 11)))
    } else {
        None
    }
}

/// The counts of 32 bits that words are.
pub open spec fn counts_read(list: Seq<u64>) -> Option<Seq<u32>> {
    if forall|i: int| 0 <= i < list.len() ==> small(#[trigger] list[i]) {
        Some(Seq::new(list.len(), |i: int| list[i] as u32))
    } else {
        None
    }
}

/// The numbers that words are.
pub open spec fn singles_read(list: Seq<u64>) -> Option<Seq<Single>> {
    match counts_read(list) {
        Some(bits) => Some(Seq::new(bits.len(), |i: int| Single { bits: bits[i] })),
        None => None,
    }
}

/// The text that words are the bytes of.
pub open spec fn text_read(list: Seq<u64>) -> Option<Seq<char>> {
    let bytes = Seq::new(list.len(), |i: int| list[i] as u8);
    if (forall|i: int| 0 <= i < list.len() ==> #[trigger] list[i] <= u8::MAX) && valid_utf8(bytes) {
        Some(decode_utf8(bytes))
    } else {
        None
    }
}

/// The next `n` trees from a place on, and the place after them.
pub open spec fn trees_read(words: Seq<u64>, at: int, n: int) -> Option<
    (Seq<(Seq<Node>, Seq<u32>)>, int),
>
    decreases n,
{
    if n <= 0 {
        Some((Seq::empty(), at))
    } else {
        match trees_read(words, at, n - 1) {
            None => None,
            Some((trees, a)) => match list_at(words, a) {
                None => None,
                Some((first, b)) => match list_at(words, b) {
                    None => None,
                    Some((second, c)) => match nodes_read(first) {
                        None => None,
                        Some(nodes) => match counts_read(second) {
                            None => None,
                            Some(cats) => Some((trees.push((nodes, cats)), c)),
                        },
                    },
                },
            },
        }
    }
}

/// Whether a header is one.
pub open spec fn is_header(h: Seq<u64>) -> bool {
    &&& h.len() == HEADER
    &&& h[0] == MARK
    &&& h[1] <= usize::MAX
    &&& h[2] <= usize::MAX
    &&& small(h[3])
    &&& truth(h[4])
    &&& h[5] <= usize::MAX
    &&& truth(h[6])
}

/// What a model of the given parts is made of.
pub open spec fn joined(
    h: Seq<u64>,
    objective: Seq<char>,
    weights: Seq<Single>,
    linear: Seq<Single>,
    biases: Seq<Single>,
    trees: Seq<(Seq<Node>, Seq<u32>)>,
) -> Contents {
    Contents {
        trees,
        weights,
        base: Single { bits: h[3] as u32 },
        objective,
        num_class: h[2] as usize,
        width: h[1] as usize,
        best: if h[4] == 1 { Some(h[5] as usize) } else { None },
        linear: if h[6] == 1 { Some((linear, biases)) } else { None },
    }
}

/// What words hold behind the header and four lists.
pub open spec fn rest_read(
    words: Seq<u64>,
    h: Seq<u64>,
    text: Seq<u64>,
    weights: Seq<u64>,
    linear: Seq<u64>,
    biases: Seq<u64>,
    at: int,
) -> Option<Contents> {
    match (text_read(text), singles_read(weights), singles_read(linear), singles_read(biases)) {
        (Some(o), Some(w), Some(l), Some(b)) => match trees_read(words, at, h[7] as int) {
            Some((trees, end)) => if end == words.len() {
                Some(joined(h, o, w, l, b, trees))
            } else {
                None
            },
            None => None,
        },
        _ => None,
    }
}

/// What words hold, if they are those of a model.
pub open spec fn model_read(words: Seq<u64>) -> Option<Contents> {
    match list_at(words, 0) {
        None => None,
        Some((h, a)) => if !is_header(h) {
            None
        } else {
            match list_at(words, a) {
                None => None,
                Some((text, b)) => match list_at(words, b) {
                    None => None,
                    Some((weights, c)) => match list_at(words, c) {
                        None => None,
                        Some((linear, d)) => match list_at(words, d) {
                            None => None,
                            Some((biases, e)) => rest_read(
                                words,
                                h,
                                text,
                                weights,
                                linear,
                                biases,
                                e,
                            ),
                        },
                    },
                },
            }
        },
    }
}

/// Whether a model has the given contents.
pub open spec fn holds(m: &BoostedModel, c: Contents) -> bool {
    contents_of(m) == c
}

/// Append a list, preceded by its length.
fn push_list(out: &mut Vec<u64>, list: &Vec<u64>)
    ensures
        final(out)@ == old(out)@ + counted(list@),
{
    out.push(list.len() as u64);
    let mut i: usize = 0;
    let ghost start = old(out)@.push(list.len() as u64);
    while i < list.len()
        invariant
            start == old(out)@.push(list.len() as u64),
            i <= list.len(),
            out@ == start + list@.take(i as int),
        decreases list.len() - i,
    {
        out.push(list[i]);
        assert(out@ =~= start + list@.take(i + 1));
        i = i + 1;
    }
    assert(out@ =~= old(out)@ + counted(list@));
}

fn flag_word(b: bool) -> (r: u64)
    ensures
        r == flag(b),
{
    if b { 1 } else { 0 }
}

fn words_of_nodes(nodes: &[Node]) -> (r: Vec<u64>)
    ensures
        r@ == nodes_words(nodes@),
{
    let mut out: Vec<u64> = Vec::new();
    let mut i: usize = 0;
    assert(out@ =~= nodes_words(nodes@.take(0)));
    while i < nodes.len()
        invariant
            i <= nodes.len(),
            out@ == nodes_words(nodes@.take(i as int)),
        decreases nodes.len() - i,
    {
        let n = nodes[i];
        let ghost was = out@;
        out.push(n.split_feature as u64);
        out.push(n.split_cond.bits as u64);
        out.push(flag_word(n.default_left));
        out.push((n.left as i64 + SHIFT) as u64);
        out.push((n.right as i64 + SHIFT) as u64);
        out.push(n.leaf_value.bits as u64);
        out.push(n.sum_hess.bits as u64);
        out.push(n.split_gain.bits as u64);
        out.push(flag_word(n.is_categorical));
        out.push(n.cat_begin as u64);
        out.push(n.cat_end as u64);
        proof {
            assert(out@ =~= was + node_words(n));
            let next = nodes_words(nodes@.take(i + 1));
            assert(nodes@.take(i + 1)[i as int] == n);
            assert forall|j: int| 0 <= j < next.len() implies #[trigger] next[j] == out@[j] by {
                place_entry(i + 1, 11, j);
                if j < was.len() {
                    place_entry(i as int, 11, j);
                    assert(nodes@.take(i + 1)[j / 11] == nodes@.take(i as int)[j / 11]);
                    assert(was[j] == node_words(nodes@.take(i as int)[j / 11])[j % 11]);
                } else {
                    entry_place(i + 1, 11, i as int, j - i * 11);
                }
            }
            assert(out@ =~= next);
        }
        i = i + 1;
    }
    assert(nodes@.take(nodes.len() as int) =~= nodes@);
    out
}

fn words_of_singles(list: &[Single]) -> (r: Vec<u64>)
    ensures
        r@ == singles_words(list@),
{
    let mut out: Vec<u64> = Vec::new();
    let mut i: usize = 0;
    while i < list.len()
        invariant
            i <= list.len(),
            out.len() == i,
            forall|k: int| 0 <= k < i ==> #[trigger] out[k] == list[k].bits as u64,
        decreases list.len() - i,
    {
        out.push(list[i].bits as u64);
        i = i + 1;
    }
    assert(out@ =~= singles_words(list@));
    out
}

fn words_of_counts(list: &[u32]) -> (r: Vec<u64>)
    ensures
        r@ == counts_words(list@),
{
    let mut out: Vec<u64> = Vec::new();
    let mut i: usize = 0;
    while i < list.len()
        invariant
            i <= list.len(),
            out.len() == i,
            forall|k: int| 0 <= k < i ==> #[trigger] out[k] == list[k] as u64,
        decreases list.len() - i,
    {
        out.push(list[i] as u64);
        i = i + 1;
    }
    assert(out@ =~= counts_words(list@));
    out
}

fn words_of_text(text: &str) -> (r: Vec<u64>)
    ensures
        r@ == text_words(text@),
{
    let bytes = text.as_bytes();
    let mut out: Vec<u64> = Vec::new();
    let mut i: usize = 0;
    while i < bytes.len()
        invariant
            i <= bytes.len(),
            out.len() == i,
            forall|k: int| 0 <= k < i ==> #[trigger] out[k] == bytes[k] as u64,
        decreases bytes.len() - i,
    {
        out.push(bytes[i] as u64);
        i = i + 1;
    }
    assert(out@ =~= text_words(text@));
    out
}

fn bytes_of(words: &Vec<u64>) -> (r: Vec<u8>)
    ensures
        r@ == word_bytes(words@),
{
    let mut out: Vec<u8> = Vec::new();
    let mut i: usize = 0;
    assert(out@ =~= word_bytes(words@.take(0)));
    while i < words.len()
        invariant
            i <= words.len(),
            out@ == word_bytes(words@.take(i as int)),
        decreases words.len() - i,
    {
        let ghost was = out@;
        let mut more = u64_to_le_bytes(words[i]);
        let ghost eight = more@;
        out.append(&mut more);
        proof {
            lemma_auto_spec_u64_to_from_le_bytes();
            assert(eight == spec_u64_to_le_bytes(words[i as int]));
            let next = word_bytes(words@.take(i + 1));
            assert(words@.take(i + 1)[i as int] == words[i as int]);
            assert forall|j: int| 0 <= j < next.len() implies #[trigger] next[j] == out@[j] by {
                place_entry(i + 1, 8, j);
                if j < was.len() {
                    place_entry(i as int, 8, j);
                    assert(words@.take(i + 1)[j / 8] == words@.take(i as int)[j / 8]);
                    assert(was[j] == spec_u64_to_le_bytes(words@.take(i as int)[j / 8])[j % 8]);
                } else {
                    entry_place(i + 1, 8, i as int, j - i * 8);
                }
            }
            assert(out@ =~= next);
        }
        i = i + 1;
    }
    assert(words@.take(words.len() as int) =~= words@);
    out
}

impl BoostedModel {
    /// The model in binary form.
    pub fn to_bytes(&self) -> (r: Result<Vec<u8>, SequoiaError>)
        ensures
            r matches Ok(bytes) && bytes@ == word_bytes(model_words(contents_of(self))),
    {
        let ghost c = contents_of(self);
        let trees = self.trees();
        let best = self.best_iteration();
        let (best_flag, best_word): (bool, u64) = match best {
            Some(b) => (true, b as u64),
            None => (false, 0),
        };
        let (has_linear, linear, biases) = match self.linear() {
            Some(l) => (true, words_of_singles(l.weights()), words_of_singles(l.bias())),
            None => {
                let none: Vec<Single> = Vec::new();
                (false, words_of_singles(none.as_slice()), words_of_singles(none.as_slice()))
            },
        };
        proof {
            assert(linear@ =~= singles_words(linear_weights(c)));
            assert(biases@ =~= singles_words(linear_biases(c)));
        }
        let mut header: Vec<u64> = Vec::new();
        header.push(MARK);
        header.push(self.n_features() as u64);
        header.push(self.num_class() as u64);
        header.push(self.base_score().bits as u64);
        header.push(flag_word(best_flag));
        header.push(best_word);
        header.push(flag_word(has_linear));
        header.push(trees.len() as u64);
        assert(header@ =~= header_words(c));
        let mut out: Vec<u64> = Vec::new();
        push_list(&mut out, &header);
        push_list(&mut out, &words_of_text(self.objective()));
        push_list(&mut out, &words_of_singles(self.tree_weights()));
        push_list(&mut out, &linear);
        push_list(&mut out, &biases);
        let ghost front = out@;
        let mut t: usize = 0;
        assert(front + trees_words(c.trees, 0) =~= front);
        while t < trees.len()
            invariant
                trees@ == self.tree_list(),
                c == contents_of(self),
                t <= trees.len(),
                out@ == front + trees_words(c.trees, t as int),
            decreases trees.len() - t,
        {
            let ghost was = out@;
            let nodes = words_of_nodes(trees[t].nodes());
            let cats = words_of_counts(trees[t].categories());
            push_list(&mut out, &nodes);
            push_list(&mut out, &cats);
            proof {
                assert(c.trees[t as int] == (
                    trees[t as int].node_list(),
                    trees[t as int].category_list(),
                ));
                assert(out@ =~= front + trees_words(c.trees, t + 1));
            }
            t = t + 1;
        }
        proof {
            assert(front =~= counted(header_words(c)) + counted(text_words(c.objective)) + counted(
                singles_words(c.weights),
            ) + counted(singles_words(linear_weights(c))) + counted(
                singles_words(linear_biases(c)),
            ));
        }
        Ok(bytes_of(&out))
    }
}

/// The words of bytes.
fn words_of_bytes(bytes: &[u8]) -> (r: Option<Vec<u64>>)
    ensures
        match r {
            Some(words) => byte_words(bytes@) == Some(words@),
            None => byte_words(bytes@) is None,
        },
{
    if bytes.len() % 8 != 0 {
        return None;
    }
    let n: usize = bytes.len() / 8;
    let mut out: Vec<u64> = Vec::new();
    let mut i: usize = 0;
    while i < n
        invariant
            n == bytes.len() / 8,
            i <= n,
            out.len() == i,
            forall|k: int|
                0 <= k < i ==> #[trigger] out[k] == spec_u64_from_le_bytes(
                    bytes@.subrange(k * 8, k * 8 + 8),
                ),
        decreases n - i,
    {
        out.push(u64_from_le_bytes(vstd::slice::slice_subrange(bytes, i * 8, i * 8 + 8)));
        i = i + 1;
    }
    proof {
        assert(out@ =~= byte_words(bytes@)->0);
    }
    Some(out)
}

/// The list that starts at a place, and the place after it.
fn take_list(words: &Vec<u64>, at: usize) -> (r: Option<(Vec<u64>, usize)>)
    requires
        at <= words.len(),
    ensures
        match r {
            Some((list, next)) => list_at(words@, at as int) == Some((list@, next as int)) && next
                <= words.len(),
            None => list_at(words@, at as int) is None,
        },
{
    if at >= words.len() {
        return None;
    }
    let room: usize = words.len() - at - 1;
    if words[at] > room as u64 {
        return None;
    }
    let n: usize = words[at] as usize;
    let mut out: Vec<u64> = Vec::new();
    let mut i: usize = 0;
    while i < n
        invariant
            at + 1 + n <= words.len(),
            i <= n,
            out.len() == i,
            forall|k: int| 0 <= k < i ==> #[trigger] out[k] == words[at + 1 + k],
        decreases n - i,
    {
        out.push(words[at + 1 + i]);
        i = i + 1;
    }
    assert(out@ =~= words@.subrange(at + 1, at + 1 + n));
    Some((out, at + 1 + n))
}

fn is_node_at(list: &Vec<u64>, at: usize) -> (r: bool)
    requires
        at + 11 <= list.len(),
    ensures
        r == is_node(list@, at as int),
{
    let top: u64 = u32::MAX as u64;
    list[at] <= top && list[at + 1] <= top && list[at + 2] <= 1 && list[at + 3] <= top && list[at
        + 4] <= top && list[at + 5] <= top && list[at + 6] <= top && list[at + 7] <= top && list[at
        + 8] <= 1 && list[at + 9] <= top && list[at + 10] <= top
}

fn read_node(list: &Vec<u64>, at: usize) -> (r: Node)
    requires
        at + 11 <= list.len(),
        is_node(list@, at as int),
    ensures
        r == node_at(list@, at as int),
{
    Node {
        split_feature: list[at] as u32,
        split_cond: Single { bits: list[at + 1] as u32 },
        default_left: list[at + 2] == 1,
        left: (list[at + 3] as i64 - SHIFT) as i32,
        right: (list[at + 4] as i64 - SHIFT) as i32,
        leaf_value: Single { bits: list[at + 5] as u32 },
        sum_hess: Single { bits: list[at + 6] as u32 },
        split_gain: Single { bits: list[at + 7] as u32 },
        is_categorical: list[at + 8] == 1,
        cat_begin: list[at + 9] as u32,
        cat_end: list[at + 10] as u32,
    }
}

fn read_nodes(list: &Vec<u64>) -> (r: Option<Vec<Node>>)
    ensures
        match r {
            Some(nodes) => nodes_read(list@) == Some(nodes@),
            None => nodes_read(list@) is None,
        },
{
    if list.len() % 11 != 0 {
        return None;
    }
    let n: usize = list.len() / 11;
    let mut out: Vec<Node> = Vec::new();
    let mut i: usize = 0;
    while i < n
        invariant
            list.len() % 11 == 0,
            n == list.len() / 11,
            i <= n,
            out.len() == i,
            forall|k: int| 0 <= k < i ==> #[trigger] is_node(list@, k * 11),
            forall|k: int| 0 <= k < i ==> #[trigger] out[k] == node_at(list@, k * 11),
        decreases n - i,
    {
        if !is_node_at(list, i * 11) {
            return None;
        }
        out.push(read_node(list, i * 11));
        i = i + 1;
    }
    proof {
        assert(out@ =~= nodes_read(list@)->0);
    }
    Some(out)
}

fn read_counts(list: &Vec<u64>) -> (r: Option<Vec<u32>>)
    ensures
        match r {
            Some(counts) => counts_read(list@) == Some(counts@),
            None => counts_read(list@) is None,
        },
{
    let mut out: Vec<u32> = Vec::new();
    let mut i: usize = 0;
    while i < list.len()
        invariant
            i <= list.len(),
            out.len() == i,
            forall|k: int| 0 <= k < i ==> small(#[trigger] list[k]) && out[k] == list[k] as u32,
        decreases list.len() - i,
    {
        if list[i] > u32::MAX as u64 {
            assert(!small(list@[i as int]));
            return None;
        }
        out.push(list[i] as u32);
        i = i + 1;
    }
    proof {
        assert forall|k: int| 0 <= k < list@.len() implies small(#[trigger] list@[k]) by {
            assert(small(list[k]));
        }
        assert forall|k: int| 0 <= k < list@.len() implies out@[k] == list@[k] as u32 by {
            assert(small(list[k]));
        }
        assert(out@ =~= counts_read(list@)->0);
    }
    Some(out)
}

fn read_singles(list: &Vec<u64>) -> (r: Option<Vec<Single>>)
    ensures
        match r {
            Some(values) => singles_read(list@) == Some(values@),
            None => singles_read(list@) is None,
        },
{
    match read_counts(list) {
        None => None,
        Some(bits) => {
            let mut out: Vec<Single> = Vec::new();
            let mut i: usize = 0;
            while i < bits.len()
                invariant
                    i <= bits.len(),
                    out.len() == i,
                    forall|k: int| 0 <= k < i ==> #[trigger] out[k] == (Single { bits: bits[k] }),
                decreases bits.len() - i,
            {
                out.push(Single { bits: bits[i] });
                i = i + 1;
            }
            assert(out@ =~= singles_read(list@)->0);
            Some(out)
        },
    }
}

/// `String::from_utf8`: the text that bytes encode, if they are valid UTF-8.
#[verifier::external_body]
fn text_of(bytes: Vec<u8>) -> (r: Option<String>)
    ensures
        match r {
            Some(s) => valid_utf8(bytes@) && s@ == decode_utf8(bytes@),
            None => !valid_utf8(bytes@),
        },
{
    String::from_utf8(bytes).ok()
}

fn read_text(list: &Vec<u64>) -> (r: Option<String>)
    ensures
        match r {
            Some(s) => text_read(list@) == Some(s@),
            None => text_read(list@) is None,
        },
{
    let mut bytes: Vec<u8> = Vec::new();
    let mut i: usize = 0;
    while i < list.len()
        invariant
            i <= list.len(),
            bytes.len() == i,
            forall|k: int| 0 <= k < i ==> #[trigger] list@[k] <= u8::MAX,
            forall|k: int| 0 <= k < i ==> #[trigger] bytes[k] == list@[k] as u8,
        decreases list.len() - i,
    {
        if list[i] > u8::MAX as u64 {
            assert(list@[i as int] > u8::MAX);
            return None;
        }
        bytes.push(list[i] as u8);
        i = i + 1;
    }
    assert(bytes@ =~= Seq::new(list@.len(), |i: int| list@[i] as u8));
    text_of(bytes)
}

/// Whether trees have the given nodes and categories.
spec fn are_trees(list: Seq<RegTree>, trees: Seq<(Seq<Node>, Seq<u32>)>) -> bool {
    &&& list.len() == trees.len()
    &&& forall|t: int|
        #![trigger list[t]]
        0 <= t < list.len() ==> list[t].node_list() == trees[t].0 && list[t].category_list()
            == trees[t].1
}

proof fn trees_stay_refused(words: Seq<u64>, at: int, a: int, b: int)
    requires
        a <= b,
        trees_read(words, at, a) is None,
    ensures
        trees_read(words, at, b) is None,
    decreases b - a,
{
    if a < b {
        trees_stay_refused(words, at, a, b - 1);
    }
}

/// The trees from a place on.
fn read_trees(words: &Vec<u64>, at: usize, n: u64) -> (r: Option<(Vec<RegTree>, usize)>)
    requires
        at <= words.len(),
    ensures
        match r {
            Some((list, next)) => {
                &&& trees_read(words@, at as int, n as int) matches Some((trees, end))
                &&& end == next
                &&& are_trees(list@, trees)
            },
            None => trees_read(words@, at as int, n as int) is None,
        },
{
    let mut out: Vec<RegTree> = Vec::new();
    let mut here: usize = at;
    let mut t: u64 = 0;
    let ghost mut trees: Seq<(Seq<Node>, Seq<u32>)> = Seq::empty();
    while t < n
        invariant
            at <= words.len(),
            here <= words.len(),
            t <= n,
            trees_read(words@, at as int, t as int) == Some((trees, here as int)),
            are_trees(out@, trees),
        decreases n - t,
    {
        proof {
            if trees_read(words@, at as int, t + 1) is None {
                trees_stay_refused(words@, at as int, t + 1, n as int);
            }
        }
        let (first, b) = match take_list(words, here) {
            None => {
                return None;
            },
            Some(p) => p,
        };
        let (second, c) = match take_list(words, b) {
            None => {
                return None;
            },
            Some(p) => p,
        };
        let nodes = match read_nodes(&first) {
            None => {
                return None;
            },
            Some(v) => v,
        };
        let cats = match read_counts(&second) {
            None => {
                return None;
            },
            Some(v) => v,
        };
        proof {
            trees = trees.push((nodes@, cats@));
        }
        out.push(RegTree::from_parts(nodes, cats));
        here = c;
        t = t + 1;
    }
    Some((out, here))
}

fn is_header_list(h: &Vec<u64>) -> (r: bool)
    ensures
        r == is_header(h@),
{
    let top: u64 = usize::MAX as u64;
    h.len() == HEADER && h[0] == MARK && h[1] <= top && h[2] <= top && h[3] <= u32::MAX as u64
        && h[4] <= 1 && h[5] <= top && h[6] <= 1
}

/// The model that words are those of.
fn read_model(words: &Vec<u64>) -> (r: Option<BoostedModel>)
    ensures
        match r {
            Some(m) => model_read(words@) matches Some(c) && holds(&m, c),
            None => model_read(words@) is None,
        },
{
    let (h, a) = match take_list(words, 0) {
        None => {
            return None;
        },
        Some(p) => p,
    };
    if !is_header_list(&h) {
        return None;
    }
    let (text, b) = match take_list(words, a) {
        None => {
            return None;
        },
        Some(p) => p,
    };
    let (weights, c) = match take_list(words, b) {
        None => {
            return None;
        },
        Some(p) => p,
    };
    let (linear, d) = match take_list(words, c) {
        None => {
            return None;
        },
        Some(p) => p,
    };
    let (biases, e) = match take_list(words, d) {
        None => {
            return None;
        },
        Some(p) => p,
    };
    let objective = match read_text(&text) {
        None => {
            return None;
        },
        Some(t) => t,
    };
    let tree_weights = match read_singles(&weights) {
        None => {
            return None;
        },
        Some(v) => v,
    };
    let linear_weights = match read_singles(&linear) {
        None => {
            return None;
        },
        Some(v) => v,
    };
    let bias = match read_singles(&biases) {
        None => {
            return None;
        },
        Some(v) => v,
    };
    let (trees, end) = match read_trees(words, e, h[7]) {
        None => {
            return None;
        },
        Some(p) => p,
    };
    if end != words.len() {
        return None;
    }
    let linear_part = if h[6] == 1 {
        Some(LinearModel::new(linear_weights, bias))
    } else {
        None
    };
    let m = BoostedModel::assembled(
        trees,
        tree_weights,
        Single { bits: h[3] as u32 },
        objective,
        h[2] as usize,
        h[1] as usize,
        if h[4] == 1 {
            Some(h[5] as usize)
        } else {
            None
        },
        linear_part,
    );
    proof {
        let goal = model_read(words@)->0;
        assert(contents_of(&m).trees =~= goal.trees);
        assert(contents_of(&m) =~= goal);
    }
    Some(m)
}

impl BoostedModel {
    /// The model that bytes hold. Bytes that are not those of a model are
    /// refused.
    pub fn from_bytes(bytes: &[u8]) -> (r: Result<Self, SequoiaError>)
        ensures
            match byte_words(bytes@) {
                None => is_malformed(r),
                Some(words) => match model_read(words) {
                    None => is_malformed(r),
                    Some(c) => r matches Ok(m) && holds(&m, c),
                },
            },
    {
        match words_of_bytes(bytes) {
            None => Err(malformed()),
            Some(words) => match read_model(&words) {
                None => Err(malformed()),
                Some(m) => Ok(m),
            },
        }
    }
}

/// Whether bytes were refused.
pub open spec fn is_malformed(r: Result<BoostedModel, SequoiaError>) -> bool {
    r matches Err(SequoiaError::ModelFormat(text)) && text@ == "malformed binary model"@
}

fn malformed() -> (r: SequoiaError)
    ensures
        r matches SequoiaError::ModelFormat(text) && text@ == "malformed binary model"@,
{
    SequoiaError::ModelFormat("malformed binary model".to_owned())
}

proof fn counted_is_taken(front: Seq<u64>, list: Seq<u64>, back: Seq<u64>)
    requires
        list.len() <= u64::MAX,
    ensures
        list_at(front + counted(list) + back, front.len() as int) == Some(
            (list, front.len() as int + 1 + list.len()),
        ),
{
    let words = front + counted(list) + back;
    assert(words[front.len() as int] == list.len() as u64);
    let at = front.len() as int;
    assert(words.subrange(at + 1, at + 1 + list.len()) =~= list);
}

proof fn nodes_come_back(nodes: Seq<Node>)
    ensures
        nodes_read(nodes_words(nodes)) == Some(nodes),
{
    let list = nodes_words(nodes);
    let n = nodes.len() as int;
    assert(list.len() == n * 11);
    assert(list.len() / 11 == n && list.len() % 11 == 0);
    assert forall|i: int| 0 <= i < n implies #[trigger] is_node(list, i * 11) && node_at(
        list,
        i * 11,
    ) == nodes[i] by {
        let w = node_words(nodes[i]);
        assert forall|k: int| 0 <= k < 11 implies list[i * 11 + k] == w[k] by {
            entry_place(n, 11, i, k);
        }
        assert(list[i * 11 + 0] == w[0]);
        assert(list[i * 11 + 1] == w[1]);
        assert(list[i * 11 + 2] == w[2]);
        assert(list[i * 11 + 3] == w[3]);
        assert(list[i * 11 + 4] == w[4]);
        assert(list[i * 11 + 5] == w[5]);
        assert(list[i * 11 + 6] == w[6]);
        assert(list[i * 11 + 7] == w[7]);
        assert(list[i * 11 + 8] == w[8]);
        assert(list[i * 11 + 9] == w[9]);
        assert(list[i * 11 + 10] == w[10]);
    }
    assert(nodes_read(list)->0 =~= nodes);
}

proof fn counts_come_back(list: Seq<u32>)
    ensures
        counts_read(counts_words(list)) == Some(list),
{
    assert(counts_read(counts_words(list))->0 =~= list);
}

proof fn singles_come_back(list: Seq<Single>)
    ensures
        singles_read(singles_words(list)) == Some(list),
{
    assert(singles_read(singles_words(list))->0 =~= list);
}

proof fn texts_come_back(text: Seq<char>)
    ensures
        text_read(text_words(text)) == Some(text),
{
    encode_utf8_valid_utf8(text);
    encode_utf8_decode_utf8(text);
    let list = text_words(text);
    let bytes = Seq::new(list.len(), |i: int| list[i] as u8);
    assert(bytes =~= encode_utf8(text));
}

/// Whether the lists of a model can be counted.
pub open spec fn countable(c: Contents) -> bool {
    &&& c.trees.len() <= u64::MAX
    &&& c.weights.len() <= u64::MAX
    &&& encode_utf8(c.objective).len() <= u64::MAX
    &&& linear_weights(c).len() <= u64::MAX
    &&& linear_biases(c).len() <= u64::MAX
    &&& forall|t: int|
        #![trigger c.trees[t]]
        0 <= t < c.trees.len() ==> c.trees[t].0.len() * 11 <= u64::MAX && c.trees[t].1.len()
            <= u64::MAX
}

proof fn trees_come_back(
    front: Seq<u64>,
    trees: Seq<(Seq<Node>, Seq<u32>)>,
    n: int,
    back: Seq<u64>,
)
    requires
        0 <= n <= trees.len(),
        forall|t: int|
            #![trigger trees[t]]
            0 <= t < trees.len() ==> trees[t].0.len() * 11 <= u64::MAX && trees[t].1.len()
                <= u64::MAX,
    ensures
        trees_read(front + trees_words(trees, n) + back, front.len() as int, n) == Some(
            (trees.take(n), front.len() as int + trees_words(trees, n).len()),
        ),
    decreases n,
{
    let words = front + trees_words(trees, n) + back;
    if n > 0 {
        let (nodes, cats) = trees[n - 1];
        let before = trees_words(trees, n - 1);
        let first = counted(nodes_words(nodes));
        let second = counted(counts_words(cats));
        assert(words =~= front + before + (first + second + back));
        trees_come_back(front, trees, n - 1, first + second + back);
        assert(words =~= (front + before) + first + (second + back));
        counted_is_taken(front + before, nodes_words(nodes), second + back);
        assert(words =~= (front + before + first) + second + back);
        counted_is_taken(front + before + first, counts_words(cats), back);
        nodes_come_back(nodes);
        counts_come_back(cats);
        assert(trees.take(n - 1).push((nodes, cats)) =~= trees.take(n));
    } else {
        assert(trees.take(0) =~= Seq::empty());
    }
}

/// The lists at the start of words stand one after the other.
proof fn lists_stand(
    h: Seq<u64>,
    t: Seq<u64>,
    w: Seq<u64>,
    l: Seq<u64>,
    b: Seq<u64>,
    rest: Seq<u64>,
)
    requires
        h.len() <= u64::MAX,
        t.len() <= u64::MAX,
        w.len() <= u64::MAX,
        l.len() <= u64::MAX,
        b.len() <= u64::MAX,
    ensures
        ({
            let words = counted(h) + counted(t) + counted(w) + counted(l) + counted(b) + rest;
            let p1 = 1 + h.len() as int;
            let p2 = p1 + 1 + t.len();
            let p3 = p2 + 1 + w.len();
            let p4 = p3 + 1 + l.len();
            let p5 = p4 + 1 + b.len();
            &&& list_at(words, 0) == Some((h, p1))
            &&& list_at(words, p1) == Some((t, p2))
            &&& list_at(words, p2) == Some((w, p3))
            &&& list_at(words, p3) == Some((l, p4))
            &&& list_at(words, p4) == Some((b, p5))
            &&& words.len() == p5 + rest.len()
        }),
{
    let words = counted(h) + counted(t) + counted(w) + counted(l) + counted(b) + rest;
    let f1 = counted(h);
    let f2 = f1 + counted(t);
    let f3 = f2 + counted(w);
    let f4 = f3 + counted(l);
    let r4 = counted(b) + rest;
    let r3 = counted(l) + r4;
    let r2 = counted(w) + r3;
    let r1 = counted(t) + r2;
    let none: Seq<u64> = Seq::empty();
    assert(words =~= none + counted(h) + r1);
    counted_is_taken(none, h, r1);
    assert(words =~= f1 + counted(t) + r2);
    counted_is_taken(f1, t, r2);
    assert(words =~= f2 + counted(w) + r3);
    counted_is_taken(f2, w, r3);
    assert(words =~= f3 + counted(l) + r4);
    counted_is_taken(f3, l, r4);
    assert(words =~= f4 + counted(b) + rest);
    counted_is_taken(f4, b, rest);
}

/// The words of a model are read back as what the model is made of.
pub proof fn models_come_back(c: Contents)
    requires
        countable(c),
    ensures
        model_read(model_words(c)) == Some(c),
{
    let words = model_words(c);
    let h = header_words(c);
    let t = text_words(c.objective);
    let w = singles_words(c.weights);
    let l = singles_words(linear_weights(c));
    let b = singles_words(linear_biases(c));
    let n = c.trees.len() as int;
    let rest = trees_words(c.trees, n);
    let front = counted(h) + counted(t) + counted(w) + counted(l) + counted(b);
    lists_stand(h, t, w, l, b, rest);
    assert(words == front + rest);
    assert(front + rest + Seq::<u64>::empty() =~= words);
    trees_come_back(front, c.trees, n, Seq::empty());
    assert(c.trees.take(n) =~= c.trees);
    texts_come_back(c.objective);
    singles_come_back(c.weights);
    singles_come_back(linear_weights(c));
    singles_come_back(linear_biases(c));
    assert(is_header(h));
    assert(joined(h, c.objective, c.weights, linear_weights(c), linear_biases(c), c.trees) =~= c);
}

/// The bytes of words are read back as the words.
pub proof fn words_come_back(words: Seq<u64>)
    ensures
        byte_words(word_bytes(words)) == Some(words),
{
    let bytes = word_bytes(words);
    let n = words.len() as int;
    lemma_auto_spec_u64_to_from_le_bytes();
    assert(bytes.len() == n * 8);
    let read = byte_words(bytes)->0;
    assert(bytes.len() % 8 == 0 && bytes.len() / 8 == n);
    assert forall|i: int| 0 <= i < n implies #[trigger] read[i] == words[i] by {
        let part = bytes.subrange(i * 8, i * 8 + 8);
        let eight = spec_u64_to_le_bytes(words[i]);
        assert(eight.len() == 8);
        assert forall|k: int| 0 <= k < 8 implies part[k] == eight[k] by {
            entry_place(n, 8, i, k);
        }
        assert(part =~= eight);
    }
    assert(read =~= words);
}

/// Nothing is lost when a model is written as bytes and read back.
pub proof fn bytes_hold_the_model(m: &BoostedModel)
    requires
        countable(contents_of(m)),
    ensures
        byte_words(word_bytes(model_words(contents_of(m)))) matches Some(words) && model_read(words)
            == Some(contents_of(m)),
{
    words_come_back(model_words(contents_of(m)));
    models_come_back(contents_of(m));
}

} // verus!
