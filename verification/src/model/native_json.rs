//! The library's own JSON model format: the same contents as the binary form,
//! by name.

use vstd::prelude::*;

use crate::arith::{Calc, Op};
use crate::error::SequoiaError;
use crate::learner::model::{BoostedModel, LinearModel};
use crate::model::json::{
    count_of, docs, flat_lists_nest, integer_of, is_flat, is_read_back, list_of, member,
    nests_within, parse, parsed, print, printed, real_of, scalar, truth_of, Doc, Json, Members,
    MAX_NESTING,
};
use crate::model::native::{contents_of, holds, Contents};
use crate::model::xgboost_json::{list_named, number_doc};
use crate::number::Single;
use crate::text::{
    decimal, decimal_text, read_whole, whole_number, Precision, Reader, Writer,
};
use crate::tree::regtree::{Node, RegTree};

verus! {

/// A node as a document.
pub open spec fn node_doc<F: Fn(Op, u64, u64) -> u64, W: Fn(Precision, u64) -> String>(
    n: Node,
    writer: &Writer<W>,
    calc: &Calc<F>,
) -> Doc {
    Doc::List(
        seq![
            Doc::Whole(n.split_feature as i64),
            number_doc(n.split_cond, writer, calc),
            Doc::Bool(n.default_left),
            Doc::Whole(n.left as i64),
            Doc::Whole(n.right as i64),
            number_doc(n.leaf_value, writer, calc),
            number_doc(n.sum_hess, writer, calc),
            number_doc(n.split_gain, writer, calc),
            Doc::Bool(n.is_categorical),
            Doc::Whole(n.cat_begin as i64),
            Doc::Whole(n.cat_end as i64),
        ],
    )
}

/// Numbers as a document.
pub open spec fn singles_doc<F: Fn(Op, u64, u64) -> u64, W: Fn(Precision, u64) -> String>(
    list: Seq<Single>,
    writer: &Writer<W>,
    calc: &Calc<F>,
) -> Doc {
    Doc::List(Seq::new(list.len(), |i: int| number_doc(list[i], writer, calc)))
}

/// A tree as a document.
pub open spec fn tree_record<F: Fn(Op, u64, u64) -> u64, W: Fn(Precision, u64) -> String>(
    tree: (Seq<Node>, Seq<u32>),
    writer: &Writer<W>,
    calc: &Calc<F>,
) -> Doc {
    Doc::Object(
        seq![
            (
                "nodes"@,
                Doc::List(Seq::new(tree.0.len(), |i: int| node_doc(tree.0[i], writer, calc))),
            ),
            (
                "categories"@,
                Doc::List(Seq::new(tree.1.len(), |i: int| Doc::Whole(tree.1[i] as i64))),
            ),
        ],
    )
}

/// A count as a document.
pub open spec fn size_doc(n: usize) -> Doc {
    Doc::Text(decimal(n as nat))
}

/// A model as a document.
pub open spec fn contents_doc<F: Fn(Op, u64, u64) -> u64, W: Fn(Precision, u64) -> String>(
    c: Contents,
    writer: &Writer<W>,
    calc: &Calc<F>,
) -> Doc {
    Doc::Object(
        seq![
            ("objective"@, Doc::Text(c.objective)),
            ("num_class"@, size_doc(c.num_class)),
            ("n_features"@, size_doc(c.width)),
            ("base_score"@, number_doc(c.base, writer, calc)),
            (
                "best_iteration"@,
                match c.best {
                    Some(b) => size_doc(b),
                    None => Doc::Null,
                },
            ),
            (
                "trees"@,
                Doc::List(
                    Seq::new(c.trees.len(), |t: int| tree_record(c.trees[t], writer, calc)),
                ),
            ),
            ("tree_weights"@, singles_doc(c.weights, writer, calc)),
            (
                "linear_weights"@,
                match c.linear {
                    Some((weights, _)) => singles_doc(weights, writer, calc),
                    None => Doc::Null,
                },
            ),
            (
                "linear_bias"@,
                match c.linear {
                    Some((_, biases)) => singles_doc(biases, writer, calc),
                    None => Doc::Null,
                },
            ),
        ],
    )
}

/// Whether a document is a list of eleven entries, as a node is.
pub open spec fn is_node_doc(d: Doc) -> bool {
    d matches Doc::List(items) && items.len() == 11
}

/// The node that a document stands for.
pub open spec fn node_in<F: Fn(Op, u64, u64) -> u64, P: Fn(Precision, &str) -> Option<u64>>(
    d: Doc,
    reader: &Reader<P>,
    calc: &Calc<F>,
) -> Node {
    let items = d->List_0;
    Node {
        split_feature: count_of(items[0], reader) as u32,
        split_cond: calc.narrowed(real_of(items[1], reader, calc)),
        default_left: truth_of(items[2], reader),
        left: integer_of(items[3], reader) as i32,
        right: integer_of(items[4], reader) as i32,
        leaf_value: calc.narrowed(real_of(items[5], reader, calc)),
        sum_hess: calc.narrowed(real_of(items[6], reader, calc)),
        split_gain: calc.narrowed(real_of(items[7], reader, calc)),
        is_categorical: truth_of(items[8], reader),
        cat_begin: count_of(items[9], reader) as u32,
        cat_end: count_of(items[10], reader) as u32,
    }
}

/// The tree that a document stands for.
pub open spec fn tree_in<F: Fn(Op, u64, u64) -> u64, P: Fn(Precision, &str) -> Option<u64>>(
    d: Doc,
    reader: &Reader<P>,
    calc: &Calc<F>,
) -> Option<(Seq<Node>, Seq<u32>)> {
    match (list_named(d, "nodes"@), list_named(d, "categories"@)) {
        (Some(nodes), Some(cats)) => if forall|i: int|
            0 <= i < nodes.len() ==> is_node_doc(#[trigger] nodes[i]) {
            Some(
                (
                    Seq::new(nodes.len(), |i: int| node_in(nodes[i], reader, calc)),
                    Seq::new(cats.len(), |i: int| count_of(cats[i], reader) as u32),
                ),
            )
        } else {
            None
        },
        _ => None,
    }
}

/// The numbers that a list stands for.
pub open spec fn singles_in<F: Fn(Op, u64, u64) -> u64, P: Fn(Precision, &str) -> Option<u64>>(
    list: Seq<Doc>,
    reader: &Reader<P>,
    calc: &Calc<F>,
) -> Seq<Single> {
    Seq::new(list.len(), |i: int| calc.narrowed(real_of(list[i], reader, calc)))
}

/// The first `n` trees of a list.
pub open spec fn trees_in<F: Fn(Op, u64, u64) -> u64, P: Fn(Precision, &str) -> Option<u64>>(
    list: Seq<Doc>,
    n: int,
    reader: &Reader<P>,
    calc: &Calc<F>,
) -> Option<Seq<(Seq<Node>, Seq<u32>)>>
    decreases n,
{
    if n <= 0 {
        Some(Seq::empty())
    } else {
        match (trees_in(list, n - 1, reader, calc), tree_in(list[n - 1], reader, calc)) {
            (Some(trees), Some(tree)) => Some(trees.push(tree)),
            _ => None,
        }
    }
}

/// The count that a member stands for.
pub open spec fn size_named(d: Doc, key: Seq<char>) -> Option<int> {
    match member(d, key) {
        Some(Doc::Text(t)) => whole_number(t, usize::MAX as int),
        _ => None,
    }
}

/// What a document holds, if it is a model.
pub open spec fn contents_in<F: Fn(Op, u64, u64) -> u64, P: Fn(Precision, &str) -> Option<u64>>(
    d: Doc,
    reader: &Reader<P>,
    calc: &Calc<F>,
) -> Option<Contents> {
    match (
        member(d, "objective"@),
        size_named(d, "num_class"@),
        size_named(d, "n_features"@),
        member(d, "base_score"@),
        list_named(d, "tree_weights"@),
        list_named(d, "trees"@),
    ) {
        (
            Some(Doc::Text(objective)),
            Some(num_class),
            Some(width),
            Some(base),
            Some(weights),
            Some(list),
        ) => match (
            scalar(base, reader, calc),
            trees_in(list, list.len() as int, reader, calc),
        ) {
            (Some(base), Some(trees)) => Some(
                Contents {
                    trees,
                    weights: singles_in(weights, reader, calc),
                    base: calc.narrowed(base),
                    objective,
                    num_class: num_class as usize,
                    width: width as usize,
                    best: match size_named(d, "best_iteration"@) {
                        Some(b) => Some(b as usize),
                        None => None,
                    },
                    linear: match (
                        list_named(d, "linear_weights"@),
                        list_named(d, "linear_bias"@),
                    ) {
                        (Some(weights), Some(biases)) => Some(
                            (
                                singles_in(weights, reader, calc),
                                singles_in(biases, reader, calc),
                            ),
                        ),
                        _ => None,
                    },
                },
            ),
            _ => None,
        },
        _ => None,
    }
}

fn number_item<F: Fn(Op, u64, u64) -> u64, W: Fn(Precision, u64) -> String>(
    v: Single,
    writer: &Writer<W>,
    calc: &Calc<F>,
) -> (r: Json)
    ensures
        r.doc() == number_doc(v, writer, calc),
{
    Json::Number(writer.write_wide(calc.widen(v)))
}

fn size_item(n: usize) -> (r: Json)
    ensures
        r.doc() == size_doc(n),
{
    Json::Text(decimal_text(n as u64))
}

fn singles_item<F: Fn(Op, u64, u64) -> u64, W: Fn(Precision, u64) -> String>(
    list: &[Single],
    writer: &Writer<W>,
    calc: &Calc<F>,
) -> (r: Json)
    ensures
        r.doc() == singles_doc(list@, writer, calc),
{
    let mut items: Vec<Json> = Vec::new();
    let mut i: usize = 0;
    while i < list.len()
        invariant
            i <= list.len(),
            items.len() == i,
            forall|k: int|
                0 <= k < i ==> (#[trigger] items[k]).doc() == number_doc(list[k], writer, calc),
        decreases list.len() - i,
    {
        items.push(number_item(list[i], writer, calc));
        i = i + 1;
    }
    let r = list_of(items);
    assert(r.doc()->List_0 =~= singles_doc(list@, writer, calc)->List_0);
    r
}

fn node_item<F: Fn(Op, u64, u64) -> u64, W: Fn(Precision, u64) -> String>(
    n: &Node,
    writer: &Writer<W>,
    calc: &Calc<F>,
) -> (r: Json)
    ensures
        r.doc() == node_doc(*n, writer, calc),
{
    let mut items: Vec<Json> = Vec::new();
    items.push(Json::Whole(n.split_feature as i64));
    items.push(number_item(n.split_cond, writer, calc));
    items.push(Json::Bool(n.default_left));
    items.push(Json::Whole(n.left as i64));
    items.push(Json::Whole(n.right as i64));
    items.push(number_item(n.leaf_value, writer, calc));
    items.push(number_item(n.sum_hess, writer, calc));
    items.push(number_item(n.split_gain, writer, calc));
    items.push(Json::Bool(n.is_categorical));
    items.push(Json::Whole(n.cat_begin as i64));
    items.push(Json::Whole(n.cat_end as i64));
    let r = list_of(items);
    assert(r.doc()->List_0 =~= node_doc(*n, writer, calc)->List_0);
    r
}

fn tree_item<F: Fn(Op, u64, u64) -> u64, W: Fn(Precision, u64) -> String>(
    tree: &RegTree,
    writer: &Writer<W>,
    calc: &Calc<F>,
) -> (r: Json)
    ensures
        r.doc() == tree_record((tree.node_list(), tree.category_list()), writer, calc),
{
    let ghost goal = tree_record((tree.node_list(), tree.category_list()), writer, calc)->Object_0;
    let nodes = tree.nodes();
    let cats = tree.categories();
    let mut node_items: Vec<Json> = Vec::new();
    let mut i: usize = 0;
    while i < nodes.len()
        invariant
            i <= nodes.len(),
            node_items.len() == i,
            forall|k: int|
                0 <= k < i ==> (#[trigger] node_items[k]).doc() == node_doc(nodes[k], writer, calc),
        decreases nodes.len() - i,
    {
        node_items.push(node_item(&nodes[i], writer, calc));
        i = i + 1;
    }
    let mut cat_items: Vec<Json> = Vec::new();
    let mut j: usize = 0;
    while j < cats.len()
        invariant
            j <= cats.len(),
            cat_items.len() == j,
            forall|k: int|
                0 <= k < j ==> (#[trigger] cat_items[k]).doc() == Doc::Whole(cats[k] as i64),
        decreases cats.len() - j,
    {
        cat_items.push(Json::Whole(cats[j] as i64));
        j = j + 1;
    }
    let node_list = list_of(node_items);
    let cat_list = list_of(cat_items);
    assert(node_list.doc()->List_0 =~= goal[0].1->List_0);
    assert(cat_list.doc()->List_0 =~= goal[1].1->List_0);
    let r = Members::new().with("nodes", node_list).with("categories", cat_list).object();
    assert(r.doc()->Object_0 =~= goal);
    r
}

/// The count that a member stands for.
fn size_in(d: &Json, key: &str) -> (r: Option<usize>)
    ensures
        match r {
            Some(n) => size_named(d.doc(), key@) == Some(n as int),
            None => size_named(d.doc(), key@) is None,
        },
{
    match d.get(key) {
        Some(Json::Text(t)) => match read_whole(t.as_str(), usize::MAX as u64) {
            Some(n) => Some(n as usize),
            None => None,
        },
        _ => None,
    }
}

fn list_in<'a>(d: &'a Json, key: &str) -> (r: Option<&'a Vec<Json>>)
    ensures
        match r {
            Some(items) => list_named(d.doc(), key@) == Some(docs(items@)),
            None => list_named(d.doc(), key@) is None,
        },
{
    match d.get(key) {
        Some(j) => j.as_list(),
        None => None,
    }
}

fn read_singles<F: Fn(Op, u64, u64) -> u64, P: Fn(Precision, &str) -> Option<u64>>(
    list: &Vec<Json>,
    reader: &Reader<P>,
    calc: &Calc<F>,
) -> (r: Vec<Single>)
    ensures
        r@ == singles_in(docs(list@), reader, calc),
{
    let mut out: Vec<Single> = Vec::new();
    let mut i: usize = 0;
    while i < list.len()
        invariant
            i <= list.len(),
            out.len() == i,
            forall|k: int|
                0 <= k < i ==> #[trigger] out[k] == calc.narrowed(
                    real_of(list[k].doc(), reader, calc),
                ),
        decreases list.len() - i,
    {
        out.push(calc.narrow(list[i].to_real(reader, calc)));
        i = i + 1;
    }
    assert(out@ =~= singles_in(docs(list@), reader, calc));
    out
}

fn read_node<F: Fn(Op, u64, u64) -> u64, P: Fn(Precision, &str) -> Option<u64>>(
    d: &Json,
    reader: &Reader<P>,
    calc: &Calc<F>,
) -> (r: Option<Node>)
    ensures
        match r {
            Some(n) => is_node_doc(d.doc()) && n == node_in(d.doc(), reader, calc),
            None => !is_node_doc(d.doc()),
        },
{
    match d.as_list() {
        None => None,
        Some(items) => {
            if items.len() != 11 {
                return None;
            }
            Some(
                Node {
                    split_feature: items[0].to_count(reader),
                    split_cond: calc.narrow(items[1].to_real(reader, calc)),
                    default_left: items[2].to_truth(reader),
                    left: items[3].to_integer(reader),
                    right: items[4].to_integer(reader),
                    leaf_value: calc.narrow(items[5].to_real(reader, calc)),
                    sum_hess: calc.narrow(items[6].to_real(reader, calc)),
                    split_gain: calc.narrow(items[7].to_real(reader, calc)),
                    is_categorical: items[8].to_truth(reader),
                    cat_begin: items[9].to_count(reader),
                    cat_end: items[10].to_count(reader),
                },
            )
        },
    }
}

fn read_tree<F: Fn(Op, u64, u64) -> u64, P: Fn(Precision, &str) -> Option<u64>>(
    d: &Json,
    reader: &Reader<P>,
    calc: &Calc<F>,
) -> (r: Option<RegTree>)
    ensures
        match r {
            Some(t) => tree_in(d.doc(), reader, calc) == Some((t.node_list(), t.category_list())),
            None => tree_in(d.doc(), reader, calc) is None,
        },
{
    let nodes = match list_in(d, "nodes") {
        None => {
            return None;
        },
        Some(l) => l,
    };
    let cats = match list_in(d, "categories") {
        None => {
            return None;
        },
        Some(l) => l,
    };
    let mut out: Vec<Node> = Vec::new();
    let mut i: usize = 0;
    while i < nodes.len()
        invariant
            list_named(d.doc(), "nodes"@) == Some(docs(nodes@)),
            list_named(d.doc(), "categories"@) == Some(docs(cats@)),
            i <= nodes.len(),
            out.len() == i,
            forall|k: int| 0 <= k < i ==> is_node_doc(#[trigger] docs(nodes@)[k]),
            forall|k: int|
                0 <= k < i ==> #[trigger] out[k] == node_in(docs(nodes@)[k], reader, calc),
        decreases nodes.len() - i,
    {
        assert(docs(nodes@)[i as int] == nodes[i as int].doc());
        match read_node(&nodes[i], reader, calc) {
            None => {
                return None;
            },
            Some(n) => {
                out.push(n);
            },
        }
        i = i + 1;
    }
    let mut categories: Vec<u32> = Vec::new();
    let mut j: usize = 0;
    while j < cats.len()
        invariant
            j <= cats.len(),
            categories.len() == j,
            forall|k: int|
                0 <= k < j ==> #[trigger] categories[k] == count_of(cats[k].doc(), reader) as u32,
        decreases cats.len() - j,
    {
        categories.push(cats[j].to_count(reader));
        j = j + 1;
    }
    proof {
        let goal = tree_in(d.doc(), reader, calc)->0;
        assert(out@ =~= goal.0);
        assert(categories@ =~= goal.1);
    }
    Some(RegTree::from_parts(out, categories))
}

proof fn trees_stay_refused<
    F: Fn(Op, u64, u64) -> u64,
    P: Fn(Precision, &str) -> Option<u64>,
>(list: Seq<Doc>, a: int, b: int, reader: &Reader<P>, calc: &Calc<F>)
    requires
        a <= b,
        trees_in(list, a, reader, calc) is None,
    ensures
        trees_in(list, b, reader, calc) is None,
    decreases b - a,
{
    if a < b {
        trees_stay_refused(list, a, b - 1, reader, calc);
    }
}

fn read_trees<F: Fn(Op, u64, u64) -> u64, P: Fn(Precision, &str) -> Option<u64>>(
    list: &Vec<Json>,
    reader: &Reader<P>,
    calc: &Calc<F>,
) -> (r: Option<Vec<RegTree>>)
    ensures
        match r {
            Some(v) => {
                &&& trees_in(docs(list@), list.len() as int, reader, calc) matches Some(trees)
                &&& v.len() == trees.len()
                &&& forall|t: int|
                    #![trigger v[t]]
                    0 <= t < v.len() ==> trees[t] == (v[t].node_list(), v[t].category_list())
            },
            None => trees_in(docs(list@), list.len() as int, reader, calc) is None,
        },
{
    let mut out: Vec<RegTree> = Vec::new();
    let ghost mut trees: Seq<(Seq<Node>, Seq<u32>)> = Seq::empty();
    let mut i: usize = 0;
    while i < list.len()
        invariant
            i <= list.len(),
            trees_in(docs(list@), i as int, reader, calc) == Some(trees),
            out.len() == trees.len(),
            forall|t: int|
                #![trigger out[t]]
                0 <= t < out.len() ==> trees[t] == (out[t].node_list(), out[t].category_list()),
        decreases list.len() - i,
    {
        assert(docs(list@)[i as int] == list[i as int].doc());
        match read_tree(&list[i], reader, calc) {
            None => {
                proof {
                    trees_stay_refused(docs(list@), i + 1, list.len() as int, reader, calc);
                }
                return None;
            },
            Some(t) => {
                proof {
                    trees = trees.push((t.node_list(), t.category_list()));
                }
                out.push(t);
            },
        }
        i = i + 1;
    }
    Some(out)
}

/// The model that a document holds.
fn read_contents<F: Fn(Op, u64, u64) -> u64, P: Fn(Precision, &str) -> Option<u64>>(
    d: &Json,
    reader: &Reader<P>,
    calc: &Calc<F>,
) -> (r: Option<BoostedModel>)
    ensures
        match r {
            Some(m) => contents_in(d.doc(), reader, calc) matches Some(c) && holds(&m, c),
            None => contents_in(d.doc(), reader, calc) is None,
        },
{
    let objective = match d.get("objective") {
        Some(Json::Text(t)) => t.as_str(),
        _ => {
            return None;
        },
    };
    let num_class: usize = match size_in(d, "num_class") {
        None => {
            return None;
        },
        Some(n) => n,
    };
    let width: usize = match size_in(d, "n_features") {
        None => {
            return None;
        },
        Some(n) => n,
    };
    let base = match d.get("base_score") {
        None => {
            return None;
        },
        Some(j) => j,
    };
    let weights = match list_in(d, "tree_weights") {
        None => {
            return None;
        },
        Some(l) => l,
    };
    let list = match list_in(d, "trees") {
        None => {
            return None;
        },
        Some(l) => l,
    };
    let base = match base.to_scalar(reader, calc) {
        None => {
            return None;
        },
        Some(w) => calc.narrow(w),
    };
    let trees = match read_trees(list, reader, calc) {
        None => {
            return None;
        },
        Some(t) => t,
    };
    let best = size_in(d, "best_iteration");
    let linear = match list_in(d, "linear_weights") {
        None => None,
        Some(w) => match list_in(d, "linear_bias") {
            None => None,
            Some(b) => Some(
                LinearModel::new(read_singles(w, reader, calc), read_singles(b, reader, calc)),
            ),
        },
    };
    let m = BoostedModel::assembled(
        trees,
        read_singles(weights, reader, calc),
        base,
        objective.to_owned(),
        num_class,
        width,
        best,
        linear,
    );
    proof {
        let goal = contents_in(d.doc(), reader, calc)->0;
        assert(contents_of(&m).trees =~= goal.trees);
        assert(contents_of(&m) =~= goal);
    }
    Some(m)
}

proof fn node_docs_nest<F: Fn(Op, u64, u64) -> u64, W: Fn(Precision, u64) -> String>(
    tree: (Seq<Node>, Seq<u32>),
    n: nat,
    writer: &Writer<W>,
    calc: &Calc<F>,
)
    requires
        n >= 3,
    ensures
        nests_within(tree_record(tree, writer, calc), n),
{
    let items = tree_record(tree, writer, calc)->Object_0;
    let less = (n - 1) as nat;
    assert(items.len() == 2);
    let nodes = items[0].1->List_0;
    assert forall|i: int| 0 <= i < nodes.len() implies nests_within(
        #[trigger] nodes[i],
        (less - 1) as nat,
    ) by {
        flat_lists_nest(nodes[i]->List_0, (less - 1) as nat);
    }
    assert(nests_within(items[0].1, less));
    flat_lists_nest(items[1].1->List_0, less);
    assert(nests_within(items[1].1, less));
}

proof fn contents_docs_nest<F: Fn(Op, u64, u64) -> u64, W: Fn(Precision, u64) -> String>(
    c: Contents,
    writer: &Writer<W>,
    calc: &Calc<F>,
)
    ensures
        nests_within(contents_doc(c, writer, calc), MAX_NESTING as nat),
{
    let items = contents_doc(c, writer, calc)->Object_0;
    let list = items[5].1->List_0;
    assert forall|t: int| 0 <= t < list.len() implies nests_within(#[trigger] list[t], 98) by {
        node_docs_nest(c.trees[t], 98, writer, calc);
    }
    assert(nests_within(items[5].1, 99));
    assert forall|k: int| 0 <= k < items.len() implies nests_within((#[trigger] items[k]).1, 99) by {
        if k != 5 {
            if items[k].1 is List {
                flat_lists_nest(items[k].1->List_0, 99);
            } else {
                assert(is_flat(items[k].1));
            }
        }
    }
}

/// Whether a document was refused.
pub open spec fn is_refused(r: Result<BoostedModel, SequoiaError>) -> bool {
    r matches Err(SequoiaError::ModelFormat(text)) && text@ == "malformed JSON model"@
}

impl BoostedModel {
    /// The model as a document.
    pub fn to_document<F: Fn(Op, u64, u64) -> u64, W: Fn(Precision, u64) -> String>(
        &self,
        writer: &Writer<W>,
        calc: &Calc<F>,
    ) -> (r: Json)
        ensures
            r.doc() == contents_doc(contents_of(self), writer, calc),
    {
        let ghost goal = contents_doc(contents_of(self), writer, calc)->Object_0;
        let trees = self.trees();
        let mut items: Vec<Json> = Vec::new();
        let mut t: usize = 0;
        while t < trees.len()
            invariant
                trees@ == self.tree_list(),
                t <= trees.len(),
                items.len() == t,
                forall|k: int|
                    0 <= k < t ==> (#[trigger] items[k]).doc() == tree_record(
                        contents_of(self).trees[k],
                        writer,
                        calc,
                    ),
            decreases trees.len() - t,
        {
            items.push(tree_item(&trees[t], writer, calc));
            t = t + 1;
        }
        let tree_list = list_of(items);
        assert(tree_list.doc()->List_0 =~= goal[5].1->List_0);
        let best = match self.best_iteration() {
            Some(b) => size_item(b),
            None => Json::Null,
        };
        let (weights, biases) = match self.linear() {
            Some(l) => (
                singles_item(l.weights(), writer, calc),
                singles_item(l.bias(), writer, calc),
            ),
            None => (Json::Null, Json::Null),
        };
        let r = Members::new().with("objective", Json::Text(self.objective().to_owned())).with(
            "num_class",
            size_item(self.num_class()),
        ).with("n_features", size_item(self.n_features())).with(
            "base_score",
            number_item(self.base_score(), writer, calc),
        ).with("best_iteration", best).with("trees", tree_list).with(
            "tree_weights",
            singles_item(self.tree_weights(), writer, calc),
        ).with("linear_weights", weights).with("linear_bias", biases).object();
        assert(r.doc()->Object_0 =~= goal);
        r
    }

    /// The model that a document holds.
    pub fn from_document<F: Fn(Op, u64, u64) -> u64, P: Fn(Precision, &str) -> Option<u64>>(
        d: &Json,
        reader: &Reader<P>,
        calc: &Calc<F>,
    ) -> (r: Result<Self, SequoiaError>)
        ensures
            match contents_in(d.doc(), reader, calc) {
                None => is_refused(r),
                Some(c) => r matches Ok(m) && holds(&m, c),
            },
    {
        match read_contents(d, reader, calc) {
            None => Err(SequoiaError::ModelFormat("malformed JSON model".to_owned())),
            Some(m) => Ok(m),
        }
    }

    /// The model as JSON text.
    pub fn to_json<F: Fn(Op, u64, u64) -> u64, W: Fn(Precision, u64) -> String>(
        &self,
        writer: &Writer<W>,
        calc: &Calc<F>,
    ) -> (r: Result<String, SequoiaError>)
        ensures
            r matches Ok(text) && text@ == printed(contents_doc(contents_of(self), writer, calc))
                && is_read_back(contents_doc(contents_of(self), writer, calc), text@),
    {
        proof {
            contents_docs_nest(contents_of(self), writer, calc);
        }
        match print(&self.to_document(writer, calc), false).text {
            Ok(text) => Ok(text),
            Err(e) => Err(SequoiaError::Json(e)),
        }
    }

    /// The model that a JSON text holds.
    pub fn from_json<F: Fn(Op, u64, u64) -> u64, P: Fn(Precision, &str) -> Option<u64>>(
        json: &str,
        reader: &Reader<P>,
        calc: &Calc<F>,
    ) -> (r: Result<Self, SequoiaError>)
        ensures
            match parsed(json@) {
                None => r matches Err(SequoiaError::Json(_)),
                Some(d) => match contents_in(d, reader, calc) {
                    None => is_refused(r),
                    Some(c) => r matches Ok(m) && holds(&m, c),
                },
            },
    {
        match parse(json, None) {
            Err(e) => Err(SequoiaError::Json(e)),
            Ok(d) => Self::from_document(&d, reader, calc),
        }
    }
}

} // verus!
