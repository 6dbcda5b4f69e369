//! Models in XGBoost's JSON format.
//!
//! A tree is a set of lists, one entry per node. A node is a leaf where its
//! left child is `-1`; its weight then stands in `split_conditions`. The base
//! score is stored as a prediction, not as a margin.
//!
//! Only `gbtree` models are read. Categories, tree weights and linear parts
//! are not part of the format.

use vstd::prelude::*;
use vstd::string::StringExecFns;

use crate::arith::{Calc, Op};
use crate::error::SequoiaError;
use crate::learner::model::BoostedModel;
use crate::model::json::{
    count_of, docs, flat_lists_nest, integer_of, is_flat, is_read_back, list_of, member,
    nests_within, parse, parsed, print, printed, real_of, scalar, truth_of, Doc, Json, Members,
    MAX_NESTING,
};
use crate::number::{Single, Wide, ONE_S};
use crate::objective::create::{outputs_named, report, reported, start_from, started};
use crate::text::{decimal, decimal_text, quote, quoted, same_text, Precision, Reader, Writer};
use crate::tree::regtree::{leaf_node, Node, RegTree};

verus! {

/// The parent of the root.
pub const INVALID_NODE: i32 = i32::MAX;

/// The list that a member is, if it is one.
pub open spec fn list_named(d: Doc, key: Seq<char>) -> Option<Seq<Doc>> {
    match member(d, key) {
        Some(Doc::List(items)) => Some(items),
        _ => None,
    }
}

/// The list that a member is; empty if it is none.
pub open spec fn list_or_empty(d: Doc, key: Seq<char>) -> Seq<Doc> {
    match list_named(d, key) {
        Some(items) => items,
        None => Seq::empty(),
    }
}

/// The single-precision number at a place of a list; zero where there is none.
pub open spec fn real_at<F: Fn(Op, u64, u64) -> u64, P: Fn(Precision, &str) -> Option<u64>>(
    list: Seq<Doc>,
    i: int,
    reader: &Reader<P>,
    calc: &Calc<F>,
) -> Single {
    calc.narrowed(
        if i < list.len() {
            real_of(list[i], reader, calc)
        } else {
            Wide { bits: 0 }
        },
    )
}

/// The node at a place of a tree's lists.
pub open spec fn node_read<F: Fn(Op, u64, u64) -> u64, P: Fn(Precision, &str) -> Option<u64>>(
    d: Doc,
    i: int,
    reader: &Reader<P>,
    calc: &Calc<F>,
) -> Node {
    let left = integer_of(list_or_empty(d, "left_children"@)[i], reader);
    let right = list_or_empty(d, "right_children"@);
    let conditions = list_or_empty(d, "split_conditions"@);
    let indices = list_or_empty(d, "split_indices"@);
    let defaults = list_or_empty(d, "default_left"@);
    let sum_hess = real_at(list_or_empty(d, "sum_hessian"@), i, reader, calc);
    if left == -1 {
        leaf_node(
            if i < conditions.len() {
                real_at(conditions, i, reader, calc)
            } else {
                real_at(list_or_empty(d, "base_weights"@), i, reader, calc)
            },
            sum_hess,
        )
    } else {
        Node {
            split_feature: (if i < indices.len() {
                count_of(indices[i], reader)
            } else {
                0
            }) as u32,
            split_cond: real_at(conditions, i, reader, calc),
            default_left: i < defaults.len() && truth_of(defaults[i], reader),
            left: left as i32,
            right: integer_of(right[i], reader) as i32,
            leaf_value: Single { bits: 0 },
            sum_hess,
            split_gain: real_at(list_or_empty(d, "loss_changes"@), i, reader, calc),
            is_categorical: false,
            cat_begin: 0,
            cat_end: 0,
        }
    }
}

/// Whether every number of a node is finite.
pub open spec fn ordinary(node: Node) -> bool {
    &&& node.split_cond.finite()
    &&& node.leaf_value.finite()
    &&& node.sum_hess.finite()
    &&& node.split_gain.finite()
}

/// Whether a list lacks the right child of an internal node among the first
/// `n`.
pub open spec fn lacks_right<P: Fn(Precision, &str) -> Option<u64>>(
    left: Seq<Doc>,
    right: Seq<Doc>,
    n: int,
    reader: &Reader<P>,
) -> bool {
    exists|i: int|
        0 <= i < n && right.len() <= i && integer_of(#[trigger] left[i], reader) != -1
}

/// The nodes of a tree, or why it is refused.
pub open spec fn tree_read<F: Fn(Op, u64, u64) -> u64, P: Fn(Precision, &str) -> Option<u64>>(
    d: Doc,
    reader: &Reader<P>,
    calc: &Calc<F>,
) -> Result<Seq<Node>, Seq<char>> {
    match list_named(d, "left_children"@) {
        None => Err("model format error: missing `left_children`"@),
        Some(left) => match list_named(d, "right_children"@) {
            None => Err("model format error: missing `right_children`"@),
            Some(right) => match list_named(d, "split_conditions"@) {
                None => Err("model format error: missing `split_conditions`"@),
                Some(_) => {
                    let nodes = Seq::new(
                        left.len(),
                        |i: int| node_read(d, i, reader, calc),
                    );
                    if lacks_right(left, right, left.len() as int, reader) {
                        Err("model format error: missing `right_children`"@)
                    } else if exists|i: int|
                        0 <= i < left.len() && !ordinary(#[trigger] nodes[i]) {
                        Err("invalid type: null, expected f32"@)
                    } else {
                        Ok(nodes)
                    }
                },
            },
        },
    }
}

/// The first `n` trees of a list, or why one is refused.
pub open spec fn trees_read<F: Fn(Op, u64, u64) -> u64, P: Fn(Precision, &str) -> Option<u64>>(
    list: Seq<Doc>,
    n: int,
    reader: &Reader<P>,
    calc: &Calc<F>,
) -> Result<Seq<Seq<Node>>, Seq<char>>
    decreases n,
{
    if n <= 0 {
        Ok(Seq::empty())
    } else {
        match trees_read(list, n - 1, reader, calc) {
            Err(e) => Err(e),
            Ok(trees) => match tree_read(list[n - 1], reader, calc) {
                Err(e) => Err("tree "@ + decimal((n - 1) as nat) + ": "@ + e),
                Ok(nodes) => Ok(trees.push(nodes)),
            },
        }
    }
}

/// What a model document holds.
#[verifier::ext_equal]
pub struct Parts {
    /// The nodes of every tree.
    pub trees: Seq<Seq<Node>>,
    /// The base margin.
    pub base: Single,
    /// The objective's name.
    pub objective: Seq<char>,
    /// The number of classes.
    pub num_class: usize,
    /// The number of features.
    pub width: usize,
}

/// The text that a member is; the given one if it is none.
pub open spec fn text_or(d: Option<Doc>, other: Seq<char>) -> Seq<char> {
    match d {
        Some(Doc::Text(t)) => t,
        _ => other,
    }
}

/// The number that a member stands for.
pub open spec fn scalar_named<F: Fn(Op, u64, u64) -> u64, P: Fn(Precision, &str) -> Option<u64>>(
    d: Doc,
    key: Seq<char>,
    reader: &Reader<P>,
    calc: &Calc<F>,
) -> Option<Wide> {
    match member(d, key) {
        Some(x) => scalar(x, reader, calc),
        None => None,
    }
}

/// The name of an objective that a learner names.
pub open spec fn objective_read(learner: Doc) -> Seq<char> {
    match member(learner, "objective"@) {
        Some(o) => text_or(member(o, "name"@), "reg:squarederror"@),
        None => "reg:squarederror"@,
    }
}

/// What a learner, its model and its parameters hold, or why they are refused.
pub open spec fn learner_read<F: Fn(Op, u64, u64) -> u64, P: Fn(Precision, &str) -> Option<u64>>(
    learner: Doc,
    model: Doc,
    params: Doc,
    reader: &Reader<P>,
    calc: &Calc<F>,
) -> Result<Parts, Seq<char>> {
    let num_class = match scalar_named(params, "num_class"@, reader, calc) {
        Some(w) => w.count(usize::MAX as int) as usize,
        None => 0,
    };
    let objective = objective_read(learner);
    match scalar_named(params, "num_feature"@, reader, calc) {
        None => Err("missing/invalid `num_feature`"@),
        Some(width) => match list_named(model, "trees"@) {
            None => Err("missing `model.trees` array"@),
            Some(list) => match trees_read(list, list.len() as int, reader, calc) {
                Err(e) => Err(e),
                Ok(trees) => match scalar_named(params, "base_score"@, reader, calc) {
                    None => Err("missing/invalid `base_score`"@),
                    Some(score) => Ok(
                        Parts {
                            trees,
                            base: started(objective, num_class, calc.narrowed(score), calc),
                            objective,
                            num_class,
                            width: width.count(usize::MAX as int) as usize,
                        },
                    ),
                },
            },
        },
    }
}

/// What a model document holds, or why it is refused.
pub open spec fn model_read<F: Fn(Op, u64, u64) -> u64, P: Fn(Precision, &str) -> Option<u64>>(
    root: Doc,
    reader: &Reader<P>,
    calc: &Calc<F>,
) -> Result<Parts, Seq<char>> {
    match member(root, "learner"@) {
        None => Err(quoted("missing `"@, "learner"@)),
        Some(learner) => match member(learner, "gradient_booster"@) {
            None => Err(quoted("missing `"@, "gradient_booster"@)),
            Some(booster) => {
                let name = text_or(member(booster, "name"@), "gbtree"@);
                if name != "gbtree"@ {
                    Err(
                        quoted("unsupported gradient_booster `"@, name)
                            + ": only `gbtree` is supported"@,
                    )
                } else {
                    match member(booster, "model"@) {
                        None => Err(quoted("missing `"@, "model"@)),
                        Some(model) => match member(learner, "learner_model_param"@) {
                            None => Err(quoted("missing `"@, "learner_model_param"@)),
                            Some(params) => learner_read(learner, model, params, reader, calc),
                        },
                    }
                }
            },
        },
    }
}

/// Whether a model is what a document holds.
pub open spec fn is_model(m: &BoostedModel, parts: Parts) -> bool {
    &&& m.tree_list().len() == parts.trees.len()
    &&& forall|t: int|
        #![trigger m.tree_list()[t]]
        0 <= t < parts.trees.len() ==> {
            &&& m.tree_list()[t].node_list() == parts.trees[t]
            &&& m.tree_list()[t].category_list() == Seq::<u32>::empty()
        }
    &&& m.weight_list() == Seq::new(parts.trees.len(), |t: int| Single { bits: ONE_S })
    &&& m.base() == parts.base
    &&& m.objective_name() == parts.objective
    &&& m.classes() == parts.num_class
    &&& m.width() == parts.width
    &&& m.best() is None
    &&& m.linear_part() is None
}

/// The member with the given name, which must be there.
fn field<'a>(d: &'a Json, key: &str) -> (r: Result<&'a Json, SequoiaError>)
    ensures
        match r {
            Ok(j) => member(d.doc(), key@) == Some(j.doc()),
            Err(e) => {
                &&& member(d.doc(), key@) is None
                &&& e matches SequoiaError::ModelFormat(t)
                &&& t@ == quoted("missing `"@, key@)
            },
        },
{
    match d.get(key) {
        Some(j) => Ok(j),
        None => Err(SequoiaError::ModelFormat(quote("missing `", key))),
    }
}

/// The list with the given name.
fn arr<'a>(d: &'a Json, key: &str) -> (r: Option<&'a Vec<Json>>)
    ensures
        match r {
            Some(items) => list_named(d.doc(), key@) == Some(docs(items@)),
            None => list_named(d.doc(), key@) is None,
        },
{
    match d.get(key) {
        Some(j) => j.as_list(),
        None => None,
    }
}

/// The items of an optional list.
spec fn items_of(list: Option<&Vec<Json>>) -> Seq<Doc> {
    match list {
        Some(items) => docs(items@),
        None => Seq::empty(),
    }
}

fn value_at<F: Fn(Op, u64, u64) -> u64, P: Fn(Precision, &str) -> Option<u64>>(
    list: Option<&Vec<Json>>,
    i: usize,
    reader: &Reader<P>,
    calc: &Calc<F>,
) -> (r: Single)
    ensures
        r == real_at(items_of(list), i as int, reader, calc),
{
    match list {
        Some(items) => if i < items.len() {
            calc.narrow(items[i].to_real(reader, calc))
        } else {
            calc.narrow(Wide::zero())
        },
        None => calc.narrow(Wide::zero()),
    }
}

/// The tree that a document holds, or why it is refused.
pub fn tree_from_json<F: Fn(Op, u64, u64) -> u64, P: Fn(Precision, &str) -> Option<u64>>(
    d: &Json,
    reader: &Reader<P>,
    calc: &Calc<F>,
) -> (r: Result<RegTree, String>)
    ensures
        match tree_read(d.doc(), reader, calc) {
            Ok(nodes) => r matches Ok(t) && t.node_list() == nodes && t.category_list()
                == Seq::<u32>::empty(),
            Err(e) => r matches Err(s) && s@ == e,
        },
{
    let left = match arr(d, "left_children") {
        Some(l) => l,
        None => {
            return Err("model format error: missing `left_children`".to_owned());
        },
    };
    let right = match arr(d, "right_children") {
        Some(l) => l,
        None => {
            return Err("model format error: missing `right_children`".to_owned());
        },
    };
    let indices = arr(d, "split_indices");
    let conditions = match arr(d, "split_conditions") {
        Some(l) => l,
        None => {
            return Err("model format error: missing `split_conditions`".to_owned());
        },
    };
    let defaults = arr(d, "default_left");
    let base_weights = arr(d, "base_weights");
    let sum_hessian = arr(d, "sum_hessian");
    let loss_changes = arr(d, "loss_changes");
    let mut nodes: Vec<Node> = Vec::new();
    let mut all_ordinary = true;
    let mut i: usize = 0;
    while i < left.len()
        invariant
            list_named(d.doc(), "left_children"@) == Some(docs(left@)),
            list_named(d.doc(), "right_children"@) == Some(docs(right@)),
            list_named(d.doc(), "split_conditions"@) == Some(docs(conditions@)),
            items_of(indices) == list_or_empty(d.doc(), "split_indices"@),
            items_of(defaults) == list_or_empty(d.doc(), "default_left"@),
            items_of(base_weights) == list_or_empty(d.doc(), "base_weights"@),
            items_of(sum_hessian) == list_or_empty(d.doc(), "sum_hessian"@),
            items_of(loss_changes) == list_or_empty(d.doc(), "loss_changes"@),
            i <= left.len(),
            nodes.len() == i,
            forall|k: int| 0 <= k < i ==> #[trigger] nodes[k] == node_read(d.doc(), k, reader, calc),
            !lacks_right(docs(left@), docs(right@), i as int, reader),
            all_ordinary == forall|k: int| 0 <= k < i ==> ordinary(#[trigger] nodes[k]),
        decreases left.len() - i,
    {
        let sum_hess = value_at(sum_hessian, i, reader, calc);
        let l: i32 = left[i].to_integer(reader);
        assert(docs(left@)[i as int] == left[i as int].doc());
        let node = if l == -1 {
            let leaf_value = if i < conditions.len() {
                value_at(Some(conditions), i, reader, calc)
            } else {
                value_at(base_weights, i, reader, calc)
            };
            Node {
                split_feature: 0,
                split_cond: Single::zero(),
                default_left: true,
                left: -1,
                right: -1,
                leaf_value,
                sum_hess,
                split_gain: Single::zero(),
                is_categorical: false,
                cat_begin: 0,
                cat_end: 0,
            }
        } else {
            if i >= right.len() {
                assert(lacks_right(docs(left@), docs(right@), left.len() as int, reader));
                return Err("model format error: missing `right_children`".to_owned());
            }
            assert(docs(right@)[i as int] == right[i as int].doc());
            let split_feature: u32 = match indices {
                Some(items) => if i < items.len() {
                    items[i].to_count(reader)
                } else {
                    0
                },
                None => 0,
            };
            let default_left = match defaults {
                Some(items) => if i < items.len() {
                    items[i].to_truth(reader)
                } else {
                    false
                },
                None => false,
            };
            Node {
                split_feature,
                split_cond: value_at(Some(conditions), i, reader, calc),
                default_left,
                left: l,
                right: right[i].to_integer(reader),
                leaf_value: Single::zero(),
                sum_hess,
                split_gain: value_at(loss_changes, i, reader, calc),
                is_categorical: false,
                cat_begin: 0,
                cat_end: 0,
            }
        };
        assert(node == node_read(d.doc(), i as int, reader, calc));
        let fine = node.split_cond.is_finite() && node.leaf_value.is_finite()
            && node.sum_hess.is_finite() && node.split_gain.is_finite();
        let ghost was = nodes@;
        nodes.push(node);
        proof {
            assert(nodes[i as int] == node);
            assert(forall|k: int| 0 <= k < i ==> #[trigger] nodes[k] == was[k]);
            assert(fine == ordinary(nodes[i as int]));
            if all_ordinary && fine {
                assert forall|k: int| 0 <= k < i + 1 implies ordinary(#[trigger] nodes[k]) by {
                    if k < i {
                        assert(ordinary(was[k]));
                    }
                }
            }
            if !all_ordinary {
                let k = choose|k: int| 0 <= k < i && !ordinary(#[trigger] was[k]);
                assert(!ordinary(nodes[k]));
            }
        }
        all_ordinary = all_ordinary && fine;
        i = i + 1;
    }
    proof {
        let goal = Seq::new(docs(left@).len(), |i: int| node_read(d.doc(), i, reader, calc));
        assert(nodes@ =~= goal);
        if !all_ordinary {
            let k = choose|k: int| 0 <= k < i && !ordinary(#[trigger] nodes[k]);
            assert(!ordinary(goal[k]));
        }
    }
    if !all_ordinary {
        return Err("invalid type: null, expected f32".to_owned());
    }
    let categories: Vec<u32> = Vec::new();
    assert(categories@ =~= Seq::<u32>::empty());
    Ok(RegTree::from_parts(nodes, categories))
}

proof fn trees_stay_refused<
    F: Fn(Op, u64, u64) -> u64,
    P: Fn(Precision, &str) -> Option<u64>,
>(list: Seq<Doc>, a: int, b: int, reader: &Reader<P>, calc: &Calc<F>)
    requires
        a <= b,
        trees_read(list, a, reader, calc) is Err,
    ensures
        trees_read(list, b, reader, calc) == trees_read(list, a, reader, calc),
    decreases b - a,
{
    if a < b {
        trees_stay_refused(list, a, b - 1, reader, calc);
    }
}

/// The trees of a list.
fn read_trees<F: Fn(Op, u64, u64) -> u64, P: Fn(Precision, &str) -> Option<u64>>(
    list: &Vec<Json>,
    reader: &Reader<P>,
    calc: &Calc<F>,
) -> (r: Result<Vec<RegTree>, SequoiaError>)
    ensures
        match trees_read(docs(list@), list.len() as int, reader, calc) {
            Ok(trees) => {
                &&& r matches Ok(v)
                &&& v.len() == trees.len()
                &&& forall|t: int|
                    #![trigger v[t]]
                    0 <= t < v.len() ==> v[t].node_list() == trees[t] && v[t].category_list()
                        == Seq::<u32>::empty()
            },
            Err(text) => r matches Err(SequoiaError::ModelFormat(s)) && s@ == text,
        },
{
    let mut out: Vec<RegTree> = Vec::new();
    let ghost mut trees: Seq<Seq<Node>> = Seq::empty();
    let mut i: usize = 0;
    while i < list.len()
        invariant
            i <= list.len(),
            trees_read(docs(list@), i as int, reader, calc) == Ok::<Seq<Seq<Node>>, Seq<char>>(
                trees,
            ),
            out.len() == trees.len(),
            forall|t: int|
                #![trigger out[t]]
                0 <= t < out.len() ==> out[t].node_list() == trees[t] && out[t].category_list()
                    == Seq::<u32>::empty(),
        decreases list.len() - i,
    {
        assert(docs(list@)[i as int] == list[i as int].doc());
        match tree_from_json(&list[i], reader, calc) {
            Err(e) => {
                proof {
                    trees_stay_refused(docs(list@), i + 1, list.len() as int, reader, calc);
                }
                let text = "tree ".to_owned().concat(decimal_text(i as u64).as_str()).concat(
                    ": ",
                ).concat(e.as_str());
                return Err(SequoiaError::ModelFormat(text));
            },
            Ok(t) => {
                proof {
                    trees = trees.push(t.node_list());
                }
                out.push(t);
            },
        }
        i = i + 1;
    }
    Ok(out)
}

fn scalar_in<F: Fn(Op, u64, u64) -> u64, P: Fn(Precision, &str) -> Option<u64>>(
    d: &Json,
    key: &str,
    reader: &Reader<P>,
    calc: &Calc<F>,
) -> (r: Option<Wide>)
    ensures
        r == scalar_named(d.doc(), key@, reader, calc),
{
    match d.get(key) {
        Some(j) => j.to_scalar(reader, calc),
        None => None,
    }
}

fn format_error(text: &str) -> (r: SequoiaError)
    ensures
        r matches SequoiaError::ModelFormat(s) && s@ == text@,
{
    SequoiaError::ModelFormat(text.to_owned())
}

/// The model that a document holds. A document without the right child of an
/// internal node is refused, as is one with a number that is not finite.
pub fn model_from_json<F: Fn(Op, u64, u64) -> u64, P: Fn(Precision, &str) -> Option<u64>>(
    root: &Json,
    reader: &Reader<P>,
    calc: &Calc<F>,
) -> (r: Result<BoostedModel, SequoiaError>)
    ensures
        match model_read(root.doc(), reader, calc) {
            Ok(parts) => r matches Ok(m) && is_model(&m, parts),
            Err(text) => r matches Err(SequoiaError::ModelFormat(s)) && s@ == text,
        },
{
    let learner = match field(root, "learner") {
        Ok(j) => j,
        Err(e) => {
            return Err(e);
        },
    };
    let booster = match field(learner, "gradient_booster") {
        Ok(j) => j,
        Err(e) => {
            return Err(e);
        },
    };
    let booster_name = match booster.get("name") {
        Some(j) => match j.as_text() {
            Some(t) => t,
            None => "gbtree",
        },
        None => "gbtree",
    };
    if !same_text(booster_name, "gbtree") {
        return Err(
            SequoiaError::ModelFormat(
                quote("unsupported gradient_booster `", booster_name).concat(
                    ": only `gbtree` is supported",
                ),
            ),
        );
    }
    let model = match field(booster, "model") {
        Ok(j) => j,
        Err(e) => {
            return Err(e);
        },
    };
    let params = match field(learner, "learner_model_param") {
        Ok(j) => j,
        Err(e) => {
            return Err(e);
        },
    };
    let width: usize = match scalar_in(params, "num_feature", reader, calc) {
        Some(w) => w.to_usize(),
        None => {
            return Err(format_error("missing/invalid `num_feature`"));
        },
    };
    let num_class: usize = match scalar_in(params, "num_class", reader, calc) {
        Some(w) => w.to_usize(),
        None => 0,
    };
    let objective = match learner.get("objective") {
        Some(o) => match o.get("name") {
            Some(j) => match j.as_text() {
                Some(t) => t,
                None => "reg:squarederror",
            },
            None => "reg:squarederror",
        },
        None => "reg:squarederror",
    };
    assert(objective@ == objective_read(learner.doc()));
    let list = match arr(model, "trees") {
        Some(l) => l,
        None => {
            return Err(format_error("missing `model.trees` array"));
        },
    };
    let trees = match read_trees(list, reader, calc) {
        Ok(t) => t,
        Err(e) => {
            return Err(e);
        },
    };
    let score = match scalar_in(params, "base_score", reader, calc) {
        Some(w) => calc.narrow(w),
        None => {
            return Err(format_error("missing/invalid `base_score`"));
        },
    };
    let base = start_from(objective, num_class, score, calc);
    Ok(BoostedModel::from_parts(trees, base, objective.to_owned(), num_class, width))
}

/// Read a model from a JSON document in XGBoost's format.
pub fn import_xgboost_json<F: Fn(Op, u64, u64) -> u64, P: Fn(Precision, &str) -> Option<u64>>(
    json: &str,
    reader: &Reader<P>,
    calc: &Calc<F>,
) -> (r: Result<BoostedModel, SequoiaError>)
    ensures
        match parsed(json@) {
            None => r matches Err(SequoiaError::Json(_)),
            Some(d) => match model_read(d, reader, calc) {
                Ok(parts) => r matches Ok(m) && is_model(&m, parts),
                Err(text) => r matches Err(SequoiaError::ModelFormat(s)) && s@ == text,
            },
        },
{
    match parse(json, None) {
        Err(e) => Err(SequoiaError::Json(e)),
        Ok(root) => model_from_json(&root, reader, calc),
    }
}

/// A list of a tree's document.
#[derive(Clone, Copy, Debug, PartialEq, Eq, Structural)]
pub enum Column {
    /// Left children.
    Left,
    /// Right children.
    Right,
    /// Split features.
    SplitIndices,
    /// Thresholds, and the weights of leaves.
    SplitConditions,
    /// Default directions.
    DefaultLeft,
    /// The weights of leaves.
    BaseWeights,
    /// Loss reductions.
    LossChanges,
    /// Sums of Hessians.
    SumHessian,
    /// Kinds of splits.
    SplitType,
}

/// A number as it stands in a document.
pub open spec fn number_doc<F: Fn(Op, u64, u64) -> u64, W: Fn(Precision, u64) -> String>(
    v: Single,
    writer: &Writer<W>,
    calc: &Calc<F>,
) -> Doc {
    Doc::Number(writer.wide(calc.widened(v)))
}

/// The entry of a node in a list.
pub open spec fn column_doc<F: Fn(Op, u64, u64) -> u64, W: Fn(Precision, u64) -> String>(
    column: Column,
    node: Node,
    writer: &Writer<W>,
    calc: &Calc<F>,
) -> Doc {
    let zero = Single { bits: 0 };
    match column {
        Column::Left => Doc::Whole(node.left as i64),
        Column::Right => Doc::Whole(node.right as i64),
        Column::SplitIndices => Doc::Whole(
            if node.leafy() {
                0
            } else {
                node.split_feature as i64
            },
        ),
        Column::SplitConditions => number_doc(
            if node.leafy() {
                node.leaf_value
            } else {
                node.split_cond
            },
            writer,
            calc,
        ),
        Column::DefaultLeft => Doc::Whole(
            if node.leafy() || node.default_left {
                1
            } else {
                0
            },
        ),
        Column::BaseWeights => number_doc(
            if node.leafy() {
                node.leaf_value
            } else {
                zero
            },
            writer,
            calc,
        ),
        Column::LossChanges => number_doc(
            if node.leafy() {
                zero
            } else {
                node.split_gain
            },
            writer,
            calc,
        ),
        Column::SumHessian => number_doc(node.sum_hess, writer, calc),
        Column::SplitType => Doc::Whole(0),
    }
}

/// A list of a tree.
pub open spec fn column_list<F: Fn(Op, u64, u64) -> u64, W: Fn(Precision, u64) -> String>(
    column: Column,
    nodes: Seq<Node>,
    writer: &Writer<W>,
    calc: &Calc<F>,
) -> Doc {
    Doc::List(Seq::new(nodes.len(), |i: int| column_doc(column, nodes[i], writer, calc)))
}

/// The parent of every node, given the first `n` nodes.
pub open spec fn parents_of(nodes: Seq<Node>, n: int) -> Seq<i32>
    decreases n,
{
    if n <= 0 {
        Seq::new(nodes.len(), |i: int| INVALID_NODE)
    } else {
        let before = parents_of(nodes, n - 1);
        let node = nodes[n - 1];
        if node.leafy() {
            before
        } else {
            before.update(node.left as int, (n - 1) as i32).update(
                node.right as int,
                (n - 1) as i32,
            )
        }
    }
}

/// A text member.
pub open spec fn text_doc(s: Seq<char>) -> Doc {
    Doc::Text(s)
}

/// An empty list.
pub open spec fn no_items() -> Doc {
    Doc::List(Seq::empty())
}

/// The parameters of a tree.
pub open spec fn tree_param_doc(n: nat, width: nat) -> Doc {
    Doc::Object(
        seq![
            ("num_deleted"@, text_doc("0"@)),
            ("num_feature"@, text_doc(decimal(width))),
            ("num_nodes"@, text_doc(decimal(n))),
            ("size_leaf_vector"@, text_doc("0"@)),
        ],
    )
}

/// A tree as a document.
pub open spec fn tree_doc<F: Fn(Op, u64, u64) -> u64, W: Fn(Precision, u64) -> String>(
    id: int,
    nodes: Seq<Node>,
    width: nat,
    writer: &Writer<W>,
    calc: &Calc<F>,
) -> Doc {
    Doc::Object(
        seq![
            ("left_children"@, column_list(Column::Left, nodes, writer, calc)),
            ("right_children"@, column_list(Column::Right, nodes, writer, calc)),
            ("split_indices"@, column_list(Column::SplitIndices, nodes, writer, calc)),
            ("split_conditions"@, column_list(Column::SplitConditions, nodes, writer, calc)),
            ("default_left"@, column_list(Column::DefaultLeft, nodes, writer, calc)),
            ("base_weights"@, column_list(Column::BaseWeights, nodes, writer, calc)),
            ("loss_changes"@, column_list(Column::LossChanges, nodes, writer, calc)),
            ("sum_hessian"@, column_list(Column::SumHessian, nodes, writer, calc)),
            ("split_type"@, column_list(Column::SplitType, nodes, writer, calc)),
            (
                "parents"@,
                Doc::List(
                    Seq::new(
                        nodes.len(),
                        |i: int|
                            Doc::Whole(parents_of(nodes, nodes.len() as int)[i] as i64),
                    ),
                ),
            ),
            ("id"@, Doc::Whole(id as i64)),
            ("tree_param"@, tree_param_doc(nodes.len(), width)),
            ("categories"@, no_items()),
            ("categories_nodes"@, no_items()),
            ("categories_segments"@, no_items()),
            ("categories_sizes"@, no_items()),
        ],
    )
}

/// The parameters of an objective as a document.
pub open spec fn objective_doc(name: Seq<char>, num_class: nat) -> Doc {
    if name == "multi:softmax"@ || name == "multi:softprob"@ {
        Doc::Object(
            seq![
                ("name"@, text_doc(name)),
                (
                    "softmax_multiclass_param"@,
                    Doc::Object(seq![("num_class"@, text_doc(decimal(num_class)))]),
                ),
            ],
        )
    } else if name == "count:poisson"@ {
        Doc::Object(
            seq![
                ("name"@, text_doc(name)),
                (
                    "poisson_regression_param"@,
                    Doc::Object(seq![("max_delta_step"@, text_doc("0.7"@))]),
                ),
            ],
        )
    } else {
        Doc::Object(
            seq![
                ("name"@, text_doc(name)),
                (
                    "reg_loss_param"@,
                    Doc::Object(
                        seq![
                            ("scale_pos_weight"@, text_doc("1"@)),
                            ("scale_pos_weight_default"@, text_doc("1"@)),
                        ],
                    ),
                ),
            ],
        )
    }
}

/// The base score as it is stored: the prediction that a margin stands for,
/// where there is one output.
pub open spec fn stored_score<F: Fn(Op, u64, u64) -> u64>(
    name: Seq<char>,
    num_class: usize,
    margin: Single,
    calc: &Calc<F>,
) -> Single {
    if outputs_named(name, num_class) == 1 {
        reported(name, num_class, seq![margin], calc)[0]
    } else {
        margin
    }
}

/// The trees and their outputs as a document.
pub open spec fn trees_doc<F: Fn(Op, u64, u64) -> u64, W: Fn(Precision, u64) -> String>(
    m: &BoostedModel,
    writer: &Writer<W>,
    calc: &Calc<F>,
) -> Doc {
    let n = m.tree_list().len();
    Doc::Object(
        seq![
            (
                "trees"@,
                Doc::List(
                    Seq::new(
                        n,
                        |t: int|
                            tree_doc(
                                t,
                                m.tree_list()[t].node_list(),
                                m.width() as nat,
                                writer,
                                calc,
                            ),
                    ),
                ),
            ),
            (
                "tree_info"@,
                Doc::List(Seq::new(n, |t: int| Doc::Whole((t % m.outputs()) as i64))),
            ),
            (
                "gbtree_model_param"@,
                Doc::Object(
                    seq![
                        ("num_parallel_tree"@, text_doc("1"@)),
                        ("num_trees"@, text_doc(decimal(n))),
                    ],
                ),
            ),
        ],
    )
}

/// The parameters of a model as a document.
pub open spec fn params_doc<F: Fn(Op, u64, u64) -> u64, W: Fn(Precision, u64) -> String>(
    m: &BoostedModel,
    writer: &Writer<W>,
    calc: &Calc<F>,
) -> Doc {
    Doc::Object(
        seq![
            (
                "base_score"@,
                text_doc(
                    writer.value(
                        stored_score(
                            m.objective_name(),
                            m.classes(),
                            m.base(),
                            calc,
                        ),
                    ),
                ),
            ),
            ("num_class"@, text_doc(decimal(m.classes() as nat))),
            ("num_feature"@, text_doc(decimal(m.width() as nat))),
            ("num_target"@, text_doc("1"@)),
        ],
    )
}

/// A learner as a document.
pub open spec fn learner_doc<F: Fn(Op, u64, u64) -> u64, W: Fn(Precision, u64) -> String>(
    m: &BoostedModel,
    writer: &Writer<W>,
    calc: &Calc<F>,
) -> Doc {
    Doc::Object(
        seq![
            (
                "gradient_booster"@,
                Doc::Object(
                    seq![
                        ("name"@, text_doc("gbtree"@)),
                        ("model"@, trees_doc(m, writer, calc)),
                    ],
                ),
            ),
            ("learner_model_param"@, params_doc(m, writer, calc)),
            ("objective"@, objective_doc(m.objective_name(), m.classes() as nat)),
            ("attributes"@, Doc::Object(Seq::empty())),
            ("feature_names"@, no_items()),
            ("feature_types"@, no_items()),
        ],
    )
}

/// A model as a document.
pub open spec fn model_doc<F: Fn(Op, u64, u64) -> u64, W: Fn(Precision, u64) -> String>(
    m: &BoostedModel,
    writer: &Writer<W>,
    calc: &Calc<F>,
) -> Doc {
    Doc::Object(
        seq![
            ("learner"@, learner_doc(m, writer, calc)),
            (
                "version"@,
                Doc::List(seq![Doc::Whole(2), Doc::Whole(0), Doc::Whole(0)]),
            ),
        ],
    )
}

/// Whether the children of every internal node exist, and nodes can be
/// numbered.
pub open spec fn linked(nodes: Seq<Node>) -> bool {
    &&& nodes.len() <= i32::MAX
    &&& forall|i: int|
        #![trigger nodes[i]]
        0 <= i < nodes.len() && !nodes[i].leafy() ==> {
            &&& 0 <= nodes[i].left < nodes.len()
            &&& 0 <= nodes[i].right < nodes.len()
        }
}

/// Whether a model can be written.
pub open spec fn writable(m: &BoostedModel) -> bool {
    &&& m.tree_list().len() <= i64::MAX
    &&& m.outputs() <= i32::MAX
    &&& forall|t: int|
        0 <= t < m.tree_list().len() ==> linked((#[trigger] m.tree_list()[t]).node_list())
}

fn text_item(s: &str) -> (r: Json)
    ensures
        r.doc() == text_doc(s@),
{
    Json::Text(s.to_owned())
}

fn decimal_item(n: usize) -> (r: Json)
    ensures
        r.doc() == text_doc(decimal(n as nat)),
{
    Json::Text(decimal_text(n as u64))
}

fn empty_list() -> (r: Json)
    ensures
        r.doc() == no_items(),
{
    let items: Vec<Json> = Vec::new();
    let r = list_of(items);
    assert(r.doc()->List_0 =~= Seq::<Doc>::empty());
    r
}

fn number_item<F: Fn(Op, u64, u64) -> u64, W: Fn(Precision, u64) -> String>(
    v: Single,
    writer: &Writer<W>,
    calc: &Calc<F>,
) -> (r: Json)
    ensures
        r.doc() == number_doc(v, writer, calc),
{
    Json::Number(writer.write_wide(calc.widen(v)))
}

fn column_item<F: Fn(Op, u64, u64) -> u64, W: Fn(Precision, u64) -> String>(
    column: Column,
    node: &Node,
    writer: &Writer<W>,
    calc: &Calc<F>,
) -> (r: Json)
    ensures
        r.doc() == column_doc(column, *node, writer, calc),
{
    let leaf = node.is_leaf();
    match column {
        Column::Left => Json::Whole(node.left as i64),
        Column::Right => Json::Whole(node.right as i64),
        Column::SplitIndices => Json::Whole(
            if leaf {
                0
            } else {
                node.split_feature as i64
            },
        ),
        Column::SplitConditions => number_item(
            if leaf {
                node.leaf_value
            } else {
                node.split_cond
            },
            writer,
            calc,
        ),
        Column::DefaultLeft => Json::Whole(
            if leaf || node.default_left {
                1
            } else {
                0
            },
        ),
        Column::BaseWeights => number_item(
            if leaf {
                node.leaf_value
            } else {
                Single::zero()
            },
            writer,
            calc,
        ),
        Column::LossChanges => number_item(
            if leaf {
                Single::zero()
            } else {
                node.split_gain
            },
            writer,
            calc,
        ),
        Column::SumHessian => number_item(node.sum_hess, writer, calc),
        Column::SplitType => Json::Whole(0),
    }
}

fn column_items<F: Fn(Op, u64, u64) -> u64, W: Fn(Precision, u64) -> String>(
    column: Column,
    nodes: &[Node],
    writer: &Writer<W>,
    calc: &Calc<F>,
) -> (r: Json)
    ensures
        r.doc() == column_list(column, nodes@, writer, calc),
{
    let mut items: Vec<Json> = Vec::new();
    let mut i: usize = 0;
    while i < nodes.len()
        invariant
            i <= nodes.len(),
            items.len() == i,
            forall|k: int|
                0 <= k < i ==> (#[trigger] items[k]).doc() == column_doc(
                    column,
                    nodes[k],
                    writer,
                    calc,
                ),
        decreases nodes.len() - i,
    {
        items.push(column_item(column, &nodes[i], writer, calc));
        i = i + 1;
    }
    let r = list_of(items);
    assert(r.doc()->List_0 =~= column_list(column, nodes@, writer, calc)->List_0);
    r
}

/// The parents of all nodes.
fn parent_items(nodes: &[Node]) -> (r: Json)
    requires
        linked(nodes@),
    ensures
        r.doc() == Doc::List(
            Seq::new(
                nodes@.len(),
                |i: int| Doc::Whole(parents_of(nodes@, nodes@.len() as int)[i] as i64),
            ),
        ),
{
    let n: usize = nodes.len();
    let mut parents: Vec<i32> = vec![INVALID_NODE; n];
    assert(parents@ =~= parents_of(nodes@, 0));
    let mut i: usize = 0;
    while i < n
        invariant
            linked(nodes@),
            n == nodes.len(),
            parents.len() == n,
            i <= n,
            parents@ == parents_of(nodes@, i as int),
        decreases n - i,
    {
        let node = nodes[i];
        if !node.is_leaf() {
            assert(nodes@[i as int] == node);
            parents.set(node.left as usize, i as i32);
            parents.set(node.right as usize, i as i32);
        }
        i = i + 1;
    }
    let mut items: Vec<Json> = Vec::new();
    let mut k: usize = 0;
    while k < n
        invariant
            parents.len() == n,
            k <= n,
            items.len() == k,
            forall|q: int| 0 <= q < k ==> (#[trigger] items[q]).doc() == Doc::Whole(parents[q] as i64),
        decreases n - k,
    {
        items.push(Json::Whole(parents[k] as i64));
        k = k + 1;
    }
    let r = list_of(items);
    proof {
        let goal = Seq::new(
            nodes@.len(),
            |i: int| Doc::Whole(parents_of(nodes@, nodes@.len() as int)[i] as i64),
        );
        assert(r.doc()->List_0 =~= goal);
    }
    r
}

/// A tree as a document.
pub fn tree_to_json<F: Fn(Op, u64, u64) -> u64, W: Fn(Precision, u64) -> String>(
    id: usize,
    tree: &RegTree,
    width: usize,
    writer: &Writer<W>,
    calc: &Calc<F>,
) -> (r: Json)
    requires
        linked(tree.node_list()),
        id <= i64::MAX,
    ensures
        r.doc() == tree_doc(id as int, tree.node_list(), width as nat, writer, calc),
{
    let nodes = tree.nodes();
    let param = Members::new().with("num_deleted", text_item("0")).with(
        "num_feature",
        decimal_item(width),
    ).with("num_nodes", decimal_item(nodes.len())).with(
        "size_leaf_vector",
        text_item("0"),
    ).object();
    assert(param.doc()->Object_0 =~= tree_param_doc(
        nodes.len() as nat,
        width as nat,
    )->Object_0);
    let r = Members::new().with("left_children", column_items(Column::Left, nodes, writer, calc)).with(
        "right_children",
        column_items(Column::Right, nodes, writer, calc),
    ).with("split_indices", column_items(Column::SplitIndices, nodes, writer, calc)).with(
        "split_conditions",
        column_items(Column::SplitConditions, nodes, writer, calc),
    ).with("default_left", column_items(Column::DefaultLeft, nodes, writer, calc)).with(
        "base_weights",
        column_items(Column::BaseWeights, nodes, writer, calc),
    ).with("loss_changes", column_items(Column::LossChanges, nodes, writer, calc)).with(
        "sum_hessian",
        column_items(Column::SumHessian, nodes, writer, calc),
    ).with("split_type", column_items(Column::SplitType, nodes, writer, calc)).with(
        "parents",
        parent_items(nodes),
    ).with("id", Json::Whole(id as i64)).with("tree_param", param).with(
        "categories",
        empty_list(),
    ).with("categories_nodes", empty_list()).with("categories_segments", empty_list()).with(
        "categories_sizes",
        empty_list(),
    ).object();
    assert(r.doc()->Object_0 =~= tree_doc(
        id as int,
        tree.node_list(),
        width as nat,
        writer,
        calc,
    )->Object_0);
    r
}

/// The parameters of an objective as a document.
fn objective_to_json(name: &str, num_class: usize) -> (r: Json)
    ensures
        r.doc() == objective_doc(name@, num_class as nat),
{
    let named = Members::new().with("name", text_item(name));
    let (key, params) = if same_text(name, "multi:softmax") || same_text(name, "multi:softprob") {
        let p = Members::new().with("num_class", decimal_item(num_class)).object();
        assert(p.doc()->Object_0 =~= seq![("num_class"@, text_doc(decimal(num_class as nat)))]);
        ("softmax_multiclass_param", p)
    } else if same_text(name, "count:poisson") {
        let p = Members::new().with("max_delta_step", text_item("0.7")).object();
        assert(p.doc()->Object_0 =~= seq![("max_delta_step"@, text_doc("0.7"@))]);
        ("poisson_regression_param", p)
    } else {
        let p = Members::new().with("scale_pos_weight", text_item("1")).with(
            "scale_pos_weight_default",
            text_item("1"),
        ).object();
        assert(p.doc()->Object_0 =~= seq![
            ("scale_pos_weight"@, text_doc("1"@)),
            ("scale_pos_weight_default"@, text_doc("1"@)),
        ]);
        ("reg_loss_param", p)
    };
    let r = named.with(key, params).object();
    assert(r.doc()->Object_0 =~= objective_doc(name@, num_class as nat)->Object_0);
    r
}

/// The base score as it is stored.
fn link_export<F: Fn(Op, u64, u64) -> u64>(
    m: &BoostedModel,
    calc: &Calc<F>,
) -> (r: Single)
    ensures
        r == stored_score(m.objective_name(), m.classes(), m.base(), calc),
{
    let margin = m.base_score();
    if m.n_outputs() == 1 {
        let mut buffer: Vec<Single> = Vec::new();
        buffer.push(margin);
        assert(buffer@ =~= seq![margin]);
        report(m.objective(), m.num_class(), &mut buffer, calc);
        buffer[0]
    } else {
        margin
    }
}

/// A model as a document.
pub fn model_to_json<F: Fn(Op, u64, u64) -> u64, W: Fn(Precision, u64) -> String>(
    model: &BoostedModel,
    writer: &Writer<W>,
    calc: &Calc<F>,
) -> (r: Json)
    requires
        writable(model),
    ensures
        r.doc() == model_doc(model, writer, calc),
{
    let width: usize = model.n_features();
    let num_class: usize = model.num_class();
    let n_outputs: usize = model.n_outputs();
    let trees = model.trees();
    let n: usize = trees.len();
    let ghost goal = trees_doc(model, writer, calc)->Object_0;
    let mut tree_items: Vec<Json> = Vec::new();
    let mut info_items: Vec<Json> = Vec::new();
    proof {
        model.shape();
    }
    let mut t: usize = 0;
    while t < n
        invariant
            writable(model),
            trees@ == model.tree_list(),
            n == trees.len(),
            width == model.width(),
            n_outputs == model.outputs(),
            1 <= n_outputs <= i32::MAX,
            t <= n,
            tree_items.len() == t,
            info_items.len() == t,
            forall|k: int|
                0 <= k < t ==> (#[trigger] tree_items[k]).doc() == tree_doc(
                    k,
                    model.tree_list()[k].node_list(),
                    model.width() as nat,
                    writer,
                    calc,
                ),
            forall|k: int|
                0 <= k < t ==> (#[trigger] info_items[k]).doc() == Doc::Whole(
                    (k % model.outputs()) as i64,
                ),
        decreases n - t,
    {
        assert(linked(model.tree_list()[t as int].node_list()));
        tree_items.push(tree_to_json(t, &trees[t], width, writer, calc));
        info_items.push(Json::Whole((t % n_outputs) as i64));
        t = t + 1;
    }
    let tree_list = list_of(tree_items);
    let tree_info = list_of(info_items);
    proof {
        assert(tree_list.doc()->List_0 =~= goal[0].1->List_0);
        assert(tree_info.doc()->List_0 =~= goal[1].1->List_0);
    }
    let model_param = Members::new().with("num_parallel_tree", text_item("1")).with(
        "num_trees",
        decimal_item(n),
    ).object();
    assert(model_param.doc()->Object_0 =~= goal[2].1->Object_0);
    let forest = Members::new().with("trees", tree_list).with("tree_info", tree_info).with(
        "gbtree_model_param",
        model_param,
    ).object();
    assert(forest.doc()->Object_0 =~= goal);
    let base_score = writer.write_value(link_export(model, calc));
    let params = Members::new().with("base_score", Json::Text(base_score)).with(
        "num_class",
        decimal_item(num_class),
    ).with("num_feature", decimal_item(width)).with("num_target", text_item("1")).object();
    assert(params.doc()->Object_0 =~= params_doc(model, writer, calc)->Object_0);
    let booster = Members::new().with("name", text_item("gbtree")).with("model", forest).object();
    let attributes = Members::new().object();
    proof {
        let rest = learner_doc(model, writer, calc)->Object_0;
        assert(booster.doc()->Object_0 =~= rest[0].1->Object_0);
        assert(attributes.doc()->Object_0 =~= rest[3].1->Object_0);
    }
    let learner = Members::new().with("gradient_booster", booster).with(
        "learner_model_param",
        params,
    ).with("objective", objective_to_json(model.objective(), num_class)).with(
        "attributes",
        attributes,
    ).with("feature_names", empty_list()).with("feature_types", empty_list()).object();
    assert(learner.doc()->Object_0 =~= learner_doc(model, writer, calc)->Object_0);
    let mut version: Vec<Json> = Vec::new();
    version.push(Json::Whole(2));
    version.push(Json::Whole(0));
    version.push(Json::Whole(0));
    let version = list_of(version);
    assert(version.doc()->List_0 =~= seq![Doc::Whole(2), Doc::Whole(0), Doc::Whole(0)]);
    let r = Members::new().with("learner", learner).with("version", version).object();
    assert(r.doc()->Object_0 =~= model_doc(model, writer, calc)->Object_0);
    r
}

proof fn tree_docs_nest<F: Fn(Op, u64, u64) -> u64, W: Fn(Precision, u64) -> String>(
    id: int,
    nodes: Seq<Node>,
    width: nat,
    n: nat,
    writer: &Writer<W>,
    calc: &Calc<F>,
)
    requires
        n >= 2,
    ensures
        nests_within(tree_doc(id, nodes, width, writer, calc), n),
{
    let items = tree_doc(id, nodes, width, writer, calc)->Object_0;
    let less = (n - 1) as nat;
    assert forall|i: int| 0 <= i < items.len() implies nests_within(
        (#[trigger] items[i]).1,
        less,
    ) by {
        if items[i].1 is List {
            flat_lists_nest(items[i].1->List_0, less);
        } else if i == 11 {
            let params = tree_param_doc(nodes.len(), width)->Object_0;
            assert forall|k: int| 0 <= k < params.len() implies nests_within(
                (#[trigger] params[k]).1,
                (less - 1) as nat,
            ) by {
                assert(is_flat(params[k].1));
            }
        }
    }
}

proof fn objective_docs_nest(name: Seq<char>, num_class: nat, n: nat)
    requires
        n >= 2,
    ensures
        nests_within(objective_doc(name, num_class), n),
{
    let items = objective_doc(name, num_class)->Object_0;
    assert(items.len() == 2);
    assert(items[0].1 == text_doc(name));
    let inner = items[1].1->Object_0;
    assert forall|k: int| 0 <= k < inner.len() implies nests_within(
        (#[trigger] inner[k]).1,
        (n - 2) as nat,
    ) by {
        assert(is_flat(inner[k].1));
    }
    assert(nests_within(items[1].1, (n - 1) as nat));
    assert forall|i: int| 0 <= i < items.len() implies nests_within(
        (#[trigger] items[i]).1,
        (n - 1) as nat,
    ) by {
        if i == 0 {
            assert(is_flat(items[i].1));
        }
    }
}

proof fn forest_docs_nest<F: Fn(Op, u64, u64) -> u64, W: Fn(Precision, u64) -> String>(
    m: &BoostedModel,
    n: nat,
    writer: &Writer<W>,
    calc: &Calc<F>,
)
    requires
        n >= 4,
    ensures
        nests_within(trees_doc(m, writer, calc), n),
{
    let items = trees_doc(m, writer, calc)->Object_0;
    let less = (n - 1) as nat;
    assert(items.len() == 3);
    let list = items[0].1->List_0;
    assert forall|t: int| 0 <= t < list.len() implies nests_within(
        #[trigger] list[t],
        (less - 1) as nat,
    ) by {
        tree_docs_nest(
            t,
            m.tree_list()[t].node_list(),
            m.width() as nat,
            (less - 1) as nat,
            writer,
            calc,
        );
    }
    assert(nests_within(items[0].1, less));
    flat_lists_nest(items[1].1->List_0, less);
    assert(nests_within(items[1].1, less));
    let params = items[2].1->Object_0;
    assert forall|k: int| 0 <= k < params.len() implies nests_within(
        (#[trigger] params[k]).1,
        (less - 1) as nat,
    ) by {
        assert(is_flat(params[k].1));
    }
    assert(nests_within(items[2].1, less));
}

proof fn model_docs_nest<F: Fn(Op, u64, u64) -> u64, W: Fn(Precision, u64) -> String>(
    m: &BoostedModel,
    writer: &Writer<W>,
    calc: &Calc<F>,
)
    ensures
        nests_within(model_doc(m, writer, calc), MAX_NESTING as nat),
{
    let root = model_doc(m, writer, calc)->Object_0;
    let learner = learner_doc(m, writer, calc)->Object_0;
    let booster = learner[0].1->Object_0;
    assert(booster.len() == 2);
    forest_docs_nest(m, 97, writer, calc);
    assert(is_flat(booster[0].1));
    assert(nests_within(booster[0].1, 97));
    assert(booster[1].1 == trees_doc(m, writer, calc));
    assert forall|k: int| 0 <= k < booster.len() implies nests_within(
        (#[trigger] booster[k]).1,
        97,
    ) by {}
    assert(nests_within(learner[0].1, 98));
    let params = params_doc(m, writer, calc)->Object_0;
    assert forall|k: int| 0 <= k < params.len() implies nests_within((#[trigger] params[k]).1, 97) by {
        assert(is_flat(params[k].1));
    }
    assert(nests_within(learner[1].1, 98));
    objective_docs_nest(m.objective_name(), m.classes() as nat, 98);
    assert(nests_within(learner[2].1, 98));
    assert(nests_within(learner[3].1, 98));
    flat_lists_nest(Seq::empty(), 98);
    assert forall|k: int| 0 <= k < learner.len() implies nests_within(
        (#[trigger] learner[k]).1,
        98,
    ) by {}
    assert(nests_within(root[0].1, 99));
    flat_lists_nest(root[1].1->List_0, 99);
    assert forall|k: int| 0 <= k < root.len() implies nests_within((#[trigger] root[k]).1, 99) by {}
}

/// Write a model as a JSON document in XGBoost's format.
pub fn export_xgboost_json<F: Fn(Op, u64, u64) -> u64, W: Fn(Precision, u64) -> String>(
    model: &BoostedModel,
    writer: &Writer<W>,
    calc: &Calc<F>,
) -> (r: Result<String, SequoiaError>)
    requires
        writable(model),
    ensures
        r matches Ok(text) && text@ == printed(model_doc(model, writer, calc)) && is_read_back(
            model_doc(model, writer, calc),
            text@,
        ),
{
    proof {
        model_docs_nest(model, writer, calc);
    }
    let doc = model_to_json(model, writer, calc);
    match print(&doc, false).text {
        Ok(text) => Ok(text),
        Err(e) => Err(SequoiaError::Json(e)),
    }
}

} // verus!
