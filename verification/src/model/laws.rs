//! What is read back from a written model.

use vstd::prelude::*;

use crate::arith::{Calc, Op};
use crate::data::dmatrix::DMatrix;
use crate::learner::margin::{margins_of, tree_value, walkable, with_tree};
use crate::learner::model::BoostedModel;
use crate::model::json::{count_of, integer_of, member, member_place, truth_of, Doc};
use crate::model::xgboost_json::{
    column_doc, column_list, is_model, lacks_right, learner_doc, linked, list_named, list_or_empty,
    model_doc, model_read, node_read, objective_doc, ordinary, params_doc, real_at, stored_score,
    text_doc, tree_doc, tree_read, trees_doc, trees_read, writable, Column, Parts,
};
use crate::number::{Single, ONE_S};
use crate::objective::create::started;
use crate::text::{decimal, Precision, Reader, Writer};
use crate::tree::builder::exact::features_exist;
use crate::tree::regtree::{leaf_node, route, settles, Node, RegTree};

verus! {

/// Whether a number is read back as it was written.
pub open spec fn comes_back<
    F: Fn(Op, u64, u64) -> u64,
    P: Fn(Precision, &str) -> Option<u64>,
    W: Fn(Precision, u64) -> String,
>(v: Single, reader: &Reader<P>, writer: &Writer<W>, calc: &Calc<F>) -> bool {
    &&& v.finite()
    &&& reader.wide(writer.wide(calc.widened(v))) matches Some(w)
    &&& calc.narrowed(w) == v
}

/// Whether the numbers of a node are read back as they were written.
pub open spec fn node_comes_back<
    F: Fn(Op, u64, u64) -> u64,
    P: Fn(Precision, &str) -> Option<u64>,
    W: Fn(Precision, u64) -> String,
>(node: Node, reader: &Reader<P>, writer: &Writer<W>, calc: &Calc<F>) -> bool {
    &&& comes_back(node.sum_hess, reader, writer, calc)
    &&& if node.leafy() {
        comes_back(node.leaf_value, reader, writer, calc)
    } else {
        &&& comes_back(node.split_cond, reader, writer, calc)
        &&& comes_back(node.split_gain, reader, writer, calc)
    }
}

/// Whether a count is read back as it was written.
pub open spec fn count_comes_back<P: Fn(Precision, &str) -> Option<u64>>(
    n: usize,
    reader: &Reader<P>,
) -> bool {
    reader.wide(decimal(n as nat)) matches Some(w) && w.count(usize::MAX as int) == n
}

/// What the format keeps of a node: of a leaf its weight and cover, of an
/// internal node all but its categories and a weight.
pub open spec fn kept(node: Node) -> Node {
    if node.leafy() {
        leaf_node(node.leaf_value, node.sum_hess)
    } else {
        Node {
            leaf_value: Single { bits: 0 },
            is_categorical: false,
            cat_begin: 0,
            cat_end: 0,
            ..node
        }
    }
}

/// What the format keeps of a tree.
pub open spec fn kept_nodes(nodes: Seq<Node>) -> Seq<Node> {
    Seq::new(nodes.len(), |i: int| kept(nodes[i]))
}

pub(crate) proof fn member_stands(items: Seq<(Seq<char>, Doc)>, key: Seq<char>, k: int, i: int)
    requires
        0 <= i <= k < items.len(),
        items[k].0 == key,
        forall|j: int| i <= j < k ==> (#[trigger] items[j]).0 != key,
    ensures
        member_place(items, key, i) == k,
    decreases k - i,
{
    if i < k {
        assert(items[i].0 != key);
        member_stands(items, key, k, i + 1);
    }
}

proof fn tree_members_stand<F: Fn(Op, u64, u64) -> u64, W: Fn(Precision, u64) -> String>(
    id: int,
    nodes: Seq<Node>,
    width: nat,
    writer: &Writer<W>,
    calc: &Calc<F>,
)
    ensures
        ({
            let d = tree_doc(id, nodes, width, writer, calc);
            &&& member(d, "left_children"@) == Some(column_list(Column::Left, nodes, writer, calc))
            &&& member(d, "right_children"@) == Some(
                column_list(Column::Right, nodes, writer, calc),
            )
            &&& member(d, "split_indices"@) == Some(
                column_list(Column::SplitIndices, nodes, writer, calc),
            )
            &&& member(d, "split_conditions"@) == Some(
                column_list(Column::SplitConditions, nodes, writer, calc),
            )
            &&& member(d, "default_left"@) == Some(
                column_list(Column::DefaultLeft, nodes, writer, calc),
            )
            &&& member(d, "base_weights"@) == Some(
                column_list(Column::BaseWeights, nodes, writer, calc),
            )
            &&& member(d, "loss_changes"@) == Some(
                column_list(Column::LossChanges, nodes, writer, calc),
            )
            &&& member(d, "sum_hessian"@) == Some(
                column_list(Column::SumHessian, nodes, writer, calc),
            )
        }),
{
    reveal_strlit("left_children");
    reveal_strlit("right_children");
    reveal_strlit("split_indices");
    reveal_strlit("split_conditions");
    reveal_strlit("default_left");
    reveal_strlit("base_weights");
    reveal_strlit("loss_changes");
    reveal_strlit("sum_hessian");
    let items = tree_doc(id, nodes, width, writer, calc)->Object_0;
    assert(items[0].0 == "left_children"@);
    assert(items[1].0 == "right_children"@);
    assert(items[2].0 == "split_indices"@);
    assert(items[3].0 == "split_conditions"@);
    assert(items[4].0 == "default_left"@);
    assert(items[5].0 == "base_weights"@);
    assert(items[6].0 == "loss_changes"@);
    assert(items[7].0 == "sum_hessian"@);
    assert("left_children"@[0] == 'l' && "left_children"@.len() == 13);
    assert("loss_changes"@[0] == 'l' && "loss_changes"@.len() == 12);
    assert("right_children"@[0] == 'r');
    assert("split_indices"@[0] == 's' && "split_indices"@.len() == 13);
    assert("split_conditions"@[0] == 's' && "split_conditions"@.len() == 16);
    assert("sum_hessian"@[0] == 's' && "sum_hessian"@.len() == 11);
    assert("default_left"@[0] == 'd');
    assert("base_weights"@[0] == 'b');
    member_stands(items, "left_children"@, 0, 0);
    member_stands(items, "right_children"@, 1, 0);
    member_stands(items, "split_indices"@, 2, 0);
    member_stands(items, "split_conditions"@, 3, 0);
    member_stands(items, "default_left"@, 4, 0);
    member_stands(items, "base_weights"@, 5, 0);
    member_stands(items, "loss_changes"@, 6, 0);
    member_stands(items, "sum_hessian"@, 7, 0);
}

/// Whether the entries at place `i` of a tree's lists are those of a node.
pub open spec fn entries_hold<
    F: Fn(Op, u64, u64) -> u64,
    P: Fn(Precision, &str) -> Option<u64>,
>(d: Doc, i: int, node: Node, reader: &Reader<P>, calc: &Calc<F>) -> bool {
    &&& integer_of(list_or_empty(d, "left_children"@)[i], reader) == node.left
    &&& integer_of(list_or_empty(d, "right_children"@)[i], reader) == node.right
    &&& !node.leafy() ==> count_of(list_or_empty(d, "split_indices"@)[i], reader)
        == node.split_feature
    &&& !node.leafy() ==> truth_of(list_or_empty(d, "default_left"@)[i], reader)
        == node.default_left
    &&& real_at(list_or_empty(d, "split_conditions"@), i, reader, calc) == if node.leafy() {
        node.leaf_value
    } else {
        node.split_cond
    }
    &&& !node.leafy() ==> real_at(list_or_empty(d, "loss_changes"@), i, reader, calc)
        == node.split_gain
    &&& real_at(list_or_empty(d, "sum_hessian"@), i, reader, calc) == node.sum_hess
}

/// Whether a tree's lists hold the given nodes.
pub open spec fn lists_hold<
    F: Fn(Op, u64, u64) -> u64,
    P: Fn(Precision, &str) -> Option<u64>,
>(d: Doc, nodes: Seq<Node>, reader: &Reader<P>, calc: &Calc<F>) -> bool {
    &&& list_named(d, "left_children"@) matches Some(list) && list.len() == nodes.len()
    &&& list_named(d, "right_children"@) matches Some(list) && list.len() == nodes.len()
    &&& list_named(d, "split_conditions"@) matches Some(list) && list.len() == nodes.len()
    &&& list_or_empty(d, "split_indices"@).len() == nodes.len()
    &&& list_or_empty(d, "default_left"@).len() == nodes.len()
    &&& forall|i: int|
        0 <= i < nodes.len() ==> entries_hold(d, i, #[trigger] nodes[i], reader, calc)
}

/// Whether what the format keeps of a node is finite.
pub open spec fn is_storable(node: Node) -> bool {
    &&& node.sum_hess.finite()
    &&& if node.leafy() {
        node.leaf_value.finite()
    } else {
        node.split_cond.finite() && node.split_gain.finite()
    }
}

/// Lists that hold nodes are read as what the format keeps of them.
pub(crate) proof fn held_nodes_are_read<
    F: Fn(Op, u64, u64) -> u64,
    P: Fn(Precision, &str) -> Option<u64>,
>(d: Doc, nodes: Seq<Node>, reader: &Reader<P>, calc: &Calc<F>)
    requires
        lists_hold(d, nodes, reader, calc),
        forall|i: int| 0 <= i < nodes.len() ==> is_storable(#[trigger] nodes[i]),
    ensures
        tree_read(d, reader, calc) == Ok::<Seq<Node>, Seq<char>>(kept_nodes(nodes)),
{
    let left = list_or_empty(d, "left_children"@);
    let right = list_or_empty(d, "right_children"@);
    let read = Seq::new(left.len(), |i: int| node_read(d, i, reader, calc));
    assert forall|i: int| 0 <= i < nodes.len() implies #[trigger] read[i] == kept(nodes[i]) by {
        assert(entries_hold(d, i, nodes[i], reader, calc));
    }
    assert(read =~= kept_nodes(nodes));
    assert forall|i: int| 0 <= i < left.len() implies ordinary(#[trigger] read[i]) by {
        assert(is_storable(nodes[i]));
    }
    assert(!lacks_right(left, right, left.len() as int, reader));
}

/// A written tree is read back as what the format keeps of it.
pub proof fn trees_are_read_back<
    F: Fn(Op, u64, u64) -> u64,
    P: Fn(Precision, &str) -> Option<u64>,
    W: Fn(Precision, u64) -> String,
>(id: int, nodes: Seq<Node>, width: nat, reader: &Reader<P>, writer: &Writer<W>, calc: &Calc<F>)
    requires
        forall|i: int|
            0 <= i < nodes.len() ==> node_comes_back(#[trigger] nodes[i], reader, writer, calc),
    ensures
        tree_read(tree_doc(id, nodes, width, writer, calc), reader, calc) == Ok::<
            Seq<Node>,
            Seq<char>,
        >(kept_nodes(nodes)),
{
    let d = tree_doc(id, nodes, width, writer, calc);
    tree_members_stand(id, nodes, width, writer, calc);
    assert forall|i: int| 0 <= i < nodes.len() implies is_storable(#[trigger] nodes[i])
        && entries_hold(d, i, nodes[i], reader, calc) by {
        let node = nodes[i];
        assert(node_comes_back(node, reader, writer, calc));
        assert(list_or_empty(d, "left_children"@)[i] == column_doc(
            Column::Left,
            node,
            writer,
            calc,
        ));
        assert(list_or_empty(d, "right_children"@)[i] == column_doc(
            Column::Right,
            node,
            writer,
            calc,
        ));
        assert(list_or_empty(d, "split_indices"@)[i] == column_doc(
            Column::SplitIndices,
            node,
            writer,
            calc,
        ));
        assert(list_or_empty(d, "split_conditions"@)[i] == column_doc(
            Column::SplitConditions,
            node,
            writer,
            calc,
        ));
        assert(list_or_empty(d, "default_left"@)[i] == column_doc(
            Column::DefaultLeft,
            node,
            writer,
            calc,
        ));
        assert(list_or_empty(d, "loss_changes"@)[i] == column_doc(
            Column::LossChanges,
            node,
            writer,
            calc,
        ));
        assert(list_or_empty(d, "sum_hessian"@)[i] == column_doc(
            Column::SumHessian,
            node,
            writer,
            calc,
        ));
    }
    held_nodes_are_read(d, nodes, reader, calc);
}

/// A list of trees is read one by one.
pub(crate) proof fn read_trees_are_listed<
    F: Fn(Op, u64, u64) -> u64,
    P: Fn(Precision, &str) -> Option<u64>,
>(m: &BoostedModel, list: Seq<Doc>, n: int, reader: &Reader<P>, calc: &Calc<F>)
    requires
        0 <= n <= m.tree_list().len(),
        list.len() == m.tree_list().len(),
        forall|t: int|
            0 <= t < list.len() ==> tree_read(#[trigger] list[t], reader, calc) == Ok::<
                Seq<Node>,
                Seq<char>,
            >(kept_nodes(m.tree_list()[t].node_list())),
    ensures
        trees_read(list, n, reader, calc) == Ok::<Seq<Seq<Node>>, Seq<char>>(
            Seq::new(n as nat, |t: int| kept_nodes(m.tree_list()[t].node_list())),
        ),
    decreases n,
{
    let goal = Seq::new(n as nat, |t: int| kept_nodes(m.tree_list()[t].node_list()));
    if n > 0 {
        read_trees_are_listed(m, list, n - 1, reader, calc);
        let nodes = m.tree_list()[n - 1].node_list();
        assert(tree_read(list[n - 1], reader, calc) == Ok::<Seq<Node>, Seq<char>>(
            kept_nodes(nodes),
        ));
        let before = Seq::new(
            (n - 1) as nat,
            |t: int| kept_nodes(m.tree_list()[t].node_list()),
        );
        assert(before.push(kept_nodes(nodes)) =~= goal);
    } else {
        assert(goal =~= Seq::empty());
    }
}

pub(crate) proof fn model_members_stand<F: Fn(Op, u64, u64) -> u64, W: Fn(Precision, u64) -> String>(
    m: &BoostedModel,
    writer: &Writer<W>,
    calc: &Calc<F>,
)
    ensures
        ({
            let learner = learner_doc(m, writer, calc);
            let forest = trees_doc(m, writer, calc);
            let params = params_doc(m, writer, calc);
            let objective = objective_doc(m.objective_name(), m.classes() as nat);
            &&& member(model_doc(m, writer, calc), "learner"@) == Some(learner)
            &&& member(learner, "gradient_booster"@) matches Some(booster)
            &&& member(booster, "name"@) == Some(text_doc("gbtree"@))
            &&& member(booster, "model"@) == Some(forest)
            &&& member(learner, "learner_model_param"@) == Some(params)
            &&& member(learner, "objective"@) == Some(objective)
            &&& member(objective, "name"@) == Some(text_doc(m.objective_name()))
            &&& list_named(forest, "trees"@) matches Some(list)
            &&& list.len() == m.tree_list().len()
            &&& forall|t: int|
                0 <= t < list.len() ==> #[trigger] list[t] == tree_doc(
                    t,
                    m.tree_list()[t].node_list(),
                    m.width() as nat,
                    writer,
                    calc,
                )
            &&& member(params, "base_score"@) == Some(
                text_doc(
                    writer.value(
                        stored_score(m.objective_name(), m.classes(), m.base(), calc),
                    ),
                ),
            )
            &&& member(params, "num_class"@) == Some(text_doc(decimal(m.classes() as nat)))
            &&& member(params, "num_feature"@) == Some(text_doc(decimal(m.width() as nat)))
        }),
{
    reveal_strlit("learner");
    reveal_strlit("gradient_booster");
    reveal_strlit("learner_model_param");
    reveal_strlit("objective");
    reveal_strlit("name");
    reveal_strlit("model");
    reveal_strlit("base_score");
    reveal_strlit("num_class");
    reveal_strlit("num_feature");
    let learner = learner_doc(m, writer, calc)->Object_0;
    assert(learner[0].0 == "gradient_booster"@);
    assert(learner[1].0 == "learner_model_param"@);
    assert(learner[2].0 == "objective"@);
    assert("gradient_booster"@[0] == 'g');
    assert("learner_model_param"@[0] == 'l');
    assert("objective"@[0] == 'o');
    member_stands(learner, "gradient_booster"@, 0, 0);
    member_stands(learner, "learner_model_param"@, 1, 0);
    member_stands(learner, "objective"@, 2, 0);
    let root = model_doc(m, writer, calc)->Object_0;
    assert(root[0].0 == "learner"@);
    member_stands(root, "learner"@, 0, 0);
    let booster = learner[0].1->Object_0;
    assert(booster[0].0 == "name"@);
    assert(booster[1].0 == "model"@);
    assert("name"@[0] == 'n');
    assert("model"@[0] == 'm');
    member_stands(booster, "name"@, 0, 0);
    member_stands(booster, "model"@, 1, 0);
    let forest = trees_doc(m, writer, calc)->Object_0;
    assert(forest[0].0 == "trees"@);
    member_stands(forest, "trees"@, 0, 0);
    let params = params_doc(m, writer, calc)->Object_0;
    assert(params[0].0 == "base_score"@);
    assert(params[1].0 == "num_class"@);
    assert(params[2].0 == "num_feature"@);
    assert("base_score"@[0] == 'b');
    assert("num_class"@.len() == 9 && "num_class"@[0] == 'n');
    assert("num_feature"@.len() == 11 && "num_feature"@[0] == 'n');
    member_stands(params, "base_score"@, 0, 0);
    member_stands(params, "num_class"@, 1, 0);
    member_stands(params, "num_feature"@, 2, 0);
    let objective = objective_doc(m.objective_name(), m.classes() as nat)->Object_0;
    assert(objective[0].0 == "name"@);
    member_stands(objective, "name"@, 0, 0);
}

/// A written model is read back: its trees as far as the format keeps them,
/// its objective, its classes and its features as they were, and its base
/// score as the margin of the stored prediction.
pub proof fn models_are_read_back<
    F: Fn(Op, u64, u64) -> u64,
    P: Fn(Precision, &str) -> Option<u64>,
    W: Fn(Precision, u64) -> String,
>(m: &BoostedModel, reader: &Reader<P>, writer: &Writer<W>, calc: &Calc<F>)
    requires
        writable(m),
        forall|t: int, i: int|
            0 <= t < m.tree_list().len() && 0 <= i < m.tree_list()[t].node_list().len()
                ==> node_comes_back(
                #[trigger] m.tree_list()[t].node_list()[i],
                reader,
                writer,
                calc,
            ),
        count_comes_back(m.classes(), reader),
        count_comes_back(m.width() as usize, reader),
        reader.wide(
            writer.value(stored_score(m.objective_name(), m.classes(), m.base(), calc)),
        ) is Some,
    ensures
        model_read(model_doc(m, writer, calc), reader, calc) == Ok::<Parts, Seq<char>>(
            Parts {
                trees: Seq::new(
                    m.tree_list().len(),
                    |t: int| kept_nodes(m.tree_list()[t].node_list()),
                ),
                base: started(
                    m.objective_name(),
                    m.classes(),
                    calc.narrowed(
                        reader.wide(
                            writer.value(
                                stored_score(
                                    m.objective_name(),
                                    m.classes(),
                                    m.base(),
                                    calc,
                                ),
                            ),
                        )->0,
                    ),
                    calc,
                ),
                objective: m.objective_name(),
                num_class: m.classes(),
                width: m.width() as usize,
            },
        ),
{
    m.shape();
    model_members_stand(m, writer, calc);
    let list = list_named(trees_doc(m, writer, calc), "trees"@)->0;
    assert forall|t: int| 0 <= t < list.len() implies tree_read(
        #[trigger] list[t],
        reader,
        calc,
    ) == Ok::<Seq<Node>, Seq<char>>(kept_nodes(m.tree_list()[t].node_list())) by {
        let nodes = m.tree_list()[t].node_list();
        assert forall|i: int| 0 <= i < nodes.len() implies node_comes_back(
            #[trigger] nodes[i],
            reader,
            writer,
            calc,
        ) by {
            assert(node_comes_back(m.tree_list()[t].node_list()[i], reader, writer, calc));
        }
        trees_are_read_back(t, nodes, m.width() as nat, reader, writer, calc);
    }
    read_trees_are_listed(m, list, list.len() as int, reader, calc);
}

/// A model that is laid out as training lays it out can be written, if its
/// outputs can be numbered.
pub proof fn laid_out_models_can_be_written(m: &BoostedModel)
    requires
        m.laid_out(),
        m.outputs() <= i32::MAX,
        m.tree_list().len() <= i64::MAX,
    ensures
        writable(m),
{
    assert forall|t: int| 0 <= t < m.tree_list().len() implies linked(
        (#[trigger] m.tree_list()[t]).node_list(),
    ) by {
        assert(m.tree_list()[t].grown());
    }
}

proof fn kept_trees_route_alike(
    nodes: Seq<Node>,
    categories: Seq<u32>,
    row: spec_fn(u32) -> Option<Single>,
    nid: int,
    fuel: nat,
)
    requires
        forall|i: int|
            0 <= i < nodes.len() && !(#[trigger] nodes[i]).leafy() ==> !nodes[i].is_categorical,
        settles(nodes, categories, nid, fuel),
    ensures
        settles(kept_nodes(nodes), Seq::empty(), nid, fuel),
        route(kept_nodes(nodes), Seq::empty(), row, nid, fuel) == route(
            nodes,
            categories,
            row,
            nid,
            fuel,
        ),
        0 <= route(nodes, categories, row, nid, fuel) < nodes.len(),
        nodes[route(nodes, categories, row, nid, fuel)].leafy(),
    decreases fuel,
{
    let less = kept_nodes(nodes);
    assert(less[nid] == kept(nodes[nid]));
    if !nodes[nid].leafy() {
        assert(!nodes[nid].is_categorical);
        let down = (fuel - 1) as nat;
        kept_trees_route_alike(nodes, categories, row, nodes[nid].left as int, down);
        kept_trees_route_alike(nodes, categories, row, nodes[nid].right as int, down);
    }
}

/// What is read back of a model without categories, whose trees all have
/// weight one, predicts the margins that the model predicts, if the base score
/// came back as it was.
pub proof fn models_read_back_predict_alike<F: Fn(Op, u64, u64) -> u64>(
    m: &BoostedModel,
    restored: &BoostedModel,
    base: Single,
    data: &DMatrix,
    calc: &Calc<F>,
)
    requires
        m.well_formed(),
        m.linear_part() is None,
        forall|t: int|
            0 <= t < m.weight_list().len() ==> #[trigger] m.weight_list()[t] == (Single {
                bits: ONE_S,
            }),
        forall|t: int, i: int|
            0 <= t < m.tree_list().len() && 0 <= i < m.tree_list()[t].node_list().len() && !(
            #[trigger] m.tree_list()[t].node_list()[i]).leafy()
                ==> !m.tree_list()[t].node_list()[i].is_categorical,
        is_model(
            restored,
            Parts {
                trees: Seq::new(
                    m.tree_list().len(),
                    |t: int| kept_nodes(m.tree_list()[t].node_list()),
                ),
                base,
                objective: m.objective_name(),
                num_class: m.classes(),
                width: m.width() as usize,
            },
        ),
        base == m.base(),
    ensures
        restored.well_formed(),
        restored.margins(data, 0, calc) == m.margins(data, 0, calc),
{
    m.shape();
    let n = m.tree_list().len() as int;
    assert forall|t: int| 0 <= t < n implies walkable(
        #[trigger] &restored.tree_list()[t],
        restored.width(),
    ) by {
        let nodes = m.tree_list()[t].node_list();
        assert(walkable(&m.tree_list()[t], m.width()));
        assert(restored.tree_list()[t].node_list() == kept_nodes(nodes));
        tree_kept(&m.tree_list()[t], &restored.tree_list()[t], |f: u32| None::<Single>);
        assert(features_exist(kept_nodes(nodes), m.width())) by {
            assert forall|i: int|
                0 <= i < nodes.len() && !(#[trigger] kept_nodes(nodes)[i]).leafy() implies kept_nodes(
                nodes,
            )[i].split_feature < m.width() by {
                assert(kept_nodes(nodes)[i] == kept(nodes[i]));
            }
        }
    }
    assert(restored.weight_list() =~= m.weight_list());
    forests_predict_alike(m, restored, data, n, calc);
}

/// A tree that lost nothing but categories it does not have leads every row to
/// the same leaf.
proof fn tree_kept(a: &RegTree, b: &RegTree, row: spec_fn(u32) -> Option<Single>)
    requires
        a.sound(),
        b.node_list() == kept_nodes(a.node_list()),
        b.category_list() == Seq::<u32>::empty(),
        forall|i: int|
            0 <= i < a.node_list().len() && !(#[trigger] a.node_list()[i]).leafy()
                ==> !a.node_list()[i].is_categorical,
    ensures
        b.sound(),
        b.leaf_of(row) == a.leaf_of(row),
        b.node_list()[b.leaf_of(row)].leaf_value == a.node_list()[a.leaf_of(row)].leaf_value,
{
    kept_trees_route_alike(a.node_list(), a.category_list(), row, 0, a.node_list().len());
    assert(b.node_list()[b.leaf_of(row)] == kept(a.node_list()[a.leaf_of(row)]));
}

proof fn forests_predict_alike<F: Fn(Op, u64, u64) -> u64>(
    a: &BoostedModel,
    b: &BoostedModel,
    data: &DMatrix,
    n: int,
    calc: &Calc<F>,
)
    requires
        0 <= n <= a.tree_list().len(),
        a.well_formed(),
        b.tree_list().len() == a.tree_list().len(),
        b.weight_list() == a.weight_list(),
        b.base() == a.base(),
        b.outputs() == a.outputs(),
        forall|t: int, i: int|
            0 <= t < a.tree_list().len() && 0 <= i < a.tree_list()[t].node_list().len() && !(
            #[trigger] a.tree_list()[t].node_list()[i]).leafy()
                ==> !a.tree_list()[t].node_list()[i].is_categorical,
        forall|t: int|
            #![trigger b.tree_list()[t]]
            0 <= t < b.tree_list().len() ==> {
                &&& b.tree_list()[t].node_list() == kept_nodes(a.tree_list()[t].node_list())
                &&& b.tree_list()[t].category_list() == Seq::<u32>::empty()
            },
    ensures
        margins_of(
            b.tree_list(),
            b.weight_list(),
            Seq::empty(),
            data,
            b.base(),
            b.outputs(),
            n,
            calc,
        ) == margins_of(
            a.tree_list(),
            a.weight_list(),
            Seq::empty(),
            data,
            a.base(),
            a.outputs(),
            n,
            calc,
        ),
    decreases n,
{
    if n > 0 {
        forests_predict_alike(a, b, data, n - 1, calc);
        let k = a.outputs();
        let x = &a.tree_list()[n - 1];
        let y = &b.tree_list()[n - 1];
        let w = a.weight_list()[n - 1];
        let rest = margins_of(
            a.tree_list(),
            a.weight_list(),
            Seq::empty(),
            data,
            a.base(),
            k,
            n - 1,
            calc,
        );
        assert(walkable(&a.tree_list()[n - 1], a.width()));
        assert forall|row: int| #[trigger] tree_value(y, data, row) == tree_value(x, data, row) by {
            tree_kept(x, y, |f: u32| data.cell(row, f as int));
        }
        assert(with_tree(rest, y, w, data, (n - 1) % k, k, calc) =~= with_tree(
            rest,
            x,
            w,
            data,
            (n - 1) % k,
            k,
            calc,
        ));
    }
}

} // verus!
