//! What is read back from a model's text.

use vstd::prelude::*;

use crate::arith::{Calc, Op};
use crate::learner::model::BoostedModel;
use crate::model::json::{
    comes_back_as, held, is_read_back, member, number_back, parsed, stands_alone, whole_digits, Doc,
};
use crate::model::laws::{
    count_comes_back, entries_hold, held_nodes_are_read, is_storable, kept_nodes,
    read_trees_are_listed,
};
use crate::model::native::Contents;
use crate::model::native_json::{
    contents_doc, contents_in, is_node_doc, node_doc, node_in, singles_doc, singles_in, tree_in,
    tree_record, trees_in,
};
use crate::model::xgboost_json::{
    column_doc, learner_doc, list_named, list_or_empty, model_doc, model_read, objective_doc,
    params_doc, stored_score, text_doc, tree_doc, tree_read, trees_doc, writable, Column, Parts,
};
use crate::number::{Single, Wide};
use crate::objective::create::started;
use crate::text::{decimal, decimals_are_read_back, Precision, Reader, Writer};
use crate::tree::regtree::Node;

verus! {

/// Whether a number is read back as it was when it is written into a document
/// that is printed and read.
pub open spec fn number_returns<
    F: Fn(Op, u64, u64) -> u64,
    P: Fn(Precision, &str) -> Option<u64>,
    W: Fn(Precision, u64) -> String,
>(v: Single, reader: &Reader<P>, writer: &Writer<W>, calc: &Calc<F>) -> bool {
    &&& v.finite()
    &&& number_back(writer.wide(calc.widened(v))) matches Doc::Number(t)
    &&& reader.wide(t) matches Some(w)
    &&& calc.narrowed(w) == v
}

/// Whether the numbers of a node are read back as they were.
pub open spec fn node_returns<
    F: Fn(Op, u64, u64) -> u64,
    P: Fn(Precision, &str) -> Option<u64>,
    W: Fn(Precision, u64) -> String,
>(node: Node, reader: &Reader<P>, writer: &Writer<W>, calc: &Calc<F>) -> bool {
    &&& number_returns(node.sum_hess, reader, writer, calc)
    &&& if node.leafy() {
        number_returns(node.leaf_value, reader, writer, calc)
    } else {
        &&& number_returns(node.split_cond, reader, writer, calc)
        &&& number_returns(node.split_gain, reader, writer, calc)
    }
}

/// Whether the digits of a whole number are read as that number.
pub open spec fn whole_number_returns<P: Fn(Precision, &str) -> Option<u64>>(
    n: int,
    reader: &Reader<P>,
) -> bool {
    &&& reader.wide(whole_digits(n)) matches Some(w)
    &&& w.integer() == held(n, i32::MIN as int, i32::MAX as int)
    &&& w.count(u32::MAX as int) == held(n, 0, u32::MAX as int)
    &&& w.same(Wide { bits: 0 }) == (n == 0)
}

/// Whether the digits of whole numbers of 32 bits, signed or not, are read as
/// those numbers.
pub open spec fn reads_whole_numbers<P: Fn(Precision, &str) -> Option<u64>>(
    reader: &Reader<P>,
) -> bool {
    forall|n: int|
        i32::MIN <= n <= u32::MAX ==> #[trigger] whole_number_returns(n, reader)
}

/// A list among the members of an object comes back as a list of its name.
pub(crate) proof fn lists_come_back(
    items: Seq<(Seq<char>, Doc)>,
    i: int,
    list: Seq<Doc>,
    e: Doc,
)
    requires
        comes_back_as(Doc::Object(items), e),
        0 <= i < items.len(),
        stands_alone(items, i),
        items[i].1 == Doc::List(list),
    ensures
        list_named(e, items[i].0) matches Some(back) && back.len() == list.len() && forall|k: int|
            0 <= k < list.len() ==> comes_back_as(#[trigger] list[k], back[k]),
{
    assert(member(e, items[i].0) is Some);
    let x = member(e, items[i].0)->0;
    assert(comes_back_as(items[i].1, x));
}

proof fn tree_names_stand_alone<F: Fn(Op, u64, u64) -> u64, W: Fn(Precision, u64) -> String>(
    id: int,
    nodes: Seq<Node>,
    width: nat,
    writer: &Writer<W>,
    calc: &Calc<F>,
)
    ensures
        ({
            let items = tree_doc(id, nodes, width, writer, calc)->Object_0;
            &&& items.len() == 16
            &&& items[0].0 == "left_children"@
            &&& items[1].0 == "right_children"@
            &&& items[2].0 == "split_indices"@
            &&& items[3].0 == "split_conditions"@
            &&& items[4].0 == "default_left"@
            &&& items[6].0 == "loss_changes"@
            &&& items[7].0 == "sum_hessian"@
            &&& forall|i: int| 0 <= i < 8 ==> #[trigger] stands_alone(items, i)
        }),
{
    reveal_strlit("left_children");
    reveal_strlit("right_children");
    reveal_strlit("split_indices");
    reveal_strlit("split_conditions");
    reveal_strlit("default_left");
    reveal_strlit("base_weights");
    reveal_strlit("loss_changes");
    reveal_strlit("sum_hessian");
    reveal_strlit("split_type");
    reveal_strlit("parents");
    reveal_strlit("id");
    reveal_strlit("tree_param");
    reveal_strlit("categories");
    reveal_strlit("categories_nodes");
    reveal_strlit("categories_segments");
    reveal_strlit("categories_sizes");
    let items = tree_doc(id, nodes, width, writer, calc)->Object_0;
    assert(items[0].0.len() == 13 && items[0].0[0] == 'l');
    assert(items[1].0.len() == 14 && items[1].0[0] == 'r');
    assert(items[2].0.len() == 13 && items[2].0[0] == 's');
    assert(items[3].0.len() == 16 && items[3].0[0] == 's');
    assert(items[4].0.len() == 12 && items[4].0[0] == 'd');
    assert(items[5].0.len() == 12 && items[5].0[0] == 'b');
    assert(items[6].0.len() == 12 && items[6].0[0] == 'l');
    assert(items[7].0.len() == 11 && items[7].0[0] == 's');
    assert(items[8].0.len() == 10 && items[8].0[0] == 's');
    assert(items[9].0.len() == 7);
    assert(items[10].0.len() == 2);
    assert(items[11].0.len() == 10);
    assert(items[12].0.len() == 10);
    assert(items[13].0.len() == 16 && items[13].0[0] == 'c');
    assert(items[14].0.len() == 19);
    assert(items[15].0.len() == 16 && items[15].0[0] == 'c');
}

/// A tree whose numbers return is read from its text as what the format keeps
/// of it.
pub proof fn printed_trees_are_read_back<
    F: Fn(Op, u64, u64) -> u64,
    P: Fn(Precision, &str) -> Option<u64>,
    W: Fn(Precision, u64) -> String,
>(
    id: int,
    nodes: Seq<Node>,
    width: nat,
    e: Doc,
    reader: &Reader<P>,
    writer: &Writer<W>,
    calc: &Calc<F>,
)
    requires
        comes_back_as(tree_doc(id, nodes, width, writer, calc), e),
        reads_whole_numbers(reader),
        forall|i: int|
            0 <= i < nodes.len() ==> node_returns(#[trigger] nodes[i], reader, writer, calc),
    ensures
        tree_read(e, reader, calc) == Ok::<Seq<Node>, Seq<char>>(kept_nodes(nodes)),
{
    let items = tree_doc(id, nodes, width, writer, calc)->Object_0;
    tree_names_stand_alone(id, nodes, width, writer, calc);
    assert(comes_back_as(Doc::Object(items), e));
    assert forall|i: int| 0 <= i < 8 implies #[trigger] stands_alone(items, i) by {}
    lists_come_back(items, 0, items[0].1->List_0, e);
    lists_come_back(items, 1, items[1].1->List_0, e);
    lists_come_back(items, 2, items[2].1->List_0, e);
    lists_come_back(items, 3, items[3].1->List_0, e);
    lists_come_back(items, 4, items[4].1->List_0, e);
    lists_come_back(items, 6, items[6].1->List_0, e);
    lists_come_back(items, 7, items[7].1->List_0, e);
    assert forall|i: int| 0 <= i < nodes.len() implies is_storable(#[trigger] nodes[i])
        && entries_hold(e, i, nodes[i], reader, calc) by {
        let node = nodes[i];
        assert(node_returns(node, reader, writer, calc));
        let left = column_doc(Column::Left, node, writer, calc);
        let right = column_doc(Column::Right, node, writer, calc);
        let feature = column_doc(Column::SplitIndices, node, writer, calc);
        let default_left = column_doc(Column::DefaultLeft, node, writer, calc);
        let condition = column_doc(Column::SplitConditions, node, writer, calc);
        let gain = column_doc(Column::LossChanges, node, writer, calc);
        let hess = column_doc(Column::SumHessian, node, writer, calc);
        assert(items[0].1->List_0[i] == left);
        assert(items[1].1->List_0[i] == right);
        assert(items[2].1->List_0[i] == feature);
        assert(items[3].1->List_0[i] == condition);
        assert(items[4].1->List_0[i] == default_left);
        assert(items[6].1->List_0[i] == gain);
        assert(items[7].1->List_0[i] == hess);
        assert(comes_back_as(left, list_or_empty(e, "left_children"@)[i]));
        assert(comes_back_as(right, list_or_empty(e, "right_children"@)[i]));
        assert(comes_back_as(feature, list_or_empty(e, "split_indices"@)[i]));
        assert(comes_back_as(condition, list_or_empty(e, "split_conditions"@)[i]));
        assert(comes_back_as(default_left, list_or_empty(e, "default_left"@)[i]));
        assert(comes_back_as(gain, list_or_empty(e, "loss_changes"@)[i]));
        assert(comes_back_as(hess, list_or_empty(e, "sum_hessian"@)[i]));
        assert(whole_number_returns(node.left as int, reader));
        assert(whole_number_returns(node.right as int, reader));
        assert(whole_number_returns(node.split_feature as int, reader));
        assert(whole_number_returns(0, reader));
        assert(whole_number_returns(1, reader));
    }
    held_nodes_are_read(e, nodes, reader, calc);
}

proof fn learner_names_stand_alone<F: Fn(Op, u64, u64) -> u64, W: Fn(Precision, u64) -> String>(
    m: &BoostedModel,
    writer: &Writer<W>,
    calc: &Calc<F>,
)
    ensures
        ({
            let root = model_doc(m, writer, calc)->Object_0;
            let learner = learner_doc(m, writer, calc)->Object_0;
            let booster = learner[0].1->Object_0;
            &&& root.len() == 2
            &&& root[0].0 == "learner"@
            &&& stands_alone(root, 0)
            &&& learner.len() == 6
            &&& learner[0].0 == "gradient_booster"@
            &&& learner[1].0 == "learner_model_param"@
            &&& learner[2].0 == "objective"@
            &&& stands_alone(learner, 0)
            &&& stands_alone(learner, 1)
            &&& stands_alone(learner, 2)
            &&& booster.len() == 2
            &&& booster[0].0 == "name"@
            &&& booster[1].0 == "model"@
            &&& stands_alone(booster, 0)
            &&& stands_alone(booster, 1)
        }),
{
    reveal_strlit("learner");
    reveal_strlit("version");
    reveal_strlit("gradient_booster");
    reveal_strlit("learner_model_param");
    reveal_strlit("objective");
    reveal_strlit("attributes");
    reveal_strlit("feature_names");
    reveal_strlit("feature_types");
    reveal_strlit("name");
    reveal_strlit("model");
    let root = model_doc(m, writer, calc)->Object_0;
    assert(root[0].0[0] == 'l' && root[1].0[0] == 'v');
    let learner = learner_doc(m, writer, calc)->Object_0;
    assert(learner[0].0.len() == 16);
    assert(learner[1].0.len() == 19);
    assert(learner[2].0.len() == 9);
    assert(learner[3].0.len() == 10);
    assert(learner[4].0.len() == 13);
    assert(learner[5].0.len() == 13);
    let booster = learner[0].1->Object_0;
    assert(booster[0].0.len() == 4 && booster[1].0.len() == 5);
}

proof fn part_names_stand_alone<F: Fn(Op, u64, u64) -> u64, W: Fn(Precision, u64) -> String>(
    m: &BoostedModel,
    writer: &Writer<W>,
    calc: &Calc<F>,
)
    ensures
        ({
            let forest = trees_doc(m, writer, calc)->Object_0;
            let params = params_doc(m, writer, calc)->Object_0;
            let objective = objective_doc(m.objective_name(), m.classes() as nat)->Object_0;
            &&& forest.len() == 3
            &&& forest[0].0 == "trees"@
            &&& stands_alone(forest, 0)
            &&& params.len() == 4
            &&& params[0].0 == "base_score"@
            &&& params[1].0 == "num_class"@
            &&& params[2].0 == "num_feature"@
            &&& stands_alone(params, 0)
            &&& stands_alone(params, 1)
            &&& stands_alone(params, 2)
            &&& objective.len() == 2
            &&& objective[0].0 == "name"@
            &&& stands_alone(objective, 0)
        }),
{
    reveal_strlit("trees");
    reveal_strlit("tree_info");
    reveal_strlit("gbtree_model_param");
    reveal_strlit("base_score");
    reveal_strlit("num_class");
    reveal_strlit("num_feature");
    reveal_strlit("num_target");
    reveal_strlit("name");
    reveal_strlit("softmax_multiclass_param");
    reveal_strlit("poisson_regression_param");
    reveal_strlit("reg_loss_param");
    let forest = trees_doc(m, writer, calc)->Object_0;
    assert(forest[0].0.len() == 5 && forest[1].0.len() == 9 && forest[2].0.len() == 18);
    let params = params_doc(m, writer, calc)->Object_0;
    assert(params[0].0.len() == 10 && params[0].0[0] == 'b');
    assert(params[1].0.len() == 9);
    assert(params[2].0.len() == 11);
    assert(params[3].0.len() == 10 && params[3].0[0] == 'n');
    let objective = objective_doc(m.objective_name(), m.classes() as nat)->Object_0;
    assert(objective[0].0.len() == 4 && objective[1].0.len() > 4);
}

/// The text of a model is read back: its trees as far as the format keeps them,
/// its objective, its classes and its features as they were, and its base
/// score as the margin of the stored prediction.
pub proof fn printed_models_are_read_back<
    F: Fn(Op, u64, u64) -> u64,
    P: Fn(Precision, &str) -> Option<u64>,
    W: Fn(Precision, u64) -> String,
>(
    m: &BoostedModel,
    text: Seq<char>,
    reader: &Reader<P>,
    writer: &Writer<W>,
    calc: &Calc<F>,
)
    requires
        writable(m),
        is_read_back(model_doc(m, writer, calc), text),
        reads_whole_numbers(reader),
        forall|t: int, i: int|
            0 <= t < m.tree_list().len() && 0 <= i < m.tree_list()[t].node_list().len()
                ==> node_returns(
                #[trigger] m.tree_list()[t].node_list()[i],
                reader,
                writer,
                calc,
            ),
        count_comes_back(m.classes(), reader),
        count_comes_back(m.width() as usize, reader),
        reader.wide(
            writer.value(stored_score(m.objective_name(), m.classes(), m.base(), calc)),
        ) is Some,
    ensures
        parsed(text) matches Some(e) && model_read(e, reader, calc) == Ok::<Parts, Seq<char>>(
            Parts {
                trees: Seq::new(
                    m.tree_list().len(),
                    |t: int| kept_nodes(m.tree_list()[t].node_list()),
                ),
                base: started(
                    m.objective_name(),
                    m.classes(),
                    calc.narrowed(
                        reader.wide(
                            writer.value(
                                stored_score(
                                    m.objective_name(),
                                    m.classes(),
                                    m.base(),
                                    calc,
                                ),
                            ),
                        )->0,
                    ),
                    calc,
                ),
                objective: m.objective_name(),
                num_class: m.classes(),
                width: m.width() as usize,
            },
        ),
{
    m.shape();
    learner_names_stand_alone(m, writer, calc);
    part_names_stand_alone(m, writer, calc);
    let e = parsed(text)->0;
    let root = model_doc(m, writer, calc)->Object_0;
    assert(comes_back_as(model_doc(m, writer, calc), e));
    assert(root[0].1 == learner_doc(m, writer, calc));
    assert(member(e, root[0].0) is Some);
    let learner = member(e, "learner"@)->0;
    assert(comes_back_as(root[0].1, learner));
    let items = learner_doc(m, writer, calc)->Object_0;
    assert(member(learner, items[0].0) is Some);
    assert(member(learner, items[1].0) is Some);
    assert(member(learner, items[2].0) is Some);
    let booster = member(learner, "gradient_booster"@)->0;
    let params = member(learner, "learner_model_param"@)->0;
    let objective = member(learner, "objective"@)->0;
    assert(comes_back_as(items[0].1, booster));
    assert(comes_back_as(items[1].1, params));
    assert(comes_back_as(items[2].1, objective));
    let boosters = items[0].1->Object_0;
    assert(member(booster, boosters[0].0) is Some);
    assert(member(booster, boosters[1].0) is Some);
    let forest = member(booster, "model"@)->0;
    assert(comes_back_as(boosters[0].1, member(booster, "name"@)->0));
    assert(comes_back_as(boosters[1].1, forest));
    assert(boosters[0].1 == text_doc("gbtree"@));
    assert(boosters[1].1 == trees_doc(m, writer, calc));
    let named = params_doc(m, writer, calc)->Object_0;
    assert(items[1].1 == Doc::Object(named));
    assert(member(params, named[0].0) is Some);
    assert(member(params, named[1].0) is Some);
    assert(member(params, named[2].0) is Some);
    assert(comes_back_as(named[0].1, member(params, "base_score"@)->0));
    assert(comes_back_as(named[1].1, member(params, "num_class"@)->0));
    assert(comes_back_as(named[2].1, member(params, "num_feature"@)->0));
    assert(named[1].1 == text_doc(decimal(m.classes() as nat)));
    assert(named[2].1 == text_doc(decimal(m.width() as nat)));
    let parts = objective_doc(m.objective_name(), m.classes() as nat)->Object_0;
    assert(items[2].1 == Doc::Object(parts));
    assert(member(objective, parts[0].0) is Some);
    assert(comes_back_as(parts[0].1, member(objective, "name"@)->0));
    assert(parts[0].1 == text_doc(m.objective_name()));
    let trees = trees_doc(m, writer, calc)->Object_0;
    let docs = trees[0].1->List_0;
    assert(comes_back_as(Doc::Object(trees), forest));
    lists_come_back(trees, 0, docs, forest);
    let list = list_named(forest, "trees"@)->0;
    assert forall|t: int| 0 <= t < list.len() implies tree_read(
        #[trigger] list[t],
        reader,
        calc,
    ) == Ok::<Seq<Node>, Seq<char>>(kept_nodes(m.tree_list()[t].node_list())) by {
        let nodes = m.tree_list()[t].node_list();
        assert(docs[t] == tree_doc(t, nodes, m.width() as nat, writer, calc));
        assert(comes_back_as(docs[t], list[t]));
        assert forall|i: int| 0 <= i < nodes.len() implies node_returns(
            #[trigger] nodes[i],
            reader,
            writer,
            calc,
        ) by {
            assert(node_returns(m.tree_list()[t].node_list()[i], reader, writer, calc));
        }
        printed_trees_are_read_back(
            t,
            nodes,
            m.width() as nat,
            list[t],
            reader,
            writer,
            calc,
        );
    }
    read_trees_are_listed(m, list, list.len() as int, reader, calc);
}

/// Whether every number of a node is read back as it was.
pub open spec fn whole_node_returns<
    F: Fn(Op, u64, u64) -> u64,
    P: Fn(Precision, &str) -> Option<u64>,
    W: Fn(Precision, u64) -> String,
>(n: Node, reader: &Reader<P>, writer: &Writer<W>, calc: &Calc<F>) -> bool {
    &&& number_returns(n.split_cond, reader, writer, calc)
    &&& number_returns(n.leaf_value, reader, writer, calc)
    &&& number_returns(n.sum_hess, reader, writer, calc)
    &&& number_returns(n.split_gain, reader, writer, calc)
}

/// Whether every number of a list is read back as it was.
pub open spec fn list_returns<
    F: Fn(Op, u64, u64) -> u64,
    P: Fn(Precision, &str) -> Option<u64>,
    W: Fn(Precision, u64) -> String,
>(list: Seq<Single>, reader: &Reader<P>, writer: &Writer<W>, calc: &Calc<F>) -> bool {
    forall|i: int|
        0 <= i < list.len() ==> number_returns(#[trigger] list[i], reader, writer, calc)
}

/// Whether every number of a model is read back as it was.
pub open spec fn contents_return<
    F: Fn(Op, u64, u64) -> u64,
    P: Fn(Precision, &str) -> Option<u64>,
    W: Fn(Precision, u64) -> String,
>(c: Contents, reader: &Reader<P>, writer: &Writer<W>, calc: &Calc<F>) -> bool {
    &&& number_returns(c.base, reader, writer, calc)
    &&& list_returns(c.weights, reader, writer, calc)
    &&& c.linear matches Some((w, b)) ==> list_returns(w, reader, writer, calc) && list_returns(
        b,
        reader,
        writer,
        calc,
    )
    &&& forall|t: int, i: int|
        0 <= t < c.trees.len() && 0 <= i < c.trees[t].0.len() ==> whole_node_returns(
            #[trigger] c.trees[t].0[i],
            reader,
            writer,
            calc,
        )
}

proof fn printed_lists_are_read<
    F: Fn(Op, u64, u64) -> u64,
    P: Fn(Precision, &str) -> Option<u64>,
    W: Fn(Precision, u64) -> String,
>(list: Seq<Single>, e: Doc, reader: &Reader<P>, writer: &Writer<W>, calc: &Calc<F>)
    requires
        list_returns(list, reader, writer, calc),
        comes_back_as(singles_doc(list, writer, calc), e),
    ensures
        e is List,
        singles_in(e->List_0, reader, calc) == list,
{
    let docs = singles_doc(list, writer, calc)->List_0;
    let read = singles_in(e->List_0, reader, calc);
    assert forall|i: int| 0 <= i < list.len() implies #[trigger] read[i] == list[i] by {
        assert(number_returns(list[i], reader, writer, calc));
        assert(comes_back_as(docs[i], e->List_0[i]));
    }
    assert(read =~= list);
}

proof fn printed_nodes_are_read<
    F: Fn(Op, u64, u64) -> u64,
    P: Fn(Precision, &str) -> Option<u64>,
    W: Fn(Precision, u64) -> String,
>(n: Node, e: Doc, reader: &Reader<P>, writer: &Writer<W>, calc: &Calc<F>)
    requires
        whole_node_returns(n, reader, writer, calc),
        reads_whole_numbers(reader),
        comes_back_as(node_doc(n, writer, calc), e),
    ensures
        is_node_doc(e),
        node_in(e, reader, calc) == n,
{
    let docs = node_doc(n, writer, calc)->List_0;
    let back = e->List_0;
    assert(comes_back_as(docs[0], back[0]));
    assert(comes_back_as(docs[1], back[1]));
    assert(comes_back_as(docs[2], back[2]));
    assert(comes_back_as(docs[3], back[3]));
    assert(comes_back_as(docs[4], back[4]));
    assert(comes_back_as(docs[5], back[5]));
    assert(comes_back_as(docs[6], back[6]));
    assert(comes_back_as(docs[7], back[7]));
    assert(comes_back_as(docs[8], back[8]));
    assert(comes_back_as(docs[9], back[9]));
    assert(comes_back_as(docs[10], back[10]));
    assert(whole_number_returns(n.split_feature as int, reader));
    assert(whole_number_returns(n.left as int, reader));
    assert(whole_number_returns(n.right as int, reader));
    assert(whole_number_returns(n.cat_begin as int, reader));
    assert(whole_number_returns(n.cat_end as int, reader));
}

proof fn printed_whole_trees_are_read<
    F: Fn(Op, u64, u64) -> u64,
    P: Fn(Precision, &str) -> Option<u64>,
    W: Fn(Precision, u64) -> String,
>(
    tree: (Seq<Node>, Seq<u32>),
    e: Doc,
    reader: &Reader<P>,
    writer: &Writer<W>,
    calc: &Calc<F>,
)
    requires
        forall|i: int|
            0 <= i < tree.0.len() ==> whole_node_returns(
                #[trigger] tree.0[i],
                reader,
                writer,
                calc,
            ),
        reads_whole_numbers(reader),
        comes_back_as(tree_record(tree, writer, calc), e),
    ensures
        tree_in(e, reader, calc) == Some(tree),
{
    let items = tree_record(tree, writer, calc)->Object_0;
    reveal_strlit("nodes");
    reveal_strlit("categories");
    assert(items[0].0.len() == 5 && items[1].0.len() == 10);
    assert(comes_back_as(Doc::Object(items), e));
    assert(stands_alone(items, 0) && stands_alone(items, 1));
    let node_docs = items[0].1->List_0;
    let cat_docs = items[1].1->List_0;
    lists_come_back(items, 0, node_docs, e);
    lists_come_back(items, 1, cat_docs, e);
    let nodes = list_named(e, "nodes"@)->0;
    let cats = list_named(e, "categories"@)->0;
    assert forall|i: int| 0 <= i < nodes.len() implies is_node_doc(#[trigger] nodes[i]) && node_in(
        nodes[i],
        reader,
        calc,
    ) == tree.0[i] by {
        assert(whole_node_returns(tree.0[i], reader, writer, calc));
        assert(node_docs[i] == node_doc(tree.0[i], writer, calc));
        assert(comes_back_as(node_docs[i], nodes[i]));
        printed_nodes_are_read(tree.0[i], nodes[i], reader, writer, calc);
    }
    let read = tree_in(e, reader, calc)->0;
    assert(read.0 =~= tree.0);
    assert forall|i: int| 0 <= i < cats.len() implies #[trigger] read.1[i] == tree.1[i] by {
        assert(cat_docs[i] == Doc::Whole(tree.1[i] as i64));
        assert(comes_back_as(cat_docs[i], cats[i]));
        assert(whole_number_returns(tree.1[i] as int, reader));
    }
    assert(read.1 =~= tree.1);
}

proof fn printed_forests_are_read<
    F: Fn(Op, u64, u64) -> u64,
    P: Fn(Precision, &str) -> Option<u64>,
    W: Fn(Precision, u64) -> String,
>(
    trees: Seq<(Seq<Node>, Seq<u32>)>,
    list: Seq<Doc>,
    n: int,
    reader: &Reader<P>,
    writer: &Writer<W>,
    calc: &Calc<F>,
)
    requires
        0 <= n <= trees.len(),
        list.len() == trees.len(),
        reads_whole_numbers(reader),
        forall|t: int|
            0 <= t < trees.len() ==> comes_back_as(
                tree_record(trees[t], writer, calc),
                #[trigger] list[t],
            ),
        forall|t: int, i: int|
            0 <= t < trees.len() && 0 <= i < trees[t].0.len() ==> whole_node_returns(
                #[trigger] trees[t].0[i],
                reader,
                writer,
                calc,
            ),
    ensures
        trees_in(list, n, reader, calc) == Some(trees.take(n)),
    decreases n,
{
    if n > 0 {
        printed_forests_are_read(trees, list, n - 1, reader, writer, calc);
        let tree = trees[n - 1];
        assert forall|i: int| 0 <= i < tree.0.len() implies whole_node_returns(
            #[trigger] tree.0[i],
            reader,
            writer,
            calc,
        ) by {
            assert(whole_node_returns(trees[n - 1].0[i], reader, writer, calc));
        }
        printed_whole_trees_are_read(tree, list[n - 1], reader, writer, calc);
        assert(trees.take(n - 1).push(tree) =~= trees.take(n));
    } else {
        assert(trees.take(0) =~= Seq::empty());
    }
}

proof fn contents_names_stand_alone<F: Fn(Op, u64, u64) -> u64, W: Fn(Precision, u64) -> String>(
    c: Contents,
    writer: &Writer<W>,
    calc: &Calc<F>,
)
    ensures
        ({
            let items = contents_doc(c, writer, calc)->Object_0;
            &&& items.len() == 9
            &&& items[0].0 == "objective"@
            &&& items[1].0 == "num_class"@
            &&& items[2].0 == "n_features"@
            &&& items[3].0 == "base_score"@
            &&& items[4].0 == "best_iteration"@
            &&& items[5].0 == "trees"@
            &&& items[6].0 == "tree_weights"@
            &&& items[7].0 == "linear_weights"@
            &&& items[8].0 == "linear_bias"@
            &&& forall|i: int| 0 <= i < 9 ==> #[trigger] stands_alone(items, i)
        }),
{
    reveal_strlit("objective");
    reveal_strlit("num_class");
    reveal_strlit("n_features");
    reveal_strlit("base_score");
    reveal_strlit("best_iteration");
    reveal_strlit("trees");
    reveal_strlit("tree_weights");
    reveal_strlit("linear_weights");
    reveal_strlit("linear_bias");
    let items = contents_doc(c, writer, calc)->Object_0;
    assert(items[0].0[0] == 'o' && items[0].0.len() == 9);
    assert(items[1].0[0] == 'n' && items[1].0.len() == 9);
    assert(items[2].0[0] == 'n' && items[2].0.len() == 10);
    assert(items[3].0[0] == 'b' && items[3].0.len() == 10);
    assert(items[4].0[0] == 'b' && items[4].0.len() == 14);
    assert(items[5].0[0] == 't' && items[5].0.len() == 5);
    assert(items[6].0[0] == 't' && items[6].0.len() == 12);
    assert(items[7].0[0] == 'l' && items[7].0.len() == 14);
    assert(items[8].0[0] == 'l' && items[8].0.len() == 11);
}

/// Nothing is lost when a model is written as JSON text and read back, if its
/// numbers return.
pub proof fn printed_contents_are_read_back<
    F: Fn(Op, u64, u64) -> u64,
    P: Fn(Precision, &str) -> Option<u64>,
    W: Fn(Precision, u64) -> String,
>(
    c: Contents,
    text: Seq<char>,
    reader: &Reader<P>,
    writer: &Writer<W>,
    calc: &Calc<F>,
)
    requires
        is_read_back(contents_doc(c, writer, calc), text),
        reads_whole_numbers(reader),
        contents_return(c, reader, writer, calc),
    ensures
        parsed(text) matches Some(e) && contents_in(e, reader, calc) == Some(c),
{
    let e = parsed(text)->0;
    let items = contents_doc(c, writer, calc)->Object_0;
    contents_names_stand_alone(c, writer, calc);
    assert(comes_back_as(Doc::Object(items), e));
    assert forall|i: int| 0 <= i < 9 implies member(e, (#[trigger] items[i]).0) is Some
        && comes_back_as(items[i].1, member(e, items[i].0)->0) by {
        assert(stands_alone(items, i));
    }
    assert(member(e, items[0].0) == Some(Doc::Text(c.objective)));
    assert(member(e, items[1].0) == Some(items[1].1));
    assert(member(e, items[2].0) == Some(items[2].1));
    assert(member(e, items[3].0) is Some);
    assert(member(e, items[4].0) == Some(items[4].1));
    decimals_are_read_back(c.num_class as nat, usize::MAX as int);
    decimals_are_read_back(c.width as nat, usize::MAX as int);
    if let Some(b) = c.best {
        decimals_are_read_back(b as nat, usize::MAX as int);
    }
    lists_come_back(items, 5, items[5].1->List_0, e);
    printed_lists_are_read(c.weights, member(e, items[6].0)->0, reader, writer, calc);
    if let Some((w, b)) = c.linear {
        printed_lists_are_read(w, member(e, items[7].0)->0, reader, writer, calc);
        printed_lists_are_read(b, member(e, items[8].0)->0, reader, writer, calc);
    } else {
        assert(member(e, items[7].0) == Some(Doc::Null));
    }
    let docs = items[5].1->List_0;
    let list = list_named(e, "trees"@)->0;
    assert forall|t: int| 0 <= t < c.trees.len() implies comes_back_as(
        tree_record(c.trees[t], writer, calc),
        #[trigger] list[t],
    ) by {
        assert(comes_back_as(docs[t], list[t]));
    }
    printed_forests_are_read(c.trees, list, c.trees.len() as int, reader, writer, calc);
    assert(c.trees.take(c.trees.len() as int) =~= c.trees);
    assert(number_returns(c.base, reader, writer, calc));
    let read = contents_in(e, reader, calc)->0;
    assert(read.best == c.best);
    assert(read.linear == c.linear);
    assert(read =~= c);
}

} // verus!
