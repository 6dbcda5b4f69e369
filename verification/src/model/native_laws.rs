//! What the library's own model formats keep.

use vstd::prelude::*;

use crate::arith::{Calc, Op};
use crate::data::dmatrix::DMatrix;
use crate::learner::margin::{margins_of, walkable, with_tree};
use crate::learner::model::{linear_margins, BoostedModel};
use crate::model::json::member;
use crate::model::laws::{comes_back, member_stands};
use crate::model::native::{contents_of, Contents};
use crate::model::native_json::{
    contents_doc, contents_in, is_node_doc, node_doc, node_in, singles_doc, singles_in, tree_record,
    tree_in, trees_in,
};
use crate::model::xgboost_json::list_named;
use crate::number::Single;
use crate::text::{decimals_are_read_back, Precision, Reader, Writer};
use crate::tree::regtree::Node;

verus! {

/// Whether every number of a node is read back as it was written.
pub open spec fn node_is_kept<
    F: Fn(Op, u64, u64) -> u64,
    P: Fn(Precision, &str) -> Option<u64>,
    W: Fn(Precision, u64) -> String,
>(n: Node, reader: &Reader<P>, writer: &Writer<W>, calc: &Calc<F>) -> bool {
    &&& comes_back(n.split_cond, reader, writer, calc)
    &&& comes_back(n.leaf_value, reader, writer, calc)
    &&& comes_back(n.sum_hess, reader, writer, calc)
    &&& comes_back(n.split_gain, reader, writer, calc)
}

/// Whether every number of a list is read back as it was written.
pub open spec fn list_is_kept<
    F: Fn(Op, u64, u64) -> u64,
    P: Fn(Precision, &str) -> Option<u64>,
    W: Fn(Precision, u64) -> String,
>(list: Seq<Single>, reader: &Reader<P>, writer: &Writer<W>, calc: &Calc<F>) -> bool {
    forall|i: int| 0 <= i < list.len() ==> comes_back(#[trigger] list[i], reader, writer, calc)
}

/// Whether every number of a model is read back as it was written.
pub open spec fn contents_are_kept<
    F: Fn(Op, u64, u64) -> u64,
    P: Fn(Precision, &str) -> Option<u64>,
    W: Fn(Precision, u64) -> String,
>(c: Contents, reader: &Reader<P>, writer: &Writer<W>, calc: &Calc<F>) -> bool {
    &&& comes_back(c.base, reader, writer, calc)
    &&& list_is_kept(c.weights, reader, writer, calc)
    &&& c.linear matches Some((w, b)) ==> list_is_kept(w, reader, writer, calc) && list_is_kept(
        b,
        reader,
        writer,
        calc,
    )
    &&& forall|t: int, i: int|
        0 <= t < c.trees.len() && 0 <= i < c.trees[t].0.len() ==> node_is_kept(
            #[trigger] c.trees[t].0[i],
            reader,
            writer,
            calc,
        )
}

proof fn lists_are_read_back<
    F: Fn(Op, u64, u64) -> u64,
    P: Fn(Precision, &str) -> Option<u64>,
    W: Fn(Precision, u64) -> String,
>(list: Seq<Single>, reader: &Reader<P>, writer: &Writer<W>, calc: &Calc<F>)
    requires
        list_is_kept(list, reader, writer, calc),
    ensures
        singles_in(singles_doc(list, writer, calc)->List_0, reader, calc) == list,
{
    let read = singles_in(singles_doc(list, writer, calc)->List_0, reader, calc);
    assert forall|i: int| 0 <= i < list.len() implies #[trigger] read[i] == list[i] by {
        assert(comes_back(list[i], reader, writer, calc));
    }
    assert(read =~= list);
}

proof fn trees_are_read_back<
    F: Fn(Op, u64, u64) -> u64,
    P: Fn(Precision, &str) -> Option<u64>,
    W: Fn(Precision, u64) -> String,
>(tree: (Seq<Node>, Seq<u32>), reader: &Reader<P>, writer: &Writer<W>, calc: &Calc<F>)
    requires
        forall|i: int|
            0 <= i < tree.0.len() ==> node_is_kept(#[trigger] tree.0[i], reader, writer, calc),
    ensures
        tree_in(tree_record(tree, writer, calc), reader, calc) == Some(tree),
{
    let d = tree_record(tree, writer, calc);
    let items = d->Object_0;
    reveal_strlit("nodes");
    reveal_strlit("categories");
    assert("nodes"@.len() == 5 && "categories"@.len() == 10);
    assert(items[0].0 == "nodes"@ && items[1].0 == "categories"@);
    member_stands(items, "nodes"@, 0, 0);
    member_stands(items, "categories"@, 1, 0);
    let nodes = list_named(d, "nodes"@)->0;
    let cats = list_named(d, "categories"@)->0;
    assert forall|i: int| 0 <= i < nodes.len() implies is_node_doc(#[trigger] nodes[i]) && node_in(
        nodes[i],
        reader,
        calc,
    ) == tree.0[i] by {
        assert(node_is_kept(tree.0[i], reader, writer, calc));
        assert(nodes[i] == node_doc(tree.0[i], writer, calc));
        let n = node_doc(tree.0[i], writer, calc)->List_0;
        assert(n.len() == 11);
        assert(node_in(nodes[i], reader, calc) == tree.0[i]);
    }
    let read = tree_in(d, reader, calc)->0;
    assert(read.0 =~= tree.0);
    assert(read.1 =~= tree.1);
}

proof fn forests_are_read_back<
    F: Fn(Op, u64, u64) -> u64,
    P: Fn(Precision, &str) -> Option<u64>,
    W: Fn(Precision, u64) -> String,
>(
    trees: Seq<(Seq<Node>, Seq<u32>)>,
    n: int,
    reader: &Reader<P>,
    writer: &Writer<W>,
    calc: &Calc<F>,
)
    requires
        0 <= n <= trees.len(),
        forall|t: int, i: int|
            0 <= t < trees.len() && 0 <= i < trees[t].0.len() ==> node_is_kept(
                #[trigger] trees[t].0[i],
                reader,
                writer,
                calc,
            ),
    ensures
        trees_in(
            Seq::new(trees.len(), |t: int| tree_record(trees[t], writer, calc)),
            n,
            reader,
            calc,
        ) == Some(trees.take(n)),
    decreases n,
{
    let list = Seq::new(trees.len(), |t: int| tree_record(trees[t], writer, calc));
    if n > 0 {
        forests_are_read_back(trees, n - 1, reader, writer, calc);
        let tree = trees[n - 1];
        assert forall|i: int| 0 <= i < tree.0.len() implies node_is_kept(
            #[trigger] tree.0[i],
            reader,
            writer,
            calc,
        ) by {
            assert(node_is_kept(trees[n - 1].0[i], reader, writer, calc));
        }
        trees_are_read_back(tree, reader, writer, calc);
        assert(list[n - 1] == tree_record(tree, writer, calc));
        assert(trees.take(n - 1).push(tree) =~= trees.take(n));
    } else {
        assert(trees.take(0) =~= Seq::empty());
    }
}

proof fn members_stand<F: Fn(Op, u64, u64) -> u64, W: Fn(Precision, u64) -> String>(
    c: Contents,
    writer: &Writer<W>,
    calc: &Calc<F>,
)
    ensures
        ({
            let d = contents_doc(c, writer, calc);
            let items = d->Object_0;
            &&& member(d, "objective"@) == Some(items[0].1)
            &&& member(d, "num_class"@) == Some(items[1].1)
            &&& member(d, "n_features"@) == Some(items[2].1)
            &&& member(d, "base_score"@) == Some(items[3].1)
            &&& member(d, "best_iteration"@) == Some(items[4].1)
            &&& member(d, "trees"@) == Some(items[5].1)
            &&& member(d, "tree_weights"@) == Some(items[6].1)
            &&& member(d, "linear_weights"@) == Some(items[7].1)
            &&& member(d, "linear_bias"@) == Some(items[8].1)
        }),
{
    reveal_strlit("objective");
    reveal_strlit("num_class");
    reveal_strlit("n_features");
    reveal_strlit("base_score");
    reveal_strlit("best_iteration");
    reveal_strlit("trees");
    reveal_strlit("tree_weights");
    reveal_strlit("linear_weights");
    reveal_strlit("linear_bias");
    let items = contents_doc(c, writer, calc)->Object_0;
    assert("objective"@[0] == 'o' && "objective"@.len() == 9);
    assert("num_class"@[0] == 'n' && "num_class"@.len() == 9);
    assert("n_features"@[0] == 'n' && "n_features"@.len() == 10);
    assert("base_score"@[0] == 'b' && "base_score"@.len() == 10);
    assert("best_iteration"@[0] == 'b' && "best_iteration"@.len() == 14);
    assert("trees"@[0] == 't' && "trees"@.len() == 5);
    assert("tree_weights"@[0] == 't' && "tree_weights"@.len() == 12);
    assert("linear_weights"@[0] == 'l' && "linear_weights"@.len() == 14);
    assert("linear_bias"@[0] == 'l' && "linear_bias"@.len() == 11);
    assert(items[0].0 == "objective"@);
    assert(items[1].0 == "num_class"@);
    assert(items[2].0 == "n_features"@);
    assert(items[3].0 == "base_score"@);
    assert(items[4].0 == "best_iteration"@);
    assert(items[5].0 == "trees"@);
    assert(items[6].0 == "tree_weights"@);
    assert(items[7].0 == "linear_weights"@);
    assert(items[8].0 == "linear_bias"@);
    member_stands(items, "objective"@, 0, 0);
    member_stands(items, "num_class"@, 1, 0);
    member_stands(items, "n_features"@, 2, 0);
    member_stands(items, "base_score"@, 3, 0);
    member_stands(items, "best_iteration"@, 4, 0);
    member_stands(items, "trees"@, 5, 0);
    member_stands(items, "tree_weights"@, 6, 0);
    member_stands(items, "linear_weights"@, 7, 0);
    member_stands(items, "linear_bias"@, 8, 0);
}

/// Nothing is lost when a model is written as a document and read back, if its
/// numbers are read back as they were written.
pub proof fn documents_hold_the_model<
    F: Fn(Op, u64, u64) -> u64,
    P: Fn(Precision, &str) -> Option<u64>,
    W: Fn(Precision, u64) -> String,
>(c: Contents, reader: &Reader<P>, writer: &Writer<W>, calc: &Calc<F>)
    requires
        contents_are_kept(c, reader, writer, calc),
    ensures
        contents_in(contents_doc(c, writer, calc), reader, calc) == Some(c),
{
    let d = contents_doc(c, writer, calc);
    members_stand(c, writer, calc);
    decimals_are_read_back(c.num_class as nat, usize::MAX as int);
    decimals_are_read_back(c.width as nat, usize::MAX as int);
    if let Some(b) = c.best {
        decimals_are_read_back(b as nat, usize::MAX as int);
    }
    lists_are_read_back(c.weights, reader, writer, calc);
    if let Some((w, b)) = c.linear {
        lists_are_read_back(w, reader, writer, calc);
        lists_are_read_back(b, reader, writer, calc);
    }
    forests_are_read_back(c.trees, c.trees.len() as int, reader, writer, calc);
    assert(c.trees.take(c.trees.len() as int) =~= c.trees);
    assert(comes_back(c.base, reader, writer, calc));
    let read = contents_in(d, reader, calc)->0;
    assert(read.best == c.best);
    assert(read.linear == c.linear);
    assert(read =~= c);
}

/// Two models that are made of the same can be applied to the same data, and
/// predict alike.
pub proof fn equal_contents_predict_alike<F: Fn(Op, u64, u64) -> u64>(
    a: &BoostedModel,
    b: &BoostedModel,
    data: &DMatrix,
    rounds: int,
    calc: &Calc<F>,
)
    requires
        a.well_formed(),
        contents_of(a) == contents_of(b),
    ensures
        b.well_formed(),
        b.applies_to(data) == a.applies_to(data),
        b.margins(data, rounds, calc) == a.margins(data, rounds, calc),
{
    a.shape();
    b.shape();
    assert(contents_of(a).trees.len() == a.tree_list().len());
    assert(contents_of(b).trees.len() == b.tree_list().len());
    assert(contents_of(a).weights == a.weight_list() && contents_of(b).weights == b.weight_list());
    assert(contents_of(a).base == a.base() && contents_of(b).base == b.base());
    assert(contents_of(a).objective == a.objective_name());
    assert(contents_of(b).objective == b.objective_name());
    assert(contents_of(a).num_class == a.classes() && contents_of(b).num_class == b.classes());
    assert(contents_of(a).width == a.width() && contents_of(b).width == b.width());
    assert(contents_of(a).linear == contents_of(b).linear);
    assert forall|t: int| 0 <= t < b.tree_list().len() implies {
        &&& (#[trigger] b.tree_list()[t]).node_list() == a.tree_list()[t].node_list()
        &&& b.tree_list()[t].category_list() == a.tree_list()[t].category_list()
    } by {
        let x = &a.tree_list()[t];
        let y = &b.tree_list()[t];
        assert(contents_of(a).trees[t] == (x.node_list(), x.category_list()));
        assert(contents_of(b).trees[t] == (y.node_list(), y.category_list()));
    }
    assert forall|t: int| 0 <= t < b.tree_list().len() implies walkable(
        #[trigger] &b.tree_list()[t],
        b.width(),
    ) by {
        assert(walkable(&a.tree_list()[t], a.width()));
    }
    match (a.linear_part(), b.linear_part()) {
        (Some(x), Some(y)) => {
            assert(linear_margins(&y, data, b.base(), b.outputs(), b.width(), calc)
                =~= linear_margins(&x, data, a.base(), a.outputs(), a.width(), calc));
        },
        _ => {
            equal_forests_predict_alike(a, b, data, a.trees_within(rounds), calc);
        },
    }
}

proof fn equal_forests_predict_alike<F: Fn(Op, u64, u64) -> u64>(
    a: &BoostedModel,
    b: &BoostedModel,
    data: &DMatrix,
    n: int,
    calc: &Calc<F>,
)
    requires
        n <= a.tree_list().len(),
        b.tree_list().len() == a.tree_list().len(),
        b.weight_list() == a.weight_list(),
        b.base() == a.base(),
        b.outputs() == a.outputs(),
        forall|t: int|
            #![trigger b.tree_list()[t]]
            0 <= t < b.tree_list().len() ==> {
                &&& b.tree_list()[t].node_list() == a.tree_list()[t].node_list()
                &&& b.tree_list()[t].category_list() == a.tree_list()[t].category_list()
            },
    ensures
        margins_of(
            b.tree_list(),
            b.weight_list(),
            Seq::empty(),
            data,
            b.base(),
            b.outputs(),
            n,
            calc,
        ) == margins_of(
            a.tree_list(),
            a.weight_list(),
            Seq::empty(),
            data,
            a.base(),
            a.outputs(),
            n,
            calc,
        ),
    decreases n,
{
    if n > 0 {
        equal_forests_predict_alike(a, b, data, n - 1, calc);
        let k = a.outputs();
        let x = &a.tree_list()[n - 1];
        let y = &b.tree_list()[n - 1];
        let w = a.weight_list()[n - 1];
        let rest = margins_of(
            a.tree_list(),
            a.weight_list(),
            Seq::empty(),
            data,
            a.base(),
            k,
            n - 1,
            calc,
        );
        assert(b.tree_list()[n - 1].node_list() == a.tree_list()[n - 1].node_list());
        assert(with_tree(rest, y, w, data, (n - 1) % k, k, calc) =~= with_tree(
            rest,
            x,
            w,
            data,
            (n - 1) % k,
            k,
            calc,
        ));
    }
}

} // verus!
