//! What growth keeps of a tree, and what it does to the rows routed through it.

use vstd::prelude::*;

use crate::number::Single;
use crate::tree::regtree::{
    count_leaves, goes_left, in_categories, next_node, ordered, route, settles, Node,
};

verus! {

/// Node `nid` turned into the split `split`, with two leaves appended as its
/// children.
pub open spec fn expanded(
    nodes: Seq<Node>,
    nid: int,
    split: Node,
    left: Node,
    right: Node,
) -> Seq<Node> {
    nodes.push(left).push(right).update(nid, split)
}

/// Whether `expanded` turns leaf `nid` into a split over two new leaves.
pub open spec fn is_expansion(
    nodes: Seq<Node>,
    categories: Seq<u32>,
    nid: int,
    split: Node,
    left: Node,
    right: Node,
) -> bool {
    &&& 0 <= nid < nodes.len()
    &&& nodes[nid].leafy()
    &&& nodes.len() + 2 <= i32::MAX
    &&& left.leafy()
    &&& right.leafy()
    &&& split.left == nodes.len()
    &&& split.right == nodes.len() + 1
    &&& split.is_categorical ==> split.cat_begin <= split.cat_end <= categories.len()
}

proof fn settles_from(nodes: Seq<Node>, categories: Seq<u32>, nid: int, fuel: nat)
    requires
        ordered(nodes, categories),
        0 <= nid < nodes.len(),
        fuel >= nodes.len() - nid,
    ensures
        settles(nodes, categories, nid, fuel),
    decreases fuel,
{
    if !nodes[nid].leafy() {
        settles_from(nodes, categories, nodes[nid].left as int, (fuel - 1) as nat);
        settles_from(nodes, categories, nodes[nid].right as int, (fuel - 1) as nat);
    }
}

/// In a tree laid out parents first, every row reaches a leaf.
pub proof fn grown_trees_are_sound(nodes: Seq<Node>, categories: Seq<u32>)
    requires
        nodes.len() > 0,
        ordered(nodes, categories),
    ensures
        settles(nodes, categories, 0, nodes.len()),
{
    settles_from(nodes, categories, 0, nodes.len());
}

/// A row that reaches a leaf reaches the same one with more steps to spare,
/// and what it reaches is a leaf of the tree.
pub proof fn routes_end_at_leaves(
    nodes: Seq<Node>,
    categories: Seq<u32>,
    row: spec_fn(u32) -> Option<Single>,
    nid: int,
    fuel: nat,
    more: nat,
)
    requires
        settles(nodes, categories, nid, fuel),
        fuel <= more,
    ensures
        route(nodes, categories, row, nid, more) == route(nodes, categories, row, nid, fuel),
        0 <= route(nodes, categories, row, nid, fuel) < nodes.len(),
        nodes[route(nodes, categories, row, nid, fuel)].leafy(),
    decreases fuel,
{
    if !nodes[nid].leafy() {
        let next = next_node(nodes, categories, nid, row(nodes[nid].split_feature));
        routes_end_at_leaves(
            nodes,
            categories,
            row,
            next,
            (fuel - 1) as nat,
            (more - 1) as nat,
        );
    }
}

/// Growth keeps parents before their children.
pub proof fn expansion_keeps_order(
    nodes: Seq<Node>,
    categories: Seq<u32>,
    more: Seq<u32>,
    nid: int,
    split: Node,
    left: Node,
    right: Node,
)
    requires
        ordered(nodes, categories),
        is_expansion(nodes, categories + more, nid, split, left, right),
    ensures
        ordered(expanded(nodes, nid, split, left, right), categories + more),
{
    let grown = expanded(nodes, nid, split, left, right);
    assert forall|i: int| #![trigger grown[i]] 0 <= i < grown.len() && !grown[i].leafy() implies {
        &&& i < grown[i].left < grown.len()
        &&& i < grown[i].right < grown.len()
        &&& grown[i].is_categorical ==> grown[i].cat_begin <= grown[i].cat_end <= (categories
            + more).len()
    } by {
        if i != nid && i < nodes.len() {
            assert(grown[i] == nodes[i]);
        }
    }
}

proof fn leaves_of_equal_prefixes(a: Seq<Node>, b: Seq<Node>, n: int)
    requires
        0 <= n <= a.len(),
        n <= b.len(),
        forall|i: int| 0 <= i < n ==> (#[trigger] a[i]).leafy() == b[i].leafy(),
    ensures
        count_leaves(a, n) == count_leaves(b, n),
    decreases n,
{
    if n > 0 {
        leaves_of_equal_prefixes(a, b, n - 1);
        assert(a[n - 1].leafy() == b[n - 1].leafy());
    }
}

proof fn one_leaf_less(a: Seq<Node>, b: Seq<Node>, nid: int, n: int)
    requires
        0 <= nid < n <= a.len(),
        n <= b.len(),
        a[nid].leafy(),
        !b[nid].leafy(),
        forall|i: int| 0 <= i < n && i != nid ==> (#[trigger] a[i]).leafy() == b[i].leafy(),
    ensures
        count_leaves(b, n) == count_leaves(a, n) - 1,
    decreases n,
{
    if n - 1 == nid {
        leaves_of_equal_prefixes(a, b, nid);
    } else {
        one_leaf_less(a, b, nid, n - 1);
        assert(a[n - 1].leafy() == b[n - 1].leafy());
    }
}

/// Growth adds two nodes and one leaf, so a tree grown from a single leaf has
/// one node less than twice its leaves.
pub proof fn expansion_adds_one_leaf(
    nodes: Seq<Node>,
    categories: Seq<u32>,
    nid: int,
    split: Node,
    left: Node,
    right: Node,
)
    requires
        is_expansion(nodes, categories, nid, split, left, right),
    ensures
        expanded(nodes, nid, split, left, right).len() == nodes.len() + 2,
        count_leaves(expanded(nodes, nid, split, left, right), nodes.len() as int + 2) == count_leaves(
            nodes,
            nodes.len() as int,
        ) + 1,
        nodes.len() == 2 * count_leaves(nodes, nodes.len() as int) - 1 ==> nodes.len() + 2 == 2
            * count_leaves(expanded(nodes, nid, split, left, right), nodes.len() as int + 2) - 1,
{
    let n = nodes.len() as int;
    let grown = expanded(nodes, nid, split, left, right);
    one_leaf_less(nodes, grown, nid, n);
    reveal_with_fuel(count_leaves, 3);
    assert(grown[n] == left);
    assert(grown[n + 1] == right);
}

/// After a leaf is split, a row that reached it goes on to one of the two new
/// leaves as the split says; every other row stays where it was.
pub proof fn expansion_reroutes_its_own_rows(
    nodes: Seq<Node>,
    categories: Seq<u32>,
    more: Seq<u32>,
    nid: int,
    split: Node,
    left: Node,
    right: Node,
    row: spec_fn(u32) -> Option<Single>,
    from: int,
    fuel: nat,
)
    requires
        ordered(nodes, categories),
        is_expansion(nodes, categories + more, nid, split, left, right),
        settles(nodes, categories, from, fuel),
    ensures
        ({
            let grown = expanded(nodes, nid, split, left, right);
            let was = route(nodes, categories, row, from, fuel);
            let now = route(grown, categories + more, row, from, fuel + 1);
            now == if was == nid {
                if goes_left(split, categories + more, row(split.split_feature)) {
                    nodes.len() as int
                } else {
                    nodes.len() as int + 1
                }
            } else {
                was
            }
        }),
    decreases fuel,
{
    let grown = expanded(nodes, nid, split, left, right);
    let cats = categories + more;
    let v = row(nodes[from].split_feature);
    if nodes[from].leafy() {
        if from == nid {
            assert(grown[from] == split);
            let next = next_node(grown, cats, from, row(split.split_feature));
            assert(grown[nodes.len() as int] == left);
            assert(grown[nodes.len() as int + 1] == right);
            assert(grown[next].leafy());
            assert(route(grown, cats, row, next, fuel) == next);
        } else {
            assert(grown[from] == nodes[from]);
        }
    } else {
        assert(grown[from] == nodes[from]);
        assert(goes_left(nodes[from], categories, v) == goes_left(nodes[from], cats, v)) by {
            if let Some(x) = v {
                if nodes[from].is_categorical {
                    categories_are_appended(nodes[from], categories, more, x);
                }
            }
        }
        let next = next_node(nodes, categories, from, v);
        expansion_reroutes_its_own_rows(
            nodes,
            categories,
            more,
            nid,
            split,
            left,
            right,
            row,
            next,
            (fuel - 1) as nat,
        );
    }
}

/// Appending categories to the tree's list changes no node's own categories.
proof fn categories_are_appended(node: Node, categories: Seq<u32>, more: Seq<u32>, v: Single)
    requires
        node.cat_end <= categories.len(),
    ensures
        in_categories(node, categories, v) == in_categories(node, categories + more, v),
{
    let all = categories + more;
    if in_categories(node, categories, v) {
        let k = choose|k: int|
            node.cat_begin <= k < node.cat_end && #[trigger] categories[k] == v.count(
                u32::MAX as int,
            );
        assert(all[k] == v.count(u32::MAX as int));
    }
    if in_categories(node, all, v) {
        let k = choose|k: int|
            node.cat_begin <= k < node.cat_end && #[trigger] all[k] == v.count(u32::MAX as int);
        assert(categories[k] == v.count(u32::MAX as int));
    }
}

/// A change of weights, covers and gains alone changes no route.
pub proof fn weights_do_not_route(
    a: Seq<Node>,
    b: Seq<Node>,
    categories: Seq<u32>,
    row: spec_fn(u32) -> Option<Single>,
    nid: int,
    fuel: nat,
)
    requires
        a.len() == b.len(),
        settles(a, categories, nid, fuel),
        forall|i: int|
            0 <= i < a.len() ==> {
                let x = #[trigger] a[i];
                b[i] == Node {
                    leaf_value: b[i].leaf_value,
                    sum_hess: b[i].sum_hess,
                    split_gain: b[i].split_gain,
                    ..x
                }
            },
    ensures
        route(a, categories, row, nid, fuel) == route(b, categories, row, nid, fuel),
    decreases fuel,
{
    let x = a[nid];
    if !x.leafy() {
        let v = row(x.split_feature);
        assert(goes_left(x, categories, v) == goes_left(b[nid], categories, v)) by {
            if let Some(w) = v {
                if x.is_categorical {
                    assert(in_categories(x, categories, w) == in_categories(b[nid], categories, w));
                }
            }
        }
        weights_do_not_route(
            a,
            b,
            categories,
            row,
            next_node(a, categories, nid, v),
            (fuel - 1) as nat,
        );
    }
}

} // verus!
