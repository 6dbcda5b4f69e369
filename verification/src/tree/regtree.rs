//! Regression trees and prediction.
//!
//! A tree is a flat list of [`Node`]s with node `0` as the root. An internal
//! node sends a row left when its value of the node's feature lies below the
//! node's threshold, or is one of the node's categories; a row without a value
//! follows the node's default direction. Leaves carry weights.

use vstd::prelude::*;

use crate::data::dmatrix::DMatrix;
use crate::number::Single;

verus! {

/// The child pointer of a leaf.
pub const NO_CHILD: i32 = -1;

/// A single tree node.
#[derive(Clone, Copy, Debug, PartialEq, Eq, Structural)]
pub struct Node {
    /// Split feature.
    pub split_feature: u32,
    /// Split threshold: a row goes left when its value lies below.
    pub split_cond: Single,
    /// Direction taken by rows without a value.
    pub default_left: bool,
    /// Left child, or [`NO_CHILD`].
    pub left: i32,
    /// Right child, or [`NO_CHILD`].
    pub right: i32,
    /// Leaf weight.
    pub leaf_value: Single,
    /// Sum of Hessians routed through this node.
    pub sum_hess: Single,
    /// Loss reduction of this node's split.
    pub split_gain: Single,
    /// Whether this node splits by category.
    pub is_categorical: bool,
    /// Start of this node's categories in the tree's list.
    pub cat_begin: u32,
    /// End of this node's categories in the tree's list.
    pub cat_end: u32,
}

/// A leaf with the given weight and cover.
pub open spec fn leaf_node(value: Single, sum_hess: Single) -> Node {
    Node {
        split_feature: 0,
        split_cond: Single { bits: 0 },
        default_left: true,
        left: NO_CHILD,
        right: NO_CHILD,
        leaf_value: value,
        sum_hess,
        split_gain: Single { bits: 0 },
        is_categorical: false,
        cat_begin: 0,
        cat_end: 0,
    }
}

impl Node {
    /// Whether this node is a leaf.
    pub open spec fn leafy(&self) -> bool {
        self.left == NO_CHILD
    }

    fn leaf(value: Single, sum_hess: Single) -> (r: Self)
        ensures
            r == leaf_node(value, sum_hess),
    {
        Node {
            split_feature: 0,
            split_cond: Single::zero(),
            default_left: true,
            left: NO_CHILD,
            right: NO_CHILD,
            leaf_value: value,
            sum_hess,
            split_gain: Single::zero(),
            is_categorical: false,
            cat_begin: 0,
            cat_end: 0,
        }
    }

    /// Whether this node is a leaf.
    pub fn is_leaf(&self) -> (r: bool)
        ensures
            r == self.leafy(),
    {
        self.left == NO_CHILD
    }
}

/// Whether a node's own categories hold the category of `v`.
pub open spec fn in_categories(node: Node, categories: Seq<u32>, v: Single) -> bool {
    exists|k: int|
        node.cat_begin <= k < node.cat_end && #[trigger] categories[k] == v.count(u32::MAX as int)
}

/// Whether a row goes left at a node, given its value of the node's feature.
pub open spec fn goes_left(node: Node, categories: Seq<u32>, v: Option<Single>) -> bool {
    match v {
        Some(v) => if node.is_categorical {
            in_categories(node, categories, v)
        } else {
            v.lt(node.split_cond)
        },
        None => node.default_left,
    }
}

/// The node that follows `nid` for a row with value `v` of the node's feature.
pub open spec fn next_node(nodes: Seq<Node>, categories: Seq<u32>, nid: int, v: Option<Single>) -> int {
    if goes_left(nodes[nid], categories, v) {
        nodes[nid].left as int
    } else {
        nodes[nid].right as int
    }
}

/// Whether every walk down from `nid` stays within the tree and ends at a leaf
/// within `fuel` steps.
pub open spec fn settles(nodes: Seq<Node>, categories: Seq<u32>, nid: int, fuel: nat) -> bool
    decreases fuel,
{
    &&& 0 <= nid < nodes.len()
    &&& !nodes[nid].leafy() ==> {
        &&& fuel > 0
        &&& nodes[nid].is_categorical ==> nodes[nid].cat_begin <= nodes[nid].cat_end
            <= categories.len()
        &&& settles(nodes, categories, nodes[nid].left as int, (fuel - 1) as nat)
        &&& settles(nodes, categories, nodes[nid].right as int, (fuel - 1) as nat)
    }
}

/// The leaf that a row reaches from `nid`.
pub open spec fn route(
    nodes: Seq<Node>,
    categories: Seq<u32>,
    row: spec_fn(u32) -> Option<Single>,
    nid: int,
    fuel: nat,
) -> int
    decreases fuel,
{
    if fuel == 0 || nodes[nid].leafy() {
        nid
    } else {
        route(
            nodes,
            categories,
            row,
            next_node(nodes, categories, nid, row(nodes[nid].split_feature)),
            (fuel - 1) as nat,
        )
    }
}

/// Whether a walk that asks `get` for values may end at `leaf`.
pub open spec fn may_reach<F: Fn(u32) -> Option<Single>>(
    nodes: Seq<Node>,
    categories: Seq<u32>,
    get: F,
    nid: int,
    leaf: int,
    fuel: nat,
) -> bool
    decreases fuel,
{
    if nodes[nid].leafy() {
        leaf == nid
    } else {
        fuel > 0 && exists|v: Option<Single>|
            #[trigger] call_ensures(get, (nodes[nid].split_feature,), v) && may_reach(
                nodes,
                categories,
                get,
                next_node(nodes, categories, nid, v),
                leaf,
                (fuel - 1) as nat,
            )
    }
}

/// Whether an accessor gives exactly the values of a row.
pub open spec fn reads<F: Fn(u32) -> Option<Single>>(
    get: F,
    row: spec_fn(u32) -> Option<Single>,
) -> bool {
    forall|f: u32, v: Option<Single>| #[trigger] call_ensures(get, (f,), v) ==> v == row(f)
}

/// The number of leaves among the first `n` nodes.
pub open spec fn count_leaves(nodes: Seq<Node>, n: int) -> int
    decreases n,
{
    if n <= 0 {
        0
    } else {
        count_leaves(nodes, n - 1) + if nodes[n - 1].leafy() { 1int } else { 0 }
    }
}

/// Whether every internal node's children come after it in the list.
pub open spec fn ordered(nodes: Seq<Node>, categories: Seq<u32>) -> bool {
    forall|i: int|
        #![trigger nodes[i]]
        0 <= i < nodes.len() && !nodes[i].leafy() ==> {
            &&& i < nodes[i].left < nodes.len()
            &&& i < nodes[i].right < nodes.len()
            &&& nodes[i].is_categorical ==> nodes[i].cat_begin <= nodes[i].cat_end
                <= categories.len()
        }
}

/// A regression tree: a flat node list with node `0` as the root.
#[derive(Clone, Debug)]
pub struct RegTree {
    nodes: Vec<Node>,
    categories: Vec<u32>,
}

impl RegTree {
    /// The nodes.
    pub closed spec fn node_list(&self) -> Seq<Node> {
        self.nodes@
    }

    /// The categories of all categorical nodes.
    pub closed spec fn category_list(&self) -> Seq<u32> {
        self.categories@
    }

    /// Whether every walk from the root ends at a leaf.
    pub open spec fn sound(&self) -> bool {
        settles(self.node_list(), self.category_list(), 0, self.node_list().len())
    }

    /// Whether the tree is laid out as growth lays it out: with a root, nodes
    /// that can be numbered, and parents before their children.
    pub open spec fn grown(&self) -> bool {
        &&& 0 < self.node_list().len() <= i32::MAX
        &&& ordered(self.node_list(), self.category_list())
    }

    /// The leaf that a row reaches.
    pub open spec fn leaf_of(&self, row: spec_fn(u32) -> Option<Single>) -> int {
        route(self.node_list(), self.category_list(), row, 0, self.node_list().len())
    }

    /// The number of leaves.
    pub open spec fn leaves(&self) -> int {
        count_leaves(self.node_list(), self.node_list().len() as int)
    }

    /// A tree of the given nodes and categories.
    pub fn from_parts(nodes: Vec<Node>, categories: Vec<u32>) -> (r: Self)
        ensures
            r.node_list() == nodes@,
            r.category_list() == categories@,
    {
        RegTree { nodes, categories }
    }

    /// A tree of a single leaf.
    pub fn single_leaf(value: Single, sum_hess: Single) -> (r: Self)
        ensures
            r.node_list() == seq![leaf_node(value, sum_hess)],
            r.category_list() == Seq::<u32>::empty(),
            r.grown(),
    {
        let mut nodes: Vec<Node> = Vec::new();
        nodes.push(Node::leaf(value, sum_hess));
        assert(nodes@ =~= seq![leaf_node(value, sum_hess)]);
        RegTree { nodes, categories: Vec::new() }
    }

    /// A tree with a root leaf of weight zero, ready to be grown.
    pub fn with_root(sum_hess: Single) -> (r: Self)
        ensures
            r.node_list() == seq![leaf_node(Single { bits: 0 }, sum_hess)],
            r.category_list() == Seq::<u32>::empty(),
            r.grown(),
    {
        RegTree::single_leaf(Single::zero(), sum_hess)
    }

    /// Whether the tree has a root, nodes that can be numbered, and parents before
    /// their children.
    pub fn is_grown(&self) -> (r: bool)
        ensures
            r == self.grown(),
    {
        let n: usize = self.nodes.len();
        let m: usize = self.categories.len();
        let mut i: usize = 0;
        while i < n
            invariant
                n == self.nodes.len(),
                m == self.categories.len(),
                i <= n,
                forall|k: int|
                    #![trigger self.nodes[k]]
                    0 <= k < i && !self.nodes[k].leafy() ==> {
                        &&& k < self.nodes[k].left < n
                        &&& k < self.nodes[k].right < n
                        &&& self.nodes[k].is_categorical ==> self.nodes[k].cat_begin
                            <= self.nodes[k].cat_end <= m
                    },
            decreases n - i,
        {
            let node = self.nodes[i];
            if !node.is_leaf() {
                let kids = 0 <= node.left && i < node.left as usize && (node.left as usize) < n && 0
                    <= node.right && i < node.right as usize && (node.right as usize) < n;
                let cats = !node.is_categorical || (node.cat_begin <= node.cat_end
                    && node.cat_end as usize <= m);
                if !kids || !cats {
                    assert(!ordered(self.node_list(), self.category_list())) by {
                        assert(self.node_list()[i as int] == node);
                    }
                    return false;
                }
            }
            i = i + 1;
        }
        0 < n && n <= i32::MAX as usize
    }

    /// Number of nodes.
    pub fn num_nodes(&self) -> (r: usize)
        ensures
            r == self.node_list().len(),
    {
        self.nodes.len()
    }

    /// Number of leaves.
    pub fn num_leaves(&self) -> (r: usize)
        ensures
            r == self.leaves(),
    {
        let mut count: usize = 0;
        let mut i: usize = 0;
        while i < self.nodes.len()
            invariant
                i <= self.nodes.len(),
                count <= i,
                count == count_leaves(self.nodes@, i as int),
            decreases self.nodes.len() - i,
        {
            if self.nodes[i].is_leaf() {
                count = count + 1;
            }
            i = i + 1;
        }
        count
    }

    /// The nodes.
    pub fn nodes(&self) -> (r: &[Node])
        ensures
            r@ == self.node_list(),
    {
        self.nodes.as_slice()
    }

    /// The categories of all categorical nodes.
    pub fn categories(&self) -> (r: &[u32])
        ensures
            r@ == self.category_list(),
    {
        self.categories.as_slice()
    }

    /// A node by id.
    pub fn node(&self, id: usize) -> (r: &Node)
        requires
            id < self.node_list().len(),
        ensures
            *r == self.node_list()[id as int],
    {
        &self.nodes[id]
    }

    /// Turn node `nid` into a numeric split with two leaves as children.
    pub fn expand(
        &mut self,
        nid: usize,
        split_feature: u32,
        split_cond: Single,
        default_left: bool,
        left_value: Single,
        left_hess: Single,
        right_value: Single,
        right_hess: Single,
    ) -> (r: (usize, usize))
        requires
            nid < old(self).node_list().len(),
            old(self).node_list().len() < i32::MAX,
        ensures
            r.0 == old(self).node_list().len(),
            r.1 == r.0 + 1,
            final(self).category_list() == old(self).category_list(),
            final(self).node_list() == old(self).node_list().push(
                leaf_node(left_value, left_hess),
            ).push(leaf_node(right_value, right_hess)).update(
                nid as int,
                Node {
                    split_feature,
                    split_cond,
                    default_left,
                    left: r.0 as i32,
                    right: r.1 as i32,
                    ..old(self).node_list()[nid as int]
                },
            ),
    {
        let left_id: usize = self.nodes.len();
        let right_id: usize = left_id + 1;
        self.nodes.push(Node::leaf(left_value, left_hess));
        self.nodes.push(Node::leaf(right_value, right_hess));
        let mut n = self.nodes[nid];
        n.split_feature = split_feature;
        n.split_cond = split_cond;
        n.default_left = default_left;
        n.left = left_id as i32;
        n.right = right_id as i32;
        self.nodes.set(nid, n);
        (left_id, right_id)
    }

    /// Turn node `nid` into a categorical split with two leaves as children:
    /// rows whose category is in `cats_left` go left, all others right.
    pub fn expand_categorical(
        &mut self,
        nid: usize,
        split_feature: u32,
        cats_left: &[u32],
        default_left: bool,
        left_value: Single,
        left_hess: Single,
        right_value: Single,
        right_hess: Single,
    ) -> (r: (usize, usize))
        requires
            nid < old(self).node_list().len(),
            old(self).node_list().len() < i32::MAX,
            old(self).category_list().len() + cats_left.len() <= u32::MAX,
        ensures
            r.0 == old(self).node_list().len(),
            r.1 == r.0 + 1,
            final(self).category_list() == old(self).category_list() + cats_left@,
            final(self).node_list() == old(self).node_list().push(
                leaf_node(left_value, left_hess),
            ).push(leaf_node(right_value, right_hess)).update(
                nid as int,
                Node {
                    split_feature,
                    is_categorical: true,
                    cat_begin: old(self).category_list().len() as u32,
                    cat_end: (old(self).category_list().len() + cats_left.len()) as u32,
                    default_left,
                    left: r.0 as i32,
                    right: r.1 as i32,
                    ..old(self).node_list()[nid as int]
                },
            ),
    {
        let left_id: usize = self.nodes.len();
        let right_id: usize = left_id + 1;
        self.nodes.push(Node::leaf(left_value, left_hess));
        self.nodes.push(Node::leaf(right_value, right_hess));
        let begin: u32 = self.categories.len() as u32;
        self.categories.extend_from_slice(cats_left);
        assert(self.categories@ =~= old(self).category_list() + cats_left@);
        let end: u32 = self.categories.len() as u32;
        let mut n = self.nodes[nid];
        n.split_feature = split_feature;
        n.is_categorical = true;
        n.cat_begin = begin;
        n.cat_end = end;
        n.default_left = default_left;
        n.left = left_id as i32;
        n.right = right_id as i32;
        self.nodes.set(nid, n);
        (left_id, right_id)
    }

    /// Set a node's leaf weight.
    pub fn set_leaf_value(&mut self, nid: usize, value: Single)
        requires
            nid < old(self).node_list().len(),
        ensures
            final(self).category_list() == old(self).category_list(),
            final(self).node_list() == old(self).node_list().update(
                nid as int,
                Node { leaf_value: value, ..old(self).node_list()[nid as int] },
            ),
    {
        let mut n = self.nodes[nid];
        n.leaf_value = value;
        self.nodes.set(nid, n);
    }

    /// Record the loss reduction of a node's split.
    pub fn set_split_gain(&mut self, nid: usize, gain: Single)
        requires
            nid < old(self).node_list().len(),
        ensures
            final(self).category_list() == old(self).category_list(),
            final(self).node_list() == old(self).node_list().update(
                nid as int,
                Node { split_gain: gain, ..old(self).node_list()[nid as int] },
            ),
    {
        let mut n = self.nodes[nid];
        n.split_gain = gain;
        self.nodes.set(nid, n);
    }

    /// Replace every leaf weight by its scaled value.
    pub fn scale_leaves(&mut self, scaled: impl Fn(Single) -> Single)
        requires
            forall|v: Single| call_requires(scaled, (v,)),
        ensures
            final(self).category_list() == old(self).category_list(),
            final(self).node_list().len() == old(self).node_list().len(),
            forall|i: int|
                0 <= i < old(self).node_list().len() ==> ({
                    let was = #[trigger] old(self).node_list()[i];
                    let now = final(self).node_list()[i];
                    if was.leafy() {
                        &&& now == Node { leaf_value: now.leaf_value, ..was }
                        &&& call_ensures(scaled, (was.leaf_value,), now.leaf_value)
                    } else {
                        now == was
                    }
                }),
    {
        let mut i: usize = 0;
        while i < self.nodes.len()
            invariant
                forall|v: Single| call_requires(scaled, (v,)),
                i <= self.nodes.len(),
                self.nodes.len() == old(self).node_list().len(),
                self.categories@ == old(self).category_list(),
                forall|k: int|
                    i <= k < self.nodes.len() ==> #[trigger] self.nodes[k]
                        == old(self).node_list()[k],
                forall|k: int|
                    0 <= k < i ==> ({
                        let was = #[trigger] old(self).node_list()[k];
                        let now = self.nodes[k];
                        if was.leafy() {
                            &&& now == Node { leaf_value: now.leaf_value, ..was }
                            &&& call_ensures(scaled, (was.leaf_value,), now.leaf_value)
                        } else {
                            now == was
                        }
                    }),
            decreases self.nodes.len() - i,
        {
            let mut n = self.nodes[i];
            assert(n == old(self).node_list()[i as int]);
            if n.is_leaf() {
                n.leaf_value = scaled(n.leaf_value);
                self.nodes.set(i, n);
            }
            i = i + 1;
        }
    }

    fn holds_category(&self, node: &Node, v: Single) -> (r: bool)
        requires
            node.cat_begin <= node.cat_end <= self.categories.len(),
        ensures
            r == in_categories(*node, self.categories@, v),
    {
        let c: u32 = v.to_u32();
        let mut k: usize = node.cat_begin as usize;
        while k < node.cat_end as usize
            invariant
                node.cat_begin <= k <= node.cat_end <= self.categories.len(),
                c == v.count(u32::MAX as int),
                forall|j: int| node.cat_begin <= j < k ==> #[trigger] self.categories[j] != c,
            decreases node.cat_end - k,
        {
            if self.categories[k] == c {
                assert(self.categories@[k as int] == v.count(u32::MAX as int));
                return true;
            }
            k = k + 1;
        }
        false
    }

    /// Whether a row with the given value of the node's feature goes left.
    pub fn step_left(&self, nid: usize, value: Option<Single>) -> (r: bool)
        requires
            nid < self.node_list().len(),
            self.node_list()[nid as int].is_categorical ==> self.node_list()[nid as int].cat_begin
                <= self.node_list()[nid as int].cat_end <= self.category_list().len(),
        ensures
            r == goes_left(self.node_list()[nid as int], self.category_list(), value),
    {
        let node = &self.nodes[nid];
        match value {
            Some(v) => if node.is_categorical {
                self.holds_category(node, v)
            } else {
                v.is_lt(node.split_cond)
            },
            None => node.default_left,
        }
    }

    /// The leaf that a row reaches, whose values `get` gives: `None` for a
    /// missing feature.
    pub fn leaf_id_with(&self, get: impl Fn(u32) -> Option<Single>) -> (r: usize)
        requires
            self.sound(),
            forall|f: u32| call_requires(get, (f,)),
        ensures
            r < self.node_list().len(),
            self.node_list()[r as int].leafy(),
            may_reach(
                self.node_list(),
                self.category_list(),
                get,
                0,
                r as int,
                self.node_list().len(),
            ),
            forall|row: spec_fn(u32) -> Option<Single>|
                reads(get, row) ==> r == #[trigger] self.leaf_of(row),
    {
        let ghost nodes = self.nodes@;
        let ghost cats = self.categories@;
        let ghost mut fuel: nat = nodes.len();
        let mut nid: usize = 0;
        while !self.nodes[nid].is_leaf()
            invariant
                nodes == self.nodes@,
                cats == self.categories@,
                forall|f: u32| call_requires(get, (f,)),
                settles(nodes, cats, nid as int, fuel),
                forall|leaf: int|
                    #[trigger] may_reach(nodes, cats, get, nid as int, leaf, fuel) ==> may_reach(
                        nodes,
                        cats,
                        get,
                        0,
                        leaf,
                        nodes.len(),
                    ),
                forall|row: spec_fn(u32) -> Option<Single>|
                    reads(get, row) ==> #[trigger] route(nodes, cats, row, 0, nodes.len())
                        == route(nodes, cats, row, nid as int, fuel),
            decreases fuel,
        {
            let f: u32 = self.nodes[nid].split_feature;
            let value = get(f);
            let left = self.step_left(nid, value);
            let next: i32 = if left { self.nodes[nid].left } else { self.nodes[nid].right };
            let ghost was = nid as int;
            proof {
                let less = (fuel - 1) as nat;
                assert(next == next_node(nodes, cats, was, value));
                assert(settles(nodes, cats, next as int, less));
                assert forall|leaf: int| #[trigger]
                    may_reach(nodes, cats, get, next as int, leaf, less) implies may_reach(
                    nodes,
                    cats,
                    get,
                    0,
                    leaf,
                    nodes.len(),
                ) by {
                    assert(call_ensures(get, (nodes[was].split_feature,), value));
                    assert(may_reach(nodes, cats, get, was, leaf, fuel));
                }
                assert forall|row: spec_fn(u32) -> Option<Single>| reads(get, row) implies
                    #[trigger] route(nodes, cats, row, 0, nodes.len()) == route(
                    nodes,
                    cats,
                    row,
                    next as int,
                    less,
                ) by {
                    assert(value == row(f));
                }
                fuel = less;
            }
            nid = next as usize;
        }
        assert(may_reach(nodes, cats, get, nid as int, nid as int, fuel));
        assert forall|row: spec_fn(u32) -> Option<Single>| reads(get, row) implies nid
            == #[trigger] self.leaf_of(row) by {
            assert(route(nodes, cats, row, nid as int, fuel) == nid);
        }
        nid
    }

    /// The leaf that row `row` of `data` reaches.
    pub fn leaf_of_row(&self, data: &DMatrix, row: usize) -> (r: usize)
        requires
            self.sound(),
            data.well_formed(),
            row < data.height(),
            data.readable_row(row as int),
            forall|i: int|
                0 <= i < self.node_list().len() && !(#[trigger] self.node_list()[i]).leafy()
                    ==> self.node_list()[i].split_feature < data.width(),
        ensures
            r < self.node_list().len(),
            self.node_list()[r as int].leafy(),
            r == self.leaf_of(|f: u32| data.cell(row as int, f as int)),
    {
        let ghost nodes = self.nodes@;
        let ghost cats = self.categories@;
        let ghost view = |f: u32| data.cell(row as int, f as int);
        let ghost mut fuel: nat = nodes.len();
        let mut nid: usize = 0;
        while !self.nodes[nid].is_leaf()
            invariant
                nodes == self.nodes@,
                cats == self.categories@,
                data.well_formed(),
                row < data.height(),
                data.readable_row(row as int),
                forall|i: int|
                    0 <= i < nodes.len() && !(#[trigger] nodes[i]).leafy()
                        ==> nodes[i].split_feature < data.width(),
                view == |f: u32| data.cell(row as int, f as int),
                settles(nodes, cats, nid as int, fuel),
                route(nodes, cats, view, 0, nodes.len()) == route(
                    nodes,
                    cats,
                    view,
                    nid as int,
                    fuel,
                ),
            decreases fuel,
        {
            assert(nodes[nid as int].split_feature < data.width());
            let f: u32 = self.nodes[nid].split_feature;
            let value = data.get(row, f as usize);
            let left = self.step_left(nid, value);
            let next: i32 = if left { self.nodes[nid].left } else { self.nodes[nid].right };
            proof {
                assert(value == view(f));
                fuel = (fuel - 1) as nat;
                assert(settles(nodes, cats, next as int, fuel));
            }
            nid = next as usize;
        }
        nid
    }

    /// The leaf weight of row `row` of `data`.
    pub fn predict_row(&self, data: &DMatrix, row: usize) -> (r: Single)
        requires
            self.sound(),
            data.well_formed(),
            row < data.height(),
            data.readable_row(row as int),
            forall|i: int|
                0 <= i < self.node_list().len() && !(#[trigger] self.node_list()[i]).leafy()
                    ==> self.node_list()[i].split_feature < data.width(),
        ensures
            r == self.node_list()[self.leaf_of(
                |f: u32| data.cell(row as int, f as int),
            )].leaf_value,
    {
        let leaf: usize = self.leaf_of_row(data, row);
        self.nodes[leaf].leaf_value
    }
}

} // verus!
