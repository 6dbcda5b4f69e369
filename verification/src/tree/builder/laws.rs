//! What holds of trees that the builders grow.

use vstd::prelude::*;

use crate::arith::{Calc, Op};
use crate::data::dmatrix::DMatrix;
use crate::number::Single;
use crate::tree::builder::exact::{
    active_leaves, applied, is_taken, moved_on, new_weights, next_stage, row_of, stage_bests,
    Setting, Stage,
};
use crate::tree::gain::RegParams;
use crate::tree::builder::growth::{splits_keep_growth_well_formed, Best, Grown};
use crate::tree::laws::{
    expansion_reroutes_its_own_rows, grown_trees_are_sound, routes_end_at_leaves,
};
use crate::tree::regtree::{
    goes_left, in_categories, leaf_node, next_node, ordered, route, settles, Node,
};

verus! {

/// The leaf that a row reaches in a growing tree.
pub open spec fn reached(g: Grown, row: spec_fn(u32) -> Option<Single>) -> int {
    route(g.nodes, g.cats, row, 0, g.nodes.len())
}

/// The node that follows if `nid` is no longer a leaf.
pub open spec fn one_step(g: Grown, nid: int, row: spec_fn(u32) -> Option<Single>) -> int {
    if g.nodes[nid].leafy() {
        nid
    } else {
        next_node(g.nodes, g.cats, nid, row(g.nodes[nid].split_feature))
    }
}

pub(crate) proof fn more_categories(node: Node, cats: Seq<u32>, all: Seq<u32>, v: Option<Single>)
    requires
        node.is_categorical ==> node.cat_end <= cats.len(),
        cats.len() <= all.len(),
        forall|k: int| 0 <= k < cats.len() ==> cats[k] == #[trigger] all[k],
    ensures
        goes_left(node, cats, v) == goes_left(node, all, v),
{
    if let Some(x) = v {
        if node.is_categorical {
            if in_categories(node, cats, x) {
                let k = choose|k: int|
                    node.cat_begin <= k < node.cat_end && #[trigger] cats[k] == x.count(
                        u32::MAX as int,
                    );
                assert(all[k] == x.count(u32::MAX as int));
            }
            if in_categories(node, all, x) {
                let k = choose|k: int|
                    node.cat_begin <= k < node.cat_end && #[trigger] all[k] == x.count(
                        u32::MAX as int,
                    );
                assert(cats[k] == x.count(u32::MAX as int));
            }
        }
    }
}

/// A split sends a row that reached the split node one step on and leaves
/// every other row where it was.
pub proof fn split_moves_its_own_rows<F: Fn(Op, u64, u64) -> u64>(
    g: Grown,
    nid: int,
    b: Best,
    dir: i8,
    lw: Single,
    rw: Single,
    row: spec_fn(u32) -> Option<Single>,
    calc: &Calc<F>,
)
    requires
        g.well_formed(),
        0 <= nid < g.nodes.len(),
        g.nodes[nid].leafy(),
        g.has_room(b),
    ensures
        ({
            let after = g.after_split(nid, b, dir, lw, rw, calc);
            &&& reached(after, row) == if reached(g, row) == nid {
                one_step(after, nid, row)
            } else {
                reached(g, row)
            }
            &&& 0 <= reached(g, row) < g.nodes.len()
            &&& g.nodes[reached(g, row)].leafy()
        }),
{
    let after = g.after_split(nid, b, dir, lw, rw, calc);
    let split = g.split_node(nid, b, calc);
    let left = leaf_node(lw, calc.narrowed(b.left.hess));
    let right = leaf_node(rw, calc.narrowed(b.right.hess));
    let more = if b.is_categorical { b.cat_left } else { Seq::empty() };
    let n = g.nodes.len();
    assert(g.cats + more =~= after.cats);
    splits_keep_growth_well_formed(g, nid, b, dir, lw, rw, calc);
    grown_trees_are_sound(g.nodes, g.cats);
    grown_trees_are_sound(after.nodes, after.cats);
    routes_end_at_leaves(g.nodes, g.cats, row, 0, n, n);
    expansion_reroutes_its_own_rows(
        g.nodes,
        g.cats,
        more,
        nid,
        split,
        left,
        right,
        row,
        0,
        n,
    );
    let now = route(after.nodes, after.cats, row, 0, n + 1);
    assert(after.nodes.len() == n + 2);
    assert(after.nodes[nid] == split);
    // One step more than the old tree's length is enough for the new tree.
    assert(settles(after.nodes, after.cats, 0, (n + 1) as nat)) by {
        expanded_settles(g, nid, b, dir, lw, rw, 0, n, calc);
    }
    routes_end_at_leaves(after.nodes, after.cats, row, 0, (n + 1) as nat, n + 2);
}

proof fn expanded_settles<F: Fn(Op, u64, u64) -> u64>(
    g: Grown,
    nid: int,
    b: Best,
    dir: i8,
    lw: Single,
    rw: Single,
    from: int,
    fuel: nat,
    calc: &Calc<F>,
)
    requires
        g.well_formed(),
        0 <= nid < g.nodes.len(),
        g.nodes[nid].leafy(),
        g.has_room(b),
        settles(g.nodes, g.cats, from, fuel),
    ensures
        settles(
            g.after_split(nid, b, dir, lw, rw, calc).nodes,
            g.after_split(nid, b, dir, lw, rw, calc).cats,
            from,
            (fuel + 1) as nat,
        ),
    decreases fuel,
{
    let after = g.after_split(nid, b, dir, lw, rw, calc);
    let n = g.nodes.len() as int;
    splits_keep_growth_well_formed(g, nid, b, dir, lw, rw, calc);
    if from == nid {
        assert(after.nodes[n].leafy() && after.nodes[n + 1].leafy());
        assert(settles(after.nodes, after.cats, n, fuel));
        assert(settles(after.nodes, after.cats, n + 1, fuel));
    } else {
        assert(after.nodes[from] == g.nodes[from]);
        if !g.nodes[from].leafy() {
            let less = (fuel - 1) as nat;
            expanded_settles(g, nid, b, dir, lw, rw, g.nodes[from].left as int, less, calc);
            expanded_settles(g, nid, b, dir, lw, rw, g.nodes[from].right as int, less, calc);
        }
    }
}

/// After a level's splits, a row stands one step on from the leaf it reached
/// before, where that leaf was split.
proof fn level_moves_rows_one_step<F: Fn(Op, u64, u64) -> u64>(
    st: Setting,
    g: Grown,
    active: Seq<usize>,
    bests: Seq<Best>,
    n: int,
    row: spec_fn(u32) -> Option<Single>,
    calc: &Calc<F>,
)
    requires
        g.well_formed(),
        active_leaves(g.nodes, active),
        bests.len() == active.len(),
        0 <= n <= active.len(),
    ensures
        ({
            let (after, next) = applied(st, g, active, bests, n, calc);
            &&& reached(after, row) == one_step(after, reached(g, row), row)
            &&& after.well_formed()
            &&& g.nodes.len() <= after.nodes.len()
            &&& g.cats.len() <= after.cats.len()
            &&& forall|k: int| 0 <= k < g.cats.len() ==> g.cats[k] == #[trigger] after.cats[k]
            &&& 0 <= reached(g, row) < g.nodes.len()
            &&& g.nodes[reached(g, row)].leafy()
            &&& forall|s: int|
                n <= s < active.len() ==> after.nodes[#[trigger] active[s] as int]
                    == g.nodes[active[s] as int]
            &&& forall|i: int|
                0 <= i < g.nodes.len() && !after.nodes[i].leafy() && g.nodes[i].leafy() ==> {
                    &&& g.nodes.len() <= (#[trigger] after.nodes[i]).left < after.nodes.len()
                    &&& g.nodes.len() <= after.nodes[i].right < after.nodes.len()
                }
        }),
    decreases n,
{
    grown_trees_are_sound(g.nodes, g.cats);
    routes_end_at_leaves(g.nodes, g.cats, row, 0, g.nodes.len(), g.nodes.len());
    let l0 = reached(g, row);
    if n > 0 {
        level_moves_rows_one_step(st, g, active, bests, n - 1, row, calc);
        let (mid, next) = applied(st, g, active, bests, n - 1, calc);
        let b = bests[n - 1];
        let nid = active[n - 1] as int;
        assert(mid.nodes[active[n - 1] as int] == g.nodes[nid]);
        if is_taken(st, mid, b) {
            let (lw, rw) = new_weights(st, b, calc);
            let dir = st.cons.direction(b.feature as int);
            let after = mid.after_split(nid, b, dir, lw, rw, calc);
            split_moves_its_own_rows(mid, nid, b, dir, lw, rw, row, calc);
            splits_keep_growth_well_formed(mid, nid, b, dir, lw, rw, calc);
            assert forall|i: int| 0 <= i < mid.nodes.len() && i != nid implies
                #[trigger] after.nodes[i] == mid.nodes[i] by {}
            assert(after.nodes[nid] == mid.split_node(nid, b, calc));
            assert forall|s: int| n <= s < active.len() implies after.nodes[
                #[trigger] active[s] as int
            ] == g.nodes[active[s] as int] by {
                assert(active[s] != active[n - 1]);
                assert(mid.nodes[active[s] as int] == g.nodes[active[s] as int]);
            }
            assert forall|i: int|
                0 <= i < g.nodes.len() && !after.nodes[i].leafy() && g.nodes[i].leafy() implies {
                &&& g.nodes.len() <= (#[trigger] after.nodes[i]).left < after.nodes.len()
                &&& g.nodes.len() <= after.nodes[i].right < after.nodes.len()
            } by {
                if i != nid {
                    assert(after.nodes[i] == mid.nodes[i]);
                }
            }
            if l0 != nid {
                assert(after.nodes[l0] == mid.nodes[l0]);
                if !mid.nodes[l0].leafy() {
                    more_categories(
                        mid.nodes[l0],
                        mid.cats,
                        after.cats,
                        row(mid.nodes[l0].split_feature),
                    );
                }
            }
        }
    }
}

/// Every row that takes part stands at the leaf that it reaches in the tree.
pub open spec fn rows_stand_at_their_leaves(data: &DMatrix, stage: Stage) -> bool {
    forall|r: int|
        0 <= r < stage.node_of.len() ==> (#[trigger] stage.node_of[r] matches Some(nid) ==> nid
            == reached(stage.g, row_of(data, r)))
}

/// Growth routes the rows it is grown on as prediction does: if every row
/// stands at the leaf it reaches, then so it does after one more level.
pub proof fn training_rows_follow_the_tree<F: Fn(Op, u64, u64) -> u64>(
    st: Setting,
    data: &DMatrix,
    stage: Stage,
    calc: &Calc<F>,
)
    requires
        stage.g.well_formed(),
        active_leaves(stage.g.nodes, stage.active),
        rows_stand_at_their_leaves(data, stage),
    ensures
        rows_stand_at_their_leaves(data, next_stage(st, data, stage, calc)),
{
    let bests = stage_bests(st, stage, calc);
    let after = next_stage(st, data, stage, calc);
    let n = stage.active.len() as int;
    assert forall|r: int| 0 <= r < after.node_of.len() implies (
    #[trigger] after.node_of[r] matches Some(nid) ==> nid == reached(after.g, row_of(data, r))) by {
        let row = row_of(data, r);
        level_moves_rows_one_step(st, stage.g, stage.active, bests, n, row, calc);
        assert(after.node_of[r] == moved_on(after.g.nodes, after.g.cats, stage.node_of[r], row));
        if let Some(nid) = stage.node_of[r] {
            assert(nid == reached(stage.g, row));
        }
    }
}

/// Whether `h` gives every node's distance from the root.
pub open spec fn is_height(nodes: Seq<Node>, h: Seq<nat>) -> bool {
    &&& h.len() == nodes.len()
    &&& h.len() > 0
    &&& h[0] == 0
    &&& forall|i: int|
        #![trigger nodes[i]]
        0 <= i < nodes.len() && !nodes[i].leafy() ==> h[nodes[i].left as int] == h[i] + 1
            && h[nodes[i].right as int] == h[i] + 1
}

/// A walk down from a node ends within the height that is left.
pub proof fn settles_by_height(nodes: Seq<Node>, cats: Seq<u32>, h: Seq<nat>, top: nat, nid: int)
    requires
        ordered(nodes, cats),
        is_height(nodes, h),
        forall|i: int| 0 <= i < h.len() ==> #[trigger] h[i] <= top,
        0 <= nid < nodes.len(),
    ensures
        settles(nodes, cats, nid, (top - h[nid]) as nat),
    decreases nodes.len() - nid,
{
    if !nodes[nid].leafy() {
        let l = nodes[nid].left as int;
        let r = nodes[nid].right as int;
        settles_by_height(nodes, cats, h, top, l);
        settles_by_height(nodes, cats, h, top, r);
        assert(h[l] <= top);
    }
}

proof fn applying_adds_one_level<F: Fn(Op, u64, u64) -> u64>(
    st: Setting,
    g: Grown,
    active: Seq<usize>,
    bests: Seq<Best>,
    n: int,
    h: Seq<nat>,
    d: nat,
    calc: &Calc<F>,
) -> (h2: Seq<nat>)
    requires
        g.well_formed(),
        active_leaves(g.nodes, active),
        bests.len() == active.len(),
        0 <= n <= active.len(),
        is_height(g.nodes, h),
        forall|i: int| 0 <= i < h.len() ==> #[trigger] h[i] <= d,
        forall|s: int| 0 <= s < active.len() ==> h[#[trigger] active[s] as int] == d,
    ensures
        ({
            let (after, next) = applied(st, g, active, bests, n, calc);
            &&& after.well_formed()
            &&& is_height(after.nodes, h2)
            &&& h2.len() >= h.len()
            &&& forall|i: int| 0 <= i < h.len() ==> h2[i] == #[trigger] h[i]
            &&& forall|i: int| h.len() <= i < h2.len() ==> #[trigger] h2[i] == d + 1
            &&& forall|s: int| 0 <= s < next.len() ==> h.len() <= #[trigger] next[s] < h2.len()
            &&& forall|s: int|
                n <= s < active.len() ==> after.nodes[#[trigger] active[s] as int]
                    == g.nodes[active[s] as int]
        }),
    decreases n,
{
    if n <= 0 {
        h
    } else {
        let hm = applying_adds_one_level(st, g, active, bests, n - 1, h, d, calc);
        let (mid, next) = applied(st, g, active, bests, n - 1, calc);
        let b = bests[n - 1];
        let nid = active[n - 1] as int;
        assert(mid.nodes[active[n - 1] as int] == g.nodes[nid]);
        if is_taken(st, mid, b) {
            let (lw, rw) = new_weights(st, b, calc);
            let dir = st.cons.direction(b.feature as int);
            let (after, more) = applied(st, g, active, bests, n, calc);
            splits_keep_growth_well_formed(mid, nid, b, dir, lw, rw, calc);
            let h2 = hm.push((d + 1) as nat).push((d + 1) as nat);
            assert(hm[nid] == h[nid]);
            assert forall|i: int|
                #![trigger after.nodes[i]]
                0 <= i < after.nodes.len() && !after.nodes[i].leafy() implies h2[
                after.nodes[i].left as int] == h2[i] + 1 && h2[after.nodes[i].right as int] == h2[i]
                + 1 by {
                if i != nid && i < mid.nodes.len() {
                    assert(after.nodes[i] == mid.nodes[i]);
                }
            }
            assert forall|s: int| n <= s < active.len() implies after.nodes[
                #[trigger] active[s] as int
            ] == g.nodes[active[s] as int] by {
                assert(active[s] != active[n - 1]);
                assert(mid.nodes[active[s] as int] == g.nodes[active[s] as int]);
            }
            assert forall|s: int| 0 <= s < more.len() implies h.len() <= #[trigger] more[s]
                < h2.len() by {
                if s < next.len() {
                    assert(more[s] == next[s]);
                }
            }
            h2
        } else {
            hm
        }
    }
}

/// Whether a tree is at most `d` levels deep, its active nodes at level `d`.
pub open spec fn at_level(stage: Stage, h: Seq<nat>, d: nat) -> bool {
    &&& is_height(stage.g.nodes, h)
    &&& forall|i: int| 0 <= i < h.len() ==> #[trigger] h[i] <= d
    &&& forall|s: int| 0 <= s < stage.active.len() ==> h[#[trigger] stage.active[s] as int] == d
}

/// A level of growth makes the tree at most one level deeper.
pub proof fn levels_add_one_to_the_depth<F: Fn(Op, u64, u64) -> u64>(
    st: Setting,
    data: &DMatrix,
    stage: Stage,
    h: Seq<nat>,
    d: nat,
    calc: &Calc<F>,
) -> (h2: Seq<nat>)
    requires
        stage.g.well_formed(),
        active_leaves(stage.g.nodes, stage.active),
        at_level(stage, h, d),
    ensures
        at_level(next_stage(st, data, stage, calc), h2, (d + 1) as nat),
{
    let bests = stage_bests(st, stage, calc);
    let n = stage.active.len() as int;
    let h2 = applying_adds_one_level(st, stage.g, stage.active, bests, n, h, d, calc);
    let after = next_stage(st, data, stage, calc);
    assert forall|i: int| 0 <= i < h2.len() implies #[trigger] h2[i] <= (d + 1) as nat by {
        if i < h.len() {
            assert(h2[i] == h[i]);
        }
    }
    assert forall|s: int| 0 <= s < after.active.len() implies h2[#[trigger] after.active[s] as int]
        == (d + 1) as nat by {}
    h2
}

/// In a tree of at most `d` levels every row reaches a leaf within `d` steps.
pub proof fn depth_bounds_every_walk(stage: Stage, h: Seq<nat>, d: nat)
    requires
        stage.g.well_formed(),
        at_level(stage, h, d),
    ensures
        settles(stage.g.nodes, stage.g.cats, 0, d),
{
    settles_by_height(stage.g.nodes, stage.g.cats, h, d, 0);
}

/// Settling the weights of a tree's leaves leaves its shape as it is.
pub proof fn settling_keeps_the_shape<F: Fn(Op, u64, u64) -> u64>(
    g: Grown,
    reg: RegParams,
    nid: int,
    fuel: nat,
    more: nat,
    calc: &Calc<F>,
)
    requires
        settles(g.nodes, g.cats, nid, fuel),
        fuel <= more,
    ensures
        settles(g.settled(reg, g.nodes.len() as int, calc), g.cats, nid, more),
    decreases fuel,
{
    let nodes = g.settled(reg, g.nodes.len() as int, calc);
    if !g.nodes[nid].leafy() {
        assert(nodes[nid] == g.nodes[nid]);
        let less = (fuel - 1) as nat;
        settling_keeps_the_shape(g, reg, g.nodes[nid].left as int, less, (more - 1) as nat, calc);
        settling_keeps_the_shape(g, reg, g.nodes[nid].right as int, less, (more - 1) as nat, calc);
    }
}

} // verus!
