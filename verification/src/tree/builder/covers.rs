//! Covers and leaf weights are those of the rows that pass there, in an
//! arithmetic that does not round.

use vstd::prelude::*;

use crate::arith::{Calc, Op};
use crate::data::dmatrix::DMatrix;
use crate::number::{counts_are_bounded, Single, Wide};
use crate::objective::pair::GradPair;
use crate::tree::builder::exact::row_of;
use crate::tree::builder::growth::{Best, Grown};
use crate::tree::builder::laws::{more_categories, reached};
use crate::tree::builder::sums::{adds_up, both, named, only, same_rows_add_up, sends_left};
use crate::tree::constraints::{bounded_weight, unbounded};
use crate::tree::gain::{weight, GradStats, RegParams};
use crate::tree::laws::{grown_trees_are_sound, routes_end_at_leaves};
use crate::tree::regtree::{goes_left, in_categories, next_node, ordered, route, Node};

verus! {

/// Whether a row's way from `from` passes node `i`.
pub open spec fn passes(
    nodes: Seq<Node>,
    cats: Seq<u32>,
    row: spec_fn(u32) -> Option<Single>,
    from: int,
    i: int,
) -> bool {
    exists|n: nat| #[trigger] route(nodes, cats, row, from, n) == i
}

/// Those of the listed rows of a matrix whose way passes node `i` of a tree.
pub open spec fn passing(
    nodes: Seq<Node>,
    cats: Seq<u32>,
    data: &DMatrix,
    rows: Seq<u32>,
    i: int,
) -> spec_fn(int) -> bool {
    |r: int| named(rows)(r) && passes(nodes, cats, row_of(data, r), 0, i)
}

/// Whether every node of a growth has the sums over the rows that pass it, and its
/// cover is their sum of Hessians.
pub open spec fn growth_adds_up<F: Fn(Op, u64, u64) -> u64>(
    g: Grown,
    data: &DMatrix,
    gp: Seq<GradPair>,
    rows: Seq<u32>,
    val: spec_fn(Wide) -> Option<real>,
    calc: &Calc<F>,
) -> bool {
    &&& g.stats.len() == g.nodes.len()
    &&& forall|i: int|
        0 <= i < g.nodes.len() ==> {
            &&& adds_up(
                #[trigger] g.stats[i],
                gp,
                passing(g.nodes, g.cats, data, rows, i),
                val,
                calc,
            )
            &&& g.nodes[i].sum_hess == calc.narrowed(g.stats[i].hess)
        }
}

/// Whether statistics are the sums over the rows that pass a node of a tree, and the
/// node has their cover, and if it is a leaf and weights are free their weight.
pub open spec fn belongs_to_node<F: Fn(Op, u64, u64) -> u64>(
    stats: GradStats,
    nodes: Seq<Node>,
    cats: Seq<u32>,
    i: int,
    data: &DMatrix,
    gp: Seq<GradPair>,
    rows: Seq<u32>,
    free: bool,
    reg: RegParams,
    val: spec_fn(Wide) -> Option<real>,
    calc: &Calc<F>,
) -> bool {
    &&& adds_up(stats, gp, passing(nodes, cats, data, rows, i), val, calc)
    &&& nodes[i].sum_hess == calc.narrowed(stats.hess)
    &&& nodes[i].leafy() && free ==> nodes[i].leaf_value == calc.narrowed(
        weight(stats, reg, calc),
    )
}

/// Whether a node of a tree has the cover, and if it is a leaf and weights are free
/// the weight, of the rows that pass it.
pub open spec fn node_adds_up<F: Fn(Op, u64, u64) -> u64>(
    nodes: Seq<Node>,
    cats: Seq<u32>,
    i: int,
    data: &DMatrix,
    gp: Seq<GradPair>,
    rows: Seq<u32>,
    free: bool,
    reg: RegParams,
    val: spec_fn(Wide) -> Option<real>,
    calc: &Calc<F>,
) -> bool {
    exists|stats: GradStats| #[trigger]
        belongs_to_node(stats, nodes, cats, i, data, gp, rows, free, reg, val, calc)
}

/// Whether every node of a growth may have any weight.
pub open spec fn intervals_are_free(g: Grown) -> bool {
    &&& g.bounds.len() == g.nodes.len()
    &&& forall|i: int| 0 <= i < g.bounds.len() ==> #[trigger] g.bounds[i] == unbounded()
}

proof fn old_ways_stay<F: Fn(Op, u64, u64) -> u64>(
    g: Grown,
    nid: int,
    b: Best,
    dir: i8,
    lw: Single,
    rw: Single,
    row: spec_fn(u32) -> Option<Single>,
    from: int,
    calc: &Calc<F>,
)
    requires
        g.well_formed(),
        0 <= nid < g.nodes.len(),
        0 <= from < g.nodes.len(),
        g.nodes[nid].leafy(),
        g.has_room(b),
        from != nid,
        !g.nodes[from].leafy(),
    ensures
        ({
            let after = g.after_split(nid, b, dir, lw, rw, calc);
            let next = next_node(g.nodes, g.cats, from, row(g.nodes[from].split_feature));
            &&& after.nodes[from] == g.nodes[from]
            &&& next_node(after.nodes, after.cats, from, row(after.nodes[from].split_feature))
                == next
            &&& 0 <= next < g.nodes.len()
        }),
{
    let after = g.after_split(nid, b, dir, lw, rw, calc);
    assert(after.nodes[from] == g.nodes[from]);
    assert(ordered(g.nodes, g.cats));
    assert forall|k: int| 0 <= k < g.cats.len() implies g.cats[k] == #[trigger] after.cats[k] by {}
    more_categories(g.nodes[from], g.cats, after.cats, row(g.nodes[from].split_feature));
}

/// What was reached before a split is reached after it.
proof fn ways_are_kept<F: Fn(Op, u64, u64) -> u64>(
    g: Grown,
    nid: int,
    b: Best,
    dir: i8,
    lw: Single,
    rw: Single,
    row: spec_fn(u32) -> Option<Single>,
    from: int,
    n: nat,
    calc: &Calc<F>,
) -> (m: nat)
    requires
        g.well_formed(),
        0 <= nid < g.nodes.len(),
        0 <= from < g.nodes.len(),
        g.nodes[nid].leafy(),
        g.has_room(b),
    ensures
        ({
            let after = g.after_split(nid, b, dir, lw, rw, calc);
            &&& route(after.nodes, after.cats, row, from, m) == route(
                g.nodes,
                g.cats,
                row,
                from,
                n,
            )
            &&& route(g.nodes, g.cats, row, from, n) == nid ==> route(
                after.nodes,
                after.cats,
                row,
                from,
                (m + 1) as nat,
            ) == next_node(
                after.nodes,
                after.cats,
                nid,
                row(after.nodes[nid].split_feature),
            )
        }),
    decreases n,
{
    let after = g.after_split(nid, b, dir, lw, rw, calc);
    assert(after.nodes[nid] == g.split_node(nid, b, calc));
    if from == nid {
        let next = next_node(after.nodes, after.cats, nid, row(after.nodes[nid].split_feature));
        assert(!after.nodes[nid].leafy());
        assert(route(after.nodes, after.cats, row, next, 0) == next);
        assert(route(after.nodes, after.cats, row, from, 1) == next);
        0
    } else {
        assert(after.nodes[from] == g.nodes[from]);
        if n == 0 || g.nodes[from].leafy() {
            0
        } else {
            old_ways_stay(g, nid, b, dir, lw, rw, row, from, calc);
            let next = next_node(g.nodes, g.cats, from, row(g.nodes[from].split_feature));
            let m = ways_are_kept(g, nid, b, dir, lw, rw, row, next, (n - 1) as nat, calc);
            assert(route(after.nodes, after.cats, row, from, (m + 1) as nat) == route(
                after.nodes,
                after.cats,
                row,
                next,
                m,
            ));
            assert(route(after.nodes, after.cats, row, from, (m + 2) as nat) == route(
                after.nodes,
                after.cats,
                row,
                next,
                (m + 1) as nat,
            ));
            (m + 1) as nat
        }
    }
}

/// What is reached after a split was reached before it, or is a child of the split
/// node, which was reached before it.
proof fn ways_are_new_only_at_the_split<F: Fn(Op, u64, u64) -> u64>(
    g: Grown,
    nid: int,
    b: Best,
    dir: i8,
    lw: Single,
    rw: Single,
    row: spec_fn(u32) -> Option<Single>,
    from: int,
    n: nat,
    calc: &Calc<F>,
) -> (m: nat)
    requires
        g.well_formed(),
        0 <= nid < g.nodes.len(),
        0 <= from < g.nodes.len(),
        g.nodes[nid].leafy(),
        g.has_room(b),
    ensures
        ({
            let after = g.after_split(nid, b, dir, lw, rw, calc);
            let there = route(after.nodes, after.cats, row, from, n);
            if there < g.nodes.len() {
                route(g.nodes, g.cats, row, from, m) == there
            } else {
                &&& route(g.nodes, g.cats, row, from, m) == nid
                &&& there == next_node(
                    after.nodes,
                    after.cats,
                    nid,
                    row(after.nodes[nid].split_feature),
                )
            }
        }),
    decreases n,
{
    let after = g.after_split(nid, b, dir, lw, rw, calc);
    assert(after.nodes[nid] == g.split_node(nid, b, calc));
    let len = g.nodes.len() as int;
    assert(after.nodes[len].leafy() && after.nodes[len + 1].leafy());
    if from == nid {
        let next = next_node(after.nodes, after.cats, nid, row(after.nodes[nid].split_feature));
        assert(next == len || next == len + 1);
        if n > 0 {
            assert(!after.nodes[nid].leafy());
            assert(route(after.nodes, after.cats, row, next, (n - 1) as nat) == next);
        }
        0
    } else {
        assert(after.nodes[from] == g.nodes[from]);
        if n == 0 || g.nodes[from].leafy() {
            0
        } else {
            old_ways_stay(g, nid, b, dir, lw, rw, row, from, calc);
            let next = next_node(g.nodes, g.cats, from, row(g.nodes[from].split_feature));
            let m = ways_are_new_only_at_the_split(
                g,
                nid,
                b,
                dir,
                lw,
                rw,
                row,
                next,
                (n - 1) as nat,
                calc,
            );
            assert(route(g.nodes, g.cats, row, from, (m + 1) as nat) == route(
                g.nodes,
                g.cats,
                row,
                next,
                m,
            ));
            (m + 1) as nat
        }
    }
}

/// After a split a row passes the nodes that it passed before, and the child that
/// it is sent to if it passed the split node.
pub proof fn splits_extend_ways<F: Fn(Op, u64, u64) -> u64>(
    g: Grown,
    nid: int,
    b: Best,
    dir: i8,
    lw: Single,
    rw: Single,
    row: spec_fn(u32) -> Option<Single>,
    i: int,
    calc: &Calc<F>,
)
    requires
        g.well_formed(),
        0 <= nid < g.nodes.len(),
        g.nodes[nid].leafy(),
        g.has_room(b),
    ensures
        ({
            let after = g.after_split(nid, b, dir, lw, rw, calc);
            let len = g.nodes.len() as int;
            let left = goes_left(
                after.nodes[nid],
                after.cats,
                row(after.nodes[nid].split_feature),
            );
            let passed = passes(g.nodes, g.cats, row, 0, nid);
            &&& 0 <= i < len ==> passes(after.nodes, after.cats, row, 0, i) == passes(
                g.nodes,
                g.cats,
                row,
                0,
                i,
            )
            &&& passes(after.nodes, after.cats, row, 0, len) == (passed && left)
            &&& passes(after.nodes, after.cats, row, 0, len + 1) == (passed && !left)
        }),
{
    let after = g.after_split(nid, b, dir, lw, rw, calc);
    let len = g.nodes.len() as int;
    assert(after.nodes[nid] == g.split_node(nid, b, calc));
    let next = next_node(after.nodes, after.cats, nid, row(after.nodes[nid].split_feature));
    if passes(g.nodes, g.cats, row, 0, i) {
        let n = choose|n: nat| #[trigger] route(g.nodes, g.cats, row, 0, n) == i;
        let m = ways_are_kept(g, nid, b, dir, lw, rw, row, 0, n, calc);
        assert(route(after.nodes, after.cats, row, 0, m) == i);
    }
    if passes(g.nodes, g.cats, row, 0, nid) {
        let n = choose|n: nat| #[trigger] route(g.nodes, g.cats, row, 0, n) == nid;
        let m = ways_are_kept(g, nid, b, dir, lw, rw, row, 0, n, calc);
        assert(route(after.nodes, after.cats, row, 0, (m + 1) as nat) == next);
        assert(passes(after.nodes, after.cats, row, 0, next));
    }
    if passes(after.nodes, after.cats, row, 0, i) && i < len {
        let n = choose|n: nat| #[trigger] route(after.nodes, after.cats, row, 0, n) == i;
        let m = ways_are_new_only_at_the_split(g, nid, b, dir, lw, rw, row, 0, n, calc);
        assert(route(g.nodes, g.cats, row, 0, m) == i);
    }
    if passes(after.nodes, after.cats, row, 0, len) {
        let n = choose|n: nat| #[trigger] route(after.nodes, after.cats, row, 0, n) == len;
        let m = ways_are_new_only_at_the_split(g, nid, b, dir, lw, rw, row, 0, n, calc);
        assert(route(g.nodes, g.cats, row, 0, m) == nid);
    }
    if passes(after.nodes, after.cats, row, 0, len + 1) {
        let n = choose|n: nat| #[trigger] route(after.nodes, after.cats, row, 0, n) == len + 1;
        let m = ways_are_new_only_at_the_split(g, nid, b, dir, lw, rw, row, 0, n, calc);
        assert(route(g.nodes, g.cats, row, 0, m) == nid);
    }
}

/// Where the sides of a split add up, so does the growth after it.
pub(crate) proof fn splits_keep_adding_up<F: Fn(Op, u64, u64) -> u64>(
    g: Grown,
    nid: int,
    b: Best,
    dir: i8,
    lw: Single,
    rw: Single,
    data: &DMatrix,
    gp: Seq<GradPair>,
    rows: Seq<u32>,
    goes: spec_fn(int) -> bool,
    val: spec_fn(Wide) -> Option<real>,
    calc: &Calc<F>,
)
    requires
        g.well_formed(),
        0 <= nid < g.nodes.len(),
        g.nodes[nid].leafy(),
        g.has_room(b),
        growth_adds_up(g, data, gp, rows, val, calc),
        ({
            let at = passing(g.nodes, g.cats, data, rows, nid);
            let after = g.after_split(nid, b, dir, lw, rw, calc);
            &&& adds_up(b.left, gp, both(at, goes), val, calc)
            &&& adds_up(b.right, gp, only(at, goes), val, calc)
            &&& forall|r: int|
                0 <= r < gp.len() && at(r) ==> #[trigger] goes(r) == goes_left(
                    after.nodes[nid],
                    after.cats,
                    row_of(data, r)(after.nodes[nid].split_feature),
                )
        }),
    ensures
        growth_adds_up(g.after_split(nid, b, dir, lw, rw, calc), data, gp, rows, val, calc),
{
    let after = g.after_split(nid, b, dir, lw, rw, calc);
    let len = g.nodes.len() as int;
    let at = passing(g.nodes, g.cats, data, rows, nid);
    assert(after.nodes[nid] == g.split_node(nid, b, calc));
    assert forall|i: int| 0 <= i < after.nodes.len() implies {
        &&& adds_up(
            #[trigger] after.stats[i],
            gp,
            passing(after.nodes, after.cats, data, rows, i),
            val,
            calc,
        )
        &&& after.nodes[i].sum_hess == calc.narrowed(after.stats[i].hess)
    } by {
        let now = passing(after.nodes, after.cats, data, rows, i);
        let was = if i < len {
            passing(g.nodes, g.cats, data, rows, i)
        } else if i == len {
            both(at, goes)
        } else {
            only(at, goes)
        };
        if i < len {
            assert(after.stats[i] == g.stats[i]);
            assert(after.nodes[i].sum_hess == g.nodes[i].sum_hess);
        } else if i == len {
            assert(after.stats[i] == b.left);
        } else {
            assert(i == len + 1);
            assert(after.stats[i] == b.right);
        }
        assert(adds_up(after.stats[i], gp, was, val, calc));
        assert forall|r: int| 0 <= r < gp.len() implies #[trigger] now(r) == was(r) by {
            splits_extend_ways(g, nid, b, dir, lw, rw, row_of(data, r), i, calc);
            if at(r) {
                assert(goes(r) == goes_left(
                    after.nodes[nid],
                    after.cats,
                    row_of(data, r)(after.nodes[nid].split_feature),
                ));
            }
        }
        same_rows_add_up(after.stats[i], gp, was, now, val, calc);
    }
}

/// A node that is split sends values where the split does.
pub(crate) proof fn split_nodes_send_as_splits<F: Fn(Op, u64, u64) -> u64>(
    g: Grown,
    nid: int,
    b: Best,
    dir: i8,
    lw: Single,
    rw: Single,
    v: Option<Single>,
    calc: &Calc<F>,
)
    requires
        g.well_formed(),
        0 <= nid < g.nodes.len(),
        g.nodes[nid].leafy(),
        g.has_room(b),
    ensures
        ({
            let after = g.after_split(nid, b, dir, lw, rw, calc);
            &&& after.nodes[nid].split_feature == b.feature
            &&& after.nodes[nid].is_categorical == b.is_categorical
            &&& !b.is_categorical ==> after.nodes[nid].split_cond == b.threshold
            &&& goes_left(after.nodes[nid], after.cats, v) == sends_left(b, v)
        }),
{
    let after = g.after_split(nid, b, dir, lw, rw, calc);
    let split = g.split_node(nid, b, calc);
    assert(after.nodes[nid] == split);
    assert(!g.nodes[nid].is_categorical);
    if let Some(x) = v {
        if b.is_categorical {
            counts_are_bounded(x, u32::MAX as int);
            let c = x.count(u32::MAX as int) as u32;
            if b.cat_left.contains(c) {
                let k = choose|k: int| 0 <= k < b.cat_left.len() && b.cat_left[k] == c;
                assert(after.cats[split.cat_begin + k] == c);
            }
            if in_categories(split, after.cats, x) {
                let k = choose|k: int|
                    split.cat_begin <= k < split.cat_end && #[trigger] after.cats[k] == x.count(
                        u32::MAX as int,
                    );
                assert(b.cat_left[k - split.cat_begin] == c);
            }
        }
    }
}

/// A row passes a leaf exactly if it ends there.
pub proof fn ways_end_at_the_leaf_they_pass(
    g: Grown,
    row: spec_fn(u32) -> Option<Single>,
    i: int,
)
    requires
        g.well_formed(),
        0 <= i < g.nodes.len(),
        g.nodes[i].leafy(),
    ensures
        passes(g.nodes, g.cats, row, 0, i) <==> reached(g, row) == i,
{
    let len = g.nodes.len();
    grown_trees_are_sound(g.nodes, g.cats);
    if passes(g.nodes, g.cats, row, 0, i) {
        let n = choose|n: nat| #[trigger] route(g.nodes, g.cats, row, 0, n) == i;
        if n >= len {
            routes_end_at_leaves(g.nodes, g.cats, row, 0, len, n);
        } else {
            leaves_hold(g.nodes, g.cats, row, 0, n, len);
        }
    }
}

proof fn leaves_hold(
    nodes: Seq<Node>,
    cats: Seq<u32>,
    row: spec_fn(u32) -> Option<Single>,
    from: int,
    n: nat,
    more: nat,
)
    requires
        n <= more,
        nodes[route(nodes, cats, row, from, n)].leafy(),
    ensures
        route(nodes, cats, row, from, more) == route(nodes, cats, row, from, n),
    decreases n,
{
    if n > 0 && !nodes[from].leafy() {
        let next = next_node(nodes, cats, from, row(nodes[from].split_feature));
        leaves_hold(nodes, cats, row, next, (n - 1) as nat, (more - 1) as nat);
    }
}

proof fn settled_ways<F: Fn(Op, u64, u64) -> u64>(
    g: Grown,
    reg: RegParams,
    row: spec_fn(u32) -> Option<Single>,
    from: int,
    n: nat,
    calc: &Calc<F>,
)
    requires
        g.well_formed(),
        0 <= from < g.nodes.len(),
    ensures
        route(g.settled(reg, g.nodes.len() as int, calc), g.cats, row, from, n) == route(
            g.nodes,
            g.cats,
            row,
            from,
            n,
        ),
    decreases n,
{
    let nodes = g.settled(reg, g.nodes.len() as int, calc);
    assert(nodes[from].leafy() == g.nodes[from].leafy());
    if n > 0 && !g.nodes[from].leafy() {
        assert(nodes[from] == g.nodes[from]);
        let next = next_node(g.nodes, g.cats, from, row(g.nodes[from].split_feature));
        assert(ordered(g.nodes, g.cats));
        settled_ways(g, reg, row, next, (n - 1) as nat, calc);
    }
}

/// Where a growth adds up, so does every node of its tree.
pub proof fn settled_trees_add_up<F: Fn(Op, u64, u64) -> u64>(
    g: Grown,
    data: &DMatrix,
    gp: Seq<GradPair>,
    rows: Seq<u32>,
    free: bool,
    reg: RegParams,
    i: int,
    val: spec_fn(Wide) -> Option<real>,
    calc: &Calc<F>,
)
    requires
        g.well_formed(),
        growth_adds_up(g, data, gp, rows, val, calc),
        free ==> intervals_are_free(g),
        0 <= i < g.nodes.len(),
    ensures
        node_adds_up(
            g.settled(reg, g.nodes.len() as int, calc),
            g.cats,
            i,
            data,
            gp,
            rows,
            free,
            reg,
            val,
            calc,
        ),
{
    let nodes = g.settled(reg, g.nodes.len() as int, calc);
    let was = passing(g.nodes, g.cats, data, rows, i);
    let now = passing(nodes, g.cats, data, rows, i);
    assert forall|r: int| 0 <= r < gp.len() implies #[trigger] now(r) == was(r) by {
        let row = row_of(data, r);
        if passes(g.nodes, g.cats, row, 0, i) {
            let n = choose|n: nat| #[trigger] route(g.nodes, g.cats, row, 0, n) == i;
            settled_ways(g, reg, row, 0, n, calc);
            assert(route(nodes, g.cats, row, 0, n) == i);
        }
        if passes(nodes, g.cats, row, 0, i) {
            let n = choose|n: nat| #[trigger] route(nodes, g.cats, row, 0, n) == i;
            settled_ways(g, reg, row, 0, n, calc);
            assert(route(g.nodes, g.cats, row, 0, n) == i);
        }
    }
    same_rows_add_up(g.stats[i], gp, was, now, val, calc);
    assert(nodes[i].leafy() == g.nodes[i].leafy());
    assert(nodes[i].sum_hess == g.nodes[i].sum_hess);
    if free {
        assert(g.bounds[i] == unbounded());
        assert(bounded_weight(g.stats[i], reg, unbounded(), calc) == weight(
            g.stats[i],
            reg,
            calc,
        ));
    }
    assert(belongs_to_node(
        g.stats[i],
        nodes,
        g.cats,
        i,
        data,
        gp,
        rows,
        free,
        reg,
        val,
        calc,
    ));
}

} // verus!
