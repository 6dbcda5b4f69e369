//! Monotone constraints hold for whole trees.

use vstd::prelude::*;

use crate::arith::{Calc, Op};
use crate::number::Single;
use crate::tree::builder::growth::{splits_keep_growth_well_formed, Best, Grown};
use crate::tree::constraints::{bounded_weight, midpoint, Bounds, MonotoneConstraints};
use crate::tree::gain::RegParams;
use crate::tree::regtree::{goes_left, next_node, route, settles, Node};

verus! {

/// Whether one interval lies within another.
pub open spec fn within(inner: Bounds, outer: Bounds) -> bool {
    outer.lower.le(inner.lower) && inner.upper.le(outer.upper)
}

/// The intervals of a tree's nodes nest: those of a node's children lie within
/// its own and, where its feature is constrained, one beside the other in the
/// asked order.
pub open spec fn intervals_nest(g: Grown, cons: MonotoneConstraints) -> bool {
    &&& g.bounds.len() == g.nodes.len()
    &&& forall|i: int|
        0 <= i < g.bounds.len() ==> (#[trigger] g.bounds[i]).nonempty()
    &&& forall|i: int|
        #![trigger g.nodes[i]]
        0 <= i < g.nodes.len() && !g.nodes[i].leafy() ==> {
            let l = g.bounds[g.nodes[i].left as int];
            let r = g.bounds[g.nodes[i].right as int];
            let dir = cons.direction(g.nodes[i].split_feature as int);
            &&& within(l, g.bounds[i])
            &&& within(r, g.bounds[i])
            &&& dir > 0 ==> l.upper.le(r.lower)
            &&& dir < 0 ==> r.upper.le(l.lower)
        }
}

/// Splitting a node keeps intervals nested, if the point between the weights
/// of its children lies within its interval.
pub proof fn splits_keep_intervals_nested<F: Fn(Op, u64, u64) -> u64>(
    g: Grown,
    cons: MonotoneConstraints,
    nid: int,
    b: Best,
    lw: Single,
    rw: Single,
    calc: &Calc<F>,
)
    requires
        g.well_formed(),
        intervals_nest(g, cons),
        0 <= nid < g.nodes.len(),
        g.nodes[nid].leafy(),
        g.has_room(b),
        g.bounds[nid].holds(midpoint(b.w_left, b.w_right, calc)),
    ensures
        intervals_nest(
            g.after_split(nid, b, cons.direction(b.feature as int), lw, rw, calc),
            cons,
        ),
{
    let dir = cons.direction(b.feature as int);
    let after = g.after_split(nid, b, dir, lw, rw, calc);
    let m = g.nodes.len() as int;
    splits_keep_growth_well_formed(g, nid, b, dir, lw, rw, calc);
    assert(after.nodes[nid] == g.split_node(nid, b, calc));
    assert(g.bounds[nid].nonempty());
    assert forall|i: int| 0 <= i < after.bounds.len() implies (
    #[trigger] after.bounds[i]).nonempty() by {
        if i < m {
            assert(after.bounds[i] == g.bounds[i]);
        }
    }
    assert forall|i: int|
        #![trigger after.nodes[i]]
        0 <= i < after.nodes.len() && !after.nodes[i].leafy() implies {
        let l = after.bounds[after.nodes[i].left as int];
        let r = after.bounds[after.nodes[i].right as int];
        let dir = cons.direction(after.nodes[i].split_feature as int);
        &&& within(l, after.bounds[i])
        &&& within(r, after.bounds[i])
        &&& dir > 0 ==> l.upper.le(r.lower)
        &&& dir < 0 ==> r.upper.le(l.lower)
    } by {
        assert(after.bounds[nid] == g.bounds[nid]);
        if i != nid && i < m {
            assert(after.nodes[i] == g.nodes[i]);
            assert(after.bounds[g.nodes[i].left as int] == g.bounds[g.nodes[i].left as int]);
            assert(after.bounds[g.nodes[i].right as int] == g.bounds[g.nodes[i].right as int]);
            assert(after.bounds[i] == g.bounds[i]);
        } else if i >= m {
            assert(after.nodes[i].leafy());
        }
    }
}

/// A leaf's interval lies within that of every node above it.
proof fn leaves_nest(
    g: Grown,
    cons: MonotoneConstraints,
    row: spec_fn(u32) -> Option<Single>,
    nid: int,
    fuel: nat,
)
    requires
        intervals_nest(g, cons),
        settles(g.nodes, g.cats, nid, fuel),
    ensures
        0 <= route(g.nodes, g.cats, row, nid, fuel) < g.nodes.len(),
        within(g.bounds[route(g.nodes, g.cats, row, nid, fuel)], g.bounds[nid]),
    decreases fuel,
{
    assert(g.bounds[nid].nonempty());
    if !g.nodes[nid].leafy() {
        let next = next_node(g.nodes, g.cats, nid, row(g.nodes[nid].split_feature));
        leaves_nest(g, cons, row, next, (fuel - 1) as nat);
    }
}

/// Whether two rows differ in feature `f` alone, where the second has the
/// greater value.
pub open spec fn rises_in(
    x: spec_fn(u32) -> Option<Single>,
    y: spec_fn(u32) -> Option<Single>,
    f: u32,
) -> bool {
    &&& forall|h: u32| h != f ==> #[trigger] x(h) == y(h)
    &&& x(f) matches Some(a) && y(f) matches Some(b) && a.le(b)
}

/// Whether a feature is split by threshold alone.
pub open spec fn split_by_threshold(nodes: Seq<Node>, f: u32) -> bool {
    forall|i: int|
        0 <= i < nodes.len() && !(#[trigger] nodes[i]).leafy() && nodes[i].split_feature == f
            ==> !nodes[i].is_categorical
}

proof fn leaves_are_ordered(
    g: Grown,
    cons: MonotoneConstraints,
    x: spec_fn(u32) -> Option<Single>,
    y: spec_fn(u32) -> Option<Single>,
    f: u32,
    nid: int,
    fuel: nat,
)
    requires
        intervals_nest(g, cons),
        settles(g.nodes, g.cats, nid, fuel),
        rises_in(x, y, f),
        split_by_threshold(g.nodes, f),
        cons.direction(f as int) != 0,
    ensures
        ({
            let lx = route(g.nodes, g.cats, x, nid, fuel);
            let ly = route(g.nodes, g.cats, y, nid, fuel);
            ||| lx == ly
            ||| cons.direction(f as int) > 0 && g.bounds[lx].upper.le(g.bounds[ly].lower)
            ||| cons.direction(f as int) < 0 && g.bounds[ly].upper.le(g.bounds[lx].lower)
        }),
    decreases fuel,
{
    let node = g.nodes[nid];
    if !node.leafy() {
        let s = node.split_feature;
        let less = (fuel - 1) as nat;
        let nx = next_node(g.nodes, g.cats, nid, x(s));
        let ny = next_node(g.nodes, g.cats, nid, y(s));
        if s != f {
            assert(x(s) == y(s));
        }
        if nx == ny {
            leaves_are_ordered(g, cons, x, y, f, nx, less);
        } else {
            assert(s == f);
            leaves_nest(g, cons, x, nx, less);
            leaves_nest(g, cons, y, ny, less);
            assert(goes_left(node, g.cats, x(s)));
            assert(!goes_left(node, g.cats, y(s)));
        }
    }
}

/// Where a feature is constrained to be increasing, raising it in a row never
/// lowers the weight of the leaf that the row reaches; where it is constrained
/// to be decreasing, it never raises that weight.
pub proof fn predictions_are_monotone<F: Fn(Op, u64, u64) -> u64>(
    g: Grown,
    cons: MonotoneConstraints,
    reg: RegParams,
    x: spec_fn(u32) -> Option<Single>,
    y: spec_fn(u32) -> Option<Single>,
    f: u32,
    fuel: nat,
    calc: &Calc<F>,
)
    requires
        intervals_nest(g, cons),
        settles(g.nodes, g.cats, 0, fuel),
        rises_in(x, y, f),
        split_by_threshold(g.nodes, f),
        cons.direction(f as int) != 0,
        forall|i: int|
            0 <= i < g.nodes.len() ==> !bounded_weight(
                #[trigger] g.stats[i],
                reg,
                g.bounds[i],
                calc,
            ).nan(),
    ensures
        ({
            let lx = route(g.nodes, g.cats, x, 0, fuel);
            let ly = route(g.nodes, g.cats, y, 0, fuel);
            let wx = bounded_weight(g.stats[lx], reg, g.bounds[lx], calc);
            let wy = bounded_weight(g.stats[ly], reg, g.bounds[ly], calc);
            &&& cons.direction(f as int) > 0 ==> wx.le(wy)
            &&& cons.direction(f as int) < 0 ==> wy.le(wx)
        }),
{
    let lx = route(g.nodes, g.cats, x, 0, fuel);
    let ly = route(g.nodes, g.cats, y, 0, fuel);
    leaves_are_ordered(g, cons, x, y, f, 0, fuel);
    leaves_nest(g, cons, x, 0, fuel);
    leaves_nest(g, cons, y, 0, fuel);
    let wx = bounded_weight(g.stats[lx], reg, g.bounds[lx], calc);
    let wy = bounded_weight(g.stats[ly], reg, g.bounds[ly], calc);
    assert(g.bounds[lx].nonempty() && g.bounds[ly].nonempty());
    assert(g.bounds[lx].holds(wx));
    assert(g.bounds[ly].holds(wy));
}

} // verus!
