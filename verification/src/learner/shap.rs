//! Exact per-prediction feature attributions of tree ensembles.
//!
//! A walk down a tree keeps the features met so far, each with the shares of
//! weight that flow on when it is absent and when it is present, and with the
//! weight of the orderings in which it comes to count. Extending a path adds a
//! feature, unwinding takes one out again.

use vstd::prelude::*;

use crate::arith::{Calc, Op};
use crate::data::dmatrix::DMatrix;
use crate::learner::margin::weighed;
use crate::number::{Single, Wide, ONE, ONE_S};
use crate::tree::builder::exact::features_exist;
use crate::tree::regtree::{goes_left, settles, Node, RegTree};

verus! {

/// An element of a path: a feature with its shares and its weight.
#[derive(Clone, Copy, Debug)]
pub struct PathElement {
    /// The feature, or `-1` for the root.
    pub feature_index: i64,
    /// The share that flows on when the feature is absent.
    pub zero_fraction: Wide,
    /// The share that flows on when the feature is present.
    pub one_fraction: Wide,
    /// The weight of orderings.
    pub pweight: Wide,
}

/// The weight at place `j` of a path of `depth` elements after one was added.
pub open spec fn extended_weight<F: Fn(Op, u64, u64) -> u64>(
    path: Seq<PathElement>,
    zero: Wide,
    one: Wide,
    j: int,
    calc: &Calc<F>,
) -> Wide {
    let depth = path.len() as int;
    let denom = calc.of(depth + 1);
    let absent = if j < depth {
        calc.over(calc.times(calc.times(zero, path[j].pweight), calc.of(depth - j)), denom)
    } else if depth == 0 {
        Wide { bits: ONE }
    } else {
        Wide { bits: 0 }
    };
    if j == 0 {
        absent
    } else {
        calc.plus(
            absent,
            calc.over(calc.times(calc.times(one, path[j - 1].pweight), calc.of(j)), denom),
        )
    }
}

/// A path with one more feature.
pub open spec fn extended<F: Fn(Op, u64, u64) -> u64>(
    path: Seq<PathElement>,
    zero: Wide,
    one: Wide,
    feature: i64,
    calc: &Calc<F>,
) -> Seq<PathElement> {
    let depth = path.len() as int;
    Seq::new(
        (depth + 1) as nat,
        |j: int|
            if j < depth {
                PathElement { pweight: extended_weight(path, zero, one, j, calc), ..path[j] }
            } else {
                PathElement {
                    feature_index: feature,
                    zero_fraction: zero,
                    one_fraction: one,
                    pweight: extended_weight(path, zero, one, j, calc),
                }
            },
    )
}

/// Add a feature to a path.
pub fn extend_path<F: Fn(Op, u64, u64) -> u64>(
    path: &mut Vec<PathElement>,
    zero_fraction: Wide,
    one_fraction: Wide,
    feature_index: i64,
    calc: &Calc<F>,
)
    ensures
        final(path)@ == extended(old(path)@, zero_fraction, one_fraction, feature_index, calc),
{
    let depth: usize = path.len();
    let ghost was = path@;
    path.push(
        PathElement {
            feature_index,
            zero_fraction,
            one_fraction,
            pweight: if depth == 0 {
                Wide { bits: ONE }
            } else {
                Wide::zero()
            },
        },
    );
    let total: usize = path.len();
    let denom = calc.of_usize(total);
    let ghost goal = extended(was, zero_fraction, one_fraction, feature_index, calc);
    let mut i: usize = depth;
    while i > 0
        invariant
            was.len() == depth,
            path.len() == depth + 1,
            total == depth + 1,
            denom == calc.of(depth + 1),
            goal == extended(was, zero_fraction, one_fraction, feature_index, calc),
            i <= depth,
            forall|j: int| i < j <= depth ==> #[trigger] path[j] == goal[j],
            forall|j: int| 0 <= j < i ==> #[trigger] path[j] == was[j],
            path[i as int] == (PathElement {
                pweight: if i < depth {
                    calc.over(
                        calc.times(
                            calc.times(zero_fraction, was[i as int].pweight),
                            calc.of(depth - i),
                        ),
                        denom,
                    )
                } else if depth == 0 {
                    Wide { bits: ONE }
                } else {
                    Wide { bits: 0 }
                },
                ..goal[i as int]
            }),
        decreases i,
    {
        let k: usize = i - 1;
        let here = path[k];
        let mut next = path[k + 1];
        let up = calc.div(
            calc.mul(calc.mul(one_fraction, here.pweight), calc.of_usize(k + 1)),
            denom,
        );
        next.pweight = calc.add(next.pweight, up);
        path.set(k + 1, next);
        let mut low = here;
        low.pweight = calc.div(
            calc.mul(calc.mul(zero_fraction, here.pweight), calc.of_usize(depth - k)),
            denom,
        );
        path.set(k, low);
        i = k;
    }
    assert(path@ =~= goal);
}

/// A path and the weight carried along while a feature is unwound, with the
/// places from `i` on done.
pub open spec fn unwinding<F: Fn(Op, u64, u64) -> u64>(
    path: Seq<PathElement>,
    index: int,
    i: int,
    calc: &Calc<F>,
) -> (Seq<PathElement>, Wide)
    decreases path.len() - 1 - i,
{
    let depth = path.len() - 1;
    let one = path[index].one_fraction;
    let zero = path[index].zero_fraction;
    let denom = calc.of(depth + 1);
    if i >= depth {
        (path, path[depth].pweight)
    } else {
        let (p, next) = unwinding(path, index, i + 1, calc);
        if !one.same(Wide { bits: 0 }) {
            let w = calc.over(calc.times(next, denom), calc.times(calc.of(i + 1), one));
            let carried = calc.minus(
                p[i].pweight,
                calc.over(calc.times(calc.times(w, zero), calc.of(depth - i)), denom),
            );
            (p.update(i, PathElement { pweight: w, ..p[i] }), carried)
        } else if !zero.same(Wide { bits: 0 }) {
            let w = calc.over(
                calc.times(p[i].pweight, denom),
                calc.times(zero, calc.of(depth - i)),
            );
            (p.update(i, PathElement { pweight: w, ..p[i] }), next)
        } else {
            (p, next)
        }
    }
}

/// A path without the feature at a place.
pub open spec fn unwound<F: Fn(Op, u64, u64) -> u64>(
    path: Seq<PathElement>,
    index: int,
    calc: &Calc<F>,
) -> Seq<PathElement> {
    let p = unwinding(path, index, 0, calc).0;
    Seq::new(
        (path.len() - 1) as nat,
        |i: int|
            if i < index {
                p[i]
            } else {
                PathElement { pweight: p[i].pweight, ..p[i + 1] }
            },
    )
}

pub(crate) proof fn unwinding_keeps_features<F: Fn(Op, u64, u64) -> u64>(
    path: Seq<PathElement>,
    index: int,
    i: int,
    calc: &Calc<F>,
)
    requires
        path.len() > 0,
        0 <= i,
    ensures
        unwinding(path, index, i, calc).0.len() == path.len(),
        forall|j: int|
            0 <= j < path.len() ==> (#[trigger] unwinding(path, index, i, calc).0[j])
                == (PathElement { pweight: unwinding(path, index, i, calc).0[j].pweight, ..path[j]
            }),
        forall|j: int|
            0 <= j < i && j < path.len() ==> #[trigger] unwinding(path, index, i, calc).0[j]
                == path[j],
    decreases path.len() - i,
{
    if i < path.len() - 1 {
        unwinding_keeps_features(path, index, i + 1, calc);
    }
}

/// Take the feature at a place out of a path.
pub fn unwind_path<F: Fn(Op, u64, u64) -> u64>(
    path: &mut Vec<PathElement>,
    path_index: usize,
    calc: &Calc<F>,
)
    requires
        path_index < old(path).len(),
    ensures
        final(path)@ == unwound(old(path)@, path_index as int, calc),
{
    let ghost was = path@;
    let total: usize = path.len();
    let depth: usize = total - 1;
    let one = path[path_index].one_fraction;
    let zero = path[path_index].zero_fraction;
    let mut next = path[depth].pweight;
    let denom = calc.of_usize(total);
    let mut i: usize = depth;
    while i > 0
        invariant
            path_index < was.len(),
            total == was.len(),
            depth == was.len() - 1,
            path.len() == was.len(),
            one == was[path_index as int].one_fraction,
            zero == was[path_index as int].zero_fraction,
            denom == calc.of(depth + 1),
            i <= depth,
            (path@, next) == unwinding(was, path_index as int, i as int, calc),
        decreases i,
    {
        let k: usize = i - 1;
        let mut here = path[k];
        if !one.is_same(Wide::zero()) {
            let tmp = here.pweight;
            let w = calc.div(calc.mul(next, denom), calc.mul(calc.of_usize(k + 1), one));
            next = calc.sub(
                tmp,
                calc.div(calc.mul(calc.mul(w, zero), calc.of_usize(depth - k)), denom),
            );
            here.pweight = w;
            path.set(k, here);
        } else if !zero.is_same(Wide::zero()) {
            here.pweight = calc.div(
                calc.mul(here.pweight, denom),
                calc.mul(zero, calc.of_usize(depth - k)),
            );
            path.set(k, here);
        }
        i = k;
    }
    let ghost done = path@;
    proof {
        unwinding_keeps_features(was, path_index as int, 0, calc);
    }
    let mut j: usize = path_index;
    while j < depth
        invariant
            depth == done.len() - 1,
            path.len() == done.len(),
            path_index <= j <= depth,
            forall|q: int| 0 <= q < path_index ==> #[trigger] path[q] == done[q],
            forall|q: int|
                path_index <= q < j ==> #[trigger] path[q] == (PathElement {
                    pweight: done[q].pweight,
                    ..done[q + 1]
                }),
            forall|q: int| j <= q < done.len() ==> #[trigger] path[q] == done[q],
        decreases depth - j,
    {
        let after = path[j + 1];
        let w = path[j].pweight;
        path.set(
            j,
            PathElement {
                feature_index: after.feature_index,
                zero_fraction: after.zero_fraction,
                one_fraction: after.one_fraction,
                pweight: w,
            },
        );
        j = j + 1;
    }
    path.pop();
    assert(path@ =~= unwound(was, path_index as int, calc));
}

/// The sum of weights, and the weight carried along, if the feature at a place
/// were unwound, with the places from `i` on done.
pub open spec fn unwound_sums<F: Fn(Op, u64, u64) -> u64>(
    path: Seq<PathElement>,
    index: int,
    i: int,
    calc: &Calc<F>,
) -> (Wide, Wide)
    decreases path.len() - 1 - i,
{
    let depth = path.len() - 1;
    let one = path[index].one_fraction;
    let zero = path[index].zero_fraction;
    let denom = calc.of(depth + 1);
    if i >= depth {
        (Wide { bits: 0 }, path[depth].pweight)
    } else {
        let (total, next) = unwound_sums(path, index, i + 1, calc);
        if !one.same(Wide { bits: 0 }) {
            let w = calc.over(calc.times(next, denom), calc.times(calc.of(i + 1), one));
            (
                calc.plus(total, w),
                calc.minus(
                    path[i].pweight,
                    calc.over(calc.times(calc.times(w, zero), calc.of(depth - i)), denom),
                ),
            )
        } else if !zero.same(Wide { bits: 0 }) {
            (
                calc.plus(
                    total,
                    calc.over(
                        calc.over(path[i].pweight, zero),
                        calc.over(calc.of(depth - i), denom),
                    ),
                ),
                next,
            )
        } else {
            (total, next)
        }
    }
}

/// The sum of weights if the feature at a place were unwound.
pub fn unwound_path_sum<F: Fn(Op, u64, u64) -> u64>(
    path: &Vec<PathElement>,
    path_index: usize,
    calc: &Calc<F>,
) -> (r: Wide)
    requires
        path_index < path.len(),
    ensures
        r == unwound_sums(path@, path_index as int, 0, calc).0,
{
    let all: usize = path.len();
    let depth: usize = all - 1;
    let one = path[path_index].one_fraction;
    let zero = path[path_index].zero_fraction;
    let mut next = path[depth].pweight;
    let denom = calc.of_usize(all);
    let mut total = Wide::zero();
    let mut i: usize = depth;
    while i > 0
        invariant
            path_index < path.len(),
            all == path.len(),
            depth == path.len() - 1,
            one == path[path_index as int].one_fraction,
            zero == path[path_index as int].zero_fraction,
            denom == calc.of(depth + 1),
            i <= depth,
            (total, next) == unwound_sums(path@, path_index as int, i as int, calc),
        decreases i,
    {
        let k: usize = i - 1;
        if !one.is_same(Wide::zero()) {
            let w = calc.div(calc.mul(next, denom), calc.mul(calc.of_usize(k + 1), one));
            total = calc.add(total, w);
            next = calc.sub(
                path[k].pweight,
                calc.div(calc.mul(calc.mul(w, zero), calc.of_usize(depth - k)), denom),
            );
        } else if !zero.is_same(Wide::zero()) {
            let part = calc.div(
                calc.div(path[k].pweight, zero),
                calc.div(calc.of_usize(depth - k), denom),
            );
            total = calc.add(total, part);
        }
        i = k;
    }
    total
}

/// The attributions after the first `n` elements behind the root of a path that
/// ended at a leaf.
pub open spec fn leaf_shares<F: Fn(Op, u64, u64) -> u64>(
    path: Seq<PathElement>,
    leaf: Wide,
    fraction: Wide,
    phi: Seq<Wide>,
    off: int,
    n: int,
    calc: &Calc<F>,
) -> Seq<Wide>
    decreases n,
{
    if n <= 0 {
        phi
    } else {
        let before = leaf_shares(path, leaf, fraction, phi, off, n - 1, calc);
        let el = path[n];
        let w = unwound_sums(path, n, 0, calc).0;
        let share = calc.times(
            calc.times(calc.times(w, calc.minus(el.one_fraction, el.zero_fraction)), leaf),
            fraction,
        );
        let at = off + el.feature_index;
        before.update(at, calc.plus(before[at], share))
    }
}

/// The first place from `i` on that holds a feature; the length where there is
/// none.
pub open spec fn feature_place(path: Seq<PathElement>, feature: int, i: int) -> int
    decreases path.len() - i,
{
    if i >= path.len() || path[i].feature_index == feature {
        i
    } else {
        feature_place(path, feature, i + 1)
    }
}

/// Which feature is held fixed while attributions are taken.
#[derive(Clone, Copy, Debug, PartialEq, Eq, Structural)]
pub enum Condition {
    /// None.
    Free,
    /// This one, as present.
    Present(u32),
    /// This one, as absent.
    Absent(u32),
}

impl Condition {
    /// Whether a feature is the one held fixed.
    pub open spec fn fixes(self, feature: int) -> bool {
        match self {
            Condition::Free => false,
            Condition::Present(f) => feature == f,
            Condition::Absent(f) => feature == f,
        }
    }

    /// Whether a feature is the one held fixed.
    pub fn is_fixed(self, feature: i64) -> (r: bool)
        ensures
            r == self.fixes(feature as int),
    {
        match self {
            Condition::Free => false,
            Condition::Present(f) => feature == f as i64,
            Condition::Absent(f) => feature == f as i64,
        }
    }
}

/// The share of a node's weight that a child has.
pub open spec fn child_share<F: Fn(Op, u64, u64) -> u64>(
    nodes: Seq<Node>,
    nid: int,
    child: int,
    calc: &Calc<F>,
) -> Wide {
    let cover = calc.widened(nodes[nid].sum_hess);
    if (Wide { bits: 0 }).lt(cover) {
        calc.over(calc.widened(nodes[child].sum_hess), cover)
    } else {
        Wide { bits: 0 }
    }
}

/// What flows down to the two children of a node under a condition: to the one
/// that the row takes, and to the other.
pub open spec fn condition_shares<F: Fn(Op, u64, u64) -> u64>(
    condition: Condition,
    feature: int,
    fraction: Wide,
    hot: Wide,
    cold: Wide,
    calc: &Calc<F>,
) -> (Wide, Wide) {
    if !condition.fixes(feature) {
        (fraction, fraction)
    } else if condition is Present {
        (fraction, Wide { bits: 0 })
    } else {
        (calc.times(fraction, hot), calc.times(fraction, cold))
    }
}

/// The attributions of a row after the subtree at a node, with `fuel` steps to
/// go. `path` is that of the parent, and `zero`, `one` and `feature` are those
/// of the parent's split. Attributions start at place `off` of `phi`.
pub open spec fn attributed<F: Fn(Op, u64, u64) -> u64>(
    tree: &RegTree,
    weight: Single,
    row: spec_fn(u32) -> Option<Single>,
    nid: int,
    path: Seq<PathElement>,
    zero: Wide,
    one: Wide,
    feature: i64,
    phi: Seq<Wide>,
    off: int,
    condition: Condition,
    fraction: Wide,
    fuel: nat,
    calc: &Calc<F>,
) -> Seq<Wide>
    decreases fuel,
{
    if fraction.same(Wide { bits: 0 }) {
        phi
    } else {
        let nodes = tree.node_list();
        let node = nodes[nid];
        let here = if condition.fixes(feature as int) {
            path
        } else {
            extended(path, zero, one, feature, calc)
        };
        if node.leafy() {
            leaf_shares(
                here,
                calc.widened(weighed(weight, node.leaf_value, calc)),
                fraction,
                phi,
                off,
                here.len() - 1,
                calc,
            )
        } else if fuel == 0 {
            phi
        } else {
            let less = (fuel - 1) as nat;
            let split = node.split_feature as int;
            let left = goes_left(node, tree.category_list(), row(node.split_feature));
            let hot = if left { node.left as int } else { node.right as int };
            let cold = if left { node.right as int } else { node.left as int };
            let hot_zero = child_share(nodes, nid, hot, calc);
            let cold_zero = child_share(nodes, nid, cold, calc);
            let at = feature_place(here, split, 1);
            let met = at < here.len();
            let in_zero = if met { here[at].zero_fraction } else { Wide { bits: ONE } };
            let in_one = if met { here[at].one_fraction } else { Wide { bits: ONE } };
            let onward = if met { unwound(here, at, calc) } else { here };
            let (to_hot, to_cold) = condition_shares(
                condition,
                split,
                fraction,
                hot_zero,
                cold_zero,
                calc,
            );
            let half = attributed(
                tree,
                weight,
                row,
                hot,
                onward,
                calc.times(hot_zero, in_zero),
                in_one,
                split as i64,
                phi,
                off,
                condition,
                to_hot,
                less,
                calc,
            );
            attributed(
                tree,
                weight,
                row,
                cold,
                onward,
                calc.times(cold_zero, in_zero),
                Wide { bits: 0 },
                split as i64,
                half,
                off,
                condition,
                to_cold,
                less,
                calc,
            )
        }
    }
}

/// Whether a path starts at the root and every feature on it exists.
pub open spec fn path_fits(path: Seq<PathElement>, width: int) -> bool {
    forall|i: int|
        1 <= i < path.len() ==> 0 <= (#[trigger] path[i]).feature_index < width
}

pub(crate) proof fn extending_keeps_fit<F: Fn(Op, u64, u64) -> u64>(
    path: Seq<PathElement>,
    zero: Wide,
    one: Wide,
    feature: i64,
    width: int,
    calc: &Calc<F>,
)
    requires
        path_fits(path, width),
        path.len() > 0 ==> 0 <= feature < width,
    ensures
        path_fits(extended(path, zero, one, feature, calc), width),
{
    let here = extended(path, zero, one, feature, calc);
    assert forall|i: int| 1 <= i < here.len() implies 0 <= (#[trigger] here[i]).feature_index
        < width by {
        if i < path.len() {
            assert(here[i].feature_index == path[i].feature_index);
        }
    }
}

pub(crate) proof fn unwinding_keeps_fit<F: Fn(Op, u64, u64) -> u64>(
    path: Seq<PathElement>,
    index: int,
    width: int,
    calc: &Calc<F>,
)
    requires
        path_fits(path, width),
        1 <= index < path.len(),
    ensures
        path_fits(unwound(path, index, calc), width),
{
    let less = unwound(path, index, calc);
    unwinding_keeps_features(path, index, 0, calc);
    let p = unwinding(path, index, 0, calc).0;
    assert forall|i: int| 1 <= i < less.len() implies 0 <= (#[trigger] less[i]).feature_index
        < width by {
        if i < index {
            assert(p[i].feature_index == path[i].feature_index);
        } else {
            assert(p[i + 1].feature_index == path[i + 1].feature_index);
        }
    }
}

pub(crate) proof fn feature_place_bounds(path: Seq<PathElement>, feature: int, i: int)
    requires
        0 <= i <= path.len(),
    ensures
        i <= feature_place(path, feature, i) <= path.len(),
        feature_place(path, feature, i) < path.len() ==> path[feature_place(
            path,
            feature,
            i,
        )].feature_index == feature,
    decreases path.len() - i,
{
    if i < path.len() && path[i].feature_index != feature {
        feature_place_bounds(path, feature, i + 1);
    }
}

/// Add the attributions of a row over the subtree at a node.
pub(crate) fn tree_shap_cond<F: Fn(Op, u64, u64) -> u64>(
    tree: &RegTree,
    weight: Single,
    data: &DMatrix,
    row: usize,
    node_index: usize,
    path: Vec<PathElement>,
    zero: Wide,
    one: Wide,
    feature: i64,
    phi: &mut Vec<Wide>,
    off: usize,
    condition: Condition,
    fraction: Wide,
    width: Ghost<int>,
    fuel: Ghost<nat>,
    calc: &Calc<F>,
)
    requires
        data.well_formed(),
        row < data.height(),
        data.readable_row(row as int),
        features_exist(tree.node_list(), data.width()),
        features_exist(tree.node_list(), width@),
        settles(tree.node_list(), tree.category_list(), node_index as int, fuel@),
        off + width@ <= old(phi).len(),
        path_fits(path@, width@),
        path.len() > 0 ==> 0 <= feature < width@,
        path.len() == 0 ==> feature == -1,
    ensures
        final(phi)@ == attributed(
            tree,
            weight,
            |f: u32| data.cell(row as int, f as int),
            node_index as int,
            path@,
            zero,
            one,
            feature,
            old(phi)@,
            off as int,
            condition,
            fraction,
            fuel@,
            calc,
        ),
        final(phi).len() == old(phi).len(),
    decreases fuel@,
{
    if fraction.is_same(Wide::zero()) {
        return ;
    }
    let mut here = path;
    if !condition.is_fixed(feature) {
        proof {
            extending_keeps_fit(path@, zero, one, feature, width@, calc);
        }
        extend_path(&mut here, zero, one, feature, calc);
    }
    let node = *tree.node(node_index);
    let depth: usize = here.len() - 1;
    if node.is_leaf() {
        let value = if weight.bits == ONE_S {
            node.leaf_value
        } else {
            calc.mul_s(weight, node.leaf_value)
        };
        let leaf = calc.widen(value);
        let mut i: usize = 0;
        while i < depth
            invariant
                depth == here.len() - 1,
                i <= depth,
                phi.len() == old(phi).len(),
                off + width@ <= phi.len(),
                path_fits(here@, width@),
                phi@ == leaf_shares(
                    here@,
                    leaf,
                    fraction,
                    old(phi)@,
                    off as int,
                    i as int,
                    calc,
                ),
            decreases depth - i,
        {
            let w = unwound_path_sum(&here, i + 1, calc);
            let el = here[i + 1];
            assert(0 <= here@[i + 1].feature_index < width@);
            let share = calc.mul(
                calc.mul(calc.mul(w, calc.sub(el.one_fraction, el.zero_fraction)), leaf),
                fraction,
            );
            let at: usize = off + el.feature_index as usize;
            let sum = calc.add(phi[at], share);
            phi.set(at, sum);
            i = i + 1;
        }
        return ;
    }
    let ghost nodes = tree.node_list();
    let ghost cats = tree.category_list();
    let ghost nid = node_index as int;
    let ghost less = (fuel@ - 1) as nat;
    assert(nodes[nid].split_feature < width@);
    let value = data.get(row, node.split_feature as usize);
    let left = tree.step_left(node_index, value);
    proof {
        assert(settles(nodes, cats, node.left as int, less));
        assert(settles(nodes, cats, node.right as int, less));
    }
    let hot: usize = if left { node.left as usize } else { node.right as usize };
    let cold: usize = if left { node.right as usize } else { node.left as usize };
    let cover = calc.widen(node.sum_hess);
    let covered = Wide::zero().is_lt(cover);
    let hot_zero = if covered {
        calc.div(calc.widen(tree.node(hot).sum_hess), cover)
    } else {
        Wide::zero()
    };
    let cold_zero = if covered {
        calc.div(calc.widen(tree.node(cold).sum_hess), cover)
    } else {
        Wide::zero()
    };
    let split: i64 = node.split_feature as i64;
    let mut at: usize = 1;
    while at < here.len() && here[at].feature_index != split
        invariant
            1 <= at <= here.len(),
            feature_place(here@, split as int, 1) == feature_place(
                here@,
                split as int,
                at as int,
            ),
        decreases here.len() - at,
    {
        at = at + 1;
    }
    let mut in_zero = Wide { bits: ONE };
    let mut in_one = Wide { bits: ONE };
    let mut onward = vstd::slice::slice_to_vec(here.as_slice());
    if at < here.len() {
        in_zero = here[at].zero_fraction;
        in_one = here[at].one_fraction;
        proof {
            unwinding_keeps_fit(here@, at as int, width@, calc);
        }
        unwind_path(&mut onward, at, calc);
    }
    let mut to_hot = fraction;
    let mut to_cold = fraction;
    match condition {
        Condition::Free => {},
        Condition::Present(_) => {
            if condition.is_fixed(split) {
                to_cold = Wide::zero();
            }
        },
        Condition::Absent(_) => {
            if condition.is_fixed(split) {
                to_hot = calc.mul(fraction, hot_zero);
                to_cold = calc.mul(fraction, cold_zero);
            }
        },
    }
    let copy = vstd::slice::slice_to_vec(onward.as_slice());
    tree_shap_cond(
        tree,
        weight,
        data,
        row,
        hot,
        copy,
        calc.mul(hot_zero, in_zero),
        in_one,
        split,
        phi,
        off,
        condition,
        to_hot,
        width,
        Ghost(less),
        calc,
    );
    tree_shap_cond(
        tree,
        weight,
        data,
        row,
        cold,
        onward,
        calc.mul(cold_zero, in_zero),
        Wide::zero(),
        split,
        phi,
        off,
        condition,
        to_cold,
        width,
        Ghost(less),
        calc,
    );
}

/// The mean prediction of the subtree at a node, weighted by the sums of
/// Hessians, with `fuel` steps to go.
pub open spec fn mean_value<F: Fn(Op, u64, u64) -> u64>(
    tree: &RegTree,
    weight: Single,
    nid: int,
    fuel: nat,
    calc: &Calc<F>,
) -> Wide
    decreases fuel,
{
    let nodes = tree.node_list();
    let node = nodes[nid];
    if node.leafy() {
        calc.widened(weighed(weight, node.leaf_value, calc))
    } else if fuel == 0 {
        Wide { bits: 0 }
    } else {
        let less = (fuel - 1) as nat;
        let cover = calc.widened(node.sum_hess);
        if cover.le(Wide { bits: 0 }) {
            Wide { bits: 0 }
        } else {
            let lc = calc.widened(nodes[node.left as int].sum_hess);
            let rc = calc.widened(nodes[node.right as int].sum_hess);
            calc.over(
                calc.plus(
                    calc.times(lc, mean_value(tree, weight, node.left as int, less, calc)),
                    calc.times(rc, mean_value(tree, weight, node.right as int, less, calc)),
                ),
                cover,
            )
        }
    }
}

/// The mean prediction of the subtree at a node.
pub(crate) fn node_mean_value<F: Fn(Op, u64, u64) -> u64>(
    tree: &RegTree,
    weight: Single,
    node_index: usize,
    fuel: Ghost<nat>,
    calc: &Calc<F>,
) -> (r: Wide)
    requires
        settles(tree.node_list(), tree.category_list(), node_index as int, fuel@),
    ensures
        r == mean_value(tree, weight, node_index as int, fuel@, calc),
    decreases fuel@,
{
    let node = *tree.node(node_index);
    if node.is_leaf() {
        let value = if weight.bits == ONE_S {
            node.leaf_value
        } else {
            calc.mul_s(weight, node.leaf_value)
        };
        return calc.widen(value);
    }
    let cover = calc.widen(node.sum_hess);
    if cover.is_le(Wide::zero()) {
        return Wide::zero();
    }
    let ghost less = (fuel@ - 1) as nat;
    proof {
        assert(settles(tree.node_list(), tree.category_list(), node.left as int, less));
        assert(settles(tree.node_list(), tree.category_list(), node.right as int, less));
    }
    let l: usize = node.left as usize;
    let r: usize = node.right as usize;
    let lc = calc.widen(tree.node(l).sum_hess);
    let rc = calc.widen(tree.node(r).sum_hess);
    let lm = node_mean_value(tree, weight, l, Ghost(less), calc);
    let rm = node_mean_value(tree, weight, r, Ghost(less), calc);
    calc.div(calc.add(calc.mul(lc, lm), calc.mul(rc, rm)), cover)
}

} // verus!
