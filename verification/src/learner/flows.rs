//! What flows to the leaves of a tree under two features.
//!
//! A path is a list of features with their shares. The attribution of one
//! feature while another is held fixed is a sum over the leaves, and the
//! difference that the other feature makes is the same for either of the two.

use vstd::prelude::*;

use crate::arith::{Calc, Op};
use crate::exact::{is_exact, shift, spread, stands, swap, turn, vanish};
use crate::learner::additivity::{
    child_part, child_shares_stand, covers_stand, leaf_number, paths_follow_splits, shares_after,
};
use crate::learner::exactness::{follows, unwound_sums_follow};
use crate::learner::margin::weighed;
use crate::learner::orderings::{weights_from, Shares};
use crate::learner::shap::{
    attributed, child_share, condition_shares, extended, feature_place, feature_place_bounds,
    leaf_shares, unwinding, unwinding_keeps_features, unwound, unwound_sums, Condition,
    PathElement,
};
use crate::number::{Single, Wide, ONE};
use crate::tree::builder::exact::features_exist;
use crate::tree::regtree::{goes_left, settles, RegTree};

verus! {

/// A feature on a path, with its shares.
pub type Met = (int, Shares);

/// A path without a feature.
pub open spec fn without(m: Seq<Met>, f: int) -> Seq<Met> {
    m.filter(|e: Met| e.0 != f)
}

/// The shares of a feature on a path; a feature that is not there lets all
/// through.
pub open spec fn held(m: Seq<Met>, f: int) -> Shares
    decreases m.len(),
{
    if m.len() == 0 {
        (1real, 1real)
    } else if m.last().0 == f {
        m.last().1
    } else {
        held(m.drop_last(), f)
    }
}

/// Whether no feature is on a path twice.
pub open spec fn distinct(m: Seq<Met>) -> bool {
    forall|i: int, j: int| 0 <= i < j < m.len() ==> (#[trigger] m[i]).0 != (#[trigger] m[j]).0
}

/// The path after a split by a feature.
pub open spec fn split_on(m: Seq<Met>, f: int, zero: real, present: bool) -> Seq<Met> {
    let s = held(m, f);
    without(m, f).push(
        (
            f,
            (
                zero * s.0,
                if present {
                    s.1
                } else {
                    0real
                },
            ),
        ),
    )
}

/// The shares on a path.
pub open spec fn shares_of(m: Seq<Met>) -> Seq<Shares> {
    Seq::new(m.len(), |i: int| m[i].1)
}

proof fn without_one_more(m: Seq<Met>, e: Met, f: int)
    ensures
        without(m.push(e), f) == if e.0 == f {
            without(m, f)
        } else {
            without(m, f).push(e)
        },
{
    reveal(Seq::filter);
    assert(m.push(e).drop_last() =~= m);
}

proof fn without_ends(m: Seq<Met>, f: int)
    requires
        m.len() > 0,
    ensures
        without(m, f) == if m.last().0 == f {
            without(m.drop_last(), f)
        } else {
            without(m.drop_last(), f).push(m.last())
        },
{
    assert(m.drop_last().push(m.last()) =~= m);
    without_one_more(m.drop_last(), m.last(), f);
}

proof fn nothing_without(f: int)
    ensures
        without(Seq::<Met>::empty(), f) == Seq::<Met>::empty(),
{
    reveal(Seq::filter);
}

proof fn held_one_more(m: Seq<Met>, e: Met, f: int)
    ensures
        held(m.push(e), f) == if e.0 == f {
            e.1
        } else {
            held(m, f)
        },
{
    assert(m.push(e).drop_last() =~= m);
}

proof fn without_both(m: Seq<Met>, a: int, b: int)
    ensures
        without(without(m, a), b) == without(without(m, b), a),
    decreases m.len(),
{
    if m.len() == 0 {
        assert(m =~= Seq::<Met>::empty());
        nothing_without(a);
        nothing_without(b);
    } else {
        let rest = m.drop_last();
        let e = m.last();
        without_both(rest, a, b);
        without_ends(m, a);
        without_ends(m, b);
        without_one_more(without(rest, a), e, b);
        without_one_more(without(rest, b), e, a);
    }
}

proof fn without_twice(m: Seq<Met>, f: int)
    ensures
        without(without(m, f), f) == without(m, f),
        held(without(m, f), f) == (1real, 1real),
    decreases m.len(),
{
    if m.len() == 0 {
        assert(m =~= Seq::<Met>::empty());
        nothing_without(f);
    } else {
        let rest = m.drop_last();
        without_twice(rest, f);
        without_ends(m, f);
        without_one_more(without(rest, f), m.last(), f);
        held_one_more(without(rest, f), m.last(), f);
    }
}

proof fn held_without(m: Seq<Met>, a: int, f: int)
    requires
        a != f,
    ensures
        held(without(m, a), f) == held(m, f),
    decreases m.len(),
{
    if m.len() == 0 {
        assert(m =~= Seq::<Met>::empty());
        nothing_without(a);
    } else {
        held_without(m.drop_last(), a, f);
        without_ends(m, a);
        held_one_more(without(m.drop_last(), a), m.last(), f);
    }
}

/// Whether every feature of one path is on another.
spec fn within(x: Seq<Met>, m: Seq<Met>) -> bool {
    forall|i: int| 0 <= i < x.len() ==> exists|j: int| 0 <= j < m.len() && m[j] == #[trigger] x[i]
}

proof fn without_keeps(m: Seq<Met>, f: int)
    requires
        distinct(m),
    ensures
        distinct(without(m, f)),
        without(m, f).len() <= m.len(),
        forall|i: int| 0 <= i < without(m, f).len() ==> (#[trigger] without(m, f)[i]).0 != f,
        within(without(m, f), m),
    decreases m.len(),
{
    if m.len() == 0 {
        assert(m =~= Seq::<Met>::empty());
        nothing_without(f);
    } else {
        let rest = m.drop_last();
        without_keeps(rest, f);
        without_ends(m, f);
        let r = without(m, f);
        let w = without(rest, f);
        assert forall|i: int| 0 <= i < r.len() implies exists|j: int|
            0 <= j < m.len() && m[j] == #[trigger] r[i] by {
            if i < w.len() {
                assert(r[i] == w[i]);
                let j = choose|j: int| 0 <= j < rest.len() && rest[j] == w[i];
                assert(m[j] == r[i]);
            } else {
                assert(m[m.len() - 1] == r[i]);
            }
        }
        assert forall|i: int, j: int| 0 <= i < j < r.len() implies (#[trigger] r[i]).0 != (
        #[trigger] r[j]).0 by {
            if j < w.len() {
                assert(w[i].0 != w[j].0);
            } else {
                assert(r[i] == w[i]);
                let p = choose|p: int| 0 <= p < rest.len() && rest[p] == w[i];
                assert(m[p] == w[i]);
                assert(m[p].0 != m[m.len() - 1].0);
            }
        }
    }
}

proof fn without_absent(m: Seq<Met>, f: int)
    requires
        forall|i: int| 0 <= i < m.len() ==> (#[trigger] m[i]).0 != f,
    ensures
        without(m, f) == m,
        held(m, f) == (1real, 1real),
    decreases m.len(),
{
    if m.len() == 0 {
        assert(m =~= Seq::<Met>::empty());
        nothing_without(f);
    } else {
        let rest = m.drop_last();
        assert forall|i: int| 0 <= i < rest.len() implies (#[trigger] rest[i]).0 != f by {
            assert(m[i].0 != f);
        }
        without_absent(rest, f);
        without_ends(m, f);
        assert(m[m.len() - 1].0 != f);
        assert(rest.push(m.last()) =~= m);
    }
}

proof fn without_is_removal(m: Seq<Met>, k: int)
    requires
        distinct(m),
        0 <= k < m.len(),
    ensures
        without(m, m[k].0) == m.remove(k),
        held(m, m[k].0) == m[k].1,
    decreases m.len(),
{
    let n = m.len() as int;
    let rest = m.drop_last();
    let f = m[k].0;
    without_ends(m, f);
    if k == n - 1 {
        assert forall|i: int| 0 <= i < rest.len() implies (#[trigger] rest[i]).0 != f by {
            assert(m[i].0 != m[n - 1].0);
        }
        without_absent(rest, f);
        assert(m.remove(k) =~= rest);
    } else {
        assert(distinct(rest)) by {
            assert forall|i: int, j: int| 0 <= i < j < rest.len() implies (#[trigger] rest[i]).0
                != (#[trigger] rest[j]).0 by {
                assert(m[i].0 != m[j].0);
            }
        }
        assert(rest[k] == m[k]);
        assert(m[k].0 != m[n - 1].0);
        without_is_removal(rest, k);
        assert(m.remove(k) =~= rest.remove(k).push(m.last()));
    }
}

proof fn splits_keep_distinct(m: Seq<Met>, f: int, zero: real, present: bool)
    requires
        distinct(m),
    ensures
        distinct(split_on(m, f, zero, present)),
        split_on(m, f, zero, present).len() <= m.len() + 1,
{
    without_keeps(m, f);
    let w = without(m, f);
    let r = split_on(m, f, zero, present);
    assert forall|i: int, j: int| 0 <= i < j < r.len() implies (#[trigger] r[i]).0 != (
    #[trigger] r[j]).0 by {
        if j < w.len() {
            assert(w[i].0 != w[j].0);
        } else {
            assert(w[i].0 != f);
        }
    }
}

/// What a split does to the shares of a feature, and to the rest of the path.
proof fn splits_seen_without(m: Seq<Met>, f: int, zero: real, present: bool, b: int)
    ensures
        f != b ==> without(split_on(m, f, zero, present), b) == split_on(
            without(m, b),
            f,
            zero,
            present,
        ),
        f == b ==> without(split_on(m, f, zero, present), b) == without(m, b),
        held(split_on(m, f, zero, present), b) == if f == b {
            (
                zero * held(m, b).0,
                if present {
                    held(m, b).1
                } else {
                    0real
                },
            )
        } else {
            held(m, b)
        },
{
    let s = held(m, f);
    let e = (
        f,
        (
            zero * s.0,
            if present {
                s.1
            } else {
                0real
            },
        ),
    );
    without_one_more(without(m, f), e, b);
    held_one_more(without(m, f), e, b);
    if f == b {
        without_twice(m, f);
    } else {
        without_both(m, f, b);
        held_without(m, b, f);
        held_without(m, f, b);
    }
}

/// The weights of a path without two features.
pub open spec fn rest_weight(m: Seq<Met>, a: int, b: int) -> real {
    let l = without(without(m, b), a);
    weights_from(shares_of(l), 0, l.len() as int + 1)
}

/// The difference of a feature's shares.
pub open spec fn swing(m: Seq<Met>, f: int) -> real {
    held(m, f).1 - held(m, f).0
}

/// What flows on under a feature that is held fixed as present or as absent.
pub open spec fn let_through(m: Seq<Met>, b: int, present: bool) -> real {
    if present { held(m, b).1 } else { held(m, b).0 }
}

/// The attribution of feature `a` over the subtree at a node while feature `b` is
/// held fixed.
pub open spec fn flow<F: Fn(Op, u64, u64) -> u64>(
    tree: &RegTree,
    weight: Single,
    row: spec_fn(u32) -> Option<Single>,
    nid: int,
    fuel: nat,
    m: Seq<Met>,
    a: int,
    b: int,
    present: bool,
    val: spec_fn(Wide) -> Option<real>,
    calc: &Calc<F>,
) -> real
    decreases fuel,
{
    let nodes = tree.node_list();
    let node = nodes[nid];
    if node.leafy() {
        (leaf_number(tree, weight, nid, val, calc) * (swing(m, a) * rest_weight(m, a, b)))
            * let_through(m, b, present)
    } else if fuel == 0 {
        0real
    } else {
        let less = (fuel - 1) as nat;
        let f = node.split_feature as int;
        let left = goes_left(node, tree.category_list(), row(node.split_feature));
        let hot = if left { node.left as int } else { node.right as int };
        let cold = if left { node.right as int } else { node.left as int };
        let hz = child_part(nodes, nid, hot, val, calc);
        let cz = child_part(nodes, nid, cold, val, calc);
        flow(
            tree,
            weight,
            row,
            hot,
            less,
            split_on(m, f, hz, true),
            a,
            b,
            present,
            val,
            calc,
        ) + flow(
            tree,
            weight,
            row,
            cold,
            less,
            split_on(m, f, cz, false),
            a,
            b,
            present,
            val,
            calc,
        )
    }
}

/// The difference that holding one feature fixed makes to another is the same
/// for either of the two.
pub proof fn flows_differ_alike<F: Fn(Op, u64, u64) -> u64>(
    tree: &RegTree,
    weight: Single,
    row: spec_fn(u32) -> Option<Single>,
    nid: int,
    fuel: nat,
    m: Seq<Met>,
    a: int,
    b: int,
    val: spec_fn(Wide) -> Option<real>,
    calc: &Calc<F>,
)
    ensures
        flow(tree, weight, row, nid, fuel, m, a, b, true, val, calc) - flow(
            tree,
            weight,
            row,
            nid,
            fuel,
            m,
            a,
            b,
            false,
            val,
            calc,
        ) == flow(tree, weight, row, nid, fuel, m, b, a, true, val, calc) - flow(
            tree,
            weight,
            row,
            nid,
            fuel,
            m,
            b,
            a,
            false,
            val,
            calc,
        ),
    decreases fuel,
{
    let nodes = tree.node_list();
    let node = nodes[nid];
    if node.leafy() {
        without_both(m, a, b);
        let lv = leaf_number(tree, weight, nid, val, calc);
        let t = rest_weight(m, a, b);
        let da = swing(m, a);
        let db = swing(m, b);
        assert(rest_weight(m, b, a) == t);
        spread(lv * (da * t), held(m, b).1, held(m, b).0);
        spread(lv * (db * t), held(m, a).1, held(m, a).0);
        shift(lv, da * t, db);
        turn(da, t, db);
        shift(lv, db * t, da);
        turn(db, t, da);
        swap(da, db);
    } else if fuel > 0 {
        let less = (fuel - 1) as nat;
        let f = node.split_feature as int;
        let left = goes_left(node, tree.category_list(), row(node.split_feature));
        let hot = if left { node.left as int } else { node.right as int };
        let cold = if left { node.right as int } else { node.left as int };
        let hz = child_part(nodes, nid, hot, val, calc);
        let cz = child_part(nodes, nid, cold, val, calc);
        flows_differ_alike(
            tree,
            weight,
            row,
            hot,
            less,
            split_on(m, f, hz, true),
            a,
            b,
            val,
            calc,
        );
        flows_differ_alike(
            tree,
            weight,
            row,
            cold,
            less,
            split_on(m, f, cz, false),
            a,
            b,
            val,
            calc,
        );
    }
}

proof fn nothing_flows<F: Fn(Op, u64, u64) -> u64>(
    tree: &RegTree,
    weight: Single,
    row: spec_fn(u32) -> Option<Single>,
    nid: int,
    fuel: nat,
    m: Seq<Met>,
    a: int,
    b: int,
    present: bool,
    val: spec_fn(Wide) -> Option<real>,
    calc: &Calc<F>,
)
    requires
        let_through(m, b, present) == 0real,
    ensures
        flow(tree, weight, row, nid, fuel, m, a, b, present, val, calc) == 0real,
    decreases fuel,
{
    let nodes = tree.node_list();
    let node = nodes[nid];
    if node.leafy() {
        vanish(
            leaf_number(tree, weight, nid, val, calc) * (swing(m, a) * rest_weight(m, a, b)),
        );
    } else if fuel > 0 {
        let less = (fuel - 1) as nat;
        let f = node.split_feature as int;
        let left = goes_left(node, tree.category_list(), row(node.split_feature));
        let hot = if left { node.left as int } else { node.right as int };
        let cold = if left { node.right as int } else { node.left as int };
        let hz = child_part(nodes, nid, hot, val, calc);
        let cz = child_part(nodes, nid, cold, val, calc);
        splits_seen_without(m, f, hz, true, b);
        splits_seen_without(m, f, cz, false, b);
        vanish(hz);
        vanish(cz);
        let x = split_on(m, f, hz, true);
        let y = split_on(m, f, cz, false);
        nothing_flows(tree, weight, row, hot, less, x, a, b, present, val, calc);
        nothing_flows(tree, weight, row, cold, less, y, a, b, present, val, calc);
    }
}

/// Whether a path has the given features with the shares and weights that go with
/// them.
pub open spec fn path_is(
    path: Seq<PathElement>,
    m: Seq<Met>,
    val: spec_fn(Wide) -> Option<real>,
) -> bool {
    &&& follows(path, shares_of(m), val)
    &&& path.len() == m.len() + 1
    &&& forall|i: int|
        1 <= i < path.len() ==> (#[trigger] path[i]).feature_index == m[i - 1].0
}

proof fn missed_features_are_absent(path: Seq<PathElement>, feature: int, i: int)
    requires
        0 <= i <= path.len(),
        feature_place(path, feature, i) == path.len(),
    ensures
        forall|j: int| i <= j < path.len() ==> (#[trigger] path[j]).feature_index != feature,
    decreases path.len() - i,
{
    if i < path.len() && path[i].feature_index != feature {
        missed_features_are_absent(path, feature, i + 1);
    }
}

proof fn paths_split<F: Fn(Op, u64, u64) -> u64>(
    here: Seq<PathElement>,
    m: Seq<Met>,
    split: int,
    child: Wide,
    part: real,
    present: bool,
    val: spec_fn(Wide) -> Option<real>,
    calc: &Calc<F>,
)
    requires
        is_exact(val, calc),
        path_is(here, m, val),
        distinct(m),
        m.len() <= i32::MAX,
        0 <= split <= u32::MAX,
        stands(child, part, val),
    ensures
        ({
            let place = feature_place(here, split, 1);
            let met = place < here.len();
            let in_zero = if met { here[place].zero_fraction } else { Wide { bits: ONE } };
            let in_one = if met { here[place].one_fraction } else { Wide { bits: ONE } };
            let onward = if met { unwound(here, place, calc) } else { here };
            let one = if present { in_one } else { Wide { bits: 0 } };
            path_is(
                extended(onward, calc.times(child, in_zero), one, split as i64, calc),
                split_on(m, split, part, present),
                val,
            )
        }),
{
    let place = feature_place(here, split, 1);
    let met = place < here.len();
    let in_zero = if met { here[place].zero_fraction } else { Wide { bits: ONE } };
    let in_one = if met { here[place].one_fraction } else { Wide { bits: ONE } };
    let onward = if met { unwound(here, place, calc) } else { here };
    let one = if present { in_one } else { Wide { bits: 0 } };
    let zero = calc.times(child, in_zero);
    let next = extended(onward, zero, one, split as i64, calc);
    let after = split_on(m, split, part, present);
    let k = place - 1;
    let shares = shares_of(m);
    feature_place_bounds(here, split, 1);
    paths_follow_splits(here, shares, place, split as i64, child, part, present, val, calc);
    if met {
        assert(m[k].0 == split);
        without_is_removal(m, k);
        unwinding_keeps_features(here, place, 0, calc);
        let p = unwinding(here, place, 0, calc).0;
        assert forall|i: int| 1 <= i < onward.len() implies (#[trigger] onward[i]).feature_index
            == without(m, split)[i - 1].0 by {
            if i < place {
                assert(p[i].feature_index == here[i].feature_index);
            } else {
                assert(p[i + 1].feature_index == here[i + 1].feature_index);
            }
        }
    } else {
        missed_features_are_absent(here, split, 1);
        assert forall|i: int| 0 <= i < m.len() implies (#[trigger] m[i]).0 != split by {
            assert(here[i + 1].feature_index == m[i].0);
        }
        without_absent(m, split);
    }
    assert(shares_after(shares, k, met, part, present) =~= shares_of(after));
    assert forall|i: int| 1 <= i < next.len() implies (#[trigger] next[i]).feature_index
        == after[i - 1].0 by {
        if i < onward.len() {
            assert(next[i].feature_index == onward[i].feature_index);
        }
    }
}

/// Whether every feature on a path is one of `room`.
pub open spec fn features_fit(m: Seq<Met>, room: int) -> bool {
    forall|i: int| 0 <= i < m.len() ==> 0 <= (#[trigger] m[i]).0 < room
}

proof fn leaves_attribute<F: Fn(Op, u64, u64) -> u64>(
    path: Seq<PathElement>,
    m: Seq<Met>,
    leaf: Wide,
    fraction: Wide,
    fr: real,
    phi: Seq<Wide>,
    off: int,
    room: int,
    a: int,
    n: int,
    val: spec_fn(Wide) -> Option<real>,
    calc: &Calc<F>,
)
    requires
        is_exact(val, calc),
        path_is(path, m, val),
        distinct(m),
        features_fit(m, room),
        m.len() <= i32::MAX,
        stands(fraction, fr, val),
        0 <= n <= m.len(),
        0 <= off,
        off + room <= phi.len(),
        0 <= a < room,
    ensures
        ({
            let r = leaf_shares(path, leaf, fraction, phi, off, n, calc);
            let l = without(m, a);
            let t = weights_from(shares_of(l), 0, l.len() as int + 1);
            let met = exists|i: int| 0 <= i < n && (#[trigger] m[i]).0 == a;
            &&& r.len() == phi.len()
            &&& forall|p: int|
                0 <= p < phi.len() && !(off <= p < off + room) ==> #[trigger] r[p] == phi[p]
            &&& val(r[off + a]) is Some ==> val(phi[off + a]) is Some && val(r[off + a])->0 == val(
                phi[off + a],
            )->0 + (if met {
                (val(leaf)->0 * (swing(m, a) * t)) * fr
            } else {
                0real
            })
        }),
    decreases n,
{
    if n > 0 {
        leaves_attribute(path, m, leaf, fraction, fr, phi, off, room, a, n - 1, val, calc);
        let before = leaf_shares(path, leaf, fraction, phi, off, n - 1, calc);
        let el = path[n];
        let k = n - 1;
        assert(m[k].0 == el.feature_index);
        let at = off + el.feature_index;
        let w = unwound_sums(path, n, 0, calc).0;
        let d = calc.minus(el.one_fraction, el.zero_fraction);
        let x = calc.times(w, d);
        let y = calc.times(x, leaf);
        let share = calc.times(y, fraction);
        let v = calc.plus(before[at], share);
        let r = before.update(at, v);
        assert(r == leaf_shares(path, leaf, fraction, phi, off, n, calc));
        if m[k].0 == a {
            assert forall|i: int| 0 <= i < n - 1 implies (#[trigger] m[i]).0 != a by {
                assert(m[i].0 != m[k].0);
            }
            let shares = shares_of(m);
            let s = shares[k];
            let l = without(m, a);
            let t = weights_from(shares_of(l), 0, l.len() as int + 1);
            without_is_removal(m, k);
            assert(shares.remove(k) =~= shares_of(l));
            if s.0 != 0real || s.1 != 0real {
                unwound_sums_follow(path, shares, k, 0, val, calc);
            }
            if val(r[off + a]) is Some {
                assert(val(share) is Some);
                assert(val(y) is Some);
                assert(val(x) is Some);
                assert(val(d) is Some);
                let dv = swing(m, a);
                let lv = val(leaf)->0;
                let wv = val(w)->0;
                assert(val(d)->0 == dv);
                assert(val(share)->0 == ((wv * dv) * lv) * fr);
                swap(wv, dv);
                swap(dv * wv, lv);
                if s.0 == 0real && s.1 == 0real {
                    vanish(wv);
                    vanish(t);
                    vanish(lv);
                    vanish(fr);
                } else {
                    assert(wv == t);
                }
            }
        } else {
            assert(at != off + a);
            assert((exists|i: int| 0 <= i < n && (#[trigger] m[i]).0 == a) == (exists|i: int|
                0 <= i < n - 1 && (#[trigger] m[i]).0 == a)) by {
                if exists|i: int| 0 <= i < n && (#[trigger] m[i]).0 == a {
                    let i = choose|i: int| 0 <= i < n && (#[trigger] m[i]).0 == a;
                    assert(i != k);
                    assert(0 <= i < n - 1 && m[i].0 == a);
                }
            }
        }
    }
}

/// The condition that holds a feature fixed.
pub open spec fn fixing(b: int, present: bool) -> Condition {
    if present { Condition::Present(b as u32) } else { Condition::Absent(b as u32) }
}

proof fn fits_within(x: Seq<Met>, m: Seq<Met>, room: int)
    requires
        within(x, m),
        features_fit(m, room),
    ensures
        features_fit(x, room),
{
    assert forall|i: int| 0 <= i < x.len() implies 0 <= (#[trigger] x[i]).0 < room by {
        let j = choose|j: int| 0 <= j < m.len() && m[j] == x[i];
        assert(0 <= m[j].0 < room);
    }
}

/// Attributions while a feature is held fixed are what flows.
pub(crate) proof fn fixed_attributions_flow<F: Fn(Op, u64, u64) -> u64>(
    tree: &RegTree,
    weight: Single,
    row: spec_fn(u32) -> Option<Single>,
    nid: int,
    path: Seq<PathElement>,
    zero: Wide,
    one: Wide,
    feature: i64,
    m: Seq<Met>,
    a: int,
    b: int,
    present: bool,
    phi: Seq<Wide>,
    off: int,
    room: int,
    fraction: Wide,
    fuel: nat,
    val: spec_fn(Wide) -> Option<real>,
    calc: &Calc<F>,
)
    requires
        is_exact(val, calc),
        settles(tree.node_list(), tree.category_list(), nid, fuel),
        features_exist(tree.node_list(), room),
        covers_stand(tree.node_list(), val, calc),
        path_is(
            if fixing(b, present).fixes(feature as int) {
                path
            } else {
                extended(path, zero, one, feature, calc)
            },
            without(m, b),
            val,
        ),
        distinct(m),
        features_fit(m, room),
        m.len() + fuel <= i32::MAX,
        stands(fraction, let_through(m, b, present), val),
        a != b,
        0 <= a < room,
        0 <= b <= u32::MAX,
        0 <= off,
        off + room <= phi.len(),
    ensures
        ({
            let r = attributed(
                tree,
                weight,
                row,
                nid,
                path,
                zero,
                one,
                feature,
                phi,
                off,
                fixing(b, present),
                fraction,
                fuel,
                calc,
            );
            &&& r.len() == phi.len()
            &&& forall|p: int|
                0 <= p < phi.len() && !(off <= p < off + room) ==> #[trigger] r[p] == phi[p]
            &&& val(r[off + a]) is Some ==> val(phi[off + a]) is Some && val(r[off + a])->0 == val(
                phi[off + a],
            )->0 + flow(tree, weight, row, nid, fuel, m, a, b, present, val, calc)
        }),
    decreases fuel,
{
    let condition = fixing(b, present);
    if fraction.same(Wide { bits: 0 }) {
        assert(val(fraction) == Some(0real));
        nothing_flows(tree, weight, row, nid, fuel, m, a, b, present, val, calc);
    } else {
        let nodes = tree.node_list();
        let node = nodes[nid];
        let here = if condition.fixes(feature as int) {
            path
        } else {
            extended(path, zero, one, feature, calc)
        };
        let c = without(m, b);
        without_keeps(m, b);
        fits_within(c, m, room);
        let fr = let_through(m, b, present);
        if node.leafy() {
            let leaf = calc.widened(weighed(weight, node.leaf_value, calc));
            let n = c.len() as int;
            leaves_attribute(here, c, leaf, fraction, fr, phi, off, room, a, n, val, calc);
            held_without(m, b, a);
            if !(exists|i: int| 0 <= i < n && (#[trigger] c[i]).0 == a) {
                without_absent(c, a);
                let lv = leaf_number(tree, weight, nid, val, calc);
                vanish(rest_weight(m, a, b));
                vanish(lv);
                vanish(fr);
            }
        } else {
            let less = (fuel - 1) as nat;
            let f = node.split_feature as int;
            let left = goes_left(node, tree.category_list(), row(node.split_feature));
            let hot = if left { node.left as int } else { node.right as int };
            let cold = if left { node.right as int } else { node.left as int };
            let hot_zero = child_share(nodes, nid, hot, calc);
            let cold_zero = child_share(nodes, nid, cold, calc);
            let place = feature_place(here, f, 1);
            let met = place < here.len();
            let in_zero = if met { here[place].zero_fraction } else { Wide { bits: ONE } };
            let in_one = if met { here[place].one_fraction } else { Wide { bits: ONE } };
            let onward = if met { unwound(here, place, calc) } else { here };
            let (to_hot, to_cold) = condition_shares(
                condition,
                f,
                fraction,
                hot_zero,
                cold_zero,
                calc,
            );
            assert(nodes[nid].split_feature < room);
            reveal_with_fuel(settles, 2);
            let hz = child_part(nodes, nid, hot, val, calc);
            let cz = child_part(nodes, nid, cold, val, calc);
            child_shares_stand(nodes, nid, hot, val, calc);
            child_shares_stand(nodes, nid, cold, val, calc);
            let mh = split_on(m, f, hz, true);
            let mc = split_on(m, f, cz, false);
            splits_seen_without(m, f, hz, true, b);
            splits_seen_without(m, f, cz, false, b);
            splits_keep_distinct(m, f, hz, true);
            splits_keep_distinct(m, f, cz, false);
            splits_keep_fit(m, f, hz, true, room);
            splits_keep_fit(m, f, cz, false, room);
            feature_place_bounds(here, f, 1);
            if f == b {
                if met {
                    assert(here[place].feature_index == c[place - 1].0);
                }
                assert(!met);
                swap(hz, held(m, b).0);
                swap(cz, held(m, b).0);
            } else {
                paths_split(here, c, f, hot_zero, hz, true, val, calc);
                paths_split(here, c, f, cold_zero, cz, false, val, calc);
            }
            let zh = calc.times(hot_zero, in_zero);
            let zc = calc.times(cold_zero, in_zero);
            let nothing = Wide { bits: 0 };
            fixed_attributions_flow(
                tree,
                weight,
                row,
                hot,
                onward,
                zh,
                in_one,
                f as i64,
                mh,
                a,
                b,
                present,
                phi,
                off,
                room,
                to_hot,
                less,
                val,
                calc,
            );
            let half = attributed(
                tree,
                weight,
                row,
                hot,
                onward,
                zh,
                in_one,
                f as i64,
                phi,
                off,
                condition,
                to_hot,
                less,
                calc,
            );
            fixed_attributions_flow(
                tree,
                weight,
                row,
                cold,
                onward,
                zc,
                nothing,
                f as i64,
                mc,
                a,
                b,
                present,
                half,
                off,
                room,
                to_cold,
                less,
                val,
                calc,
            );
        }
    }
}

proof fn splits_keep_fit(m: Seq<Met>, f: int, zero: real, present: bool, room: int)
    requires
        distinct(m),
        features_fit(m, room),
        0 <= f < room,
    ensures
        features_fit(split_on(m, f, zero, present), room),
{
    without_keeps(m, f);
    fits_within(without(m, f), m, room);
    let w = without(m, f);
    let r = split_on(m, f, zero, present);
    assert forall|i: int| 0 <= i < r.len() implies 0 <= (#[trigger] r[i]).0 < room by {
        if i < w.len() {
            assert(r[i] == w[i]);
        }
    }
}

} // verus!
