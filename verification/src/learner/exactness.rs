//! What paths hold in an arithmetic that does not round.

use vstd::prelude::*;

use crate::arith::{Calc, Op};
use crate::exact::{is_exact, stands, swap};
use crate::learner::orderings::{
    nothing_adds_nothing, parts_come_apart, share_part, weight, weights_end, weights_from,
    weights_without_a_feature, Shares,
};
use crate::learner::shap::{
    extended, extended_weight, unwinding, unwinding_keeps_features, unwound, unwound_sums,
    PathElement,
};
use crate::number::Wide;

verus! {

/// Whether the features of a path have the given shares.
pub open spec fn shares_follow(
    path: Seq<PathElement>,
    shares: Seq<Shares>,
    val: spec_fn(Wide) -> Option<real>,
) -> bool {
    &&& path.len() == shares.len() + 1
    &&& forall|i: int|
        1 <= i < path.len() ==> {
            &&& stands((#[trigger] path[i]).zero_fraction, shares[i - 1].0, val)
            &&& val(path[i].one_fraction) == Some(shares[i - 1].1)
        }
}

/// Whether a path has the given shares and the weights that go with them.
pub open spec fn follows(
    path: Seq<PathElement>,
    shares: Seq<Shares>,
    val: spec_fn(Wide) -> Option<real>,
) -> bool {
    &&& shares_follow(path, shares, val)
    &&& forall|j: int|
        0 <= j < path.len() ==> stands((#[trigger] path[j]).pweight, weight(shares, j), val)
}

proof fn parts_stand<F: Fn(Op, u64, u64) -> u64>(
    share: Wide,
    s: real,
    w: Wide,
    r: real,
    m: int,
    n: int,
    val: spec_fn(Wide) -> Option<real>,
    calc: &Calc<F>,
)
    requires
        is_exact(val, calc),
        stands(share, s, val),
        stands(w, r, val) || s == 0real,
        0 <= m <= u64::MAX,
        0 < n <= u64::MAX,
    ensures
        stands(
            calc.over(calc.times(calc.times(share, w), calc.of(m)), calc.of(n)),
            share_part(s, r, m, n),
            val,
        ),
{
    let x = calc.times(share, w);
    let y = calc.times(x, calc.of(m));
    let q = calc.over(y, calc.of(n));
    if val(q) is Some {
        assert(val(y) is Some);
        assert(val(x) is Some);
        if s == 0real {
            let v = val(w)->0;
            nothing_adds_nothing(s, r, m, n);
            nothing_adds_nothing(s, v, m, n);
        }
    }
}

/// A path that is extended by a feature has the weights that go with its shares,
/// as long as it had them before or the feature lets nothing through.
pub proof fn extending_follows<F: Fn(Op, u64, u64) -> u64>(
    path: Seq<PathElement>,
    shares: Seq<Shares>,
    zero: Wide,
    one: Wide,
    feature: i64,
    s: Shares,
    val: spec_fn(Wide) -> Option<real>,
    calc: &Calc<F>,
)
    requires
        is_exact(val, calc),
        shares_follow(path, shares, val),
        follows(path, shares, val) || (s.0 == 0real && s.1 == 0real),
        stands(zero, s.0, val),
        val(one) == Some(s.1),
        shares.len() <= i32::MAX,
    ensures
        follows(extended(path, zero, one, feature, calc), shares.push(s), val),
{
    let here = extended(path, zero, one, feature, calc);
    let all = shares.push(s);
    let n = all.len() as int;
    let depth = path.len() as int;
    assert(all.remove(n - 1) =~= shares);
    assert forall|i: int| 1 <= i < here.len() implies stands(
        (#[trigger] here[i]).zero_fraction,
        all[i - 1].0,
        val,
    ) && val(here[i].one_fraction) == Some(all[i - 1].1) by {
        if i < depth {
            assert(here[i].zero_fraction == path[i].zero_fraction);
            assert(here[i].one_fraction == path[i].one_fraction);
        }
    }
    assert forall|j: int| 0 <= j < here.len() implies stands(
        (#[trigger] here[j]).pweight,
        weight(all, j),
        val,
    ) by {
        weights_without_a_feature(all, n - 1, j);
        if j < depth {
            parts_stand(
                zero,
                s.0,
                path[j].pweight,
                weight(shares, j),
                depth - j,
                depth + 1,
                val,
                calc,
            );
        } else {
            weights_end(shares, j);
            nothing_adds_nothing(s.0, weight(shares, j), depth - j, depth + 1);
        }
        if j > 0 {
            parts_stand(
                one,
                s.1,
                path[j - 1].pweight,
                weight(shares, j - 1),
                j,
                depth + 1,
                val,
                calc,
            );
        } else {
            weights_end(shares, j - 1);
            nothing_adds_nothing(s.1, weight(shares, j - 1), j, depth + 1);
        }
        assert(here[j].pweight == extended_weight(path, zero, one, j, calc));
    }
}

/// What is carried along, and what a place holds, while a feature is unwound. The
/// place holds `v`, and held `w` before the feature with the shares `s` was added
/// to `n - 1` others; the place below held `below`.
proof fn one_place_unwinds<F: Fn(Op, u64, u64) -> u64>(
    s: Shares,
    v: real,
    w: real,
    below: real,
    n: int,
    i: int,
    zero: Wide,
    one: Wide,
    at_place: Wide,
    next: Wide,
    val: spec_fn(Wide) -> Option<real>,
    calc: &Calc<F>,
)
    requires
        is_exact(val, calc),
        0 <= i < n <= i32::MAX,
        v == share_part(s.0, w, n - i, n + 1) + share_part(s.1, below, i, n + 1),
        stands(zero, s.0, val),
        val(one) == Some(s.1),
        stands(at_place, v, val),
        s.1 != 0real ==> stands(next, share_part(s.1, w, i + 1, n + 1), val),
    ensures
        ({
            let denom = calc.of(n + 1);
            let first = calc.over(calc.times(next, denom), calc.times(calc.of(i + 1), one));
            let second = calc.over(
                calc.times(at_place, denom),
                calc.times(zero, calc.of(n - i)),
            );
            let third = calc.over(
                calc.over(at_place, zero),
                calc.over(calc.of(n - i), denom),
            );
            &&& s.1 != 0real ==> stands(first, w, val) && stands(
                calc.minus(
                    at_place,
                    calc.over(calc.times(calc.times(first, zero), calc.of(n - i)), denom),
                ),
                share_part(s.1, below, i, n + 1),
                val,
            )
            &&& s.1 == 0real && s.0 != 0real ==> stands(second, w, val) && stands(third, w, val)
        }),
{
    let denom = calc.of(n + 1);
    let z = s.0;
    let o = s.1;
    if o != 0real {
        let a = calc.times(next, denom);
        let b = calc.times(calc.of(i + 1), one);
        let first = calc.over(a, b);
        parts_come_apart(o, w, i + 1, n + 1);
        if val(first) is Some {
            assert(val(a) is Some);
            assert(val(b) is Some);
            assert(val(first)->0 == w);
        }
        let x = calc.times(first, zero);
        let y = calc.times(x, calc.of(n - i));
        let q = calc.over(y, denom);
        let carried = calc.minus(at_place, q);
        if val(carried) is Some {
            assert(val(q) is Some);
            assert(val(y) is Some);
            assert(val(x) is Some);
            swap(w, z);
            assert(val(q)->0 == share_part(z, w, n - i, n + 1));
        }
    } else if z != 0real {
        nothing_adds_nothing(o, below, i, n + 1);
        parts_come_apart(z, w, n - i, n + 1);
        let a = calc.times(at_place, denom);
        let b = calc.times(zero, calc.of(n - i));
        let second = calc.over(a, b);
        if val(second) is Some {
            assert(val(a) is Some);
            assert(val(b) is Some);
        }
        let c = calc.over(at_place, zero);
        let d = calc.over(calc.of(n - i), denom);
        let third = calc.over(c, d);
        if val(third) is Some {
            assert(val(c) is Some);
            assert(val(d) is Some);
        }
    }
}

proof fn the_top_is_carried<F: Fn(Op, u64, u64) -> u64>(
    path: Seq<PathElement>,
    shares: Seq<Shares>,
    k: int,
    val: spec_fn(Wide) -> Option<real>,
    calc: &Calc<F>,
)
    requires
        follows(path, shares, val),
        0 <= k < shares.len(),
    ensures
        stands(
            path[shares.len() as int].pweight,
            share_part(
                shares[k].1,
                weight(shares.remove(k), shares.len() as int - 1),
                shares.len() as int,
                shares.len() as int + 1,
            ),
            val,
        ),
{
    let n = shares.len() as int;
    let less = shares.remove(k);
    weights_without_a_feature(shares, k, n);
    weights_end(less, n);
    nothing_adds_nothing(shares[k].0, weight(less, n), 0, n + 1);
}

proof fn unwinding_follows<F: Fn(Op, u64, u64) -> u64>(
    path: Seq<PathElement>,
    shares: Seq<Shares>,
    k: int,
    i: int,
    val: spec_fn(Wide) -> Option<real>,
    calc: &Calc<F>,
)
    requires
        is_exact(val, calc),
        follows(path, shares, val),
        0 <= k < shares.len() <= i32::MAX,
        shares[k].0 != 0real || shares[k].1 != 0real,
        0 <= i <= shares.len(),
    ensures
        ({
            let n = shares.len() as int;
            let less = shares.remove(k);
            let (p, next) = unwinding(path, k + 1, i, calc);
            &&& forall|j: int|
                i <= j < n ==> stands((#[trigger] p[j]).pweight, weight(less, j), val)
            &&& shares[k].1 != 0real ==> stands(
                next,
                share_part(shares[k].1, weight(less, i - 1), i, n + 1),
                val,
            )
        }),
    decreases shares.len() - i,
{
    let n = shares.len() as int;
    if i >= n {
        the_top_is_carried(path, shares, k, val, calc);
    } else {
        unwinding_follows(path, shares, k, i + 1, val, calc);
        unwinding_keeps_features(path, k + 1, i + 1, calc);
        let (p, next) = unwinding(path, k + 1, i + 1, calc);
        let one = path[k + 1].one_fraction;
        let zero = path[k + 1].zero_fraction;
        assert(p[i] == path[i]);
        let less = shares.remove(k);
        weights_without_a_feature(shares, k, i);
        one_place_unwinds(
            shares[k],
            weight(shares, i),
            weight(less, i),
            weight(less, i - 1),
            n,
            i,
            zero,
            one,
            p[i].pweight,
            next,
            val,
            calc,
        );
    }
}

/// A path that a feature is taken out of has the weights that go with the
/// remaining shares, unless the feature lets nothing through.
pub proof fn unwound_paths_follow<F: Fn(Op, u64, u64) -> u64>(
    path: Seq<PathElement>,
    shares: Seq<Shares>,
    k: int,
    val: spec_fn(Wide) -> Option<real>,
    calc: &Calc<F>,
)
    requires
        is_exact(val, calc),
        follows(path, shares, val),
        0 <= k < shares.len() <= i32::MAX,
    ensures
        shares_follow(unwound(path, k + 1, calc), shares.remove(k), val),
        shares[k].0 != 0real || shares[k].1 != 0real ==> follows(
            unwound(path, k + 1, calc),
            shares.remove(k),
            val,
        ),
{
    let n = shares.len() as int;
    let less = shares.remove(k);
    let r = unwound(path, k + 1, calc);
    let p = unwinding(path, k + 1, 0, calc).0;
    unwinding_keeps_features(path, k + 1, 0, calc);
    assert forall|i: int| 1 <= i < r.len() implies stands(
        (#[trigger] r[i]).zero_fraction,
        less[i - 1].0,
        val,
    ) && val(r[i].one_fraction) == Some(less[i - 1].1) by {
        if i < k + 1 {
            assert(p[i].zero_fraction == path[i].zero_fraction);
            assert(p[i].one_fraction == path[i].one_fraction);
        } else {
            assert(p[i + 1].zero_fraction == path[i + 1].zero_fraction);
            assert(p[i + 1].one_fraction == path[i + 1].one_fraction);
        }
    }
    if shares[k].0 != 0real || shares[k].1 != 0real {
        unwinding_follows(path, shares, k, 0, val, calc);
        assert forall|j: int| 0 <= j < r.len() implies stands(
            (#[trigger] r[j]).pweight,
            weight(less, j),
            val,
        ) by {
            assert(r[j].pweight == p[j].pweight);
        }
    }
}

/// The sum of weights if a feature were unwound is that of the path without the
/// feature, unless the feature lets nothing through.
pub proof fn unwound_sums_follow<F: Fn(Op, u64, u64) -> u64>(
    path: Seq<PathElement>,
    shares: Seq<Shares>,
    k: int,
    i: int,
    val: spec_fn(Wide) -> Option<real>,
    calc: &Calc<F>,
)
    requires
        is_exact(val, calc),
        follows(path, shares, val),
        0 <= k < shares.len() <= i32::MAX,
        shares[k].0 != 0real || shares[k].1 != 0real,
        0 <= i <= shares.len(),
    ensures
        ({
            let n = shares.len() as int;
            let less = shares.remove(k);
            let (total, next) = unwound_sums(path, k + 1, i, calc);
            &&& stands(total, weights_from(less, i, n), val)
            &&& shares[k].1 != 0real ==> stands(
                next,
                share_part(shares[k].1, weight(less, i - 1), i, n + 1),
                val,
            )
        }),
    decreases shares.len() - i,
{
    let n = shares.len() as int;
    if i >= n {
        the_top_is_carried(path, shares, k, val, calc);
    } else {
        unwound_sums_follow(path, shares, k, i + 1, val, calc);
        let (total, next) = unwound_sums(path, k + 1, i + 1, calc);
        let one = path[k + 1].one_fraction;
        let zero = path[k + 1].zero_fraction;
        let less = shares.remove(k);
        weights_without_a_feature(shares, k, i);
        one_place_unwinds(
            shares[k],
            weight(shares, i),
            weight(less, i),
            weight(less, i - 1),
            n,
            i,
            zero,
            one,
            path[i].pweight,
            next,
            val,
            calc,
        );
    }
}

/// What the weight at a place of a path stands for; zero where there is no such
/// place.
pub open spec fn weight_number(
    path: Seq<PathElement>,
    j: int,
    val: spec_fn(Wide) -> Option<real>,
) -> real {
    if 0 <= j < path.len() { val(path[j].pweight)->0 } else { 0real }
}

proof fn extended_weights_stand<F: Fn(Op, u64, u64) -> u64>(
    path: Seq<PathElement>,
    zero: Wide,
    one: Wide,
    s: Shares,
    j: int,
    val: spec_fn(Wide) -> Option<real>,
    calc: &Calc<F>,
)
    requires
        is_exact(val, calc),
        0 < path.len() <= i32::MAX,
        0 <= j <= path.len(),
        stands(zero, s.0, val),
        val(one) == Some(s.1),
    ensures
        ({
            let n = path.len() as int;
            stands(
                extended_weight(path, zero, one, j, calc),
                share_part(s.0, weight_number(path, j, val), n - j, n + 1) + share_part(
                    s.1,
                    weight_number(path, j - 1, val),
                    j,
                    n + 1,
                ),
                val,
            )
        }),
{
    let n = path.len() as int;
    if j < n {
        let w = path[j].pweight;
        parts_stand(zero, s.0, w, weight_number(path, j, val), n - j, n + 1, val, calc);
    } else {
        nothing_adds_nothing(s.0, weight_number(path, j, val), n - j, n + 1);
    }
    if j > 0 {
        let w = path[j - 1].pweight;
        parts_stand(one, s.1, w, weight_number(path, j - 1, val), j, n + 1, val, calc);
    } else {
        nothing_adds_nothing(s.1, weight_number(path, j - 1, val), j, n + 1);
    }
}

proof fn unwinding_gives_back<F: Fn(Op, u64, u64) -> u64>(
    path: Seq<PathElement>,
    zero: Wide,
    one: Wide,
    feature: i64,
    s: Shares,
    i: int,
    val: spec_fn(Wide) -> Option<real>,
    calc: &Calc<F>,
)
    requires
        is_exact(val, calc),
        0 < path.len() <= i32::MAX,
        0 <= i <= path.len(),
        stands(zero, s.0, val),
        val(one) == Some(s.1),
        s.0 != 0real || s.1 != 0real,
    ensures
        ({
            let n = path.len() as int;
            let here = extended(path, zero, one, feature, calc);
            let (p, next) = unwinding(here, n, i, calc);
            &&& forall|j: int|
                i <= j < n ==> stands((#[trigger] p[j]).pweight, weight_number(path, j, val), val)
            &&& s.1 != 0real ==> stands(
                next,
                share_part(s.1, weight_number(path, i - 1, val), i, n + 1),
                val,
            )
        }),
    decreases path.len() - i,
{
    let n = path.len() as int;
    let here = extended(path, zero, one, feature, calc);
    extended_weights_stand(path, zero, one, s, i, val, calc);
    assert(here[i].pweight == extended_weight(path, zero, one, i, calc));
    if i >= n {
        nothing_adds_nothing(s.0, weight_number(path, n, val), 0, n + 1);
    } else {
        unwinding_gives_back(path, zero, one, feature, s, i + 1, val, calc);
        unwinding_keeps_features(here, n, i + 1, calc);
        let (p, next) = unwinding(here, n, i + 1, calc);
        assert(p[i] == here[i]);
        let w = weight_number(path, i, val);
        let below = weight_number(path, i - 1, val);
        let v = share_part(s.0, w, n - i, n + 1) + share_part(s.1, below, i, n + 1);
        one_place_unwinds(s, v, w, below, n, i, zero, one, p[i].pweight, next, val, calc);
    }
}

/// In an arithmetic that does not round, unwinding the feature that a path was
/// extended by gives the path back, unless the feature lets nothing through: its
/// features and their shares are as they were, and its weights stand for the same
/// numbers.
pub proof fn unwinding_takes_extending_back<F: Fn(Op, u64, u64) -> u64>(
    path: Seq<PathElement>,
    zero: Wide,
    one: Wide,
    feature: i64,
    val: spec_fn(Wide) -> Option<real>,
    calc: &Calc<F>,
)
    requires
        is_exact(val, calc),
        path.len() <= i32::MAX,
        val(zero) is Some,
        val(one) is Some,
        val(zero)->0 != 0real || val(one)->0 != 0real,
    ensures
        ({
            let here = extended(path, zero, one, feature, calc);
            let back = unwound(here, path.len() as int, calc);
            &&& back.len() == path.len()
            &&& forall|j: int|
                0 <= j < path.len() ==> {
                    &&& (#[trigger] back[j]) == (PathElement {
                        pweight: back[j].pweight,
                        ..path[j]
                    })
                    &&& stands(back[j].pweight, val(path[j].pweight)->0, val)
                }
        }),
{
    let n = path.len() as int;
    let here = extended(path, zero, one, feature, calc);
    let back = unwound(here, n, calc);
    let s = (val(zero)->0, val(one)->0);
    if n > 0 {
        unwinding_gives_back(path, zero, one, feature, s, 0, val, calc);
        unwinding_keeps_features(here, n, 0, calc);
        let p = unwinding(here, n, 0, calc).0;
        assert forall|j: int| 0 <= j < path.len() implies {
            &&& (#[trigger] back[j]) == (PathElement { pweight: back[j].pweight, ..path[j] })
            &&& stands(back[j].pweight, val(path[j].pweight)->0, val)
        } by {
            assert(back[j] == p[j]);
            assert(p[j] == (PathElement { pweight: p[j].pweight, ..here[j] }));
        }
    }
}

} // verus!
