//! What pairs of documents pull with, and what they weigh, in arithmetics that do not
//! round.

use vstd::prelude::*;

use crate::arith::{Calc, Op};
use crate::exact::{
    above_zero, equal_factors, gather, is_exact, magnitudes_stand, not_below_zero, once,
    products_are_not_zero, quotient, shift, singles_are_exact, spread, stands, swap, turn, undivided, vanish,
};
use crate::exponential::{
    exponential_of_zero, exponentials_are_positive, exponentials_rise, exponentiates, multiplies,
};
use crate::number::{Wide, ONE, TWO};
use crate::objective::laws::lies_in;
use crate::objective::loss_laws::{is_number, is_sigmoid_slope, number};
use crate::objective::pair::GradPair;
use crate::objective::ranking::{
    discount_of, discounted, falling_order, gain_of, gains_of, ideal_gain, pair_weight, place_in,
    unit_word, Query, RankMode, Tally, LEAST_HESS, MAX_PAIRS_PER_GROUP,
};

verus! {

/// A pair is pulled by its worth times the chance that the less relevant document is
/// ranked above the other: the more relevant one gains what the other loses, and the
/// pull times one plus the exponential of the lead is the worth. The curvature is
/// that of the pull, held above the least one.
pub proof fn pairs_pull_by_their_risk<F: Fn(Op, u64, u64) -> u64>(
    query: Query,
    out: Seq<GradPair>,
    hi: int,
    lo: int,
    q: real,
    e: spec_fn(real) -> real,
    val: spec_fn(Wide) -> Option<real>,
    calc: &Calc<F>,
)
    requires
        is_exact(val, calc),
        singles_are_exact(val, calc),
        exponentiates(e, val, calc),
        lies_in(query, out),
        0 <= hi < query.labs.len(),
        0 <= lo < query.labs.len(),
        hi != lo,
        !pair_weight(query.mode, query.labs, query.order(), hi, lo, calc).same(Wide { bits: 0 }),
        is_number(query.paired(out, hi, lo, calc)[query.start + hi].grad, val, calc),
        is_number(query.paired(out, hi, lo, calc)[query.start + lo].grad, val, calc),
        is_number(query.paired(out, hi, lo, calc)[query.start + hi].hess, val, calc),
        is_number(query.paired(out, hi, lo, calc)[query.start + lo].hess, val, calc),
        val(query.scores[hi]) is Some,
        val(query.scores[lo]) is Some,
        is_sigmoid_slope(q, e(val(query.scores[hi])->0 - val(query.scores[lo])->0)),
        val(Wide { bits: LEAST_HESS }) is Some,
        ({
            let weight = pair_weight(query.mode, query.labs, query.order(), hi, lo, calc);
            let rho = query.risk(hi, lo, calc);
            val(
                calc.times(
                    calc.times(rho, calc.minus(Wide { bits: ONE }, rho)),
                    query.worth(weight, calc),
                ),
            ) is Some
        }),
    ensures
        ({
            let after = query.paired(out, hi, lo, calc);
            let weight = pair_weight(query.mode, query.labs, query.order(), hi, lo, calc);
            let worth = val(query.worth(weight, calc))->0;
            let lead = val(query.scores[hi])->0 - val(query.scores[lo])->0;
            let pull = number(out[query.start + hi].grad, val, calc) - number(
                after[query.start + hi].grad,
                val,
                calc,
            );
            let curve = number(after[query.start + hi].hess, val, calc) - number(
                out[query.start + hi].hess,
                val,
                calc,
            );
            &&& pull * (1real + e(lead)) == worth
            &&& number(after[query.start + lo].grad, val, calc) - number(
                out[query.start + lo].grad,
                val,
                calc,
            ) == pull
            &&& curve == if q * worth < val(Wide { bits: LEAST_HESS })->0 {
                val(Wide { bits: LEAST_HESS })->0
            } else {
                q * worth
            }
            &&& number(after[query.start + lo].hess, val, calc) - number(
                out[query.start + lo].hess,
                val,
                calc,
            ) == curve
        }),
{
    let after = query.paired(out, hi, lo, calc);
    let weight = pair_weight(query.mode, query.labs, query.order(), hi, lo, calc);
    let one = Wide { bits: ONE };
    let worth = query.worth(weight, calc);
    let gap = calc.minus(query.scores[hi], query.scores[lo]);
    let ex = calc.exponential(gap);
    let risk = query.risk(hi, lo, calc);
    let pull = query.pull(hi, lo, calc);
    let curve = query.curve(hi, lo, calc);
    let h = out[query.start + hi];
    let l = out[query.start + lo];
    let grad = calc.narrowed(pull);
    let hess = calc.narrowed(curve);
    assert(after[query.start + hi].grad == calc.minus_s(h.grad, grad));
    assert(after[query.start + lo].grad == calc.plus_s(l.grad, grad));
    assert(after[query.start + hi].hess == calc.plus_s(h.hess, hess));
    assert(after[query.start + lo].hess == calc.plus_s(l.hess, hess));
    assert(is_number(grad, val, calc) && is_number(hess, val, calc));
    assert(val(pull) is Some && val(curve) is Some);
    assert(val(risk) is Some && val(worth) is Some);
    assert(val(calc.plus(one, ex)) is Some);
    assert(val(ex) is Some && val(gap) is Some);
    let lead = val(query.scores[hi])->0 - val(query.scores[lo])->0;
    let odds = e(lead);
    let s = 1real + odds;
    exponentials_are_positive(e, lead);
    let rho = val(risk)->0;
    let v = val(worth)->0;
    undivided(1real, s);
    assert(rho * s == 1real);
    turn(rho, v, s);
    once(v);
    assert((rho * v) * s == v);
    let rest = calc.minus(one, risk);
    let slope = calc.times(risk, rest);
    let bent = calc.times(slope, worth);
    assert(val(slope) is Some && val(rest) is Some);
    let c = rho * (1real - rho);
    // (1 - rho) s == odds.
    gather(1real, rho, s);
    once(s);
    shift(rho, 1real - rho, s * s);
    shift(1real - rho, s, s);
    swap(odds, s);
    shift(rho, s, odds);
    once(odds);
    assert(c * (s * s) == odds);
    above_zero(s, s);
    equal_factors(c, q, s * s);
    assert(bent.le(bent));
}

/// The further the more relevant document of a pair leads, the less the pair pulls.
pub proof fn pulls_fall_with_the_lead<F: Fn(Op, u64, u64) -> u64>(
    a: Query,
    b: Query,
    hi: int,
    lo: int,
    e: spec_fn(real) -> real,
    val: spec_fn(Wide) -> Option<real>,
    calc: &Calc<F>,
)
    requires
        is_exact(val, calc),
        exponentiates(e, val, calc),
        val(a.pull(hi, lo, calc)) is Some,
        val(b.pull(hi, lo, calc)) is Some,
        a.worth(pair_weight(a.mode, a.labs, a.order(), hi, lo, calc), calc) == b.worth(
            pair_weight(b.mode, b.labs, b.order(), hi, lo, calc),
            calc,
        ),
        val(a.worth(pair_weight(a.mode, a.labs, a.order(), hi, lo, calc), calc))->0 >= 0real,
        val(a.scores[hi])->0 - val(a.scores[lo])->0 <= val(b.scores[hi])->0 - val(
            b.scores[lo],
        )->0,
    ensures
        0real <= val(b.pull(hi, lo, calc))->0 <= val(a.pull(hi, lo, calc))->0,
{
    let one = Wide { bits: ONE };
    let ra = a.risk(hi, lo, calc);
    let rb = b.risk(hi, lo, calc);
    let ea = calc.exponential(calc.minus(a.scores[hi], a.scores[lo]));
    let eb = calc.exponential(calc.minus(b.scores[hi], b.scores[lo]));
    assert(val(ra) is Some && val(rb) is Some);
    assert(val(calc.plus(one, ea)) is Some && val(calc.plus(one, eb)) is Some);
    assert(val(ea) is Some && val(eb) is Some);
    let la = val(a.scores[hi])->0 - val(a.scores[lo])->0;
    let lb = val(b.scores[hi])->0 - val(b.scores[lo])->0;
    assert(val(calc.minus(a.scores[hi], a.scores[lo])) is Some);
    assert(val(calc.minus(b.scores[hi], b.scores[lo])) is Some);
    exponentials_rise(e, la, lb);
    exponentials_are_positive(e, la);
    exponentials_are_positive(e, lb);
    let w = val(a.worth(pair_weight(a.mode, a.labs, a.order(), hi, lo, calc), calc))->0;
    let x = val(ra)->0;
    let y = val(rb)->0;
    undivided(1real, 1real + e(la));
    undivided(1real, 1real + e(lb));
    if y < 0real {
        above_zero(0real - y, 1real + e(lb));
        gather(0real, y, 1real + e(lb));
        vanish(1real + e(lb));
    }
    if x < y {
        // y (1 + e(lb)) would exceed x (1 + e(la)).
        above_zero(y - x, 1real + e(la));
        gather(y, x, 1real + e(la));
        not_below_zero(y, e(lb) - e(la));
        spread(y, 1real + e(lb), 1real + e(la));
    }
    not_below_zero(x - y, w);
    gather(x, y, w);
    not_below_zero(y, w);
}

/// The gain of a label is one less than two to its power: no relevance gains nothing,
/// and gains rise with relevance.
pub proof fn gains_double<F: Fn(Op, u64, u64) -> u64>(
    a: Wide,
    b: Wide,
    l: real,
    e: spec_fn(real) -> real,
    val: spec_fn(Wide) -> Option<real>,
    calc: &Calc<F>,
)
    requires
        is_exact(val, calc),
        exponentiates(e, val, calc),
        e(l) == 2real,
        val(gain_of(a, calc)) is Some,
        val(gain_of(b, calc)) is Some,
    ensures
        val(a)->0 == 0real ==> val(gain_of(a, calc))->0 == 0real,
        val(b)->0 == val(a)->0 + 1real ==> val(gain_of(b, calc))->0 + 1real == 2real * (val(
            gain_of(a, calc),
        )->0 + 1real),
        val(a)->0 < val(b)->0 <==> val(gain_of(a, calc))->0 < val(gain_of(b, calc))->0,
{
    let two = Wide { bits: TWO };
    let pa = calc.power(two, a);
    let pb = calc.power(two, b);
    assert(val(pa) is Some && val(pb) is Some);
    let x = val(a)->0;
    let y = val(b)->0;
    exponential_of_zero(e);
    exponentials_rise(e, 0real, l);
    vanish(l);
    exponentials_rise(e, x * l, y * l);
    if x < y {
        above_zero(y - x, l);
        gather(y, x, l);
    } else {
        not_below_zero(x - y, l);
        gather(x, y, l);
    }
    if y == x + 1real {
        gather(x, 1real, l);
        once(l);
        assert(multiplies(e, x * l, l));
        swap(e(x * l), 2real);
    }
}

/// The discount of a place is the inverse of a binary logarithm: the first place is not
/// discounted, and discounts fall from place to place.
pub proof fn discounts_fall<F: Fn(Op, u64, u64) -> u64>(
    p: int,
    q: int,
    l: real,
    e: spec_fn(real) -> real,
    val: spec_fn(Wide) -> Option<real>,
    calc: &Calc<F>,
)
    requires
        is_exact(val, calc),
        exponentiates(e, val, calc),
        e(l) == 2real,
        0 <= p < q <= u32::MAX,
        val(discount_of(p, calc)) is Some,
        val(discount_of(q, calc)) is Some,
    ensures
        p == 0 ==> val(discount_of(p, calc))->0 == 1real,
        0real < val(discount_of(q, calc))->0 < val(discount_of(p, calc))->0,
        e(l / val(discount_of(p, calc))->0) == (p + 2) as real,
{
    let one = Wide { bits: ONE };
    let bp = calc.binary_logarithm(calc.of(p + 2));
    let bq = calc.binary_logarithm(calc.of(q + 2));
    assert(val(bp) is Some && val(bq) is Some);
    assert(val(calc.of(p + 2)) is Some && val(calc.of(q + 2)) is Some);
    let x = val(bp)->0;
    let y = val(bq)->0;
    let dp = val(discount_of(p, calc))->0;
    let dq = val(discount_of(q, calc))->0;
    exponential_of_zero(e);
    exponentials_rise(e, 0real, l);
    assert(e(x * l) == (p + 2) as real);
    assert(e(y * l) == (q + 2) as real);
    exponentials_rise(e, 0real, x * l);
    exponentials_rise(e, l, x * l);
    exponentials_rise(e, x * l, y * l);
    assert(x > 0real) by {
        if x <= 0real {
            not_below_zero(0real - x, l);
            gather(0real, x, l);
            vanish(l);
        }
    }
    assert(y > x) by {
        if y <= x {
            not_below_zero(x - y, l);
            gather(x, y, l);
        }
    }
    undivided(1real, x);
    undivided(1real, y);
    assert(dq > 0real) by {
        if dq <= 0real {
            not_below_zero(0real - dq, y);
            gather(0real, dq, y);
            vanish(y);
        }
    }
    if dp <= dq {
        above_zero(dq, y - x);
        spread(dq, y, x);
        not_below_zero(dq - dp, x);
        gather(dq, dp, x);
    }
    turn(x, l, dp);
    swap(x, dp);
    once(l);
    quotient(l, dp, x * l);
    if p == 0 {
        if x != 1real {
            gather(x, 1real, l);
            once(l);
            products_are_not_zero(x - 1real, l);
        }
        once(dp);
    }
}

/// The discounted gain of the first `n` places of an order.
pub open spec fn gain_sum<F: Fn(Op, u64, u64) -> u64>(
    gains: Seq<Wide>,
    order: Seq<usize>,
    n: int,
    val: spec_fn(Wide) -> Option<real>,
    calc: &Calc<F>,
) -> real
    decreases n,
{
    if n <= 0 {
        0real
    } else {
        gain_sum(gains, order, n - 1, val, calc) + val(gains[order[n - 1] as int])->0 * val(
            discount_of(n - 1, calc),
        )->0
    }
}

/// An order in which the documents at two places have changed places.
pub open spec fn swapped(order: Seq<usize>, p: int, q: int) -> Seq<usize> {
    order.update(p, order[q]).update(q, order[p])
}

/// Discounted gains are sums of gains times discounts.
pub proof fn discounted_gains_are_sums<F: Fn(Op, u64, u64) -> u64>(
    gains: Seq<Wide>,
    order: Seq<usize>,
    n: int,
    val: spec_fn(Wide) -> Option<real>,
    calc: &Calc<F>,
)
    requires
        is_exact(val, calc),
    ensures
        stands(discounted(gains, order, n, calc), gain_sum(gains, order, n, val, calc), val),
    decreases n,
{
    if n > 0 {
        discounted_gains_are_sums(gains, order, n - 1, val, calc);
    }
}

proof fn another_document<F: Fn(Op, u64, u64) -> u64>(
    gains: Seq<Wide>,
    order: Seq<usize>,
    p: int,
    d: usize,
    n: int,
    val: spec_fn(Wide) -> Option<real>,
    calc: &Calc<F>,
)
    requires
        0 <= p < order.len(),
        n <= order.len(),
    ensures
        gain_sum(gains, order.update(p, d), n, val, calc) == gain_sum(gains, order, n, val, calc)
            + if p < n {
            (val(gains[d as int])->0 - val(gains[order[p] as int])->0) * val(
                discount_of(p, calc),
            )->0
        } else {
            0real
        },
    decreases n,
{
    if n > 0 {
        another_document(gains, order, p, d, n - 1, val, calc);
        gather(
            val(gains[d as int])->0,
            val(gains[order[p] as int])->0,
            val(discount_of(p, calc))->0,
        );
    }
}

/// A pair weighs by what swapping its documents does to the discounted gain of the
/// order, in units of the greatest discounted gain.
pub proof fn pairs_weigh_by_the_gain_of_a_swap<F: Fn(Op, u64, u64) -> u64>(
    labs: Seq<Wide>,
    order: Seq<usize>,
    ph: int,
    pl: int,
    val: spec_fn(Wide) -> Option<real>,
    calc: &Calc<F>,
)
    requires
        is_exact(val, calc),
        magnitudes_stand(val),
        order.no_duplicates(),
        order.len() == labs.len(),
        forall|k: int| 0 <= k < order.len() ==> #[trigger] order[k] < labs.len(),
        0 <= ph < order.len(),
        0 <= pl < order.len(),
        ph != pl,
        !ideal_gain(labs, calc).le(Wide { bits: 0 }),
        val(
            pair_weight(
                RankMode::Ndcg,
                labs,
                order,
                order[ph] as int,
                order[pl] as int,
                calc,
            ),
        ) is Some,
    ensures
        ({
            let gains = gains_of(labs, calc);
            let n = order.len() as int;
            let change = gain_sum(gains, order, n, val, calc) - gain_sum(
                gains,
                swapped(order, ph, pl),
                n,
                val,
                calc,
            );
            let weight = val(
                pair_weight(
                    RankMode::Ndcg,
                    labs,
                    order,
                    order[ph] as int,
                    order[pl] as int,
                    calc,
                ),
            )->0;
            let ideal = gain_sum(gains, falling_order(gains), n, val, calc);
            weight * ideal == change || weight * ideal == 0real - change
        }),
        val(
            pair_weight(
                RankMode::Ndcg,
                labs,
                order,
                order[ph] as int,
                order[pl] as int,
                calc,
            ),
        )->0 >= 0real,
{
    let gains = gains_of(labs, calc);
    let n = order.len() as int;
    let hi = order[ph] as int;
    let lo = order[pl] as int;
    let a = place_in(order, hi);
    let b = place_in(order, lo);
    assert(order[ph] == hi && order[pl] == lo);
    assert(0 <= a < order.len() && order[a] == hi);
    assert(0 <= b < order.len() && order[b] == lo);
    assert(a == ph && b == pl);
    another_document(gains, order, ph, order[pl], n, val, calc);
    another_document(gains, order.update(ph, order[pl]), pl, order[ph], n, val, calc);
    let gh = val(gains[hi])->0;
    let gl = val(gains[lo])->0;
    let dh = val(discount_of(ph, calc))->0;
    let dl = val(discount_of(pl, calc))->0;
    let d1 = calc.minus(gains[hi], gains[lo]);
    let d2 = calc.minus(discount_of(ph, calc), discount_of(pl, calc));
    let product = calc.times(d1, d2);
    let ideal = ideal_gain(labs, calc);
    discounted_gains_are_sums(gains, falling_order(gains), n, val, calc);
    let ratio = calc.over(product, ideal);
    assert(val(ratio) is Some);
    assert(val(product) is Some);
    assert(val(d1) is Some && val(d2) is Some);
    undivided(val(product)->0, val(ideal)->0);
    let z = val(ideal)->0;
    let r = val(ratio)->0;
    gather(0real, r, z);
    vanish(z);
    spread(gh - gl, dh, dl);
    gather(gh, gl, dh);
    gather(gh, gl, dl);
    gather(gl, gh, dh);
}

/// Of two documents the more relevant one is pulled up and the other one down by as much;
/// documents of equal relevance do not pull at each other, and no other document moves.
pub proof fn the_more_relevant_is_pulled_up<F: Fn(Op, u64, u64) -> u64>(
    query: Query,
    t: Tally,
    a: int,
    b: int,
    e: spec_fn(real) -> real,
    val: spec_fn(Wide) -> Option<real>,
    calc: &Calc<F>,
)
    requires
        is_exact(val, calc),
        singles_are_exact(val, calc),
        exponentiates(e, val, calc),
        lies_in(query, t.out),
        0 <= a < query.labs.len(),
        0 <= b < query.labs.len(),
        a != b,
        val(query.labs[a]) is Some,
        val(query.labs[b]) is Some,
        forall|i: int|
            0 <= i < t.out.len() ==> is_number(#[trigger] t.out[i].grad, val, calc) && is_number(
                query.looked_at(t, a, b, calc).out[i].grad,
                val,
                calc,
            ),
        ({
            let hi = if val(query.labs[b])->0 < val(query.labs[a])->0 { a } else { b };
            let lo = if val(query.labs[b])->0 < val(query.labs[a])->0 { b } else { a };
            let weight = pair_weight(query.mode, query.labs, query.order(), hi, lo, calc);
            val(query.worth(weight, calc)) is Some && val(query.worth(weight, calc))->0 >= 0real
        }),
    ensures
        ({
            let after = query.looked_at(t, a, b, calc).out;
            let hi = if val(query.labs[b])->0 < val(query.labs[a])->0 { a } else { b };
            let lo = if val(query.labs[b])->0 < val(query.labs[a])->0 { b } else { a };
            let weight = pair_weight(query.mode, query.labs, query.order(), hi, lo, calc);
            let rise = number(t.out[query.start + hi].grad, val, calc) - number(
                after[query.start + hi].grad,
                val,
                calc,
            );
            &&& val(query.labs[a])->0 == val(query.labs[b])->0 ==> after == t.out
            &&& rise >= 0real
            &&& number(after[query.start + lo].grad, val, calc) - number(
                t.out[query.start + lo].grad,
                val,
                calc,
            ) == rise
            &&& !query.share(calc).lt(Wide { bits: ONE }) && val(query.labs[a])->0 != val(
                query.labs[b],
            )->0 && val(query.worth(weight, calc))->0 > 0real && !weight.same(
                Wide { bits: 0 },
            ) ==> rise > 0real
            &&& forall|i: int|
                0 <= i < t.out.len() && i != query.start + a && i != query.start + b
                    ==> #[trigger] after[i] == t.out[i]
        }),
{
    let hi = if val(query.labs[b])->0 < val(query.labs[a])->0 { a } else { b };
    let lo = if val(query.labs[b])->0 < val(query.labs[a])->0 { b } else { a };
    let weight = pair_weight(query.mode, query.labs, query.order(), hi, lo, calc);
    let after = query.looked_at(t, a, b, calc).out;
    assert(query.labs[a].le(query.labs[b]) <==> val(query.labs[a])->0 <= val(query.labs[b])->0);
    assert(query.labs[b].le(query.labs[a]) <==> val(query.labs[b])->0 <= val(query.labs[a])->0);
    assert(query.labs[b].lt(query.labs[a]) <==> val(query.labs[b])->0 < val(query.labs[a])->0);
    assert(t.out[query.start + hi].grad == t.out[query.start + hi].grad);
    assert(t.out[query.start + lo].grad == t.out[query.start + lo].grad);
    if after != t.out {
        assert(after == query.paired(t.out, hi, lo, calc));
    }
    if after == query.paired(t.out, hi, lo, calc) && !weight.same(Wide { bits: 0 }) {
        let one = Wide { bits: ONE };
        let grad = calc.narrowed(query.pull(hi, lo, calc));
        assert(after[query.start + hi].grad == calc.minus_s(t.out[query.start + hi].grad, grad));
        assert(after[query.start + lo].grad == calc.plus_s(t.out[query.start + lo].grad, grad));
        assert(is_number(grad, val, calc));
        assert(val(query.pull(hi, lo, calc)) is Some);
        let risk = query.risk(hi, lo, calc);
        assert(val(risk) is Some);
        let ex = calc.exponential(calc.minus(query.scores[hi], query.scores[lo]));
        assert(val(calc.plus(one, ex)) is Some);
        assert(val(ex) is Some);
        exponentials_are_positive(e, val(calc.minus(query.scores[hi], query.scores[lo]))->0);
        let s = 1real + val(ex)->0;
        let r = val(risk)->0;
        undivided(1real, s);
        if r <= 0real {
            not_below_zero(0real - r, s);
            gather(0real, r, s);
            vanish(s);
        }
        let w = val(query.worth(weight, calc))->0;
        not_below_zero(r, w);
        if w > 0real {
            above_zero(r, w);
        }
    }
}

/// The pairs that are kept stand for all: where a group has more pairs than are looked at,
/// a kept one counts as much more as there are more pairs.
pub proof fn kept_pairs_stand_for_all<F: Fn(Op, u64, u64) -> u64>(
    query: Query,
    weight: Wide,
    val: spec_fn(Wide) -> Option<real>,
    calc: &Calc<F>,
)
    requires
        is_exact(val, calc),
        query.labs.len() <= u32::MAX,
        val(query.share(calc)) is Some,
        val(query.worth(weight, calc)) is Some,
    ensures
        ({
            let m = query.labs.len() as int;
            let total = m * (m - 1) / 2;
            &&& total <= MAX_PAIRS_PER_GROUP ==> query.worth(weight, calc) == weight
            &&& total > MAX_PAIRS_PER_GROUP ==> val(query.worth(weight, calc))->0 * (
            MAX_PAIRS_PER_GROUP as int as real) == val(weight)->0 * (total as real)
        }),
{
    let m = query.labs.len() as int;
    let total = m * (m - 1) / 2;
    let one = Wide { bits: ONE };
    assert(m * (m - 1) <= u64::MAX) by (nonlinear_arith)
        requires
            0 <= m <= u32::MAX,
    ;
    if total > MAX_PAIRS_PER_GROUP {
        let share = query.share(calc);
        let all = calc.of(total);
        let most = calc.of(MAX_PAIRS_PER_GROUP as int);
        assert(share == calc.over(most, all));
        assert(val(most) is Some && val(all) is Some);
        let s = val(share)->0;
        let n = total as real;
        let k = MAX_PAIRS_PER_GROUP as int as real;
        undivided(k, n);
        assert(s < 1real) by {
            if s >= 1real {
                not_below_zero(s - 1real, n);
                gather(s, 1real, n);
                once(n);
            }
        }
        assert(share.lt(one));
        let w = val(query.worth(weight, calc))->0;
        undivided(val(weight)->0, s);
        shift(w, s, n);
    } else {
        assert(!one.lt(one));
    }
}

/// The number that a word stands for when pairs are sampled lies in `[0, 1)`, and is the
/// word's upper bits over the number of values that these can have.
pub proof fn sampling_words_stand_for_unit_numbers<F: Fn(Op, u64, u64) -> u64>(
    word: u64,
    val: spec_fn(Wide) -> Option<real>,
    calc: &Calc<F>,
)
    requires
        is_exact(val, calc),
        val(unit_word(word, calc)) is Some,
    ensures
        val(unit_word(word, calc))->0 * (0x20_0000_0000_0000int as real) == (((word
            / 0x800) as int) as real),
        0real <= val(unit_word(word, calc))->0 < 1real,
{
    let top = (word / 0x800) as int;
    let n = 0x20_0000_0000_0000int as real;
    let t = top as real;
    let u = val(unit_word(word, calc))->0;
    assert(val(calc.of(top)) is Some && val(calc.of(0x20_0000_0000_0000)) is Some);
    undivided(t, n);
    assert(top < 0x20_0000_0000_0000);
    if u < 0real {
        above_zero(0real - u, n);
        gather(0real, u, n);
        vanish(n);
    }
    if u >= 1real {
        not_below_zero(u - 1real, n);
        gather(u, 1real, n);
        once(n);
    }
}

} // verus!
