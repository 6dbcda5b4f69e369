//! How average precision changes when two documents swap places, in arithmetics that do
//! not round.

use vstd::prelude::*;

use crate::arith::{Calc, Op};
use crate::exact::{
    above_zero, distance_from_zero, equal_factors, gather, is_exact, magnitudes_stand,
    not_below_zero, once, shift, spread, undivided, vanish,
};
use crate::number::{Wide, ONE};
use crate::objective::rank_laws::swapped;
use crate::objective::ranking::{
    pair_weight, place_in, precision_before, precision_change, relevance, relevant_at,
    relevant_before, RankMode,
};

verus! {

/// The sum, over the relevant documents in the first `n` places of an order, of the share
/// of relevant documents up to their place.
pub open spec fn share_sum(labs: Seq<Wide>, order: Seq<usize>, n: int) -> real
    decreases n,
{
    if n <= 0 {
        0real
    } else {
        share_sum(labs, order, n - 1) + if relevant_at(labs, order, n - 1) {
            (relevant_before(labs, order, n) as real) / (n as real)
        } else {
            0real
        }
    }
}

spec fn mark(labs: Seq<Wide>, order: Seq<usize>, p: int) -> int {
    if relevant_at(labs, order, p) { 1 } else { 0 }
}

/// The sum of one over the places of the relevant documents in the first `n` places.
spec fn mark_sum(labs: Seq<Wide>, order: Seq<usize>, n: int) -> real
    decreases n,
{
    if n <= 0 {
        0real
    } else {
        mark_sum(labs, order, n - 1) + (mark(labs, order, n - 1) as real) / (n as real)
    }
}

proof fn fractions_add(a: real, b: real, n: real)
    requires
        n != 0real,
    ensures
        (a + b) / n == a / n + b / n,
        b * (1real / n) == b / n,
        0real / n == 0real,
        b * (0real / n) == 0real,
        (a - b) / n == a / n - b / n,
{
    undivided(a + b, n);
    undivided(a - b, n);
    undivided(a, n);
    undivided(b, n);
    undivided(1real, n);
    undivided(0real, n);
    gather(a / n, b / n, n);
    equal_factors((a + b) / n, a / n + b / n, n);
    equal_factors((a - b) / n, a / n - b / n, n);
    shift(b, 1real / n, n);
    once(b);
    equal_factors(b * (1real / n), b / n, n);
    vanish(n);
    equal_factors(0real / n, 0real, n);
    vanish(b);
}

/// What the swap of the documents at places `p < q` adds to the relevant documents of the
/// places from `p` on, up to `q`.
spec fn moved(labs: Seq<Wide>, order: Seq<usize>, p: int, q: int) -> int {
    mark(labs, order, q) - mark(labs, order, p)
}

proof fn swaps_move_marks(labs: Seq<Wide>, order: Seq<usize>, p: int, q: int, n: int)
    requires
        0 <= p < q < order.len(),
        0 <= n <= order.len(),
    ensures
        relevant_before(labs, swapped(order, p, q), n) == relevant_before(labs, order, n)
            + if p < n && n <= q {
            moved(labs, order, p, q)
        } else {
            0
        },
    decreases n,
{
    if n > 0 {
        swaps_move_marks(labs, order, p, q, n - 1);
    }
}

/// What the swap changes at place `p`.
spec fn first_change(labs: Seq<Wide>, order: Seq<usize>, p: int, q: int) -> real {
    let a = mark(labs, order, p);
    let b = mark(labs, order, q);
    let seen = relevant_before(labs, order, p + 1);
    ((b * (seen - a + b) - a * seen) as real) / ((p + 1) as real)
}

/// What the swap changes at place `q`.
spec fn last_change(labs: Seq<Wide>, order: Seq<usize>, p: int, q: int) -> real {
    let a = mark(labs, order, p);
    let b = mark(labs, order, q);
    (((a - b) * relevant_before(labs, order, q + 1)) as real) / ((q + 1) as real)
}

proof fn swaps_change_shares(labs: Seq<Wide>, order: Seq<usize>, p: int, q: int, n: int)
    requires
        0 <= p < q < order.len(),
        0 <= n <= order.len(),
    ensures
        ({
            let d = moved(labs, order, p, q) as real;
            let change = share_sum(labs, swapped(order, p, q), n) - share_sum(labs, order, n);
            &&& n <= p ==> change == 0real
            &&& p < n && n <= q ==> change == first_change(labs, order, p, q) + d * (mark_sum(
                labs,
                order,
                n,
            ) - mark_sum(labs, order, p + 1))
            &&& q < n ==> change == first_change(labs, order, p, q) + d * (mark_sum(labs, order, q)
                - mark_sum(labs, order, p + 1)) + last_change(labs, order, p, q)
        }),
    decreases n,
{
    if n > 0 {
        let after = swapped(order, p, q);
        let d = moved(labs, order, p, q);
        swaps_change_shares(labs, order, p, q, n - 1);
        swaps_move_marks(labs, order, p, q, n);
        let k = n - 1;
        let nr = n as real;
        let a = mark(labs, order, p);
        let b = mark(labs, order, q);
        let seen = relevant_before(labs, order, n);
        vanish(d as real);
        fractions_add(seen as real, d as real, nr);
        if k == p {
            assert(relevant_at(labs, after, k) <==> relevant_at(labs, order, q));
            fractions_add(((b * (seen - a + b)) as real), ((a * seen) as real), nr);
            assert(b == 1 ==> b * (seen - a + b) == seen + d) by (nonlinear_arith)
                requires
                    d == b - a,
            ;
            assert(b == 0 ==> b * (seen - a + b) == 0) by (nonlinear_arith);
            assert(a == 1 ==> a * seen == seen) by (nonlinear_arith);
            assert(a == 0 ==> a * seen == 0) by (nonlinear_arith);
        } else if k == q {
            assert(relevant_at(labs, after, k) <==> relevant_at(labs, order, p));
            assert(a == b ==> (a - b) * seen == 0) by (nonlinear_arith);
            assert(a == 1 && b == 0 ==> (a - b) * seen == seen) by (nonlinear_arith);
            assert(a == 0 && b == 1 ==> (a - b) * seen == 0 - seen) by (nonlinear_arith);
            fractions_add(0real, seen as real, nr);
        } else if p < k && k < q {
            assert(relevant_at(labs, after, k) <==> relevant_at(labs, order, k));
            let m = (mark(labs, order, k) as real) / nr;
            spread(
                d as real,
                mark_sum(labs, order, n - 1) - mark_sum(labs, order, p + 1),
                m,
            );
        } else {
            assert(relevant_at(labs, after, k) <==> relevant_at(labs, order, k));
        }
    }
}

proof fn marks_are_counted(labs: Seq<Wide>, order: Seq<usize>, n: int, k: int)
    requires
        0 <= k <= n,
    ensures
        0 <= relevant_before(labs, order, k) <= relevant_before(labs, order, n) <= n,
    decreases n,
{
    if n > 0 {
        if k == n {
            marks_are_counted(labs, order, n - 1, n - 1);
        } else {
            marks_are_counted(labs, order, n - 1, k);
        }
    }
}

proof fn mark_sums_stand<F: Fn(Op, u64, u64) -> u64>(
    labs: Seq<Wide>,
    order: Seq<usize>,
    n: int,
    val: spec_fn(Wide) -> Option<real>,
    calc: &Calc<F>,
)
    requires
        is_exact(val, calc),
        0 <= n <= u32::MAX,
        val(precision_before(labs, order, n, calc)) is Some,
    ensures
        val(precision_before(labs, order, n, calc))->0 == mark_sum(labs, order, n),
    decreases n,
{
    if n > 0 {
        mark_sums_stand(labs, order, n - 1, val, calc);
        assert(val(calc.over(relevance(labs, order, n - 1), calc.of(n))) is Some);
    }
}

/// A pair weighs, for average precision, by how much the average precision of the group
/// changes when its documents swap places.
pub proof fn pairs_weigh_by_the_precision_of_a_swap<F: Fn(Op, u64, u64) -> u64>(
    labs: Seq<Wide>,
    order: Seq<usize>,
    ph: int,
    pl: int,
    val: spec_fn(Wide) -> Option<real>,
    calc: &Calc<F>,
)
    requires
        is_exact(val, calc),
        magnitudes_stand(val),
        order.no_duplicates(),
        order.len() == labs.len() <= u32::MAX,
        forall|k: int| 0 <= k < order.len() ==> #[trigger] order[k] < labs.len(),
        0 <= ph < order.len(),
        0 <= pl < order.len(),
        ph != pl,
        val(
            pair_weight(
                RankMode::Precision,
                labs,
                order,
                order[ph] as int,
                order[pl] as int,
                calc,
            ),
        ) is Some,
    ensures
        ({
            let n = order.len() as int;
            let weight = val(
                pair_weight(
                    RankMode::Precision,
                    labs,
                    order,
                    order[ph] as int,
                    order[pl] as int,
                    calc,
                ),
            )->0;
            weight * (relevant_before(labs, order, n) as real) == distance_from_zero(
                share_sum(labs, swapped(order, ph, pl), n) - share_sum(labs, order, n),
            )
        }),
{
    let a = place_in(order, order[ph] as int);
    let b = place_in(order, order[pl] as int);
    assert(order[ph] == order[ph] as int && order[pl] == order[pl] as int);
    assert(0 <= a < order.len() && order[a] == order[ph]);
    assert(0 <= b < order.len() && order[b] == order[pl]);
    assert(a == ph && b == pl);
    let n = order.len() as int;
    if relevant_before(labs, order, n) == 0 {
        vanish(0real);
        let p = if ph < pl { ph } else { pl };
        let q = if ph < pl { pl } else { ph };
        assert(swapped(order, ph, pl) =~= swapped(order, p, q));
        marks_are_counted(labs, order, n, p + 1);
        marks_are_counted(labs, order, n, p);
        marks_are_counted(labs, order, n, q + 1);
        marks_are_counted(labs, order, n, q);
        assert(mark(labs, order, p) == 0 && mark(labs, order, q) == 0);
        swaps_of_equals(labs, order, p, q, n);
    } else if ph > pl {
        assert(swapped(order, ph, pl) =~= swapped(order, pl, ph));
        changes_stand(labs, order, pl, ph, val, calc);
    } else {
        changes_stand(labs, order, ph, pl, val, calc);
    }
}

proof fn swaps_of_equals(labs: Seq<Wide>, order: Seq<usize>, p: int, q: int, n: int)
    requires
        0 <= p < q < order.len(),
        0 <= n <= order.len(),
        mark(labs, order, p) == mark(labs, order, q),
    ensures
        share_sum(labs, swapped(order, p, q), n) == share_sum(labs, order, n),
    decreases n,
{
    if n > 0 {
        swaps_of_equals(labs, order, p, q, n - 1);
        swaps_move_marks(labs, order, p, q, n);
        let after = swapped(order, p, q);
        assert(relevant_at(labs, after, n - 1) <==> relevant_at(labs, order, n - 1));
    }
}

proof fn changes_stand<F: Fn(Op, u64, u64) -> u64>(
    labs: Seq<Wide>,
    order: Seq<usize>,
    p: int,
    q: int,
    val: spec_fn(Wide) -> Option<real>,
    calc: &Calc<F>,
)
    requires
        is_exact(val, calc),
        magnitudes_stand(val),
        0 <= p < q < order.len() <= u32::MAX,
        val(precision_change(labs, order, p, q, calc)) is Some,
    ensures
        ({
            let n = order.len() as int;
            val(precision_change(labs, order, p, q, calc))->0 * (relevant_before(
                labs,
                order,
                n,
            ) as real) == distance_from_zero(
                share_sum(labs, swapped(order, p, q), n) - share_sum(labs, order, n),
            )
        }),
{
    let n = order.len() as int;
    let rp = relevance(labs, order, p);
    let rq = relevance(labs, order, q);
    let a = mark(labs, order, p);
    let b = mark(labs, order, q);
    let hits = relevant_before(labs, order, n);
    marks_are_counted(labs, order, n, p + 1);
    marks_are_counted(labs, order, n, q + 1);
    marks_are_counted(labs, order, p + 1, p);
    marks_are_counted(labs, order, q + 1, q);
    let zero = Wide { bits: 0 };
    let one = Wide { bits: ONE };
    assert(zero.same(zero) <==> val(zero) == Some(0real));
    assert(one.same(zero) <==> val(one) == Some(0real));
    if a == b {
        assert(rp == rq);
        assert(one.same(one)) by {
            assert(one.le(one));
        }
        assert(rp.same(rq));
        swaps_of_equals(labs, order, p, q, n);
        vanish(hits as real);
    } else {
        assert(!rp.same(rq)) by {
            assert(!zero.same(one));
        }
        swaps_change_shares(labs, order, p, q, n);
        let seen_p = relevant_before(labs, order, p + 1);
        let seen_q = relevant_before(labs, order, q + 1);
        let cum_p = calc.of(seen_p);
        let cum_q = calc.of(seen_q);
        let grown = calc.plus(calc.minus(cum_p, rp), rq);
        let gained = calc.times(rq, grown);
        let lost = calc.times(rp, cum_p);
        let first = calc.minus(gained, lost);
        let at_p = calc.over(first, calc.of(p + 1));
        let between = calc.minus(
            precision_before(labs, order, q, calc),
            precision_before(labs, order, p + 1, calc),
        );
        let delta = calc.minus(rq, rp);
        let middle = calc.times(delta, between);
        let back = calc.times(calc.minus(rp, rq), cum_q);
        let at_q = calc.over(back, calc.of(q + 1));
        let inner = calc.plus(at_p, middle);
        let sum = calc.plus(inner, at_q);
        let ratio = calc.over(sum, calc.of(hits));
        assert(precision_change(labs, order, p, q, calc) == ratio.absolute());
        assert(val(ratio) is Some);
        assert(val(sum) is Some);
        assert(val(inner) is Some && val(at_q) is Some);
        assert(val(at_p) is Some && val(middle) is Some);
        assert(val(first) is Some && val(back) is Some && val(between) is Some);
        assert(val(gained) is Some && val(lost) is Some);
        assert(val(grown) is Some);
        assert(val(calc.minus(cum_p, rp)) is Some);
        assert(val(calc.minus(rp, rq)) is Some);
        mark_sums_stand(labs, order, q, val, calc);
        mark_sums_stand(labs, order, p + 1, val, calc);
        let ar = a as real;
        let br = b as real;
        let sp = seen_p as real;
        let sq = seen_q as real;
        assert((b * (seen_p - a + b) - a * seen_p) as real == br * ((sp - ar) + br) - ar * sp)
            by (nonlinear_arith)
            requires
                ar == a as real,
                br == b as real,
                sp == seen_p as real,
        ;
        assert(((a - b) * seen_q) as real == (ar - br) * sq) by (nonlinear_arith)
            requires
                ar == a as real,
                br == b as real,
                sq == seen_q as real,
        ;
        let s = val(sum)->0;
        let h = hits as real;
        undivided(s, h);
        let r = s / h;
        gather(0real, r, h);
        vanish(h);
        if r < 0real {
            above_zero(0real - r, h);
        } else {
            not_below_zero(r, h);
        }
    }
}

} // verus!
