//! What leaf weights, scores and split gains mean for the regularized loss, in
//! arithmetics that do not round.

use vstd::prelude::*;

use crate::arith::{Calc, Op};
use crate::booster::laws::{magnitude, penalized, penalties_join_the_loss};
use crate::exact::{
    above_zero, equal_factors, gather, is_exact, not_below_zero, once, shift, swap, twice,
    undivided, vanish,
};
use crate::number::{Wide, HALF, TWO};
use crate::sort::stable_order;
use crate::tree::builder::growth::{ratio, ratio_keys, target_of, weighed};
use crate::tree::constraints::{bounded_weight, midpoint, score_at, Bounds};
use crate::tree::gain::{score, shrunk, too_light, weight, GradStats, RegParams};
use crate::tree::optimum::{peaked, scores_fall_from_the_peak, scores_stand};

verus! {

/// A gradient sum moved towards zero by `alpha`, and not past it.
spec fn towards_zero(g: real, alpha: real) -> real {
    if alpha < g {
        g - alpha
    } else if g < 0real - alpha {
        g + alpha
    } else {
        0real
    }
}

/// Whether a weight runs against a shrunken gradient sum, as one that lowers the
/// loss does, or is zero.
spec fn runs_against(t: real, w: real) -> bool {
    w == 0real || (t > 0real && w < 0real) || (t < 0real && w > 0real)
}

/// The regularized loss is nowhere below what the shrunken gradient sum makes of
/// it, and the same where the weight runs against that sum.
proof fn losses_shrink(g: real, h: real, alpha: real, lambda: real, w: real)
    requires
        alpha >= 0real,
    ensures
        penalized(g, h, 0real, alpha, lambda, w) >= 0real - peaked(
            towards_zero(g, alpha),
            h + lambda,
            w,
        ),
        runs_against(towards_zero(g, alpha), w) || alpha == 0real ==> penalized(
            g,
            h,
            0real,
            alpha,
            lambda,
            w,
        ) == 0real - peaked(towards_zero(g, alpha), h + lambda, w),
{
    let t = towards_zero(g, alpha);
    let m = magnitude(0real + w);
    penalties_join_the_loss(g, h, 0real, alpha, lambda, w);
    vanish(lambda);
    vanish(0real);
    vanish(w);
    vanish(m);
    vanish(g);
    vanish(alpha);
    twice(t);
    gather(t, t, w);
    not_below_zero(alpha, m);
    gather(0real, w, alpha);
    swap(alpha, m);
    swap(alpha, w);
    if alpha < g {
        gather(g, alpha, w);
        if w >= 0real {
            not_below_zero(alpha, w);
        }
    } else if g < 0real - alpha {
        gather(g, alpha, w);
        if w < 0real {
            not_below_zero(alpha, m);
        } else {
            not_below_zero(alpha, w);
        }
    } else {
        // |g w| is no more than alpha |w|.
        gather(alpha, g, w);
        gather(alpha, g, m);
        not_below_zero(alpha + g, m);
        not_below_zero(alpha - g, m);
        gather(0real, w, g);
        swap(g, m);
        swap(g, w);
    }
}

proof fn sums_stand<F: Fn(Op, u64, u64) -> u64>(
    stats: GradStats,
    reg: RegParams,
    val: spec_fn(Wide) -> Option<real>,
    calc: &Calc<F>,
)
    requires
        is_exact(val, calc),
        val(stats.grad) is Some,
        val(reg.alpha.negated()) is Some,
        val(shrunk(stats.grad, reg.alpha, calc)) is Some,
    ensures
        val(shrunk(stats.grad, reg.alpha, calc))->0 == towards_zero(
            val(stats.grad)->0,
            val(reg.alpha)->0,
        ),
{
}

/// The regularized loss of a node at a leaf weight.
pub open spec fn node_loss(
    stats: GradStats,
    reg: RegParams,
    w: real,
    val: spec_fn(Wide) -> Option<real>,
) -> real {
    penalized(
        val(stats.grad)->0,
        val(stats.hess)->0,
        0real,
        val(reg.alpha)->0,
        val(reg.lambda)->0,
        w,
    )
}

/// Whether the sums and the regularization of a node stand for numbers, the curvature
/// of its loss is above zero, and the L1 penalty is none that rewards.
pub open spec fn node_stands(
    stats: GradStats,
    reg: RegParams,
    val: spec_fn(Wide) -> Option<real>,
) -> bool {
    &&& val(stats.grad) is Some
    &&& val(stats.hess) is Some
    &&& val(reg.lambda) is Some
    &&& val(stats.hess)->0 + val(reg.lambda)->0 > 0real
    &&& val(reg.alpha.negated()) is Some
    &&& val(reg.alpha)->0 >= 0real
}

/// Whether a node holds as much weight as it must, and more than none.
pub open spec fn is_heavy(
    stats: GradStats,
    reg: RegParams,
    val: spec_fn(Wide) -> Option<real>,
) -> bool {
    &&& val(stats.hess) is Some
    &&& val(reg.min_child_weight) is Some
    &&& val(stats.hess)->0 >= val(reg.min_child_weight)->0
    &&& val(stats.hess)->0 > 0real
}

/// A node that holds less weight than it must, or none, is given no weight and scores
/// nothing.
pub proof fn light_nodes_weigh_nothing<F: Fn(Op, u64, u64) -> u64>(
    stats: GradStats,
    reg: RegParams,
    bounds: Bounds,
    val: spec_fn(Wide) -> Option<real>,
    calc: &Calc<F>,
)
    requires
        is_exact(val, calc),
        val(stats.hess) is Some,
        val(reg.min_child_weight) is Some,
        !is_heavy(stats, reg, val),
    ensures
        val(weight(stats, reg, calc)) == Some(0real),
        val(score(stats, reg, calc)) == Some(0real),
        forall|w: Wide| val(#[trigger] score_at(stats, reg, w, calc)) == Some(0real),
        bounds.holds(Wide { bits: 0 }) ==> val(bounded_weight(stats, reg, bounds, calc)) == Some(
            0real,
        ),
{
}

/// No leaf weight within the greatest step, if there is one, has a smaller
/// regularized loss than the weight that a node is given.
pub proof fn leaf_weights_minimize_the_loss<F: Fn(Op, u64, u64) -> u64>(
    stats: GradStats,
    reg: RegParams,
    d: real,
    val: spec_fn(Wide) -> Option<real>,
    calc: &Calc<F>,
)
    requires
        is_exact(val, calc),
        node_stands(stats, reg, val),
        is_heavy(stats, reg, val),
        val(reg.max_delta_step.negated()) is Some,
        val(
            calc.over(
                shrunk(stats.grad, reg.alpha, calc).negated(),
                calc.plus(stats.hess, reg.lambda),
            ),
        ) is Some,
        val(reg.max_delta_step)->0 > 0real ==> magnitude(d) <= val(reg.max_delta_step)->0,
    ensures
        val(weight(stats, reg, calc)) is Some,
        node_loss(stats, reg, val(weight(stats, reg, calc))->0, val) <= node_loss(
            stats,
            reg,
            d,
            val,
        ),
        val(reg.max_delta_step)->0 > 0real ==> magnitude(val(weight(stats, reg, calc))->0) <= val(
            reg.max_delta_step,
        )->0,
{
    let g = val(stats.grad)->0;
    let hess = val(stats.hess)->0;
    let alpha = val(reg.alpha)->0;
    let lambda = val(reg.lambda)->0;
    let ts = shrunk(stats.grad, reg.alpha, calc);
    let hs = calc.plus(stats.hess, reg.lambda);
    let free = calc.over(ts.negated(), hs);
    assert(val(ts.negated()) is Some);
    sums_stand(stats, reg, val, calc);
    let t = val(ts)->0;
    let h = hess + lambda;
    let peak = val(free)->0;
    undivided(0real - t, h);
    let best = val(weight(stats, reg, calc))->0;
    against_the_sum(t, h, peak);
    losses_shrink(g, hess, alpha, lambda, best);
    losses_shrink(g, hess, alpha, lambda, d);
    if val(reg.max_delta_step)->0 > 0real {
        if peak < best || best < peak {
            // The greatest step holds the weight back.
            scores_fall_from_the_peak(t, h, peak, best, d);
        } else {
            scores_fall_from_the_peak(t, h, peak, peak, d);
        }
    } else {
        scores_fall_from_the_peak(t, h, peak, peak, d);
    }
}

proof fn against_the_sum(t: real, h: real, peak: real)
    requires
        h > 0real,
        peak * h == 0real - t,
    ensures
        runs_against(t, peak),
{
    vanish(h);
    if peak > 0real {
        above_zero(peak, h);
    } else if peak < 0real {
        above_zero(0real - peak, h);
        gather(0real, peak, h);
    }
}

/// The score of a node is what its weight takes off the regularized loss.
pub proof fn scores_are_what_weights_save<F: Fn(Op, u64, u64) -> u64>(
    stats: GradStats,
    reg: RegParams,
    val: spec_fn(Wide) -> Option<real>,
    calc: &Calc<F>,
)
    requires
        is_exact(val, calc),
        node_stands(stats, reg, val),
        val(reg.max_delta_step) == Some(0real),
        val(weight(stats, reg, calc)) is Some,
        val(score(stats, reg, calc)) is Some,
    ensures
        val(score(stats, reg, calc))->0 == node_loss(stats, reg, 0real, val) - node_loss(
            stats,
            reg,
            val(weight(stats, reg, calc))->0,
            val,
        ),
        node_loss(stats, reg, 0real, val) == 0real,
{
    let g = val(stats.grad)->0;
    let hess = val(stats.hess)->0;
    let alpha = val(reg.alpha)->0;
    let lambda = val(reg.lambda)->0;
    let ts = shrunk(stats.grad, reg.alpha, calc);
    losses_shrink(g, hess, alpha, lambda, 0real);
    let h = hess + lambda;
    vanish(h);
    vanish(2real * towards_zero(g, alpha));
    vanish(h * 0real);
    if !too_light(stats, reg) {
        let hs = calc.plus(stats.hess, reg.lambda);
        assert(weight(stats, reg, calc) == calc.over(ts.negated(), hs));
        assert(val(ts.negated()) is Some);
        sums_stand(stats, reg, val, calc);
        let t = val(ts)->0;
        let w = val(weight(stats, reg, calc))->0;
        undivided(0real - t, h);
        against_the_sum(t, h, w);
        losses_shrink(g, hess, alpha, lambda, w);
        let square = calc.times(ts, ts);
        assert(val(square) is Some);
        let s = val(score(stats, reg, calc))->0;
        undivided(t * t, h);
        // s h == t t and w h == -t, so that t w == -s.
        swap(w, h);
        gather(0real, t, w);
        vanish(w);
        vanish(t);
        twice(t);
        gather(t, t, w);
        shift(t, w, h);
        gather(0real, t, t);
        swap(t, w * h);
        gather(0real, s, h);
        equal_factors(t * w, 0real - s, h);
    }
}

/// The gain of a split is how far the best losses of the two children together lie
/// below the best loss of the node.
pub proof fn split_gains_are_loss_reductions<F: Fn(Op, u64, u64) -> u64>(
    total: GradStats,
    left: GradStats,
    right: GradStats,
    bounds: Bounds,
    dir: i8,
    reg: RegParams,
    val: spec_fn(Wide) -> Option<real>,
    calc: &Calc<F>,
)
    requires
        is_exact(val, calc),
        node_stands(total, reg, val),
        node_stands(left, reg, val),
        node_stands(right, reg, val),
        val(reg.max_delta_step) == Some(0real),
        val(weight(total, reg, calc)) is Some,
        val(weight(left, reg, calc)) is Some,
        val(weight(right, reg, calc)) is Some,
        ({
            let target = target_of(total, bounds, false, reg, calc);
            weighed(target, dir, left, right, reg, calc) matches Some((gain, _, _)) ==> val(
                gain,
            ) is Some
        }),
    ensures
        ({
            let target = target_of(total, bounds, false, reg, calc);
            &&& weighed(target, dir, left, right, reg, calc) matches Some((gain, _, _))
            &&& val(gain)->0 == node_loss(total, reg, val(weight(total, reg, calc))->0, val)
                - node_loss(left, reg, val(weight(left, reg, calc))->0, val) - node_loss(
                right,
                reg,
                val(weight(right, reg, calc))->0,
                val,
            )
        }),
{
    let both = calc.plus(score(left, reg, calc), score(right, reg, calc));
    let gain = calc.minus(both, score(total, reg, calc));
    assert(val(gain) is Some);
    assert(val(both) is Some);
    scores_are_what_weights_save(total, reg, val, calc);
    scores_are_what_weights_save(left, reg, val, calc);
    scores_are_what_weights_save(right, reg, val, calc);
}

/// Without an L1 penalty the score at a weight is what the weight takes off the
/// regularized loss, wherever the weight lies.
pub proof fn weights_score_what_they_save<F: Fn(Op, u64, u64) -> u64>(
    stats: GradStats,
    reg: RegParams,
    w: Wide,
    val: spec_fn(Wide) -> Option<real>,
    calc: &Calc<F>,
)
    requires
        is_exact(val, calc),
        node_stands(stats, reg, val),
        is_heavy(stats, reg, val),
        val(reg.alpha) == Some(0real),
        val(score_at(stats, reg, w, calc)) is Some,
    ensures
        val(score_at(stats, reg, w, calc))->0 == 0real - node_loss(stats, reg, val(w)->0, val),
{
    scores_stand(stats, reg, w, val, calc);
    sums_stand(stats, reg, val, calc);
    let linear = calc.times(
        calc.times(Wide { bits: TWO }, shrunk(stats.grad, reg.alpha, calc)),
        w,
    );
    let hs = calc.plus(stats.hess, reg.lambda);
    let square = calc.times(calc.times(hs, w), w);
    let sum = calc.plus(linear, square);
    assert(score_at(stats, reg, w, calc) == sum.negated());
    assert(val(sum) is Some);
    assert(val(square) is Some);
    assert(val(calc.times(hs, w)) is Some);
    assert(val(hs) is Some);
    losses_shrink(
        val(stats.grad)->0,
        val(stats.hess)->0,
        0real,
        val(reg.lambda)->0,
        val(w)->0,
    );
}

/// Under monotone constraints the gain of a split is how far the losses of the two
/// children at their bounded weights together lie below the loss of the node at its
/// own.
pub proof fn bounded_gains_are_loss_reductions<F: Fn(Op, u64, u64) -> u64>(
    total: GradStats,
    left: GradStats,
    right: GradStats,
    bounds: Bounds,
    dir: i8,
    reg: RegParams,
    val: spec_fn(Wide) -> Option<real>,
    calc: &Calc<F>,
)
    requires
        is_exact(val, calc),
        node_stands(total, reg, val),
        node_stands(left, reg, val),
        node_stands(right, reg, val),
        is_heavy(total, reg, val),
        is_heavy(left, reg, val),
        is_heavy(right, reg, val),
        val(reg.alpha) == Some(0real),
    ensures
        ({
            let target = target_of(total, bounds, true, reg, calc);
            weighed(target, dir, left, right, reg, calc) matches Some((gain, wl, wr)) ==> val(
                gain,
            ) is Some ==> {
                &&& wl == bounded_weight(left, reg, bounds, calc)
                &&& wr == bounded_weight(right, reg, bounds, calc)
                &&& val(gain)->0 == node_loss(
                    total,
                    reg,
                    val(bounded_weight(total, reg, bounds, calc))->0,
                    val,
                ) - node_loss(left, reg, val(wl)->0, val) - node_loss(right, reg, val(wr)->0, val)
            }
        }),
{
    if let Some((gain, wl, wr)) = weighed(
        target_of(total, bounds, true, reg, calc),
        dir,
        left,
        right,
        reg,
        calc,
    ) {
        if val(gain) is Some {
            let own = bounded_weight(total, reg, bounds, calc);
            let a = score_at(left, reg, wl, calc);
            let b = score_at(right, reg, wr, calc);
            assert(gain == calc.minus(calc.plus(a, b), score_at(total, reg, own, calc)));
            assert(val(calc.plus(a, b)) is Some);
            weights_score_what_they_save(total, reg, own, val, calc);
            weights_score_what_they_save(left, reg, wl, val, calc);
            weights_score_what_they_save(right, reg, wr, val, calc);
        }
    }
}

/// The intervals of two children meet halfway between their weights.
pub proof fn children_meet_halfway<F: Fn(Op, u64, u64) -> u64>(
    w_left: Wide,
    w_right: Wide,
    val: spec_fn(Wide) -> Option<real>,
    calc: &Calc<F>,
)
    requires
        is_exact(val, calc),
        val(Wide { bits: HALF }) == Some(1real / 2real),
        val(midpoint(w_left, w_right, calc)) is Some,
    ensures
        val(midpoint(w_left, w_right, calc))->0 - val(w_left)->0 == val(w_right)->0 - val(
            midpoint(w_left, w_right, calc),
        )->0,
{
    let sum = calc.plus(w_left, w_right);
    assert(val(sum) is Some);
    let s = val(sum)->0;
    assert((1real / 2real) * s + (1real / 2real) * s == s) by {
        gather(1real / 2real, 1real / 2real, s);
        once(s);
        swap(1real, s);
    }
}

/// Categories are ranked by the weights that they would have as leaves, the greatest
/// first.
pub proof fn categories_rank_by_their_weights<F: Fn(Op, u64, u64) -> u64>(
    stats: Seq<GradStats>,
    reg: RegParams,
    order: Seq<usize>,
    i: int,
    j: int,
    val: spec_fn(Wide) -> Option<real>,
    calc: &Calc<F>,
)
    requires
        is_exact(val, calc),
        stable_order(ratio_keys(stats, reg, calc), order),
        0 <= i < j < order.len(),
        order.len() == stats.len(),
        val(reg.alpha.negated()) == Some(0real),
        val(reg.max_delta_step) == Some(0real),
        ({
            let a = stats[order[i] as int];
            let b = stats[order[j] as int];
            &&& is_heavy(a, reg, val) && is_heavy(b, reg, val)
            &&& val(a.grad) is Some && val(b.grad) is Some
            &&& val(weight(a, reg, calc)) is Some
            &&& val(weight(b, reg, calc)) is Some
            &&& val(ratio(a, reg, calc)) is Some && !ratio(a, reg, calc).nan()
            &&& val(ratio(b, reg, calc)) is Some && !ratio(b, reg, calc).nan()
        }),
    ensures
        val(weight(stats[order[j] as int], reg, calc))->0 <= val(
            weight(stats[order[i] as int], reg, calc),
        )->0,
{
    let a = stats[order[i] as int];
    let b = stats[order[j] as int];
    let ra = ratio(a, reg, calc);
    let rb = ratio(b, reg, calc);
    let keys = ratio_keys(stats, reg, calc);
    assert(0 <= order[i] < keys.len() && 0 <= order[j] < keys.len());
    assert(keys[order[i] as int] <= keys[order[j] as int]);
    assert(ra.rank() <= rb.rank());
    assert(ra.le(rb));
    weights_turn_ratios(a, reg, val, calc);
    weights_turn_ratios(b, reg, val, calc);
}

proof fn weights_turn_ratios<F: Fn(Op, u64, u64) -> u64>(
    stats: GradStats,
    reg: RegParams,
    val: spec_fn(Wide) -> Option<real>,
    calc: &Calc<F>,
)
    requires
        is_exact(val, calc),
        is_heavy(stats, reg, val),
        val(stats.grad) is Some,
        val(reg.alpha.negated()) == Some(0real),
        val(reg.max_delta_step) == Some(0real),
        val(weight(stats, reg, calc)) is Some,
        val(ratio(stats, reg, calc)) is Some,
    ensures
        val(weight(stats, reg, calc))->0 == 0real - val(ratio(stats, reg, calc))->0,
{
    let ts = shrunk(stats.grad, reg.alpha, calc);
    let hs = calc.plus(stats.hess, reg.lambda);
    assert(weight(stats, reg, calc) == calc.over(ts.negated(), hs));
    assert(val(ts.negated()) is Some);
    sums_stand(stats, reg, val, calc);
    let g = val(stats.grad)->0;
    let h = val(hs)->0;
    undivided(0real - g, h);
    undivided(g, h);
    let r = val(ratio(stats, reg, calc))->0;
    gather(0real, r, h);
    vanish(h);
    equal_factors(val(weight(stats, reg, calc))->0, 0real - r, h);
}

} // verus!
