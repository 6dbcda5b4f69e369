//! What the areas under curves and the ranking metrics count, in arithmetics that do not
//! round.

use vstd::prelude::*;
use vstd::set_lib::{lemma_int_range, lemma_len_subset, set_int_range};

use crate::arith::{Calc, Op};
use crate::exact::{equal_factors, is_exact, once, spread, twice, undivided, vanish};
use crate::metric::auc::{
    area, average_rank, positive, rank_pair, rank_sums, those_below, those_up_to,
};
use crate::metric::aucpr::{hits, precision, precision_sum, recall_area, those_from};
use crate::metric::laws::{doubled_rank_sum, pair_scores, positives, rank_sum_counts_pairs};
use crate::metric::rank::{
    counted, group_ndcg, group_precision, group_score, mean_score, precisions, score_sum,
    widened_rows, RankScore,
};
use crate::number::{Single, Wide, HALF, ONE, TWO};
use crate::objective::precision_laws::share_sum;
use crate::objective::rank_laws::{discounted_gains_are_sums, gain_sum};
use crate::objective::ranking::{
    discounted, falling_keys, falling_order, gains_of, relevant_at, relevant_before,
};
use crate::sort::stable_order;

verus! {

proof fn ranks_fit(preds: Seq<Single>, k: int)
    requires
        preds.len() <= usize::MAX / 2 - 1,
    ensures
        0 <= rank_pair(preds, k) <= usize::MAX,
{
    let n = preds.len() as int;
    let all = set_int_range(0, n);
    lemma_int_range(0, n);
    let place = preds[k].place();
    assert(those_below(preds, place).subset_of(all));
    assert(those_up_to(preds, place).subset_of(all));
    lemma_len_subset(those_below(preds, place), all);
    lemma_len_subset(those_up_to(preds, place), all);
}

proof fn rank_sums_stand<F: Fn(Op, u64, u64) -> u64>(
    preds: Seq<Single>,
    labels: Seq<Single>,
    n: int,
    val: spec_fn(Wide) -> Option<real>,
    calc: &Calc<F>,
)
    requires
        is_exact(val, calc),
        0 <= n <= preds.len() <= usize::MAX / 2 - 1,
    ensures
        ({
            let (sum, pos, neg) = rank_sums(preds, labels, n, calc);
            let found = positives(labels, n);
            &&& 0 <= found <= n
            &&& val(sum) is Some ==> val(sum)->0 + val(sum)->0 == doubled_rank_sum(
                preds,
                labels,
                n,
            ) as real
            &&& val(pos) is Some ==> val(pos)->0 == found as real
            &&& val(neg) is Some ==> val(neg)->0 == (n - found) as real
            &&& found == 0 ==> pos == (Wide { bits: 0 })
            &&& found == n ==> neg == (Wide { bits: 0 })
        }),
    decreases n,
{
    if n > 0 {
        rank_sums_stand(preds, labels, n - 1, val, calc);
        let (sum, pos, neg) = rank_sums(preds, labels, n - 1, calc);
        if positive(labels[n - 1]) {
            let rank = average_rank(preds, n - 1, calc);
            ranks_fit(preds, n - 1);
            if val(calc.plus(sum, rank)) is Some {
                assert(val(rank) is Some);
                assert(val(calc.of(rank_pair(preds, n - 1))) is Some);
                undivided(rank_pair(preds, n - 1) as real, 2real);
                twice(val(rank)->0);
            }
        }
    }
}

/// The area under the ROC curve is the share of the pairs of a positive and another
/// instance that are predicted in their order, those predicted equal counting half. It is
/// one half where there are no such pairs.
pub proof fn areas_are_shares_of_pairs<F: Fn(Op, u64, u64) -> u64>(
    preds: Seq<Single>,
    labels: Seq<Single>,
    val: spec_fn(Wide) -> Option<real>,
    calc: &Calc<F>,
)
    requires
        is_exact(val, calc),
        labels.len() == preds.len() <= usize::MAX / 2 - 1,
        val(area(preds, labels, calc)) is Some,
    ensures
        ({
            let n = preds.len() as int;
            let pos = positives(labels, n);
            let right = pair_scores(preds, labels, false, n, n);
            if pos == 0 || pos == n {
                area(preds, labels, calc) == (Wide { bits: HALF })
            } else {
                val(area(preds, labels, calc))->0 * ((2 * (pos * (n - pos))) as real)
                    == right as real
            }
        }),
{
    let n = preds.len() as int;
    let found = positives(labels, n);
    let (sum, pos, neg) = rank_sums(preds, labels, n, calc);
    let zero = Wide { bits: 0 };
    rank_sums_stand(preds, labels, n, val, calc);
    assert(zero.same(zero) <==> val(zero) == Some(0real));
    if found != 0 && found != n {
        assert(pos.same(zero) <==> val(pos) == Some(0real));
        assert(neg.same(zero) <==> val(neg) == Some(0real));
        rank_sum_counts_pairs(preds, labels);
        let one = Wide { bits: ONE };
        let next = calc.plus(pos, one);
        let product = calc.times(pos, next);
        let least = calc.over(product, Wide { bits: TWO });
        let rest = calc.minus(sum, least);
        let pairs = calc.times(pos, neg);
        assert(area(preds, labels, calc) == calc.over(rest, pairs));
        assert(val(rest) is Some && val(pairs) is Some);
        assert(val(sum) is Some && val(least) is Some);
        assert(val(product) is Some);
        assert(val(next) is Some);
        let p = found as real;
        let q = (n - found) as real;
        let a = val(area(preds, labels, calc))->0;
        undivided(val(rest)->0, val(pairs)->0);
        undivided(p * (p + 1real), 2real);
        twice(val(least)->0);
        assert((found * (found + 1)) as real == p * (p + 1real)) by (nonlinear_arith)
            requires
                p == found as real,
        ;
        assert((found * (n - found)) as real == p * q) by (nonlinear_arith)
            requires
                p == found as real,
                q == (n - found) as real,
        ;
        spread(a, p * q, p * q);
    }
}

/// How many of the first `n` of a list lie at a place or above it.
pub open spec fn seen_from(list: Seq<Single>, place: int, n: int) -> int
    decreases n,
{
    if n <= 0 {
        0
    } else {
        seen_from(list, place, n - 1) + if place <= list[n - 1].place() {
            1int
        } else {
            0
        }
    }
}

/// How many positive ones of the first `n` instances are predicted at a place or above it.
pub open spec fn positives_from(
    preds: Seq<Single>,
    labels: Seq<Single>,
    place: int,
    n: int,
) -> int
    decreases n,
{
    if n <= 0 {
        0
    } else {
        positives_from(preds, labels, place, n - 1) + if positive(labels[n - 1]) && place
            <= preds[n - 1].place() {
            1int
        } else {
            0
        }
    }
}

/// The sum, over the positive ones of the first `n` instances, of the share of positive
/// instances among all that are predicted no lower.
pub open spec fn precision_total(preds: Seq<Single>, labels: Seq<Single>, n: int) -> real
    decreases n,
{
    if n <= 0 {
        0real
    } else {
        let all = preds.len() as int;
        let place = preds[n - 1].place();
        precision_total(preds, labels, n - 1) + if positive(labels[n - 1]) {
            (positives_from(preds, labels, place, all) as real) / (seen_from(
                preds,
                place,
                all,
            ) as real)
        } else {
            0real
        }
    }
}

spec fn from_until(list: Seq<Single>, place: int, n: int) -> Set<int> {
    Set::new(|i: int| 0 <= i < n && place <= list[i].place())
}

proof fn counts_from(list: Seq<Single>, place: int, n: int)
    requires
        0 <= n,
    ensures
        from_until(list, place, n).finite(),
        from_until(list, place, n).len() == seen_from(list, place, n),
        0 <= seen_from(list, place, n) <= n,
    decreases n,
{
    let s = from_until(list, place, n);
    if n <= 0 {
        assert(s =~= Set::empty());
    } else {
        counts_from(list, place, n - 1);
        let rest = from_until(list, place, n - 1);
        if place <= list[n - 1].place() {
            assert(s =~= rest.insert(n - 1));
        } else {
            assert(s =~= rest);
        }
    }
}

proof fn longer_lists(list: Seq<Single>, x: Single, place: int, n: int)
    requires
        n <= list.len(),
    ensures
        seen_from(list.push(x), place, n) == seen_from(list, place, n),
    decreases n,
{
    if n > 0 {
        longer_lists(list, x, place, n - 1);
    }
}

proof fn hits_from(preds: Seq<Single>, labels: Seq<Single>, place: int, n: int)
    requires
        0 <= n,
    ensures
        ({
            let found = hits(preds, labels, n);
            &&& seen_from(found, place, found.len() as int) == positives_from(
                preds,
                labels,
                place,
                n,
            )
            &&& found.len() == positives(labels, n)
        }),
    decreases n,
{
    if n > 0 {
        hits_from(preds, labels, place, n - 1);
        let found = hits(preds, labels, n - 1);
        longer_lists(found, preds[n - 1], place, found.len() as int);
    }
}

proof fn hits_grow(preds: Seq<Single>, labels: Seq<Single>, n: int, all: int)
    requires
        0 <= n <= all,
    ensures
        ({
            let few = hits(preds, labels, n);
            let found = hits(preds, labels, all);
            &&& few.len() <= found.len() <= all
            &&& forall|t: int| 0 <= t < few.len() ==> #[trigger] found[t] == few[t]
        }),
    decreases all,
{
    if n < all {
        hits_grow(preds, labels, n, all - 1);
    } else if all > 0 {
        hits_grow(preds, labels, n - 1, all - 1);
    }
}

proof fn precisions_add_up<F: Fn(Op, u64, u64) -> u64>(
    preds: Seq<Single>,
    labels: Seq<Single>,
    n: int,
    val: spec_fn(Wide) -> Option<real>,
    calc: &Calc<F>,
)
    requires
        is_exact(val, calc),
        0 <= n <= preds.len() <= usize::MAX,
        ({
            let found = hits(preds, labels, preds.len() as int);
            let few = hits(preds, labels, n);
            val(precision_sum(preds, found, few.len() as int, calc)) is Some
        }),
    ensures
        ({
            let found = hits(preds, labels, preds.len() as int);
            let few = hits(preds, labels, n);
            val(precision_sum(preds, found, few.len() as int, calc))->0 == precision_total(
                preds,
                labels,
                n,
            )
        }),
    decreases n,
{
    let all = preds.len() as int;
    let found = hits(preds, labels, all);
    let few = hits(preds, labels, n);
    if n > 0 {
        hits_grow(preds, labels, n, all);
        if positive(labels[n - 1]) {
            let t = few.len() as int;
            let place = preds[n - 1].place();
            assert(found[t - 1] == preds[n - 1]);
            let part = precision(preds, found, place, calc);
            assert(val(part) is Some);
            counts_from(preds, place, all);
            counts_from(found, place, found.len() as int);
            hits_from(preds, labels, place, all);
            assert(from_until(preds, place, all) =~= those_from(preds, place));
            assert(from_until(found, place, found.len() as int) =~= those_from(found, place));
            assert(val(calc.of(those_from(found, place).len() as int)) is Some);
            assert(val(calc.of(those_from(preds, place).len() as int)) is Some);
        }
        precisions_add_up(preds, labels, n - 1, val, calc);
    }
}

/// The area under the precision-recall curve is the mean, over the positive instances, of
/// the share of positive instances among all that are predicted no lower.
pub proof fn recall_areas_are_mean_precisions<F: Fn(Op, u64, u64) -> u64>(
    preds: Seq<Single>,
    labels: Seq<Single>,
    val: spec_fn(Wide) -> Option<real>,
    calc: &Calc<F>,
)
    requires
        is_exact(val, calc),
        labels.len() == preds.len() <= usize::MAX,
        val(recall_area(preds, labels, calc)) is Some,
    ensures
        ({
            let n = preds.len() as int;
            val(recall_area(preds, labels, calc))->0 * (positives(labels, n) as real)
                == precision_total(preds, labels, n)
        }),
{
    let n = preds.len() as int;
    let found = hits(preds, labels, n);
    hits_from(preds, labels, 0, n);
    hits_grow(preds, labels, n, n);
    let k = found.len() as int;
    if k == 0 {
        vanish(0real);
        no_positives_no_sum(preds, labels, n);
    } else {
        let sum = precision_sum(preds, found, k, calc);
        assert(val(sum) is Some && val(calc.of(k)) is Some);
        precisions_add_up(preds, labels, n, val, calc);
        undivided(val(sum)->0, k as real);
    }
}

proof fn no_positives_no_sum(preds: Seq<Single>, labels: Seq<Single>, n: int)
    requires
        0 <= n,
        positives(labels, n) == 0,
    ensures
        precision_total(preds, labels, n) == 0real,
        0 <= positives(labels, n),
    decreases n,
{
    if n > 0 {
        positives_are_counted(labels, n - 1);
        no_positives_no_sum(preds, labels, n - 1);
    }
}

proof fn positives_are_counted(labels: Seq<Single>, n: int)
    requires
        0 <= n,
    ensures
        0 <= positives(labels, n) <= n,
    decreases n,
{
    if n > 0 {
        positives_are_counted(labels, n - 1);
    }
}

/// The normalized discounted gain of a group is to one as the gain of the predicted order
/// is to that of the best order, over the places that count.
pub proof fn normalized_gains_compare_with_the_best<F: Fn(Op, u64, u64) -> u64>(
    scores: Seq<Wide>,
    labs: Seq<Wide>,
    limit: Option<usize>,
    val: spec_fn(Wide) -> Option<real>,
    calc: &Calc<F>,
)
    requires
        is_exact(val, calc),
        val(group_ndcg(scores, labs, limit, calc)) is Some,
        ({
            let gains = gains_of(labs, calc);
            let top = counted(limit, labs.len() as int);
            val(discounted(gains, falling_order(gains), top, calc)) is Some
        }),
    ensures
        ({
            let gains = gains_of(labs, calc);
            let top = if limit is Some && limit->0 < labs.len() {
                limit->0 as int
            } else {
                labs.len() as int
            };
            let best = gain_sum(gains, falling_order(gains), top, val, calc);
            let reached = gain_sum(gains, falling_order(scores), top, val, calc);
            let ndcg = val(group_ndcg(scores, labs, limit, calc))->0;
            &&& best > 0real ==> ndcg * best == reached
            &&& best <= 0real ==> ndcg == 1real
            &&& scores == gains ==> ndcg == 1real
        }),
{
    let gains = gains_of(labs, calc);
    let top = counted(limit, labs.len() as int);
    let best = discounted(gains, falling_order(gains), top, calc);
    let reached = discounted(gains, falling_order(scores), top, calc);
    discounted_gains_are_sums(gains, falling_order(gains), top, val, calc);
    discounted_gains_are_sums(gains, falling_order(scores), top, val, calc);
    let zero = Wide { bits: 0 };
    if zero.lt(best) {
        assert(val(reached) is Some);
        undivided(val(reached)->0, val(best)->0);
        if scores == gains {
            once(val(best)->0);
            equal_factors(val(group_ndcg(scores, labs, limit, calc))->0, 1real, val(best)->0);
        }
    }
}

proof fn precisions_are_shares<F: Fn(Op, u64, u64) -> u64>(
    labs: Seq<Wide>,
    order: Seq<usize>,
    n: int,
    val: spec_fn(Wide) -> Option<real>,
    calc: &Calc<F>,
)
    requires
        is_exact(val, calc),
        0 <= n <= u32::MAX,
        val(precisions(labs, order, n, calc)) is Some,
    ensures
        val(precisions(labs, order, n, calc))->0 == share_sum(labs, order, n),
        0 <= relevant_before(labs, order, n) <= n,
    decreases n,
{
    if n > 0 {
        if relevant_at(labs, order, n - 1) {
            let seen = calc.of(relevant_before(labs, order, n));
            assert(val(calc.over(seen, calc.of(n))) is Some);
            assert(val(seen) is Some && val(calc.of(n)) is Some);
        }
        precisions_are_shares(labs, order, n - 1, val, calc);
    }
}

proof fn relevant_ones_are_counted(labs: Seq<Wide>, order: Seq<usize>, n: int)
    requires
        0 <= n,
    ensures
        0 <= relevant_before(labs, order, n) <= n,
    decreases n,
{
    if n > 0 {
        relevant_ones_are_counted(labs, order, n - 1);
    }
}

/// The average precision of a group is the mean, over its relevant documents, of the share
/// of relevant documents up to their place, those past the limit counting nothing.
pub proof fn average_precisions_are_mean_shares<F: Fn(Op, u64, u64) -> u64>(
    scores: Seq<Wide>,
    labs: Seq<Wide>,
    limit: Option<usize>,
    val: spec_fn(Wide) -> Option<real>,
    calc: &Calc<F>,
)
    requires
        is_exact(val, calc),
        labs.len() <= u32::MAX,
        val(group_precision(scores, labs, limit, calc)) is Some,
    ensures
        ({
            let order = falling_order(scores);
            let found = relevant_before(labs, order, labs.len() as int);
            let top = if limit is Some && limit->0 < labs.len() {
                limit->0 as int
            } else {
                labs.len() as int
            };
            let ap = val(group_precision(scores, labs, limit, calc))->0;
            &&& found > 0 ==> ap * (found as real) == share_sum(labs, order, top)
            &&& found == 0 ==> ap == 1real
        }),
{
    let order = falling_order(scores);
    let m = labs.len() as int;
    let found = relevant_before(labs, order, m);
    relevant_ones_are_counted(labs, order, m);
    if found > 0 {
        let top = counted(limit, m);
        let sum = precisions(labs, order, top, calc);
        assert(val(sum) is Some && val(calc.of(found)) is Some);
        precisions_are_shares(labs, order, top, val, calc);
        undivided(val(sum)->0, found as real);
    }
}

/// In a falling order no number comes before a greater one.
pub proof fn falling_orders_fall(s: Seq<Wide>, order: Seq<usize>, p: int, q: int)
    requires
        stable_order(falling_keys(s), order),
        0 <= p < q < order.len(),
    ensures
        order[p] < s.len() && order[q] < s.len() && order[p] != order[q],
        !s[order[p] as int].lt(s[order[q] as int]),
{
    let keys = falling_keys(s);
    assert(crate::sort::before(keys, order[p] as int, order[q] as int));
    assert(keys[order[p] as int] <= keys[order[q] as int]);
}

/// The sum of what the first `n` groups score.
pub open spec fn group_total<F: Fn(Op, u64, u64) -> u64>(
    kind: RankScore,
    preds: Seq<Single>,
    labels: Seq<Single>,
    bounds: Seq<usize>,
    n: int,
    limit: Option<usize>,
    val: spec_fn(Wide) -> Option<real>,
    calc: &Calc<F>,
) -> real
    decreases n,
{
    if n <= 0 {
        0real
    } else {
        group_total(kind, preds, labels, bounds, n - 1, limit, val, calc) + val(
            group_score(
                kind,
                preds,
                labels,
                bounds[n - 1] as int,
                bounds[n] as int,
                limit,
                calc,
            ),
        )->0
    }
}

proof fn group_scores_add_up<F: Fn(Op, u64, u64) -> u64>(
    kind: RankScore,
    preds: Seq<Single>,
    labels: Seq<Single>,
    bounds: Seq<usize>,
    n: int,
    limit: Option<usize>,
    val: spec_fn(Wide) -> Option<real>,
    calc: &Calc<F>,
)
    requires
        is_exact(val, calc),
        val(score_sum(kind, preds, labels, bounds, n, limit, calc)) is Some,
    ensures
        val(score_sum(kind, preds, labels, bounds, n, limit, calc))->0 == group_total(
            kind,
            preds,
            labels,
            bounds,
            n,
            limit,
            val,
            calc,
        ),
    decreases n,
{
    if n > 0 {
        group_scores_add_up(kind, preds, labels, bounds, n - 1, limit, val, calc);
    }
}

/// Ranking metrics are means over the groups.
pub proof fn ranking_metrics_are_means<F: Fn(Op, u64, u64) -> u64>(
    kind: RankScore,
    preds: Seq<Single>,
    labels: Seq<Single>,
    bounds: Seq<usize>,
    limit: Option<usize>,
    val: spec_fn(Wide) -> Option<real>,
    calc: &Calc<F>,
)
    requires
        is_exact(val, calc),
        1 < bounds.len() <= usize::MAX,
        val(mean_score(kind, preds, labels, Some(bounds), limit, calc)) is Some,
    ensures
        val(mean_score(kind, preds, labels, Some(bounds), limit, calc))->0 * ((bounds.len()
            - 1) as real) == group_total(
            kind,
            preds,
            labels,
            bounds,
            bounds.len() - 1,
            limit,
            val,
            calc,
        ),
{
    let n = bounds.len() - 1;
    let sum = score_sum(kind, preds, labels, bounds, n, limit, calc);
    assert(val(sum) is Some && val(calc.of(n)) is Some);
    group_scores_add_up(kind, preds, labels, bounds, n, limit, val, calc);
    undivided(val(sum)->0, n as real);
}

/// A group is scored by its own rows: as they would be alone.
pub proof fn groups_are_scored_alone<F: Fn(Op, u64, u64) -> u64>(
    kind: RankScore,
    preds: Seq<Single>,
    labels: Seq<Single>,
    start: int,
    end: int,
    limit: Option<usize>,
    calc: &Calc<F>,
)
    requires
        0 <= start <= end <= preds.len() <= labels.len(),
    ensures
        group_score(kind, preds, labels, start, end, limit, calc) == mean_score(
            kind,
            preds.subrange(start, end),
            labels.subrange(start, end),
            None,
            limit,
            calc,
        ),
{
    let own_preds = preds.subrange(start, end);
    let own_labels = labels.subrange(start, end);
    let n = end - start;
    assert(widened_rows(preds, start, end, calc) =~= widened_rows(own_preds, 0, n, calc));
    assert(widened_rows(labels, start, end, calc) =~= widened_rows(own_labels, 0, n, calc));
}

/// What is ranked are the predictions, and what is gained are the labels, of all rows where
/// there are no groups.
pub proof fn rows_are_ranked_by_their_predictions<F: Fn(Op, u64, u64) -> u64>(
    preds: Seq<Single>,
    labels: Seq<Single>,
    limit: Option<usize>,
    calc: &Calc<F>,
)
    requires
        preds.len() == labels.len(),
    ensures
        ({
            let scores = Seq::new(preds.len(), |i: int| calc.widened(preds[i]));
            let labs = Seq::new(labels.len(), |i: int| calc.widened(labels[i]));
            &&& mean_score(RankScore::Gain, preds, labels, None, limit, calc) == group_ndcg(
                scores,
                labs,
                limit,
                calc,
            )
            &&& mean_score(RankScore::Precision, preds, labels, None, limit, calc)
                == group_precision(scores, labs, limit, calc)
        }),
{
    let n = preds.len() as int;
    let scores = Seq::new(preds.len(), |i: int| calc.widened(preds[i]));
    let labs = Seq::new(labels.len(), |i: int| calc.widened(labels[i]));
    assert(widened_rows(preds, 0, n, calc) =~= scores);
    assert(widened_rows(labels, 0, n, calc) =~= labs);
}

} // verus!
