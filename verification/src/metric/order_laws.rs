//! Which orders gain most, and what ranking metrics are at most, in arithmetics that do not
//! round.

use vstd::prelude::*;
use vstd::set_lib::{lemma_int_range, lemma_len_subset, set_int_range};

use crate::arith::{Calc, Op};
use crate::exact::{
    above_zero, gather, is_exact, not_below_zero, once, spread, swap, undivided, vanish,
};
use crate::exponential::exponentiates;
use crate::metric::area_laws::{
    areas_are_shares_of_pairs, average_precisions_are_mean_shares, falling_orders_fall,
    normalized_gains_compare_with_the_best, positives_from, precision_total,
    recall_areas_are_mean_precisions, seen_from,
};
use crate::metric::auc::{area, positive};
use crate::metric::aucpr::{hits, recall_area};
use crate::metric::laws::{pair_scores, positives, rank_sum_counts_pairs};
use crate::metric::rank::{counted, group_ndcg, group_precision};
use crate::number::{Single, Wide, HALF};
use crate::objective::precision_laws::share_sum;
use crate::objective::rank_laws::{discounts_fall, gain_sum};
use crate::objective::ranking::{
    discount_of, discounted, falling_keys, falling_order, gains_of, relevant_at, relevant_before,
};
use crate::sort::{stable_order, stable_order_exists};

verus! {

/// The sum of a list of numbers at the given places.
spec fn sum_at(a: spec_fn(int) -> real, places: Seq<int>) -> real
    decreases places.len(),
{
    if places.len() == 0 {
        0real
    } else {
        sum_at(a, places.drop_last()) + a(places.last())
    }
}

proof fn one_place_less(a: spec_fn(int) -> real, places: Seq<int>, i: int)
    requires
        0 <= i < places.len(),
    ensures
        sum_at(a, places) == sum_at(a, places.remove(i)) + a(places[i]),
    decreases places.len(),
{
    let rest = places.remove(i);
    if i == places.len() - 1 {
        assert(rest =~= places.drop_last());
    } else {
        one_place_less(a, places.drop_last(), i);
        assert(rest.drop_last() =~= places.drop_last().remove(i));
        assert(rest.last() == places.last());
    }
}

/// The sum of the first `n` numbers.
spec fn sum_up_to(a: spec_fn(int) -> real, n: int) -> real
    decreases n,
{
    if n <= 0 {
        0real
    } else {
        sum_up_to(a, n - 1) + a(n - 1)
    }
}

/// Of falling numbers the first ones have the greatest sum.
proof fn the_first_sum_up_most(a: spec_fn(int) -> real, places: Seq<int>, m: int)
    requires
        places.no_duplicates(),
        forall|q: int| 0 <= q < places.len() ==> 0 <= #[trigger] places[q] < m,
        forall|i: int, j: int| 0 <= i <= j < m ==> #[trigger] a(j) <= #[trigger] a(i),
    ensures
        sum_at(a, places) <= sum_up_to(a, places.len() as int),
    decreases places.len(),
{
    let n = places.len() as int;
    if n > 0 {
        let q = far_place(places);
        one_place_less(a, places, q);
        let rest = places.remove(q);
        assert forall|i: int, j: int|
            0 <= i < rest.len() && 0 <= j < rest.len() && i != j implies rest[i] != rest[j] by {
            let x = if i < q { i } else { i + 1 };
            let y = if j < q { j } else { j + 1 };
            assert(rest[i] == places[x] && rest[j] == places[y]);
        }
        assert forall|i: int| 0 <= i < rest.len() implies 0 <= #[trigger] rest[i] < m by {
            let x = if i < q { i } else { i + 1 };
            assert(rest[i] == places[x]);
        }
        the_first_sum_up_most(a, rest, m);
        assert(a(places[q]) <= a(n - 1));
    }
}

/// Of `n` different places one is not among the first `n - 1`.
proof fn far_place(places: Seq<int>) -> (q: int)
    requires
        places.no_duplicates(),
        places.len() > 0,
        forall|q: int| 0 <= q < places.len() ==> 0 <= #[trigger] places[q],
    ensures
        0 <= q < places.len(),
        places[q] >= places.len() - 1,
{
    let n = places.len() as int;
    if forall|q: int| 0 <= q < n ==> #[trigger] places[q] < n - 1 {
        places.unique_seq_to_set();
        let all = set_int_range(0, n - 1);
        lemma_int_range(0, n - 1);
        assert(places.to_set().subset_of(all)) by {
            assert forall|x: int| places.to_set().contains(x) implies all.contains(x) by {
                let q = choose|q: int| 0 <= q < n && places[q] == x;
                assert(places[q] == x);
            }
        }
        lemma_len_subset(places.to_set(), all);
    }
    choose|q: int| 0 <= q < n && #[trigger] places[q] >= n - 1
}

/// The gains of the documents in the first `n` places of an order.
spec fn plain_sum(
    gains: Seq<Wide>,
    order: Seq<usize>,
    n: int,
    val: spec_fn(Wide) -> Option<real>,
) -> real
    decreases n,
{
    if n <= 0 {
        0real
    } else {
        plain_sum(gains, order, n - 1, val) + val(gains[order[n - 1] as int])->0
    }
}

/// Whether an order names documents of a group, none twice.
pub open spec fn is_order(order: Seq<usize>, m: int) -> bool {
    &&& order.len() == m
    &&& order.no_duplicates()
    &&& forall|p: int| 0 <= p < m ==> #[trigger] order[p] < m
}

proof fn places_sum_up(
    gains: Seq<Wide>,
    best: Seq<usize>,
    order: Seq<usize>,
    places: Seq<int>,
    n: int,
    val: spec_fn(Wide) -> Option<real>,
)
    requires
        0 <= n <= order.len(),
        n <= places.len(),
        forall|q: int|
            0 <= q < places.len() ==> 0 <= #[trigger] places[q] < best.len() && best[places[q]]
                == order[q],
    ensures
        plain_sum(gains, order, n, val) == sum_at(
            |p: int| val(gains[best[p] as int])->0,
            places.take(n),
        ),
    decreases n,
{
    let a = |p: int| val(gains[best[p] as int])->0;
    if n > 0 {
        places_sum_up(gains, best, order, places, n - 1, val);
        assert(places.take(n).drop_last() =~= places.take(n - 1));
        assert(places.take(n).last() == places[n - 1]);
        assert(a(places[n - 1]) == val(gains[order[n - 1] as int])->0);
    }
}

proof fn own_places_sum_up(
    gains: Seq<Wide>,
    best: Seq<usize>,
    n: int,
    val: spec_fn(Wide) -> Option<real>,
)
    ensures
        plain_sum(gains, best, n, val) == sum_up_to(|p: int| val(gains[best[p] as int])->0, n),
    decreases n,
{
    if n > 0 {
        own_places_sum_up(gains, best, n - 1, val);
    }
}

proof fn the_best_gain_most_so_far<F: Fn(Op, u64, u64) -> u64>(
    gains: Seq<Wide>,
    best: Seq<usize>,
    order: Seq<usize>,
    n: int,
    val: spec_fn(Wide) -> Option<real>,
    calc: &Calc<F>,
)
    requires
        is_exact(val, calc),
        gains.len() <= usize::MAX,
        stable_order(falling_keys(gains), best),
        is_order(order, gains.len() as int),
        0 <= n <= order.len(),
        forall|i: int| 0 <= i < gains.len() ==> val(#[trigger] gains[i]) is Some,
    ensures
        plain_sum(gains, order, n, val) <= plain_sum(gains, best, n, val),
{
    let m = gains.len() as int;
    let keys = falling_keys(gains);
    let a = |p: int| val(gains[best[p] as int])->0;
    let places = Seq::new(
        n as nat,
        |q: int| choose|p: int| 0 <= p < best.len() && best[p] == order[q],
    );
    assert forall|q: int| 0 <= q < n implies 0 <= #[trigger] places[q] < best.len()
        && best[places[q]] == order[q] by {
        assert(order[q] < m);
        assert(best.contains(order[q]));
    }
    assert forall|i: int, j: int| 0 <= i < n && 0 <= j < n && i != j implies places[i]
        != places[j] by {
        assert(order[i] != order[j]);
        assert(best[places[i]] == order[i] && best[places[j]] == order[j]);
    }
    assert forall|i: int, j: int| 0 <= i <= j < m implies #[trigger] a(j) <= #[trigger] a(i) by {
        assert(best.len() == m);
        if i < j {
            falling_orders_fall(gains, best, i, j);
            assert(val(gains[best[i] as int]) is Some);
            assert(val(gains[best[j] as int]) is Some);
        }
    }
    the_first_sum_up_most(a, places, m);
    places_sum_up(gains, best, order, places, n, val);
    assert(places.take(n) =~= places);
    own_places_sum_up(gains, best, n, val);
}

proof fn leads_are_kept<F: Fn(Op, u64, u64) -> u64>(
    gains: Seq<Wide>,
    best: Seq<usize>,
    order: Seq<usize>,
    n: int,
    l: real,
    e: spec_fn(real) -> real,
    val: spec_fn(Wide) -> Option<real>,
    calc: &Calc<F>,
)
    requires
        is_exact(val, calc),
        exponentiates(e, val, calc),
        e(l) == 2real,
        gains.len() <= u32::MAX,
        stable_order(falling_keys(gains), best),
        is_order(order, gains.len() as int),
        0 <= n <= order.len(),
        forall|i: int| 0 <= i < gains.len() ==> val(#[trigger] gains[i]) is Some,
        forall|p: int| 0 <= p <= n ==> val(#[trigger] discount_of(p, calc)) is Some,
    ensures
        gain_sum(gains, order, n, val, calc) <= gain_sum(gains, best, n, val, calc),
        n > 0 ==> gain_sum(gains, best, n, val, calc) - gain_sum(gains, order, n, val, calc) >= val(
            discount_of(n - 1, calc),
        )->0 * (plain_sum(gains, best, n, val) - plain_sum(gains, order, n, val)),
    decreases n,
{
    if n > 0 {
        leads_are_kept(gains, best, order, n - 1, l, e, val, calc);
        the_best_gain_most_so_far(gains, best, order, n - 1, val, calc);
        the_best_gain_most_so_far(gains, best, order, n, val, calc);
        let d = val(discount_of(n - 1, calc))->0;
        let lead = plain_sum(gains, best, n - 1, val) - plain_sum(gains, order, n - 1, val);
        let x = val(gains[best[n - 1] as int])->0;
        let y = val(gains[order[n - 1] as int])->0;
        assert(val(discount_of(n - 1, calc)) is Some);
        assert(val(discount_of(n, calc)) is Some);
        discounts_fall(n - 1, n, l, e, val, calc);
        gather(x, y, d);
        spread(d, lead, x - y);
        swap(x - y, d);
        if n > 1 {
            let before = val(discount_of(n - 2, calc))->0;
            assert(val(discount_of(n - 2, calc)) is Some);
            discounts_fall(n - 2, n - 1, l, e, val, calc);
            not_below_zero(before - d, lead);
            gather(before, d, lead);
        } else {
            vanish(d);
        }
        not_below_zero(d, lead + (x - y));
    }
}

/// No order of a group's documents has a greater discounted gain, in its first `n` places,
/// than the one that puts greater gains first.
pub proof fn no_order_gains_more_than_the_best<F: Fn(Op, u64, u64) -> u64>(
    gains: Seq<Wide>,
    best: Seq<usize>,
    order: Seq<usize>,
    n: int,
    l: real,
    e: spec_fn(real) -> real,
    val: spec_fn(Wide) -> Option<real>,
    calc: &Calc<F>,
)
    requires
        is_exact(val, calc),
        exponentiates(e, val, calc),
        e(l) == 2real,
        gains.len() <= u32::MAX,
        stable_order(falling_keys(gains), best),
        is_order(order, gains.len() as int),
        0 <= n <= order.len(),
        forall|i: int| 0 <= i < gains.len() ==> val(#[trigger] gains[i]) is Some,
        forall|p: int| 0 <= p <= n ==> val(#[trigger] discount_of(p, calc)) is Some,
    ensures
        gain_sum(gains, order, n, val, calc) <= gain_sum(gains, best, n, val, calc),
{
    leads_are_kept(gains, best, order, n, l, e, val, calc);
}

/// The normalized discounted gain of a group is at most one.
pub proof fn normalized_gains_are_at_most_one<F: Fn(Op, u64, u64) -> u64>(
    scores: Seq<Wide>,
    labs: Seq<Wide>,
    limit: Option<usize>,
    l: real,
    e: spec_fn(real) -> real,
    val: spec_fn(Wide) -> Option<real>,
    calc: &Calc<F>,
)
    requires
        is_exact(val, calc),
        exponentiates(e, val, calc),
        e(l) == 2real,
        scores.len() == labs.len() <= u32::MAX,
        val(group_ndcg(scores, labs, limit, calc)) is Some,
        forall|i: int|
            0 <= i < labs.len() ==> val(#[trigger] gains_of(labs, calc)[i]) is Some,
        forall|p: int| 0 <= p <= labs.len() ==> val(#[trigger] discount_of(p, calc)) is Some,
        ({
            let gains = gains_of(labs, calc);
            let top = counted(limit, labs.len() as int);
            val(discounted(gains, falling_order(gains), top, calc)) is Some
        }),
    ensures
        val(group_ndcg(scores, labs, limit, calc))->0 <= 1real,
{
    let gains = gains_of(labs, calc);
    let m = labs.len() as int;
    let top = counted(limit, m);
    stable_order_exists(falling_keys(gains));
    stable_order_exists(falling_keys(scores));
    let best = falling_order(gains);
    let order = falling_order(scores);
    assert(stable_order(falling_keys(gains), best));
    assert(stable_order(falling_keys(scores), order));
    assert forall|i: int, j: int| 0 <= i < m && 0 <= j < m && i != j implies order[i]
        != order[j] by {
        if i < j {
            falling_orders_fall(scores, order, i, j);
        } else {
            falling_orders_fall(scores, order, j, i);
        }
    }
    no_order_gains_more_than_the_best(gains, best, order, top, l, e, val, calc);
    normalized_gains_compare_with_the_best(scores, labs, limit, val, calc);
    let ndcg = val(group_ndcg(scores, labs, limit, calc))->0;
    let most = gain_sum(gains, best, top, val, calc);
    if most > 0real && ndcg > 1real {
        above_zero(ndcg - 1real, most);
        gather(ndcg, 1real, most);
        once(most);
    }
}

proof fn shares_are_at_most_one(labs: Seq<Wide>, order: Seq<usize>, n: int)
    requires
        0 <= n,
    ensures
        0 <= relevant_before(labs, order, n) <= n,
        0real <= share_sum(labs, order, n) <= (relevant_before(labs, order, n) as real),
    decreases n,
{
    if n > 0 {
        shares_are_at_most_one(labs, order, n - 1);
        if relevant_at(labs, order, n - 1) {
            parts_are_at_most_one(relevant_before(labs, order, n), n);
        }
    }
}

proof fn parts_are_at_most_one(part: int, all: int)
    requires
        0 <= part <= all,
        0 < all,
    ensures
        0real <= (part as real) / (all as real) <= 1real,
{
    let a = part as real;
    let n = all as real;
    let q = a / n;
    undivided(a, n);
    if q < 0real {
        above_zero(0real - q, n);
        gather(0real, q, n);
        vanish(n);
    }
    if q > 1real {
        above_zero(q - 1real, n);
        gather(q, 1real, n);
        once(n);
    }
}

proof fn later_places_add_more(labs: Seq<Wide>, order: Seq<usize>, k: int, n: int)
    requires
        0 <= k <= n,
    ensures
        relevant_before(labs, order, k) <= relevant_before(labs, order, n),
    decreases n,
{
    if k < n {
        later_places_add_more(labs, order, k, n - 1);
    }
}

proof fn quotients_are_at_most_one(q: real, a: real, n: real)
    requires
        q * n == a,
        0real <= a <= n,
        0real < n,
    ensures
        0real <= q <= 1real,
{
    if q < 0real {
        above_zero(0real - q, n);
        gather(0real, q, n);
        vanish(n);
    }
    if q > 1real {
        above_zero(q - 1real, n);
        gather(q, 1real, n);
        once(n);
    }
}

/// The average precision of a group lies in `[0, 1]`.
pub proof fn average_precisions_are_at_most_one<F: Fn(Op, u64, u64) -> u64>(
    scores: Seq<Wide>,
    labs: Seq<Wide>,
    limit: Option<usize>,
    val: spec_fn(Wide) -> Option<real>,
    calc: &Calc<F>,
)
    requires
        is_exact(val, calc),
        labs.len() <= u32::MAX,
        val(group_precision(scores, labs, limit, calc)) is Some,
    ensures
        0real <= val(group_precision(scores, labs, limit, calc))->0 <= 1real,
{
    average_precisions_are_mean_shares(scores, labs, limit, val, calc);
    let order = falling_order(scores);
    let m = labs.len() as int;
    let top = counted(limit, m);
    shares_are_at_most_one(labs, order, top);
    shares_are_at_most_one(labs, order, m);
    later_places_add_more(labs, order, top, m);
    let found = relevant_before(labs, order, m);
    if found > 0 {
        quotients_are_at_most_one(
            val(group_precision(scores, labs, limit, calc))->0,
            share_sum(labs, order, top),
            found as real,
        );
    }
}

proof fn positives_are_seen(preds: Seq<Single>, labels: Seq<Single>, place: int, n: int)
    requires
        0 <= n,
    ensures
        0 <= positives_from(preds, labels, place, n) <= seen_from(preds, place, n),
    decreases n,
{
    if n > 0 {
        positives_are_seen(preds, labels, place, n - 1);
    }
}

proof fn own_place_is_seen(preds: Seq<Single>, k: int, n: int)
    requires
        0 <= k < n,
    ensures
        seen_from(preds, preds[k].place(), n) >= 1,
    decreases n,
{
    if k < n - 1 {
        own_place_is_seen(preds, k, n - 1);
    } else {
        positives_are_seen(preds, preds, preds[k].place(), n - 1);
    }
}

proof fn precisions_are_at_most_one(preds: Seq<Single>, labels: Seq<Single>, n: int)
    requires
        0 <= n <= preds.len(),
    ensures
        0 <= positives(labels, n) <= n,
        0real <= precision_total(preds, labels, n) <= (positives(labels, n) as real),
    decreases n,
{
    if n > 0 {
        precisions_are_at_most_one(preds, labels, n - 1);
        if positive(labels[n - 1]) {
            let all = preds.len() as int;
            let place = preds[n - 1].place();
            positives_are_seen(preds, labels, place, all);
            own_place_is_seen(preds, n - 1, all);
            parts_are_at_most_one(
                positives_from(preds, labels, place, all),
                seen_from(preds, place, all),
            );
        }
    }
}

/// The areas under the ROC curve and under the precision-recall curve lie in `[0, 1]`.
pub proof fn areas_are_at_most_one<F: Fn(Op, u64, u64) -> u64>(
    preds: Seq<Single>,
    labels: Seq<Single>,
    val: spec_fn(Wide) -> Option<real>,
    calc: &Calc<F>,
)
    requires
        is_exact(val, calc),
        labels.len() == preds.len() <= usize::MAX / 2 - 1,
        val(Wide { bits: HALF }) == Some(1real / 2real),
    ensures
        val(area(preds, labels, calc)) is Some ==> 0real <= val(area(preds, labels, calc))->0
            <= 1real,
        val(recall_area(preds, labels, calc)) is Some ==> 0real <= val(
            recall_area(preds, labels, calc),
        )->0 <= 1real,
{
    let n = preds.len() as int;
    let pos = positives(labels, n);
    precisions_are_at_most_one(preds, labels, n);
    if val(area(preds, labels, calc)) is Some {
        areas_are_shares_of_pairs(preds, labels, val, calc);
        if pos != 0 && pos != n {
            rank_sum_counts_pairs(preds, labels);
            assert(pos * (n - pos) > 0) by (nonlinear_arith)
                requires
                    0 < pos < n,
            ;
            assert(2 * pos * (n - pos) == 2 * (pos * (n - pos))) by (nonlinear_arith);
            quotients_are_at_most_one(
                val(area(preds, labels, calc))->0,
                pair_scores(preds, labels, false, n, n) as real,
                (2 * (pos * (n - pos))) as real,
            );
        }
    }
    if val(recall_area(preds, labels, calc)) is Some {
        if pos > 0 {
            recall_areas_are_mean_precisions(preds, labels, val, calc);
            quotients_are_at_most_one(
                val(recall_area(preds, labels, calc))->0,
                precision_total(preds, labels, n),
                pos as real,
            );
        } else {
            no_hits(preds, labels, n);
        }
    }
}

proof fn no_hits(preds: Seq<Single>, labels: Seq<Single>, n: int)
    requires
        0 <= n,
        positives(labels, n) == 0,
    ensures
        hits(preds, labels, n).len() == 0,
    decreases n,
{
    if n > 0 {
        positives_are_counted(labels, n - 1);
        no_hits(preds, labels, n - 1);
    }
}

proof fn positives_are_counted(labels: Seq<Single>, n: int)
    requires
        0 <= n,
    ensures
        0 <= positives(labels, n),
    decreases n,
{
    if n > 0 {
        positives_are_counted(labels, n - 1);
    }
}

} // verus!
