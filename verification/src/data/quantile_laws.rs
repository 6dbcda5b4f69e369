//! Quantile cuts part the values of a feature into equal shares.

use vstd::prelude::*;
use vstd::set_lib::lemma_len_subset;

use crate::arith::{Calc, Op};
use crate::data::dmatrix::DMatrix;
use crate::data::meta::FeatureType;
use crate::data::quantile::{
    column_values, count_le_bounds, distinct_run, feature_cuts, numeric_bin, numeric_cuts,
    numeric_cuts_rise, places, quantile_rank, quantile_ranks, quantile_run, quantile_run_rises,
    rank_position, reaching, sortable, sorted_values, sorted_values_are_sorted, sorted_weights,
    values_of, weight_up_to, weighted_rank, HistCuts,
};
use crate::exact::{above_zero, gather, is_exact, not_below_zero, turn, undivided};
use crate::number::{Single, Wide};
use crate::sort::{before, stable_order, stable_order_exists};

verus! {

/// Whether rounding up gives the least integer that is not below, and numbers that stand
/// for integers are counted as these.
pub open spec fn rounds_up<F: Fn(Op, u64, u64) -> u64>(
    val: spec_fn(Wide) -> Option<real>,
    calc: &Calc<F>,
) -> bool {
    forall|a: Wide, max: int|
        #![trigger calc.raised(a).count(max)]
        val(a) is Some && 0real <= val(a)->0 && val(a)->0 <= (max as real) ==> {
            let k = calc.raised(a).count(max);
            ((k - 1) as real) < val(a)->0 && val(a)->0 <= (k as real)
        }
}

/// The rank of the quantile `b / max_bin` among `n` values is the least number whose
/// share of the values is not below the quantile.
pub proof fn ranks_are_the_least<F: Fn(Op, u64, u64) -> u64>(
    b: int,
    max_bin: int,
    n: int,
    val: spec_fn(Wide) -> Option<real>,
    calc: &Calc<F>,
)
    requires
        is_exact(val, calc),
        rounds_up(val, calc),
        0 <= b <= max_bin <= u32::MAX,
        0 < max_bin,
        0 <= n <= u32::MAX,
        val(calc.times(calc.over(calc.of(b), calc.of(max_bin)), calc.of(n))) is Some,
    ensures
        quantile_rank(calc, b, max_bin, n) * max_bin >= b * n,
        (quantile_rank(calc, b, max_bin, n) - 1) * max_bin < b * n,
        quantile_rank(calc, b, max_bin, n) <= n,
{
    let rank = quantile_rank(calc, b, max_bin, n) as int;
    if b == max_bin {
        assert(rank == n);
        assert(n * max_bin >= b * n && (n - 1) * max_bin < b * n) by (nonlinear_arith)
            requires
                b == max_bin,
                0 < max_bin,
        ;
    } else {
        let share = calc.over(calc.of(b), calc.of(max_bin));
        let place = calc.times(share, calc.of(n));
        let x = val(place)->0;
        let q = val(share)->0;
        let m = max_bin as real;
        let nr = n as real;
        let br = b as real;
        undivided(br, m);
        assert(q * m == br);
        turn(q, nr, m);
        assert(x * m == br * nr);
        assert(0real <= x && x <= nr) by (nonlinear_arith)
            requires
                x * m == br * nr,
                0real <= br <= m,
                0real < m,
                0real <= nr,
        ;
        let k = calc.raised(place).count(usize::MAX as int);
        assert(((k - 1) as real) < x && x <= (k as real));
        assert(k <= n && 0 <= k) by {
            if k > n {
                assert((k - 1) as real >= nr);
            }
        }
        assert(rank == k);
        let kr = k as real;
        assert(kr * m >= br * nr && (kr - 1real) * m < br * nr) by (nonlinear_arith)
            requires
                x * m == br * nr,
                kr - 1real < x <= kr,
                0real < m,
        ;
        assert((k * max_bin) as real == kr * m) by (nonlinear_arith)
            requires
                kr == k as real,
                m == max_bin as real,
        ;
        assert(((k - 1) * max_bin) as real == (kr - 1real) * m) by (nonlinear_arith)
            requires
                kr == k as real,
                m == max_bin as real,
        ;
        assert((b * n) as real == br * nr) by (nonlinear_arith)
            requires
                br == b as real,
                nr == n as real,
        ;
    }
}

/// The values of a feature that fall into a bin.
pub open spec fn in_bin(cuts: Seq<Single>, vals: Seq<Single>, t: int) -> Set<int> {
    Set::new(|i: int| 0 <= i < vals.len() && numeric_bin(cuts, vals[i]) == t)
}

/// The values of a feature that fall into a bin and lie above its lower end.
pub open spec fn inside(cuts: Seq<Single>, vals: Seq<Single>, t: int) -> Set<int> {
    Set::new(
        |i: int|
            0 <= i < vals.len() && numeric_bin(cuts, vals[i]) == t && !(t > 0 && cuts[t - 1].same(
                vals[i],
            )),
    )
}

spec fn listed(order: Seq<usize>, lo: int, hi: int) -> Set<int>
    decreases hi - lo,
{
    if hi <= lo {
        Set::empty()
    } else {
        listed(order, lo, hi - 1).insert(order[hi - 1] as int)
    }
}

proof fn lists_are_no_longer(order: Seq<usize>, lo: int, hi: int)
    ensures
        listed(order, lo, hi).finite(),
        listed(order, lo, hi).len() <= if lo <= hi { hi - lo } else { 0 },
        forall|k: int| lo <= k < hi ==> listed(order, lo, hi).contains(#[trigger] order[k] as int),
    decreases hi - lo,
{
    if lo < hi {
        lists_are_no_longer(order, lo, hi - 1);
    }
}

proof fn runs_extend(sorted: Seq<Single>, ranks: Seq<usize>, a: int, b: int)
    requires
        0 <= a <= b,
    ensures
        quantile_run(sorted, ranks, a).len() <= quantile_run(sorted, ranks, b).len(),
        forall|i: int|
            0 <= i < quantile_run(sorted, ranks, a).len() ==> #[trigger] quantile_run(
                sorted,
                ranks,
                b,
            )[i] == quantile_run(sorted, ranks, a)[i],
    decreases b,
{
    if a < b {
        runs_extend(sorted, ranks, a, b - 1);
    }
}

/// The rank that gave a cut.
proof fn cuts_have_their_ranks(sorted: Seq<Single>, ranks: Seq<usize>, m: int, t: int) -> (b: int)
    requires
        0 <= m,
        0 <= t < quantile_run(sorted, ranks, m).len(),
    ensures
        1 <= b <= m,
        quantile_run(sorted, ranks, b - 1).len() == t,
        quantile_run(sorted, ranks, b).len() == t + 1,
        quantile_run(sorted, ranks, m)[t] == sorted[rank_position(
            ranks[b - 1],
            sorted.len() as int,
        )],
    decreases m,
{
    let kept = quantile_run(sorted, ranks, m - 1);
    if t < kept.len() {
        runs_extend(sorted, ranks, m - 1, m);
        cuts_have_their_ranks(sorted, ranks, m - 1, t)
    } else {
        m
    }
}

/// Whether the shares of quantiles are not rounded.
pub open spec fn shares_stand<F: Fn(Op, u64, u64) -> u64>(
    max_bin: int,
    n: int,
    val: spec_fn(Wide) -> Option<real>,
    calc: &Calc<F>,
) -> bool {
    forall|b: int|
        1 <= b <= max_bin ==> val(
            calc.times(calc.over(#[trigger] calc.of(b), calc.of(max_bin)), calc.of(n)),
        ) is Some
}

proof fn inner_positions(vals: Seq<Single>, cuts: Seq<Single>, t: int, lo: int, hi: int)
    requires
        2 <= vals.len() <= usize::MAX,
        sortable(vals),
        0 <= lo,
        hi <= vals.len(),
        forall|k: int|
            0 <= k < vals.len() && numeric_bin(cuts, #[trigger] sorted_values(vals)[k]) == t && !(t
                > 0 && cuts[t - 1].same(sorted_values(vals)[k])) ==> lo <= k < hi,
    ensures
        inside(cuts, vals, t).finite(),
        inside(cuts, vals, t).len() <= if lo <= hi { hi - lo } else { 0 },
{
    let keys = places(vals);
    stable_order_exists(keys);
    let order = choose|o: Seq<usize>| stable_order(keys, o);
    let sorted = sorted_values(vals);
    lists_are_no_longer(order, lo, hi);
    assert forall|i: int| inside(cuts, vals, t).contains(i) implies listed(
        order,
        lo,
        hi,
    ).contains(i) by {
        assert(order.contains(i as usize));
        let k = choose|k: int| 0 <= k < order.len() && order[k] == i as usize;
        assert(sorted[k] == vals[i]);
        assert(lo <= k < hi);
        assert(listed(order, lo, hi).contains(order[k] as int));
    }
    assert(inside(cuts, vals, t).subset_of(listed(order, lo, hi)));
    lemma_len_subset(inside(cuts, vals, t), listed(order, lo, hi));
}

/// Quantile cuts part values evenly: of `n` finite values with more different ones than
/// `max_bin`, fewer than `n / max_bin` lie within any bin above its lower end.
pub proof fn bins_are_balanced<F: Fn(Op, u64, u64) -> u64>(
    vals: Seq<Single>,
    max_bin: int,
    t: int,
    val: spec_fn(Wide) -> Option<real>,
    calc: &Calc<F>,
)
    requires
        is_exact(val, calc),
        rounds_up(val, calc),
        2 <= vals.len() <= u32::MAX,
        forall|i: int| 0 <= i < vals.len() ==> (#[trigger] vals[i]).finite(),
        1 <= max_bin <= u32::MAX,
        max_bin < distinct_run(sorted_values(vals), vals.len() as int).len(),
        shares_stand(max_bin, vals.len() as int, val, calc),
        0 <= t < numeric_cuts(
            vals,
            max_bin,
            quantile_ranks(calc, max_bin, vals.len() as int),
        ).len(),
    ensures
        ({
            let n = vals.len() as int;
            let cuts = numeric_cuts(vals, max_bin, quantile_ranks(calc, max_bin, n));
            inside(cuts, vals, t).finite() && inside(cuts, vals, t).len() * max_bin < n
        }),
{
    let n = vals.len() as int;
    let ranks = quantile_ranks(calc, max_bin, n);
    let sorted = sorted_values(vals);
    let cuts = numeric_cuts(vals, max_bin, ranks);
    let base = quantile_run(sorted, ranks, max_bin);
    assert forall|i: int| 0 <= i < vals.len() implies !(#[trigger] vals[i]).nan() by {
        assert(vals[i].finite());
    }
    sorted_values_are_sorted(vals);
    assert forall|k: int| 0 <= k < n implies (#[trigger] sorted[k]).finite() by {
        assert(vals.contains(sorted[k]));
    }
    assert(ranks[max_bin - 1] == n);
    assert(sorted.last().finite());
    quantile_run_rises(sorted, ranks, max_bin);
    assert(base.len() > 0 && base.last().place() == sorted.last().place());
    assert(base.last().le(sorted.last()));
    assert(cuts == base.push(sorted.last().successor()));
    numeric_cuts_rise(vals, max_bin, ranks);
    if t == base.len() {
        assert forall|k: int|
            0 <= k < n && numeric_bin(cuts, #[trigger] sorted[k]) == t && !(t > 0 && cuts[t
                - 1].same(sorted[k])) implies 0 <= k < 0 by {
            count_le_bounds(cuts, sorted[k], cuts.len() as int);
            assert(cuts[t - 1].le(sorted[k]));
            assert(sorted[k].place() <= sorted[n - 1].place());
            assert(!cuts[t - 1].nan());
        }
        inner_positions(vals, cuts, t, 0, 0);
        assert(inside(cuts, vals, t).len() * max_bin == 0) by (nonlinear_arith)
            requires
                inside(cuts, vals, t).len() == 0,
        ;
    } else {
        let b = cuts_have_their_ranks(sorted, ranks, max_bin, t);
        let kept = quantile_run(sorted, ranks, b - 1);
        runs_extend(sorted, ranks, b - 1, max_bin);
        assert(val(calc.times(calc.over(calc.of(b), calc.of(max_bin)), calc.of(n))) is Some);
        ranks_are_the_least(b, max_bin, n, val, calc);
        let r = ranks[b - 1] as int;
        assert(r == quantile_rank(calc, b, max_bin, n));
        assert(1 <= r <= n) by {
            assert(b * n > 0) by (nonlinear_arith)
                requires
                    1 <= b,
                    2 <= n,
            ;
            if r <= 0 {
                assert(r * max_bin <= 0) by (nonlinear_arith)
                    requires
                        r <= 0,
                        1 <= max_bin,
                ;
            }
        }
        assert(rank_position(ranks[b - 1], n) == r - 1);
        let q = if b > 1 { ranks[b - 2] as int } else { 0 };
        if b > 1 {
            let c = b - 1;
            assert(val(calc.times(calc.over(calc.of(c), calc.of(max_bin)), calc.of(n))) is Some);
            ranks_are_the_least(c, max_bin, n, val, calc);
            assert(q == quantile_rank(calc, c, max_bin, n));
            assert(c * n > 0) by (nonlinear_arith)
                requires
                    1 <= c,
                    2 <= n,
            ;
            if q <= 0 {
                assert(q * max_bin <= 0) by (nonlinear_arith)
                    requires
                        q <= 0,
                        1 <= max_bin,
                ;
            }
            assert(1 <= q <= n);
            assert(rank_position(ranks[b - 2], n) == q - 1);
            // What the earlier rank gave does not lie above the last cut that was kept.
            let earlier = quantile_run(sorted, ranks, b - 2);
            let v = sorted[q - 1];
            assert(v.finite());
            quantile_run_rises(sorted, ranks, b - 2);
            quantile_run_rises(sorted, ranks, b - 1);
            assert(kept.len() > 0 && v.place() <= kept.last().place());
        }
        assert forall|k: int|
            0 <= k < n && numeric_bin(cuts, #[trigger] sorted[k]) == t && !(t > 0 && cuts[t
                - 1].same(sorted[k])) implies q <= k < r - 1 by {
            count_le_bounds(cuts, sorted[k], cuts.len() as int);
            assert(!cuts[t].le(sorted[k]));
            assert(cuts[t] == sorted[r - 1]);
            assert(sorted[k].finite() && sorted[r - 1].finite());
            if k >= r - 1 {
                assert(sorted[r - 1].place() <= sorted[k].place());
            }
            if b > 1 {
                assert(cuts[t - 1] == kept[t - 1]);
                assert(cuts[t - 1].le(sorted[k]));
                if k <= q - 1 {
                    assert(sorted[k].place() <= sorted[q - 1].place());
                }
            }
        }
        inner_positions(vals, cuts, t, q, r - 1);
        let size = inside(cuts, vals, t).len() as int;
        if b == 1 {
            assert(q * max_bin >= (b - 1) * n) by (nonlinear_arith)
                requires
                    q == 0,
                    b == 1,
            ;
        }
        assert(size * max_bin < n) by (nonlinear_arith)
            requires
                0 <= size,
                size <= (if q <= r - 1 { r - 1 - q } else { 0 }),
                (r - 1) * max_bin < b * n,
                q * max_bin >= (b - 1) * n,
                1 <= max_bin,
                2 <= n,
        ;
    }
}

/// Of different finite values, a bin of a dataset's cuts holds at most the least integer
/// not below `n / max_bin`, where a feature has more values than bins are asked for.
pub proof fn dataset_bins_are_balanced<F: Fn(Op, u64, u64) -> u64>(
    cuts: HistCuts,
    data: &DMatrix,
    max_bin: int,
    f: int,
    t: int,
    val: spec_fn(Wide) -> Option<real>,
    calc: &Calc<F>,
)
    requires
        is_exact(val, calc),
        rounds_up(val, calc),
        data.types()[f] != FeatureType::Categorical,
        cuts.cuts_of(f) == feature_cuts(data, max_bin, None, calc, f),
        2 <= column_values(data, f).len() <= u32::MAX,
        forall|i: int|
            0 <= i < column_values(data, f).len() ==> (#[trigger] column_values(
                data,
                f,
            )[i]).finite(),
        forall|i: int, j: int|
            0 <= i < j < column_values(data, f).len() ==> !(#[trigger] column_values(
                data,
                f,
            )[i]).same(#[trigger] column_values(data, f)[j]),
        1 <= max_bin < column_values(data, f).len(),
        shares_stand(max_bin, column_values(data, f).len() as int, val, calc),
        0 <= t < cuts.cuts_of(f).len(),
    ensures
        in_bin(cuts.cuts_of(f), column_values(data, f), t).finite(),
        (in_bin(cuts.cuts_of(f), column_values(data, f), t).len() - 1) * max_bin
            < column_values(data, f).len(),
{
    let vals = column_values(data, f);
    let own = cuts.cuts_of(f);
    let n = vals.len() as int;
    different_values_are_counted(vals);
    bins_are_balanced(vals, max_bin, t, val, calc);
    let all = in_bin(own, vals, t);
    let most = inside(own, vals, t);
    if t > 0 && exists|i: int| 0 <= i < n && own[t - 1].same(#[trigger] vals[i]) {
        let i = choose|i: int| 0 <= i < n && own[t - 1].same(#[trigger] vals[i]);
        assert forall|j: int| all.contains(j) implies most.insert(i).contains(j) by {
            if own[t - 1].same(vals[j]) && j != i {
                if i < j {
                    assert(!vals[i].same(vals[j]));
                } else {
                    assert(!vals[j].same(vals[i]));
                }
            }
        }
        assert(all.subset_of(most.insert(i)));
        lemma_len_subset(all, most.insert(i));
    } else {
        assert(all.subset_of(most));
        lemma_len_subset(all, most);
    }
    let size = all.len() as int;
    let part = most.len() as int;
    assert((size - 1) * max_bin < n) by (nonlinear_arith)
        requires
            size - 1 <= part,
            part * max_bin < n,
            1 <= max_bin,
    ;
}

proof fn different_values_are_counted(vals: Seq<Single>)
    requires
        2 <= vals.len() <= usize::MAX,
        forall|i: int| 0 <= i < vals.len() ==> (#[trigger] vals[i]).finite(),
        forall|i: int, j: int|
            0 <= i < j < vals.len() ==> !(#[trigger] vals[i]).same(#[trigger] vals[j]),
    ensures
        distinct_run(sorted_values(vals), vals.len() as int).len() == vals.len(),
{
    let keys = places(vals);
    stable_order_exists(keys);
    let order = choose|o: Seq<usize>| stable_order(keys, o);
    let sorted = sorted_values(vals);
    assert forall|k: int| 0 < k < vals.len() implies !(#[trigger] sorted[k - 1]).same(
        sorted[k],
    ) by {
        let a = order[k - 1] as int;
        let b = order[k] as int;
        assert(before(keys, a, b));
        assert(sorted[k - 1] == vals[a] && sorted[k] == vals[b]);
        if a < b {
            assert(!vals[a].same(vals[b]));
        } else {
            assert(!vals[b].same(vals[a]));
        }
    }
    all_are_kept(sorted, vals.len() as int);
}

proof fn all_are_kept(sorted: Seq<Single>, n: int)
    requires
        0 <= n <= sorted.len(),
        forall|k: int| 0 < k < sorted.len() ==> !(#[trigger] sorted[k - 1]).same(sorted[k]),
    ensures
        distinct_run(sorted, n).len() == n,
    decreases n,
{
    if n > 0 {
        all_are_kept(sorted, n - 1);
        if n > 1 {
            assert(!sorted[(n - 1) - 1].same(sorted[n - 1]));
        }
    }
}

/// The sum of the first `n` weights.
pub open spec fn weight_total<F: Fn(Op, u64, u64) -> u64>(
    weights: Seq<Single>,
    n: int,
    val: spec_fn(Wide) -> Option<real>,
    calc: &Calc<F>,
) -> real
    decreases n,
{
    if n <= 0 {
        0real
    } else {
        weight_total(weights, n - 1, val, calc) + val(calc.widened(weights[n - 1]))->0
    }
}

proof fn weights_add_up<F: Fn(Op, u64, u64) -> u64>(
    weights: Seq<Single>,
    n: int,
    val: spec_fn(Wide) -> Option<real>,
    calc: &Calc<F>,
)
    requires
        is_exact(val, calc),
    ensures
        val(weight_up_to(weights, n, calc)) is Some ==> val(weight_up_to(weights, n, calc))->0
            == weight_total(weights, n, val, calc),
    decreases n,
{
    if n > 0 {
        weights_add_up(weights, n - 1, val, calc);
    }
}

proof fn earlier_weights_stand<F: Fn(Op, u64, u64) -> u64>(
    weights: Seq<Single>,
    k: int,
    n: int,
    val: spec_fn(Wide) -> Option<real>,
    calc: &Calc<F>,
)
    requires
        is_exact(val, calc),
        k <= n,
        val(weight_up_to(weights, n, calc)) is Some,
    ensures
        val(weight_up_to(weights, k, calc)) is Some,
    decreases n,
{
    if k < n {
        if n > 0 {
            earlier_weights_stand(weights, k, n - 1, val, calc);
        }
    }
}

proof fn what_is_reached<F: Fn(Op, u64, u64) -> u64>(
    weights: Seq<Single>,
    target: Wide,
    k: int,
    calc: &Calc<F>,
)
    requires
        0 <= k,
    ensures
        ({
            let r = reaching(weights, target, k, calc);
            &&& k < r
            &&& r <= weights.len() || r == k + 1
            &&& r < weights.len() ==> !weight_up_to(weights, r, calc).lt(target)
            &&& r > k + 1 ==> weight_up_to(weights, r - 1, calc).lt(target)
        }),
    decreases weights.len() - k,
{
    if !(k + 1 >= weights.len() || !weight_up_to(weights, k + 1, calc).lt(target)) {
        what_is_reached(weights, target, k + 1, calc);
    }
}

/// The weighted rank of the quantile `b / max_bin` is the first at which the weights, in
/// ascending order of their values, reach that share of all weights.
pub proof fn weighted_ranks_are_the_least<F: Fn(Op, u64, u64) -> u64>(
    weights: Seq<Single>,
    b: int,
    max_bin: int,
    val: spec_fn(Wide) -> Option<real>,
    calc: &Calc<F>,
)
    requires
        is_exact(val, calc),
        1 <= b < max_bin <= u32::MAX,
        1 <= weights.len() <= usize::MAX,
        val(
            calc.times(
                calc.over(calc.of(b), calc.of(max_bin)),
                weight_up_to(weights, weights.len() as int, calc),
            ),
        ) is Some,
    ensures
        ({
            let r = weighted_rank(weights, b, max_bin, calc) as int;
            let n = weights.len() as int;
            let share = (b as real) * weight_total(weights, n, val, calc);
            &&& 1 <= r <= n
            &&& r < n ==> weight_total(weights, r, val, calc) * (max_bin as real) >= share
            &&& r > 1 ==> weight_total(weights, r - 1, val, calc) * (max_bin as real) < share
        }),
{
    let n = weights.len() as int;
    let q = calc.over(calc.of(b), calc.of(max_bin));
    let all = weight_up_to(weights, n, calc);
    let target = calc.times(q, all);
    let r = reaching(weights, target, 0, calc);
    what_is_reached(weights, target, 0, calc);
    assert(weighted_rank(weights, b, max_bin, calc) == r);
    weights_add_up(weights, n, val, calc);
    weights_add_up(weights, r, val, calc);
    weights_add_up(weights, r - 1, val, calc);
    earlier_weights_stand(weights, r, n, val, calc);
    earlier_weights_stand(weights, r - 1, n, val, calc);
    let m = max_bin as real;
    let br = b as real;
    let total = val(all)->0;
    let x = val(target)->0;
    undivided(br, m);
    turn(val(q)->0, total, m);
    assert(x * m == br * total);
    let above = val(weight_up_to(weights, r, calc))->0;
    let under = val(weight_up_to(weights, r - 1, calc))->0;
    if r < n {
        not_below_zero(above - x, m);
        gather(above, x, m);
    }
    if r > 1 {
        above_zero(x - under, m);
        gather(x, under, m);
    }
}

/// Weights follow their values: in one and the same order, values ascend and each weight is
/// that of the row that holds the value.
pub proof fn weights_follow_their_values(
    pairs: Seq<(u32, Single)>,
    weights: Seq<Single>,
) -> (order: Seq<usize>)
    requires
        pairs.len() <= usize::MAX,
    ensures
        order.len() == pairs.len(),
        forall|i: int, j: int|
            0 <= i < j < order.len() ==> pairs[#[trigger] order[i] as int].1.place()
                <= pairs[#[trigger] order[j] as int].1.place(),
        forall|i: int|
            0 <= i < order.len() ==> {
                &&& #[trigger] order[i] < pairs.len()
                &&& sorted_values(values_of(pairs))[i] == pairs[order[i] as int].1
                &&& sorted_weights(pairs, weights)[i] == weights[pairs[order[i] as int].0 as int]
            },
{
    let vals = values_of(pairs);
    let keys = places(vals);
    stable_order_exists(keys);
    let order = choose|o: Seq<usize>| stable_order(keys, o);
    assert(stable_order(keys, order));
    assert forall|i: int, j: int|
        0 <= i < j < order.len() implies pairs[#[trigger] order[i] as int].1.place()
        <= pairs[#[trigger] order[j] as int].1.place() by {
        assert(before(keys, order[i] as int, order[j] as int));
        assert(keys[order[i] as int] == vals[order[i] as int].place());
        assert(keys[order[j] as int] == vals[order[j] as int].place());
    }
    order
}

} // verus!
