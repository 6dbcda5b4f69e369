//! Cut points for histogram-based training.
//!
//! Each feature gets up to `max_bin` cut points from the distribution of its
//! values that are not missing. A value falls into the bin whose number is the
//! count of cuts at or below it, held within the feature's bins. A last cut
//! just above the greatest value gives that value a bin of its own.

use vstd::prelude::*;

use crate::arith::{Calc, Op};
use crate::data::dmatrix::{slice_view, DMatrix};
use crate::data::laws::rows_of_a_column;
use crate::data::meta::FeatureType;
use crate::number::{Single, Wide};
use crate::sort::{argsort, stable_order, stable_order_exists, stable_order_is_unique};

verus! {

/// The places of the values on the number line.
pub open spec fn places(vals: Seq<Single>) -> Seq<i64> {
    Seq::new(vals.len(), |i: int| vals[i].place() as i64)
}

/// The values in ascending order, equal ones in their original order.
pub open spec fn sorted_values(vals: Seq<Single>) -> Seq<Single> {
    let order = choose|o: Seq<usize>| stable_order(places(vals), o);
    Seq::new(vals.len(), |i: int| vals[order[i] as int])
}

/// Whether the values can be put in order.
pub open spec fn sortable(vals: Seq<Single>) -> bool {
    vals.len() >= 2 ==> forall|i: int| 0 <= i < vals.len() ==> !(#[trigger] vals[i]).nan()
}

/// The first value of every run of equal values among the first `n`.
pub open spec fn distinct_run(sorted: Seq<Single>, n: int) -> Seq<Single>
    decreases n,
{
    if n <= 0 {
        Seq::empty()
    } else if n == 1 || !sorted[n - 2].same(sorted[n - 1]) {
        distinct_run(sorted, n - 1).push(sorted[n - 1])
    } else {
        distinct_run(sorted, n - 1)
    }
}

/// The position that a one-based rank picks in a list of `n` values.
pub open spec fn rank_position(rank: usize, n: int) -> int {
    let p = if rank >= 1 { rank - 1 } else { 0 };
    if p < n { p } else { n - 1 }
}

/// Whether `v` lies above all that was kept so far.
pub open spec fn rises_above(kept: Seq<Single>, v: Single) -> bool {
    let last = if kept.len() == 0 { Single { bits: 0xff80_0000 } } else { kept.last() };
    last.lt(v)
}

/// The values at the first `b` ranks, each kept if it lies above the one
/// before.
pub open spec fn quantile_run(sorted: Seq<Single>, ranks: Seq<usize>, b: int) -> Seq<Single>
    decreases b,
{
    if b <= 0 {
        Seq::empty()
    } else {
        let kept = quantile_run(sorted, ranks, b - 1);
        let v = sorted[rank_position(ranks[b - 1], sorted.len() as int)];
        if rises_above(kept, v) { kept.push(v) } else { kept }
    }
}

/// The cuts of a numeric feature.
pub open spec fn numeric_cuts(vals: Seq<Single>, max_bin: int, ranks: Seq<usize>) -> Seq<Single> {
    if vals.len() == 0 {
        seq![Single { bits: 0 }]
    } else {
        let sorted = sorted_values(vals);
        let distinct = distinct_run(sorted, sorted.len() as int);
        let base = if distinct.len() <= max_bin {
            distinct
        } else {
            quantile_run(sorted, ranks, max_bin)
        };
        if base.last().le(sorted.last()) {
            base.push(sorted.last().successor())
        } else {
            base
        }
    }
}

/// The bins of a categorical feature: one per distinct value.
pub open spec fn category_cuts(vals: Seq<Single>) -> Seq<Single> {
    if vals.len() == 0 {
        seq![Single { bits: 0 }]
    } else {
        distinct_run(sorted_values(vals), vals.len() as int)
    }
}

/// The values of a column.
pub open spec fn values_of(pairs: Seq<(u32, Single)>) -> Seq<Single> {
    Seq::new(pairs.len(), |i: int| pairs[i].1)
}

/// The values of column `f` of a matrix that are not missing, in row order.
pub open spec fn column_values(data: &DMatrix, f: int) -> Seq<Single> {
    values_of(data.column_prefix(f, data.height()))
}

/// The one-based rank of the quantile `b / max_bin` among `n` values.
pub open spec fn quantile_rank<F: Fn(Op, u64, u64) -> u64>(
    calc: &Calc<F>,
    b: int,
    max_bin: int,
    n: int,
) -> usize {
    if b == max_bin {
        n as usize
    } else {
        calc.raised(
            calc.times(calc.over(calc.of(b), calc.of(max_bin)), calc.of(n)),
        ).count(usize::MAX as int) as usize
    }
}

/// The ranks of the quantiles `1 / max_bin`, `2 / max_bin`, ... among `n`
/// values.
pub open spec fn quantile_ranks<F: Fn(Op, u64, u64) -> u64>(
    calc: &Calc<F>,
    max_bin: int,
    n: int,
) -> Seq<usize> {
    Seq::new(max_bin as nat, |i: int| quantile_rank(calc, i + 1, max_bin, n))
}

/// The weights of a column's rows, in ascending order of their values.
pub open spec fn sorted_weights(pairs: Seq<(u32, Single)>, weights: Seq<Single>) -> Seq<Single> {
    let order = choose|o: Seq<usize>| stable_order(places(values_of(pairs)), o);
    Seq::new(pairs.len(), |i: int| weights[pairs[order[i] as int].0 as int])
}

/// The sum of the first `n` weights.
pub open spec fn weight_up_to<F: Fn(Op, u64, u64) -> u64>(
    weights: Seq<Single>,
    n: int,
    calc: &Calc<F>,
) -> Wide
    decreases n,
{
    if n <= 0 {
        Wide { bits: 0 }
    } else {
        calc.plus(weight_up_to(weights, n - 1, calc), calc.widened(weights[n - 1]))
    }
}

/// The first number above `k` of leading weights whose sum reaches a target, or
/// that of all weights.
pub open spec fn reaching<F: Fn(Op, u64, u64) -> u64>(
    weights: Seq<Single>,
    target: Wide,
    k: int,
    calc: &Calc<F>,
) -> int
    decreases weights.len() - k,
{
    if k + 1 >= weights.len() || !weight_up_to(weights, k + 1, calc).lt(target) {
        k + 1
    } else {
        reaching(weights, target, k + 1, calc)
    }
}

/// The one-based rank at which the weights, in ascending order of their values,
/// add up to the share `b / max_bin` of their sum.
pub open spec fn weighted_rank<F: Fn(Op, u64, u64) -> u64>(
    weights: Seq<Single>,
    b: int,
    max_bin: int,
    calc: &Calc<F>,
) -> usize {
    let n = weights.len() as int;
    if b == max_bin {
        n as usize
    } else {
        reaching(
            weights,
            calc.times(calc.over(calc.of(b), calc.of(max_bin)), weight_up_to(weights, n, calc)),
            0,
            calc,
        ) as usize
    }
}

/// The ranks at which weights add up to `1 / max_bin`, `2 / max_bin`, ... of
/// their sum.
pub open spec fn weighted_ranks<F: Fn(Op, u64, u64) -> u64>(
    weights: Seq<Single>,
    max_bin: int,
    calc: &Calc<F>,
) -> Seq<usize> {
    Seq::new(max_bin as nat, |i: int| weighted_rank(weights, i + 1, max_bin, calc))
}

/// The cuts of feature `f` of a matrix, with rows weighted where weights are
/// given.
pub open spec fn feature_cuts<F: Fn(Op, u64, u64) -> u64>(
    data: &DMatrix,
    max_bin: int,
    weights: Option<Seq<Single>>,
    calc: &Calc<F>,
    f: int,
) -> Seq<Single> {
    let vals = column_values(data, f);
    if data.types()[f] == FeatureType::Categorical {
        category_cuts(vals)
    } else {
        let ranks = match weights {
            Some(w) => weighted_ranks(
                sorted_weights(data.column_prefix(f, data.height()), w),
                max_bin,
                calc,
            ),
            None => quantile_ranks(calc, max_bin, vals.len() as int),
        };
        numeric_cuts(vals, max_bin, ranks)
    }
}

/// The number of cuts of the first `n` features.
pub open spec fn cuts_before<F: Fn(Op, u64, u64) -> u64>(
    data: &DMatrix,
    max_bin: int,
    weights: Option<Seq<Single>>,
    calc: &Calc<F>,
    n: int,
) -> int
    decreases n,
{
    if n <= 0 {
        0
    } else {
        cuts_before(data, max_bin, weights, calc, n - 1) + feature_cuts(
            data,
            max_bin,
            weights,
            calc,
            n - 1,
        ).len()
    }
}

/// A number of cuts that the first `n` features do not exceed, however rows
/// are weighted.
pub open spec fn cut_bound(data: &DMatrix, max_bin: int, n: int) -> int
    decreases n,
{
    if n <= 0 {
        0
    } else {
        cut_bound(data, max_bin, n - 1) + if data.types()[n - 1] == FeatureType::Categorical {
            category_cuts(column_values(data, n - 1)).len() as int
        } else {
            max_bin + 1
        }
    }
}

/// Whether ranks for `max_bin` bins end at the last of `n` values.
pub open spec fn ranks_fit(ranks: Seq<usize>, max_bin: int, n: int) -> bool {
    ranks.len() == max_bin && ranks[max_bin - 1] >= n
}

/// The count of cuts at or below `v` among the first `n`.
pub open spec fn count_le(cuts: Seq<Single>, v: Single, n: int) -> int
    decreases n,
{
    if n <= 0 {
        0
    } else if cuts[n - 1].le(v) {
        count_le(cuts, v, n - 1) + 1
    } else {
        count_le(cuts, v, n - 1)
    }
}

/// The bin of `v` among numeric cuts.
pub open spec fn numeric_bin(cuts: Seq<Single>, v: Single) -> int {
    let k = count_le(cuts, v, cuts.len() as int);
    if k < cuts.len() { k } else { cuts.len() - 1 }
}

/// The bin of `v` among categories: the one equal to it, or the first.
pub open spec fn category_bin(cuts: Seq<Single>, v: Single) -> int {
    if exists|i: int| 0 <= i < cuts.len() && (#[trigger] cuts[i]).same(v) {
        choose|i: int| 0 <= i < cuts.len() && (#[trigger] cuts[i]).same(v)
    } else {
        0
    }
}

/// Whether cuts rise, possibly with equal ones among them.
pub open spec fn ascending(cuts: Seq<Single>) -> bool {
    cuts.len() >= 2 ==> {
        &&& forall|i: int| 0 <= i < cuts.len() ==> !(#[trigger] cuts[i]).nan()
        &&& forall|i: int, j: int|
            0 <= i <= j < cuts.len() ==> (#[trigger] cuts[i]).place() <= (#[trigger] cuts[j]).place()
    }
}

/// Whether cuts rise, all of them different.
pub open spec fn strictly_ascending(cuts: Seq<Single>) -> bool {
    cuts.len() >= 2 ==> {
        &&& forall|i: int| 0 <= i < cuts.len() ==> !(#[trigger] cuts[i]).nan()
        &&& forall|i: int, j: int|
            0 <= i < j < cuts.len() ==> (#[trigger] cuts[i]).place() < (#[trigger] cuts[j]).place()
    }
}

/// The cut points of all features, laid out one feature after the other.
#[derive(Clone, Debug)]
pub struct HistCuts {
    n_features: usize,
    feature_offset: Vec<u32>,
    cut_values: Vec<Single>,
    is_categorical: Vec<bool>,
}

proof fn sorted_values_by_order(vals: Seq<Single>, order: Seq<usize>)
    requires
        vals.len() <= usize::MAX,
        stable_order(places(vals), order),
    ensures
        sorted_values(vals) == Seq::new(vals.len(), |i: int| vals[order[i] as int]),
{
    let o = choose|o: Seq<usize>| stable_order(places(vals), o);
    stable_order_is_unique(places(vals), o, order);
}

/// The cuts of categories are the values, each once.
pub proof fn category_cuts_are_values(vals: Seq<Single>)
    requires
        0 < vals.len() <= usize::MAX,
        forall|i: int| 0 <= i < vals.len() ==> !(#[trigger] vals[i]).nan(),
    ensures
        forall|k: int|
            0 <= k < category_cuts(vals).len() ==> vals.contains(#[trigger] category_cuts(vals)[k]),
        forall|i: int|
            0 <= i < vals.len() ==> exists|k: int|
                0 <= k < category_cuts(vals).len() && (#[trigger] category_cuts(vals)[k]).same(
                    #[trigger] vals[i],
                ),
{
    let sorted = sorted_values(vals);
    let n = vals.len() as int;
    let cuts = category_cuts(vals);
    sorted_values_are_sorted(vals);
    distinct_run_rises(sorted, n);
    distinct_run_is_drawn_from_the_values(sorted, n);
    assert forall|k: int| 0 <= k < cuts.len() implies vals.contains(#[trigger] cuts[k]) by {
        let j = choose|j: int| 0 <= j < n && sorted[j] == cuts[k];
        assert(vals.contains(sorted[j]));
    }
    assert forall|i: int| 0 <= i < vals.len() implies exists|k: int|
        0 <= k < cuts.len() && (#[trigger] cuts[k]).same(#[trigger] vals[i]) by {
        let j = choose|j: int| 0 <= j < sorted.len() && sorted[j] == vals[i];
        assert(!sorted[j].nan());
        let k = choose|k: int|
            0 <= k < distinct_run(sorted, n).len() && (#[trigger] distinct_run(
                sorted,
                n,
            )[k]).place() == sorted[j].place();
        assert(vals.contains(cuts[k]));
        let a = choose|a: int| 0 <= a < vals.len() && vals[a] == cuts[k];
        assert(!vals[a].nan());
        assert(cuts[k].same(vals[i]));
    }
}

proof fn distinct_run_is_drawn_from_the_values(sorted: Seq<Single>, n: int)
    requires
        0 <= n <= sorted.len(),
    ensures
        forall|k: int|
            0 <= k < distinct_run(sorted, n).len() ==> exists|j: int|
                0 <= j < n && sorted[j] == #[trigger] distinct_run(sorted, n)[k],
    decreases n,
{
    if n > 0 {
        distinct_run_is_drawn_from_the_values(sorted, n - 1);
        let was = distinct_run(sorted, n - 1);
        let now = distinct_run(sorted, n);
        assert forall|k: int| 0 <= k < now.len() implies exists|j: int|
            0 <= j < n && sorted[j] == #[trigger] now[k] by {
            if k < was.len() {
                assert(now[k] == was[k]);
                let j = choose|j: int| 0 <= j < n - 1 && sorted[j] == was[k];
                assert(sorted[j] == now[k]);
            } else {
                assert(sorted[n - 1] == now[k]);
            }
        }
    }
}

/// Sorting keeps the values and puts them in order.
pub proof fn sorted_values_are_sorted(vals: Seq<Single>)
    requires
        vals.len() <= usize::MAX,
        sortable(vals),
    ensures
        sorted_values(vals).len() == vals.len(),
        ascending(sorted_values(vals)),
        forall|i: int|
            0 <= i < vals.len() ==> sorted_values(vals).contains(#[trigger] vals[i]),
        forall|i: int|
            0 <= i < vals.len() ==> vals.contains(#[trigger] sorted_values(vals)[i]),
{
    stable_order_exists(places(vals));
    let order = choose|o: Seq<usize>| stable_order(places(vals), o);
    let sorted = sorted_values(vals);
    assert forall|i: int| 0 <= i < vals.len() implies sorted.contains(#[trigger] vals[i]) by {
        assert(order.contains(i as usize));
        let k = choose|k: int| 0 <= k < order.len() && order[k] == i as usize;
        assert(sorted[k] == vals[i]);
    }
    assert forall|i: int| 0 <= i < vals.len() implies vals.contains(#[trigger] sorted[i]) by {
        assert(vals[order[i] as int] == sorted[i]);
    }
    if vals.len() >= 2 {
        assert forall|i: int, j: int| 0 <= i <= j < sorted.len() implies (
        #[trigger] sorted[i]).place() <= (#[trigger] sorted[j]).place() by {
            if i < j {
                assert(crate::sort::before(places(vals), order[i] as int, order[j] as int));
            }
        }
    }
}

/// The values in ascending order.
pub fn sort_values(vals: &[Single]) -> (r: Vec<Single>)
    ensures
        r@ == sorted_values(vals@),
        r.len() == vals.len(),
        sortable(vals@) ==> ascending(r@),
{
    let keys = keys_of(vals);
    let order = argsort(keys.as_slice());
    let mut out: Vec<Single> = Vec::new();
    let mut i: usize = 0;
    while i < order.len()
        invariant
            i <= order.len(),
            order.len() == vals.len(),
            stable_order(places(vals@), order@),
            out.len() == i,
            forall|k: int| 0 <= k < i ==> #[trigger] out[k] == vals[order[k] as int],
        decreases order.len() - i,
    {
        out.push(vals[order[i]]);
        i = i + 1;
    }
    proof {
        sorted_values_by_order(vals@, order@);
        assert(out@ =~= sorted_values(vals@));
        if sortable(vals@) {
            sorted_values_are_sorted(vals@);
        }
    }
    out
}

proof fn distinct_run_rises(sorted: Seq<Single>, n: int)
    requires
        1 <= n <= sorted.len(),
        ascending(sorted),
    ensures
        1 <= distinct_run(sorted, n).len() <= n,
        strictly_ascending(distinct_run(sorted, n)),
        n >= 2 ==> distinct_run(sorted, n).last().place() == sorted[n - 1].place(),
        n == 1 ==> distinct_run(sorted, n) == seq![sorted[0]],
        sorted.len() >= 2 ==> forall|i: int|
            0 <= i < distinct_run(sorted, n).len() ==> !(#[trigger] distinct_run(
                sorted,
                n,
            )[i]).nan(),
        sorted.len() >= 2 ==> forall|i: int|
            0 <= i < distinct_run(sorted, n).len() ==> (#[trigger] distinct_run(
                sorted,
                n,
            )[i]).place() <= sorted[n - 1].place(),
        forall|i: int|
            0 <= i < n && !sorted[i].nan() ==> exists|k: int|
                0 <= k < distinct_run(sorted, n).len() && (#[trigger] distinct_run(
                    sorted,
                    n,
                )[k]).place() == (#[trigger] sorted[i]).place(),
    decreases n,
{
    reveal_with_fuel(distinct_run, 3);
    let run = distinct_run(sorted, n);
    if n == 1 {
        assert(run =~= seq![sorted[0]]);
        assert forall|i: int| 0 <= i < n && !sorted[i].nan() implies exists|k: int|
            0 <= k < run.len() && (#[trigger] run[k]).place() == (
            #[trigger] sorted[i]).place() by {
            assert(run[0].place() == sorted[i].place());
        }
    } else {
        distinct_run_rises(sorted, n - 1);
        let prev = distinct_run(sorted, n - 1);
        assert(sorted[n - 2].place() <= sorted[n - 1].place());
        assert(!sorted[n - 2].nan() && !sorted[n - 1].nan());
        if n == 2 {
            assert(prev.last() == sorted[0]);
        }
        assert forall|i: int| 0 <= i < n && !sorted[i].nan() implies exists|k: int|
            0 <= k < run.len() && (#[trigger] run[k]).place() == (
            #[trigger] sorted[i]).place() by {
            if i == n - 1 {
                assert(run[run.len() - 1].place() == sorted[i].place());
            } else {
                let k = choose|k: int|
                    0 <= k < prev.len() && (#[trigger] prev[k]).place() == sorted[i].place();
                assert(run[k].place() == sorted[i].place());
            }
        }
    }
}

pub(crate) proof fn quantile_run_rises(sorted: Seq<Single>, ranks: Seq<usize>, b: int)
    requires
        2 <= sorted.len(),
        ascending(sorted),
        0 <= b <= ranks.len(),
    ensures
        quantile_run(sorted, ranks, b).len() <= b,
        strictly_ascending(quantile_run(sorted, ranks, b)),
        forall|i: int|
            0 <= i < quantile_run(sorted, ranks, b).len() ==> !(#[trigger] quantile_run(
                sorted,
                ranks,
                b,
            )[i]).nan() && quantile_run(sorted, ranks, b)[i].place() <= sorted.last().place(),
        b > 0 && ranks[b - 1] >= sorted.len() && sorted.last().place() > -0x7f80_0000
            ==> quantile_run(sorted, ranks, b).len() > 0 && quantile_run(
            sorted,
            ranks,
            b,
        ).last().place() == sorted.last().place(),
    decreases b,
{
    if b > 0 {
        quantile_run_rises(sorted, ranks, b - 1);
        let kept = quantile_run(sorted, ranks, b - 1);
        let p = rank_position(ranks[b - 1], sorted.len() as int);
        assert(0 <= p < sorted.len());
        assert(!sorted[p].nan());
        assert(sorted[p].place() <= sorted[sorted.len() - 1].place());
        let neg_inf = Single { bits: 0xff80_0000 };
        assert(!neg_inf.nan() && neg_inf.place() == -0x7f80_0000);
    }
}

/// Append one bin per distinct category, in ascending order.
fn build_categorical_cuts(sorted: &Vec<Single>, out: &mut Vec<Single>)
    requires
        ascending(sorted@),
    ensures
        sorted.len() == 0 ==> final(out)@ == old(out)@ + seq![Single { bits: 0 }],
        sorted.len() > 0 ==> final(out)@ == old(out)@ + distinct_run(
            sorted@,
            sorted.len() as int,
        ),
{
    if sorted.len() == 0 {
        out.push(Single::zero());
        assert(out@ =~= old(out)@ + seq![Single { bits: 0 }]);
        return ;
    }
    push_distinct(sorted, out);
}

fn push_distinct(sorted: &Vec<Single>, out: &mut Vec<Single>)
    requires
        sorted.len() > 0,
    ensures
        final(out)@ == old(out)@ + distinct_run(sorted@, sorted.len() as int),
{
    out.push(sorted[0]);
    let mut i: usize = 1;
    proof {
        reveal_with_fuel(distinct_run, 2);
        assert(out@ =~= old(out)@ + distinct_run(sorted@, 1));
    }
    while i < sorted.len()
        invariant
            1 <= i <= sorted.len(),
            out@ == old(out)@ + distinct_run(sorted@, i as int),
        decreases sorted.len() - i,
    {
        if !sorted[i - 1].is_same(sorted[i]) {
            out.push(sorted[i]);
        }
        i = i + 1;
        assert(out@ =~= old(out)@ + distinct_run(sorted@, i as int));
    }
}

fn count_distinct(sorted: &Vec<Single>) -> (r: usize)
    requires
        sorted.len() > 0,
    ensures
        r == distinct_run(sorted@, sorted.len() as int).len(),
{
    let mut distinct: usize = 1;
    let mut i: usize = 1;
    proof {
        reveal_with_fuel(distinct_run, 2);
    }
    while i < sorted.len()
        invariant
            1 <= i <= sorted.len(),
            distinct <= i,
            distinct == distinct_run(sorted@, i as int).len(),
        decreases sorted.len() - i,
    {
        if !sorted[i - 1].is_same(sorted[i]) {
            distinct = distinct + 1;
        }
        i = i + 1;
    }
    distinct
}

fn push_quantiles(sorted: &Vec<Single>, ranks: &Vec<usize>, out: &mut Vec<Single>)
    requires
        sorted.len() > 0,
    ensures
        final(out)@ == old(out)@ + quantile_run(sorted@, ranks@, ranks.len() as int),
{
    let n: usize = sorted.len();
    let mut last_pushed = Single { bits: 0xff80_0000 };
    let mut b: usize = 0;
    assert(out@ =~= old(out)@ + quantile_run(sorted@, ranks@, 0));
    while b < ranks.len()
        invariant
            n == sorted.len(),
            n > 0,
            b <= ranks.len(),
            out@ == old(out)@ + quantile_run(sorted@, ranks@, b as int),
            last_pushed == (if quantile_run(sorted@, ranks@, b as int).len() == 0 {
                Single { bits: 0xff80_0000 }
            } else {
                quantile_run(sorted@, ranks@, b as int).last()
            }),
        decreases ranks.len() - b,
    {
        let rank: usize = ranks[b];
        let p: usize = if rank >= 1 { rank - 1 } else { 0 };
        let idx: usize = if p < n { p } else { n - 1 };
        let v = sorted[idx];
        if last_pushed.is_lt(v) {
            out.push(v);
            last_pushed = v;
        }
        b = b + 1;
        assert(out@ =~= old(out)@ + quantile_run(sorted@, ranks@, b as int));
    }
}

/// What the base list of cuts of a numeric feature has.
pub(crate) proof fn numeric_base(sorted: Seq<Single>, max_bin: int, ranks: Seq<usize>)
    requires
        sorted.len() > 0,
        ascending(sorted),
        1 <= max_bin,
        ranks_fit(ranks, max_bin, sorted.len() as int),
    ensures
        ({
            let distinct = distinct_run(sorted, sorted.len() as int);
            let base = if distinct.len() <= max_bin {
                distinct
            } else {
                quantile_run(sorted, ranks, max_bin)
            };
            &&& 1 <= base.len() <= max_bin
            &&& strictly_ascending(base)
            &&& base.last().place() == sorted.last().place()
            &&& base.last().nan() == sorted.last().nan()
            &&& sorted.len() == 1 ==> base == seq![sorted[0]]
            &&& sorted.len() >= 2 ==> forall|i: int|
                0 <= i < base.len() ==> !(#[trigger] base[i]).nan() && base[i].place()
                    <= sorted.last().place()
        }),
{
    let n = sorted.len() as int;
    distinct_run_rises(sorted, n);
    let distinct = distinct_run(sorted, n);
    if distinct.len() > max_bin {
        assert(sorted.len() >= 2);
        assert(distinct[0].place() < distinct[distinct.len() - 1].place());
        quantile_run_rises(sorted, ranks, max_bin);
        assert(distinct[0].magnitude() <= 0x7f80_0000);
    }
}

/// Append the cuts of a numeric feature.
fn build_feature_cuts(
    sorted: &Vec<Single>,
    max_bin: usize,
    ranks: &Vec<usize>,
    out: &mut Vec<Single>,
    Ghost(vals): Ghost<Seq<Single>>,
)
    requires
        ascending(sorted@),
        sorted@ == sorted_values(vals),
        sorted.len() == vals.len(),
        1 <= max_bin,
        ranks_fit(ranks@, max_bin as int, vals.len() as int),
    ensures
        final(out)@ == old(out)@ + numeric_cuts(vals, max_bin as int, ranks@),
{
    if sorted.len() == 0 {
        out.push(Single::zero());
        assert(out@ =~= old(out)@ + numeric_cuts(vals, max_bin as int, ranks@));
        return ;
    }
    let max_val = sorted[sorted.len() - 1];
    proof {
        numeric_base(sorted@, max_bin as int, ranks@);
    }
    if count_distinct(sorted) <= max_bin {
        push_distinct(sorted, out);
    } else {
        push_quantiles(sorted, ranks, out);
    }
    if out[out.len() - 1].is_le(max_val) {
        out.push(max_val.next_up());
    }
    assert(out@ =~= old(out)@ + numeric_cuts(vals, max_bin as int, ranks@));
}

impl HistCuts {
    /// Number of features.
    pub closed spec fn features(&self) -> int {
        self.n_features as int
    }

    /// The first bin of feature `f`; the number of all bins beyond the last
    /// feature.
    pub closed spec fn start(&self, f: int) -> int {
        if 0 <= f <= self.n_features {
            self.feature_offset[f] as int
        } else {
            self.cut_values.len() as int
        }
    }

    /// The cuts of feature `f`.
    pub open spec fn cuts_of(&self, f: int) -> Seq<Single> {
        self.cuts().subrange(self.start(f), self.start(f + 1))
    }

    /// All cuts, one feature after the other.
    pub closed spec fn cuts(&self) -> Seq<Single> {
        self.cut_values@
    }

    /// Whether feature `f` is categorical.
    pub closed spec fn categorical(&self, f: int) -> bool {
        0 <= f < self.n_features && self.is_categorical[f]
    }

    /// There are no bins beyond the last feature.
    pub proof fn no_bins_beyond(&self, f: int)
        ensures
            f > self.features() ==> self.start(f) == self.cuts().len(),
            self.categorical(f) ==> 0 <= f < self.features(),
    {
    }

    /// The bin of value `v` of feature `f`.
    pub open spec fn bin(&self, f: int, v: Single) -> int {
        self.start(f) + if self.categorical(f) {
            category_bin(self.cuts_of(f), v)
        } else {
            numeric_bin(self.cuts_of(f), v)
        }
    }

    /// Every feature has bins of its own, in ascending order of their cuts.
    pub closed spec fn well_formed(&self) -> bool {
        &&& self.feature_offset.len() == self.n_features + 1
        &&& self.is_categorical.len() == self.n_features
        &&& self.feature_offset[0] == 0
        &&& self.feature_offset[self.n_features as int] == self.cut_values.len()
        &&& forall|f: int, g: int|
            0 <= f < g <= self.n_features ==> #[trigger] self.feature_offset[f]
                < #[trigger] self.feature_offset[g]
        &&& forall|f: int|
            0 <= f < self.n_features ==> if #[trigger] self.categorical(f) {
                strictly_ascending(self.cuts_of(f))
            } else {
                ascending(self.cuts_of(f))
            }
    }

    /// What every well-formed table of cuts has.
    pub proof fn layout(&self, f: int)
        requires
            self.well_formed(),
            0 <= f < self.features(),
        ensures
            self.features() <= usize::MAX,
            self.cuts().len() <= u32::MAX,
            self.start(0) == 0,
            self.start(self.features()) == self.cuts().len(),
            0 <= self.start(f) < self.start(f + 1) <= self.cuts().len(),
            self.cuts_of(f).len() == self.start(f + 1) - self.start(f),
            self.categorical(f) ==> strictly_ascending(self.cuts_of(f)),
            !self.categorical(f) ==> ascending(self.cuts_of(f)),
    {
        assert(self.feature_offset[0] <= self.feature_offset[f]);
        assert(self.feature_offset[f] < self.feature_offset[f + 1]);
        assert(self.feature_offset[f + 1] <= self.feature_offset[self.n_features as int]);
        assert(self.categorical(f) || !self.categorical(f));
    }

    /// The bins of a feature come before those of every later one.
    pub proof fn features_do_not_overlap(&self, f: int, g: int)
        requires
            self.well_formed(),
            0 <= f < g <= self.features(),
        ensures
            self.start(f + 1) <= self.start(g),
    {
        if f + 1 < g {
            assert(self.feature_offset[f + 1] < self.feature_offset[g]);
        }
    }

    /// Whether feature `f` is categorical.
    pub fn is_categorical(&self, f: usize) -> (r: bool)
        requires
            self.well_formed(),
            f < self.features(),
        ensures
            r == self.categorical(f as int),
    {
        self.is_categorical[f]
    }

    /// Number of features.
    pub fn n_features(&self) -> (r: usize)
        ensures
            r == self.features(),
    {
        self.n_features
    }

    /// Total number of bins across all features.
    pub fn total_bins(&self) -> (r: usize)
        ensures
            r == self.cuts().len(),
    {
        self.cut_values.len()
    }

    /// The bins `[start, end)` of feature `f`.
    pub fn feature_bins(&self, f: usize) -> (r: (usize, usize))
        requires
            self.well_formed(),
            f < self.features(),
        ensures
            r.0 == self.start(f as int),
            r.1 == self.start(f + 1),
    {
        (self.feature_offset[f] as usize, self.feature_offset[f + 1] as usize)
    }

    /// Number of bins of feature `f`.
    pub fn num_bins(&self, f: usize) -> (r: usize)
        requires
            self.well_formed(),
            f < self.features(),
        ensures
            r == self.cuts_of(f as int).len(),
    {
        proof {
            self.layout(f as int);
        }
        (self.feature_offset[f + 1] - self.feature_offset[f]) as usize
    }

    /// The cut of a bin: a value goes left of a split here when it lies below.
    pub fn cut_value(&self, global_bin: usize) -> (r: Single)
        requires
            global_bin < self.cuts().len(),
        ensures
            r == self.cuts()[global_bin as int],
    {
        self.cut_values[global_bin]
    }

    /// The bin of a feature value, among the bins of all features.
    pub fn bin_of(&self, f: usize, value: Single) -> (r: u32)
        requires
            self.well_formed(),
            f < self.features(),
            self.categorical(f as int) ==> !value.nan() && !self.cuts_of(f as int)[0].nan(),
        ensures
            r == self.bin(f as int, value),
            self.start(f as int) <= r < self.start(f + 1),
    {
        proof {
            self.layout(f as int);
        }
        let start: usize = self.feature_offset[f] as usize;
        let end: usize = self.feature_offset[f + 1] as usize;
        let slice = vstd::slice::slice_subrange(self.cut_values.as_slice(), start, end);
        assert(slice@ == self.cuts_of(f as int));
        let local: usize = if self.is_categorical[f] {
            find_category(slice, value)
        } else {
            let k: usize = partition_point(slice, value);
            if k < slice.len() { k } else { slice.len() - 1 }
        };
        (start + local) as u32
    }
}

proof fn count_le_split(cuts: Seq<Single>, v: Single, k: int, n: int)
    requires
        0 <= k <= n <= cuts.len(),
        forall|i: int| 0 <= i < k ==> (#[trigger] cuts[i]).le(v),
        forall|i: int| k <= i < n ==> !(#[trigger] cuts[i]).le(v),
    ensures
        count_le(cuts, v, n) == k,
    decreases n,
{
    if n > 0 {
        if k == n {
            count_le_split(cuts, v, k - 1, n - 1);
        } else {
            count_le_split(cuts, v, k, n - 1);
        }
    }
}

fn partition_point(cuts: &[Single], v: Single) -> (r: usize)
    requires
        ascending(cuts@),
    ensures
        r == count_le(cuts@, v, cuts.len() as int),
        r <= cuts.len(),
        forall|i: int| 0 <= i < r ==> (#[trigger] cuts[i]).le(v),
        forall|i: int| r <= i < cuts.len() ==> !(#[trigger] cuts[i]).le(v),
{
    let mut lo: usize = 0;
    let mut hi: usize = cuts.len();
    while lo < hi
        invariant
            ascending(cuts@),
            lo <= hi <= cuts.len(),
            forall|i: int| 0 <= i < lo ==> (#[trigger] cuts[i]).le(v),
            forall|i: int| hi <= i < cuts.len() ==> !(#[trigger] cuts[i]).le(v),
        decreases hi - lo,
    {
        let mid: usize = lo + (hi - lo) / 2;
        if cuts[mid].is_le(v) {
            lo = mid + 1;
        } else {
            hi = mid;
        }
    }
    proof {
        count_le_split(cuts@, v, lo as int, cuts.len() as int);
    }
    lo
}

fn find_category(cuts: &[Single], v: Single) -> (r: usize)
    requires
        strictly_ascending(cuts@),
        cuts.len() > 0,
        !v.nan(),
        !cuts[0].nan(),
    ensures
        r == category_bin(cuts@, v),
        r < cuts.len(),
{
    let mut lo: usize = 0;
    let mut hi: usize = cuts.len();
    while lo < hi
        invariant
            strictly_ascending(cuts@),
            !v.nan(),
            cuts.len() > 0,
            !cuts[0].nan(),
            lo <= hi <= cuts.len(),
            forall|i: int| 0 <= i < lo ==> (#[trigger] cuts[i]).place() < v.place(),
            forall|i: int| hi <= i < cuts.len() ==> (#[trigger] cuts[i]).place() > v.place(),
        decreases hi - lo,
    {
        let mid: usize = lo + (hi - lo) / 2;
        if cuts[mid].key() < v.key() {
            lo = mid + 1;
        } else if cuts[mid].key() > v.key() {
            hi = mid;
        } else {
            assert(cuts[mid as int].same(v));
            proof {
                let i = category_bin(cuts@, v);
                assert(cuts[i].same(v));
                if i < mid {
                    assert(cuts[i].place() < cuts[mid as int].place());
                } else if i > mid {
                    assert(cuts[mid as int].place() < cuts[i].place());
                }
            }
            return mid;
        }
    }
    0
}

proof fn cuts_before_grows<F: Fn(Op, u64, u64) -> u64>(
    data: &DMatrix,
    max_bin: int,
    weights: Option<Seq<Single>>,
    calc: &Calc<F>,
    a: int,
    b: int,
)
    requires
        a <= b,
    ensures
        cuts_before(data, max_bin, weights, calc, a) <= cuts_before(
            data,
            max_bin,
            weights,
            calc,
            b,
        ),
    decreases b - a,
{
    if a < b {
        cuts_before_grows(data, max_bin, weights, calc, a, b - 1);
    }
}

/// However rows are weighted, a numeric feature has at most one cut more than
/// asked for.
pub proof fn cuts_are_bounded<F: Fn(Op, u64, u64) -> u64>(
    data: &DMatrix,
    max_bin: int,
    weights: Option<Seq<Single>>,
    calc: &Calc<F>,
    n: int,
)
    requires
        data.well_formed(),
        1 <= max_bin,
        0 <= n <= data.width(),
        forall|f: int| 0 <= f < data.width() ==> sortable(#[trigger] column_values(data, f)),
        forall|f: int|
            0 <= f < data.width() ==> (#[trigger] column_values(data, f)).len() <= usize::MAX,
    ensures
        cuts_before(data, max_bin, weights, calc, n) <= cut_bound(data, max_bin, n),
    decreases n,
{
    if n > 0 {
        cuts_are_bounded(data, max_bin, weights, calc, n - 1);
        let f = n - 1;
        let vals = column_values(data, f);
        if data.types()[f] != FeatureType::Categorical {
            match weights {
                Some(w) => {
                    let ws = sorted_weights(data.column_prefix(f, data.height()), w);
                    numeric_cuts_rise(vals, max_bin, weighted_ranks(ws, max_bin, calc));
                },
                None => {
                    numeric_cuts_rise(
                        vals,
                        max_bin,
                        quantile_ranks(calc, max_bin, vals.len() as int),
                    );
                },
            }
        }
    }
}

/// The cuts of a numeric feature rise, and there is at least one and at most
/// one more than asked for.
pub proof fn numeric_cuts_rise(vals: Seq<Single>, max_bin: int, ranks: Seq<usize>)
    requires
        vals.len() <= usize::MAX,
        sortable(vals),
        1 <= max_bin,
        ranks_fit(ranks, max_bin, vals.len() as int),
    ensures
        1 <= numeric_cuts(vals, max_bin, ranks).len() <= max_bin + 1,
        ascending(numeric_cuts(vals, max_bin, ranks)),
        (vals.len() > 0 && sorted_values(vals).last().finite()) ==> strictly_ascending(
            numeric_cuts(vals, max_bin, ranks),
        ),
{
    if vals.len() > 0 {
        sorted_values_are_sorted(vals);
        numeric_base(sorted_values(vals), max_bin, ranks);
        let top = sorted_values(vals).last();
        if !top.nan() && top.bits != 0x7f80_0000 {
            assert(top.successor().place() == top.place() + 1);
        }
    }
}

/// The bins of a categorical feature rise, and there is at least one.
pub proof fn category_cuts_rise(vals: Seq<Single>)
    requires
        vals.len() <= usize::MAX,
        sortable(vals),
    ensures
        1 <= category_cuts(vals).len(),
        strictly_ascending(category_cuts(vals)),
{
    if vals.len() > 0 {
        sorted_values_are_sorted(vals);
        distinct_run_rises(sorted_values(vals), vals.len() as int);
    }
}

fn keys_of(vals: &[Single]) -> (keys: Vec<i64>)
    ensures
        keys@ == places(vals@),
{
    let mut keys: Vec<i64> = Vec::new();
    let mut i: usize = 0;
    while i < vals.len()
        invariant
            i <= vals.len(),
            keys.len() == i,
            forall|k: int| 0 <= k < i ==> #[trigger] keys[k] == vals[k].place(),
        decreases vals.len() - i,
    {
        keys.push(vals[i].key());
        i = i + 1;
    }
    assert(keys@ =~= places(vals@));
    keys
}

fn ranks_of<F: Fn(Op, u64, u64) -> u64>(max_bin: usize, n: usize, calc: &Calc<F>) -> (r: Vec<
    usize,
>)
    requires
        1 <= max_bin,
    ensures
        r@ == quantile_ranks(calc, max_bin as int, n as int),
        ranks_fit(r@, max_bin as int, n as int),
{
    let mut ranks: Vec<usize> = Vec::new();
    let mut b: usize = 1;
    while b < max_bin
        invariant
            1 <= b <= max_bin,
            ranks.len() == b - 1,
            forall|i: int|
                0 <= i < b - 1 ==> #[trigger] ranks[i] == quantile_rank(
                    calc,
                    i + 1,
                    max_bin as int,
                    n as int,
                ),
        decreases max_bin - b,
    {
        let q = calc.div(calc.of_usize(b), calc.of_usize(max_bin));
        let rank: usize = calc.ceil(calc.mul(q, calc.of_usize(n))).to_usize();
        ranks.push(rank);
        b = b + 1;
    }
    ranks.push(n);
    assert(ranks@ =~= quantile_ranks(calc, max_bin as int, n as int));
    ranks
}

fn weights_by_value(vals: &[Single], rows: &[u32], weights: &[Single]) -> (r: Vec<Single>)
    requires
        rows.len() == vals.len(),
        forall|i: int| 0 <= i < rows.len() ==> #[trigger] rows[i] < weights.len(),
    ensures
        r@ == sorted_weights(crate::data::dmatrix::paired(rows@, vals@), weights@),
        r.len() == vals.len(),
{
    let ghost pairs = crate::data::dmatrix::paired(rows@, vals@);
    let keys = keys_of(vals);
    let order = argsort(keys.as_slice());
    let mut out: Vec<Single> = Vec::new();
    let mut i: usize = 0;
    while i < order.len()
        invariant
            i <= order.len(),
            order.len() == vals.len(),
            rows.len() == vals.len(),
            forall|k: int| 0 <= k < rows.len() ==> #[trigger] rows[k] < weights.len(),
            stable_order(places(vals@), order@),
            out.len() == i,
            forall|k: int|
                0 <= k < i ==> #[trigger] out[k] == weights[rows[order[k] as int] as int],
        decreases order.len() - i,
    {
        out.push(weights[rows[order[i]] as usize]);
        i = i + 1;
    }
    proof {
        assert(values_of(pairs) =~= vals@);
        let o = choose|o: Seq<usize>| stable_order(places(vals@), o);
        stable_order_is_unique(places(vals@), o, order@);
        assert(out@ =~= sorted_weights(pairs, weights@));
    }
    out
}

fn weighted_ranks_of<F: Fn(Op, u64, u64) -> u64>(
    weights: &Vec<Single>,
    max_bin: usize,
    calc: &Calc<F>,
) -> (r: Vec<usize>)
    requires
        1 <= max_bin,
    ensures
        r@ == weighted_ranks(weights@, max_bin as int, calc),
        ranks_fit(r@, max_bin as int, weights.len() as int),
{
    let n: usize = weights.len();
    let mut sums: Vec<Wide> = Vec::new();
    let mut total = Wide::zero();
    let mut i: usize = 0;
    while i < n
        invariant
            n == weights.len(),
            i <= n,
            sums.len() == i,
            total == weight_up_to(weights@, i as int, calc),
            forall|k: int|
                0 <= k < i ==> #[trigger] sums[k] == weight_up_to(weights@, k + 1, calc),
        decreases n - i,
    {
        total = calc.add(total, calc.widen(weights[i]));
        sums.push(total);
        i = i + 1;
    }
    let mut ranks: Vec<usize> = Vec::new();
    let mut b: usize = 1;
    while b < max_bin
        invariant
            n == weights.len(),
            sums.len() == n,
            total == weight_up_to(weights@, n as int, calc),
            forall|k: int|
                0 <= k < n ==> #[trigger] sums[k] == weight_up_to(weights@, k + 1, calc),
            1 <= b <= max_bin,
            ranks.len() == b - 1,
            forall|i: int|
                0 <= i < b - 1 ==> #[trigger] ranks[i] == weighted_rank(
                    weights@,
                    i + 1,
                    max_bin as int,
                    calc,
                ),
        decreases max_bin - b,
    {
        let target = calc.mul(calc.div(calc.of_usize(b), calc.of_usize(max_bin)), total);
        let mut k: usize = 0;
        while k + 1 < n && sums[k].is_lt(target)
            invariant
                n == weights.len(),
                sums.len() == n,
                forall|j: int|
                    0 <= j < n ==> #[trigger] sums[j] == weight_up_to(weights@, j + 1, calc),
                k < n || k == 0,
                reaching(weights@, target, k as int, calc) == reaching(weights@, target, 0, calc),
            decreases n - k,
        {
            k = k + 1;
        }
        ranks.push(k + 1);
        b = b + 1;
    }
    ranks.push(n);
    assert(ranks@ =~= weighted_ranks(weights@, max_bin as int, calc));
    ranks
}

impl HistCuts {
    fn build<F: Fn(Op, u64, u64) -> u64>(
        data: &DMatrix,
        max_bin: usize,
        weights: Option<&[Single]>,
        calc: &Calc<F>,
    ) -> (r: Self)
        requires
            data.well_formed(),
            data.readable(),
            1 <= max_bin,
            forall|f: int| 0 <= f < data.width() ==> sortable(#[trigger] column_values(data, f)),
            cuts_before(data, max_bin as int, slice_view(weights), calc, data.width())
                <= u32::MAX,
            weights matches Some(w) ==> w@.len() == data.height() && data.height()
                <= 0x1_0000_0000,
        ensures
            r.well_formed(),
            r.features() == data.width(),
            forall|f: int|
                0 <= f < data.width() ==> #[trigger] r.cuts_of(f) == feature_cuts(
                    data,
                    max_bin as int,
                    slice_view(weights),
                    calc,
                    f,
                ),
            forall|f: int|
                0 <= f < data.width() ==> #[trigger] r.categorical(f) == (data.types()[f]
                    == FeatureType::Categorical),
    {
        let csc = data.to_csc();
        let n_features: usize = csc.n_cols();
        let types = data.feature_types();
        let mut feature_offset: Vec<u32> = Vec::new();
        feature_offset.push(0);
        let mut cut_values: Vec<Single> = Vec::new();
        let mut is_categorical: Vec<bool> = Vec::new();
        let mut f: usize = 0;
        let ghost mb = max_bin as int;
        let ghost ws = slice_view(weights);
        proof {
            data.shape();
        }
        while f < n_features
            invariant
                data.well_formed(),
                data.readable(),
                1 <= max_bin,
                mb == max_bin,
                ws == slice_view(weights),
                weights matches Some(w) ==> w@.len() == data.height() && data.height()
                    <= 0x1_0000_0000,
                n_features == data.width(),
                types@ == data.types(),
                types.len() == n_features,
                csc.well_formed(),
                csc.width() == data.width(),
                forall|c: int|
                    0 <= c < data.width() ==> #[trigger] csc.pairs(c) == data.column_prefix(
                        c,
                        data.height(),
                    ),
                forall|g: int|
                    0 <= g < data.width() ==> sortable(#[trigger] column_values(data, g)),
                cuts_before(data, mb, ws, calc, data.width()) <= u32::MAX,
                f <= n_features,
                feature_offset.len() == f + 1,
                is_categorical.len() == f,
                feature_offset[0] == 0,
                cut_values.len() == cuts_before(data, mb, ws, calc, f as int),
                feature_offset[f as int] == cut_values.len(),
                forall|a: int, b: int|
                    0 <= a < b <= f ==> #[trigger] feature_offset[a] < #[trigger] feature_offset[b],
                forall|g: int|
                    0 <= g < f ==> #[trigger] is_categorical[g] == (data.types()[g]
                        == FeatureType::Categorical),
                forall|g: int|
                    0 <= g < f ==> #[trigger] cut_values@.subrange(
                        feature_offset[g] as int,
                        feature_offset[g + 1] as int,
                    ) == feature_cuts(data, mb, ws, calc, g),
                forall|g: int|
                    0 <= g < f ==> if #[trigger] is_categorical[g] {
                        strictly_ascending(feature_cuts(data, mb, ws, calc, g))
                    } else {
                        ascending(feature_cuts(data, mb, ws, calc, g))
                    },
            decreases n_features - f,
        {
            let (rows, vals) = csc.column(f);
            assert(vals@ =~= column_values(data, f as int)) by {
                assert(csc.pairs(f as int) == data.column_prefix(f as int, data.height()));
            }
            let ghost was = cut_values@;
            let sorted = sort_values(vals);
            let categorical = match types[f] {
                FeatureType::Categorical => true,
                FeatureType::Numerical => false,
            };
            assert(sortable(column_values(data, f as int)));
            if categorical {
                proof {
                    category_cuts_rise(vals@);
                }
                build_categorical_cuts(&sorted, &mut cut_values);
            } else {
                let ranks = match weights {
                    Some(w) => {
                        proof {
                            rows_of_a_column(data, f as int, data.height());
                            assert forall|i: int| 0 <= i < rows.len() implies #[trigger] rows[i]
                                < w.len() by {
                                assert(data.column_prefix(f as int, data.height())[i].0 == rows[i]);
                            }
                        }
                        let by_value = weights_by_value(vals, rows, w);
                        weighted_ranks_of(&by_value, max_bin, calc)
                    },
                    None => ranks_of(max_bin, vals.len(), calc),
                };
                proof {
                    numeric_cuts_rise(vals@, mb, ranks@);
                }
                build_feature_cuts(&sorted, max_bin, &ranks, &mut cut_values, Ghost(vals@));
            }
            let ghost mine = feature_cuts(data, mb, ws, calc, f as int);
            assert(cut_values@ =~= was + mine);
            proof {
                cuts_before_grows(data, mb, ws, calc, f + 1, data.width());
            }
            let ghost offs = feature_offset@;
            is_categorical.push(categorical);
            feature_offset.push(cut_values.len() as u32);
            proof {
                assert forall|g: int| 0 <= g < f + 1 implies #[trigger] cut_values@.subrange(
                    feature_offset[g] as int,
                    feature_offset[g + 1] as int,
                ) == feature_cuts(data, mb, ws, calc, g) by {
                    if g < f {
                        assert(feature_offset[g] == offs[g] && feature_offset[g + 1] == offs[g
                            + 1]);
                        assert(g + 1 < f ==> offs[g + 1] < offs[f as int]);
                        assert(offs[g] < offs[g + 1]);
                        assert(cut_values@.subrange(offs[g] as int, offs[g + 1] as int)
                            =~= was.subrange(offs[g] as int, offs[g + 1] as int));
                    } else {
                        assert(cut_values@.subrange(was.len() as int, cut_values.len() as int)
                            =~= mine);
                    }
                }
            }
            f = f + 1;
        }
        let r = HistCuts { n_features, feature_offset, cut_values, is_categorical };
        proof {
            assert forall|g: int| 0 <= g < data.width() implies #[trigger] r.cuts_of(g)
                == feature_cuts(data, mb, ws, calc, g) by {
                assert(r.cut_values@.subrange(
                    r.feature_offset[g] as int,
                    r.feature_offset[g + 1] as int,
                ) == feature_cuts(data, mb, ws, calc, g));
            }
            assert forall|g: int| 0 <= g < r.n_features implies if #[trigger] r.categorical(g) {
                strictly_ascending(r.cuts_of(g))
            } else {
                ascending(r.cuts_of(g))
            } by {
                assert(r.is_categorical[g] || !r.is_categorical[g]);
            }
        }
        r
    }

    /// The cuts of a dataset, with at most `max_bin` quantiles per numeric
    /// feature and one bin per distinct value of a categorical one.
    pub fn from_dmatrix<F: Fn(Op, u64, u64) -> u64>(
        data: &DMatrix,
        max_bin: usize,
        calc: &Calc<F>,
    ) -> (r: Self)
        requires
            data.well_formed(),
            data.readable(),
            1 <= max_bin,
            forall|f: int| 0 <= f < data.width() ==> sortable(#[trigger] column_values(data, f)),
            cuts_before(data, max_bin as int, None, calc, data.width()) <= u32::MAX,
        ensures
            r.well_formed(),
            r.features() == data.width(),
            forall|f: int|
                0 <= f < data.width() ==> #[trigger] r.cuts_of(f) == feature_cuts(
                    data,
                    max_bin as int,
                    None,
                    calc,
                    f,
                ),
            forall|f: int|
                0 <= f < data.width() ==> #[trigger] r.categorical(f) == (data.types()[f]
                    == FeatureType::Categorical),
    {
        HistCuts::build(data, max_bin, None, calc)
    }

    /// The cuts of a dataset whose rows are weighted: a numeric feature is cut
    /// where the weights of its rows, in ascending order of their values, add
    /// up to equal shares.
    pub fn from_dmatrix_weighted<F: Fn(Op, u64, u64) -> u64>(
        data: &DMatrix,
        max_bin: usize,
        weights: &[Single],
        calc: &Calc<F>,
    ) -> (r: Self)
        requires
            data.well_formed(),
            data.readable(),
            1 <= max_bin,
            forall|f: int| 0 <= f < data.width() ==> sortable(#[trigger] column_values(data, f)),
            cuts_before(data, max_bin as int, Some(weights@), calc, data.width()) <= u32::MAX,
            weights.len() == data.height(),
            data.height() <= 0x1_0000_0000,
        ensures
            r.well_formed(),
            r.features() == data.width(),
            forall|f: int|
                0 <= f < data.width() ==> #[trigger] r.cuts_of(f) == feature_cuts(
                    data,
                    max_bin as int,
                    Some(weights@),
                    calc,
                    f,
                ),
            forall|f: int|
                0 <= f < data.width() ==> #[trigger] r.categorical(f) == (data.types()[f]
                    == FeatureType::Categorical),
    {
        HistCuts::build(data, max_bin, Some(weights), calc)
    }
}

pub(crate) proof fn count_le_bounds(cuts: Seq<Single>, v: Single, n: int)
    requires
        0 <= n <= cuts.len(),
        ascending(cuts),
    ensures
        0 <= count_le(cuts, v, n) <= n,
        forall|i: int| 0 <= i < count_le(cuts, v, n) ==> (#[trigger] cuts[i]).le(v),
        forall|i: int| count_le(cuts, v, n) <= i < n ==> !(#[trigger] cuts[i]).le(v),
    decreases n,
{
    if n > 0 {
        count_le_bounds(cuts, v, n - 1);
        if cuts[n - 1].le(v) {
            if count_le(cuts, v, n - 1) < n - 1 {
                let i = count_le(cuts, v, n - 1);
                assert(cuts[i].place() <= cuts[n - 1].place());
                assert(!cuts[i].le(v));
            }
        }
    }
}

/// Binning never lowers the bin when the value rises.
pub proof fn binning_is_monotone(cuts: Seq<Single>, v: Single, w: Single)
    requires
        ascending(cuts),
        v.le(w),
    ensures
        numeric_bin(cuts, v) <= numeric_bin(cuts, w),
{
    let n = cuts.len() as int;
    count_le_bounds(cuts, v, n);
    count_le_bounds(cuts, w, n);
    let a = count_le(cuts, v, n);
    let b = count_le(cuts, w, n);
    if a > b {
        assert(cuts[b].le(v));
        assert(!cuts[b].le(w));
    }
}

/// A value lies below the cut of a bin exactly when its own bin is that bin or
/// an earlier one, for every bin but the feature's last.
pub proof fn thresholds_agree_with_bins(cuts: Seq<Single>, v: Single, t: int)
    requires
        ascending(cuts),
        !v.nan(),
        0 <= t < cuts.len() - 1,
    ensures
        v.lt(cuts[t]) <==> numeric_bin(cuts, v) <= t,
{
    count_le_bounds(cuts, v, cuts.len() as int);
}

/// Different values of a feature fall into different bins, in their order,
/// where the feature has no more distinct values than bins were asked for.
pub proof fn distinct_values_get_distinct_bins(
    vals: Seq<Single>,
    max_bin: int,
    ranks: Seq<usize>,
    i: int,
    j: int,
)
    requires
        vals.len() <= usize::MAX,
        sortable(vals),
        1 <= max_bin,
        ranks_fit(ranks, max_bin, vals.len() as int),
        distinct_run(sorted_values(vals), vals.len() as int).len() <= max_bin,
        0 <= i < vals.len(),
        0 <= j < vals.len(),
        vals[i].lt(vals[j]),
    ensures
        numeric_bin(numeric_cuts(vals, max_bin, ranks), vals[i]) < numeric_bin(
            numeric_cuts(vals, max_bin, ranks),
            vals[j],
        ),
{
    let sorted = sorted_values(vals);
    let cuts = numeric_cuts(vals, max_bin, ranks);
    let n = cuts.len() as int;
    sorted_values_are_sorted(vals);
    numeric_cuts_rise(vals, max_bin, ranks);
    numeric_base(sorted, max_bin, ranks);
    distinct_run_rises(sorted, vals.len() as int);
    let run = distinct_run(sorted, vals.len() as int);
    count_le_bounds(cuts, vals[i], n);
    count_le_bounds(cuts, vals[j], n);
    assert(sorted.contains(vals[j]));
    let p = choose|p: int| 0 <= p < sorted.len() && sorted[p] == vals[j];
    assert(!sorted[p].nan());
    let k = choose|k: int| 0 <= k < run.len() && (#[trigger] run[k]).place() == sorted[p].place();
    assert(cuts[k].place() == vals[j].place());
    assert(cuts[k].le(vals[j]));
    assert(!cuts[k].le(vals[i]));
    let top = sorted.last();
    assert(run[run.len() - 1].place() == top.place());
    assert(run.last().le(top));
    assert(cuts == run.push(top.successor()));
    assert(k < n - 1);
}

} // verus!
