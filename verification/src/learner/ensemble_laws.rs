//! What margins, tree weights, importances and validation scores add up to, in arithmetics
//! that do not round.

use vstd::prelude::*;

use crate::arith::{Calc, Op};
use crate::config::TrainingParams;
use crate::data::dmatrix::DMatrix;
use crate::exact::{
    above_zero, gather, is_exact, not_below_zero, once, shift, singles_are_exact, swap,
    takes_roots_exactly, turn, undivided, vanish,
};
use crate::exponential::exponentiates;
use crate::layout::entry_place;
use crate::learner::boost::{
    drops_in, drops_trees, gradients_at, labels_or_none, margins_in, output_slice, weights_after,
    weights_are_counted,
};
use crate::learner::cv::{
    collected, deviation, divisor, mean, spread_to, sum_to, values_named,
};
use crate::learner::margin::{
    left_out, margins_fill_the_table, margins_of, start_margins, tree_value, weighed,
};
use crate::learner::model::{
    classes_of, dot, importance_of, leaves_of, splits_in_nodes, splits_in_trees, weighted_margins,
    BoostedModel, ImportanceType, Splits,
};
use crate::learner::sample::drop_count;
use crate::learner::train::base_of;
use crate::learner::watch::{improves, watched, worst, RoundEval};
use crate::metric::loss_laws::top_classes_are_greatest;
use crate::number::{Single, Wide, HALF_S, ONE, ONE_S};
use crate::objective::base::{label_mean, Objective};
use crate::objective::classification::{
    LogisticObjective, GREATEST_PROB, GREATEST_PROB_S, LEAST_PROB, LEAST_PROB_S,
};
use crate::objective::count::{PoissonObjective, TweedieObjective, LEAST_MEAN};
use crate::objective::create::reported;
use crate::objective::loss_laws::{is_number, number};
use crate::objective::probability_laws::{
    base_margins_stand_for_the_mean, held, margins_stand_for_base_scores,
};
use crate::objective::regression::SquaredErrorObjective;
use crate::random::{unit_of, UNIT_STEP};
use crate::tree::regtree::{Node, RegTree};
use crate::tree::sampler::taken_of;

verus! {

/// What the first `n` trees that are not left out give a row in one of `k` outputs: the
/// sum of their weights times the row's leaf weights.
pub open spec fn tree_total<F: Fn(Op, u64, u64) -> u64>(
    trees: Seq<RegTree>,
    weights: Seq<Single>,
    dropped: Seq<bool>,
    data: &DMatrix,
    row: int,
    out: int,
    k: int,
    n: int,
    val: spec_fn(Wide) -> Option<real>,
    calc: &Calc<F>,
) -> real
    decreases n,
{
    if n <= 0 {
        0real
    } else {
        let rest = tree_total(trees, weights, dropped, data, row, out, k, n - 1, val, calc);
        if (n - 1) % k == out && !left_out(dropped, n - 1) {
            rest + number(weights[n - 1], val, calc) * number(
                tree_value(&trees[n - 1], data, row),
                val,
                calc,
            )
        } else {
            rest
        }
    }
}

/// The margin of a row is where boosting starts plus what the trees of its output that are
/// not left out give it.
pub proof fn margins_are_sums<F: Fn(Op, u64, u64) -> u64>(
    trees: Seq<RegTree>,
    weights: Seq<Single>,
    dropped: Seq<bool>,
    data: &DMatrix,
    base: Single,
    row: int,
    out: int,
    k: int,
    n: int,
    val: spec_fn(Wide) -> Option<real>,
    calc: &Calc<F>,
)
    requires
        singles_are_exact(val, calc),
        0 <= row < data.height(),
        0 <= out < k,
        is_number(
            margins_of(trees, weights, dropped, data, base, k, n, calc)[row * k + out],
            val,
            calc,
        ),
    ensures
        number(
            margins_of(trees, weights, dropped, data, base, k, n, calc)[row * k + out],
            val,
            calc,
        ) == number(start_margins(data, base, k)[row * k + out], val, calc) + tree_total(
            trees,
            weights,
            dropped,
            data,
            row,
            out,
            k,
            n,
            val,
            calc,
        ),
    decreases n,
{
    if n > 0 {
        let j = row * k + out;
        entry_place(data.height(), k, row, out);
        margins_fill_the_table(trees, weights, dropped, data, base, k, n - 1, calc);
        let rest = margins_of(trees, weights, dropped, data, base, k, n - 1, calc);
        let w = weights[n - 1];
        let v = tree_value(&trees[n - 1], data, row);
        if (n - 1) % k == out && !left_out(dropped, n - 1) {
            assert(margins_of(trees, weights, dropped, data, base, k, n, calc)[j] == calc.plus_s(
                rest[j],
                weighed(w, v, calc),
            ));
            assert(is_number(weighed(w, v, calc), val, calc));
            if w.bits == ONE_S {
                assert(w == (Single { bits: ONE_S }));
                once(number(v, val, calc));
            }
        }
        assert(is_number(rest[j], val, calc));
        margins_are_sums(trees, weights, dropped, data, base, row, out, k, n - 1, val, calc);
    }
}

/// What the first `n` features of a row weigh in one of `k` outputs.
pub open spec fn feature_total<F: Fn(Op, u64, u64) -> u64>(
    coefficients: Seq<Single>,
    data: &DMatrix,
    row: int,
    out: int,
    k: int,
    n: int,
    val: spec_fn(Wide) -> Option<real>,
    calc: &Calc<F>,
) -> real
    decreases n,
{
    if n <= 0 {
        0real
    } else {
        feature_total(coefficients, data, row, out, k, n - 1, val, calc) + match data.cell(
            row,
            n - 1,
        ) {
            Some(x) => number(coefficients[(n - 1) * k + out], val, calc) * number(x, val, calc),
            None => 0real,
        }
    }
}

proof fn dots_are_sums<F: Fn(Op, u64, u64) -> u64>(
    coefficients: Seq<Single>,
    data: &DMatrix,
    row: int,
    out: int,
    k: int,
    from: Single,
    n: int,
    val: spec_fn(Wide) -> Option<real>,
    calc: &Calc<F>,
)
    requires
        singles_are_exact(val, calc),
        is_number(dot(coefficients, data, row, out, k, from, n, calc), val, calc),
    ensures
        is_number(from, val, calc),
        number(dot(coefficients, data, row, out, k, from, n, calc), val, calc) == number(
            from,
            val,
            calc,
        ) + feature_total(coefficients, data, row, out, k, n, val, calc),
    decreases n,
{
    if n > 0 {
        if let Some(x) = data.cell(row, n - 1) {
            let w = coefficients[(n - 1) * k + out];
            assert(is_number(calc.times_s(x, w), val, calc));
            swap(number(x, val, calc), number(w, val, calc));
        }
        dots_are_sums(coefficients, data, row, out, k, from, n - 1, val, calc);
    }
}

/// The margin of a row under a linear model is where boosting starts plus the bias plus
/// the row's values times their weights, missing values adding nothing.
pub proof fn linear_margins_are_sums<F: Fn(Op, u64, u64) -> u64>(
    coefficients: Seq<Single>,
    biases: Seq<Single>,
    data: &DMatrix,
    base: Single,
    row: int,
    out: int,
    k: int,
    width: int,
    val: spec_fn(Wide) -> Option<real>,
    calc: &Calc<F>,
)
    requires
        singles_are_exact(val, calc),
        0 <= row < data.height(),
        0 <= out < k,
        is_number(
            weighted_margins(coefficients, biases, data, base, k, width, calc)[row * k + out],
            val,
            calc,
        ),
    ensures
        number(
            weighted_margins(coefficients, biases, data, base, k, width, calc)[row * k + out],
            val,
            calc,
        ) == number(start_margins(data, base, k)[row * k + out], val, calc) + number(
            biases[out],
            val,
            calc,
        ) + feature_total(coefficients, data, row, out, k, width, val, calc),
{
    entry_place(data.height(), k, row, out);
    let start = start_margins(data, base, k);
    let from = calc.plus_s(start[row * k + out], biases[out]);
    dots_are_sums(coefficients, data, row, out, k, from, width, val, calc);
}

/// Whether integers in single precision are not rounded.
pub open spec fn counts_stand<F: Fn(Op, u64, u64) -> u64>(
    val: spec_fn(Wide) -> Option<real>,
    calc: &Calc<F>,
) -> bool {
    forall|n: int|
        0 <= n <= u64::MAX && is_number(#[trigger] calc.of_s(n), val, calc) ==> number(
            calc.of_s(n),
            val,
            calc,
        ) == n as real
}

proof fn drops_are_counted(drops: Seq<bool>, n: int)
    requires
        0 <= n,
    ensures
        0 <= drop_count(drops, n) <= n,
    decreases n,
{
    if n > 0 {
        drops_are_counted(drops, n - 1);
    }
}

/// A round that drops `d` trees gives each of its own trees the share one of `d + 1`, and
/// leaves the dropped ones the other `d` shares of what they had; trees that were not
/// dropped keep their weights.
pub proof fn dropped_trees_make_room<F: Fn(Op, u64, u64) -> u64>(
    params: TrainingParams,
    k: int,
    rounds: int,
    i: int,
    val: spec_fn(Wide) -> Option<real>,
    calc: &Calc<F>,
)
    requires
        singles_are_exact(val, calc),
        counts_stand(val, calc),
        drops_trees(params),
        0 < rounds,
        0 < k,
        rounds * k <= usize::MAX,
        0 <= i < rounds * k,
        drops_in(params, k, rounds - 1, calc).len() == (rounds - 1) * k,
        is_number(weights_after(params, k, rounds, calc)[i], val, calc),
    ensures
        ({
            let before = weights_after(params, k, rounds - 1, calc);
            let after = weights_after(params, k, rounds, calc);
            let drops = drops_in(params, k, rounds - 1, calc);
            let d = drop_count(drops, drops.len() as int) as real;
            let w = number(after[i], val, calc);
            &&& i >= (rounds - 1) * k ==> w * (d + 1real) == 1real
            &&& i < (rounds - 1) * k && drops[i] ==> w * (d + 1real) == number(before[i], val, calc)
                * d
            &&& i < (rounds - 1) * k && !drops[i] ==> after[i] == before[i]
        }),
{
    let before = weights_after(params, k, rounds - 1, calc);
    let after = weights_after(params, k, rounds, calc);
    let drops = drops_in(params, k, rounds - 1, calc);
    let n = (rounds - 1) * k;
    assert((rounds - 1) * k == rounds * k - k) by (nonlinear_arith);
    assert(0 <= (rounds - 1) * k) by (nonlinear_arith)
        requires
            0 < rounds,
            0 < k,
    ;
    weights_are_counted(params, k, rounds - 1, calc);
    weights_are_counted(params, k, rounds, calc);
    drops_are_counted(drops, n);
    let count = drop_count(drops, n);
    let d = count as real;
    let one = Single { bits: ONE_S };
    let all = calc.plus_s(calc.of_s(count), one);
    let w = number(after[i], val, calc);
    if i >= n {
        assert(after[i] == calc.over_s(one, all));
        assert(is_number(all, val, calc));
        undivided(1real, d + 1real);
    } else if drops[i] {
        let factor = calc.over_s(calc.of_s(count), all);
        assert(after[i] == calc.times_s(before[i], factor));
        assert(is_number(factor, val, calc));
        assert(is_number(all, val, calc));
        undivided(d, d + 1real);
        shift(number(before[i], val, calc), number(factor, val, calc), d + 1real);
    } else {
        assert(after[i] == before[i]);
    }
}

/// The sum of the first `n` values.
pub open spec fn value_total(values: Seq<Wide>, n: int, val: spec_fn(Wide) -> Option<real>) -> real
    decreases n,
{
    if n <= 0 {
        0real
    } else {
        value_total(values, n - 1, val) + val(values[n - 1])->0
    }
}

/// The sum of the squared distances of the first `n` values from a number.
pub open spec fn square_total(
    values: Seq<Wide>,
    from: real,
    n: int,
    val: spec_fn(Wide) -> Option<real>,
) -> real
    decreases n,
{
    if n <= 0 {
        0real
    } else {
        let d = val(values[n - 1])->0 - from;
        square_total(values, from, n - 1, val) + d * d
    }
}

proof fn sums_are_totals<F: Fn(Op, u64, u64) -> u64>(
    values: Seq<Wide>,
    n: int,
    val: spec_fn(Wide) -> Option<real>,
    calc: &Calc<F>,
)
    requires
        is_exact(val, calc),
        val(sum_to(values, n, calc)) is Some,
    ensures
        val(sum_to(values, n, calc))->0 == value_total(values, n, val),
    decreases n,
{
    if n > 0 {
        sums_are_totals(values, n - 1, val, calc);
    }
}

proof fn spreads_are_totals<F: Fn(Op, u64, u64) -> u64>(
    values: Seq<Wide>,
    from: Wide,
    n: int,
    val: spec_fn(Wide) -> Option<real>,
    calc: &Calc<F>,
)
    requires
        is_exact(val, calc),
        val(spread_to(values, from, n, calc)) is Some,
    ensures
        val(spread_to(values, from, n, calc))->0 == square_total(values, val(from)->0, n, val),
    decreases n,
{
    if n > 0 {
        let d = calc.minus(values[n - 1], from);
        assert(val(calc.times(d, d)) is Some);
        assert(val(d) is Some);
        spreads_are_totals(values, from, n - 1, val, calc);
    }
}

/// The score of a metric over the folds is their mean, and its deviation the square root of
/// their mean squared distance from it.
pub proof fn scores_are_means_and_deviations<F: Fn(Op, u64, u64) -> u64>(
    values: Seq<Wide>,
    val: spec_fn(Wide) -> Option<real>,
    calc: &Calc<F>,
)
    requires
        is_exact(val, calc),
        takes_roots_exactly(val, calc),
        0 < values.len() <= u64::MAX,
        val(mean(values, calc)) is Some,
        val(deviation(values, calc)) is Some,
    ensures
        ({
            let n = values.len() as int;
            let m = val(mean(values, calc))->0;
            let d = val(deviation(values, calc))->0;
            &&& m * (n as real) == value_total(values, n, val)
            &&& d >= 0real
            &&& (d * d) * (n as real) == square_total(values, m, n, val)
        }),
{
    let n = values.len() as int;
    let by = divisor(values, calc);
    let sum = sum_to(values, n, calc);
    assert(val(sum) is Some && val(by) is Some);
    undivided(val(sum)->0, n as real);
    sums_are_totals(values, n, val, calc);
    let spread = spread_to(values, mean(values, calc), n, calc);
    let variance = calc.over(spread, by);
    assert(deviation(values, calc) == calc.root(variance));
    assert(val(variance) is Some);
    assert(val(spread) is Some);
    undivided(val(spread)->0, n as real);
    spreads_are_totals(values, mean(values, calc), n, val, calc);
}

/// The number of splits on a feature among the first `n` nodes.
pub open spec fn node_splits(nodes: Seq<Node>, f: u32, n: int) -> int
    decreases n,
{
    if n <= 0 {
        0
    } else {
        node_splits(nodes, f, n - 1) + if !nodes[n - 1].leafy() && nodes[n - 1].split_feature == f {
            1int
        } else {
            0
        }
    }
}

/// The sum of a number of each split on a feature among the first `n` nodes.
pub open spec fn node_total<F: Fn(Op, u64, u64) -> u64>(
    nodes: Seq<Node>,
    f: u32,
    of: spec_fn(Node) -> Single,
    n: int,
    val: spec_fn(Wide) -> Option<real>,
    calc: &Calc<F>,
) -> real
    decreases n,
{
    if n <= 0 {
        0real
    } else {
        node_total(nodes, f, of, n - 1, val, calc) + if !nodes[n - 1].leafy() && nodes[n
            - 1].split_feature == f {
            number(of(nodes[n - 1]), val, calc)
        } else {
            0real
        }
    }
}

/// The number of splits on a feature in the first `n` trees.
pub open spec fn tree_splits(trees: Seq<RegTree>, f: u32, n: int) -> int
    decreases n,
{
    if n <= 0 {
        0
    } else {
        let nodes = trees[n - 1].node_list();
        tree_splits(trees, f, n - 1) + node_splits(nodes, f, nodes.len() as int)
    }
}

/// The sum of a number of each split on a feature in the first `n` trees.
pub open spec fn split_total<F: Fn(Op, u64, u64) -> u64>(
    trees: Seq<RegTree>,
    f: u32,
    of: spec_fn(Node) -> Single,
    n: int,
    val: spec_fn(Wide) -> Option<real>,
    calc: &Calc<F>,
) -> real
    decreases n,
{
    if n <= 0 {
        0real
    } else {
        let nodes = trees[n - 1].node_list();
        split_total(trees, f, of, n - 1, val, calc) + node_total(
            nodes,
            f,
            of,
            nodes.len() as int,
            val,
            calc,
        )
    }
}

/// The loss reduction of a split.
pub open spec fn gain_part() -> spec_fn(Node) -> Single {
    |node: Node| node.split_gain
}

/// The sum of Hessians of a split.
pub open spec fn cover_part() -> spec_fn(Node) -> Single {
    |node: Node| node.sum_hess
}

proof fn node_sums_stand<F: Fn(Op, u64, u64) -> u64>(
    before: Splits,
    nodes: Seq<Node>,
    f: u32,
    n: int,
    val: spec_fn(Wide) -> Option<real>,
    calc: &Calc<F>,
)
    requires
        is_exact(val, calc),
        0 <= n,
    ensures
        ({
            let s = splits_in_nodes(before, nodes, f, n, calc);
            let found = node_splits(nodes, f, n);
            &&& found >= 0
            &&& s.any <==> before.any || found > 0
            &&& val(s.count) is Some ==> val(before.count) is Some && val(s.count)->0 == val(
                before.count,
            )->0 + found as real
            &&& val(s.gain) is Some ==> val(before.gain) is Some && val(s.gain)->0 == val(
                before.gain,
            )->0 + node_total(nodes, f, gain_part(), n, val, calc)
            &&& val(s.cover) is Some ==> val(before.cover) is Some && val(s.cover)->0 == val(
                before.cover,
            )->0 + node_total(nodes, f, cover_part(), n, val, calc)
        }),
    decreases n,
{
    if n > 0 {
        node_sums_stand(before, nodes, f, n - 1, val, calc);
        assert(gain_part()(nodes[n - 1]) == nodes[n - 1].split_gain);
        assert(cover_part()(nodes[n - 1]) == nodes[n - 1].sum_hess);
    }
}

proof fn tree_sums_stand<F: Fn(Op, u64, u64) -> u64>(
    trees: Seq<RegTree>,
    f: u32,
    n: int,
    val: spec_fn(Wide) -> Option<real>,
    calc: &Calc<F>,
)
    requires
        is_exact(val, calc),
        0 <= n,
    ensures
        ({
            let s = splits_in_trees(trees, f, n, calc);
            let found = tree_splits(trees, f, n);
            &&& found >= 0
            &&& s.any <==> found > 0
            &&& val(s.count) is Some ==> val(s.count)->0 == found as real
            &&& val(s.gain) is Some ==> val(s.gain)->0 == split_total(
                trees,
                f,
                gain_part(),
                n,
                val,
                calc,
            )
            &&& val(s.cover) is Some ==> val(s.cover)->0 == split_total(
                trees,
                f,
                cover_part(),
                n,
                val,
                calc,
            )
        }),
    decreases n,
{
    if n > 0 {
        tree_sums_stand(trees, f, n - 1, val, calc);
        let nodes = trees[n - 1].node_list();
        node_sums_stand(
            splits_in_trees(trees, f, n - 1, calc),
            nodes,
            f,
            nodes.len() as int,
            val,
            calc,
        );
    }
}

/// A feature is as important as it has splits, as they reduce the loss in all or on
/// average, or as their Hessians sum up in all or on average.
pub proof fn importances_are_totals_and_averages<F: Fn(Op, u64, u64) -> u64>(
    trees: Seq<RegTree>,
    f: u32,
    val: spec_fn(Wide) -> Option<real>,
    calc: &Calc<F>,
)
    requires
        is_exact(val, calc),
    ensures
        ({
            let n = trees.len() as int;
            let s = splits_in_trees(trees, f, n, calc);
            let count = tree_splits(trees, f, n) as real;
            let gain = split_total(trees, f, gain_part(), n, val, calc);
            let cover = split_total(trees, f, cover_part(), n, val, calc);
            let by_count = importance_of(s, ImportanceType::Weight, calc);
            let by_gain = importance_of(s, ImportanceType::Gain, calc);
            let by_cover = importance_of(s, ImportanceType::Cover, calc);
            let by_total_gain = importance_of(s, ImportanceType::TotalGain, calc);
            let by_total_cover = importance_of(s, ImportanceType::TotalCover, calc);
            &&& val(by_count) is Some ==> val(by_count)->0 == count
            &&& val(by_gain) is Some ==> val(by_gain)->0 * count == gain
            &&& val(by_cover) is Some ==> val(by_cover)->0 * count == cover
            &&& val(by_total_gain) is Some ==> val(by_total_gain)->0 == gain
            &&& val(by_total_cover) is Some ==> val(by_total_cover)->0 == cover
        }),
{
    let n = trees.len() as int;
    tree_sums_stand(trees, f, n, val, calc);
    let s = splits_in_trees(trees, f, n, calc);
    if val(calc.over(s.gain, s.count)) is Some {
        undivided(val(s.gain)->0, val(s.count)->0);
    }
    if val(calc.over(s.cover, s.count)) is Some {
        undivided(val(s.cover)->0, val(s.count)->0);
    }
}

/// Whether rounding gives the nearest integer, halves going up, and numbers that stand for
/// integers are counted as these.
pub open spec fn rounds_to_nearest<F: Fn(Op, u64, u64) -> u64>(
    val: spec_fn(Wide) -> Option<real>,
    calc: &Calc<F>,
) -> bool {
    forall|a: Wide, max: int|
        #![trigger calc.rounded(a).count(max)]
        val(a) is Some && 0real <= val(a)->0 && val(a)->0 <= (max as real) ==> {
            let k = calc.rounded(a).count(max);
            (k as real) - 1real / 2real <= val(a)->0 && val(a)->0 < (k as real) + 1real / 2real
        }
}

/// A draw of a share of features takes the nearest count, and at least one.
pub proof fn draws_take_the_nearest_count<F: Fn(Op, u64, u64) -> u64>(
    len: int,
    ratio: Wide,
    val: spec_fn(Wide) -> Option<real>,
    calc: &Calc<F>,
)
    requires
        is_exact(val, calc),
        rounds_to_nearest(val, calc),
        1 <= len <= u32::MAX,
        val(ratio) is Some,
        0real <= val(ratio)->0 <= 1real,
        val(calc.times(ratio, calc.of(len))) is Some,
    ensures
        ({
            let k = taken_of(len, ratio, calc);
            let exact = val(ratio)->0 * (len as real);
            &&& 1 <= k <= len
            &&& exact < (k as real) + 1real / 2real
            &&& k > 1 ==> (k as real) - 1real / 2real <= exact
        }),
{
    let x = val(ratio)->0;
    let a = calc.times(ratio, calc.of(len));
    assert(val(calc.of(len)) is Some);
    let n = len as real;
    not_below_zero(x, n);
    not_below_zero(1real - x, n);
    gather(1real, x, n);
    once(n);
    assert(val(a)->0 <= (usize::MAX as int) as real);
    let one = Wide { bits: ONE };
    assert(one.le(ratio) <==> 1real <= x);
    let k = calc.rounded(a).count(usize::MAX as int);
    assert((k as real) - 1real / 2real <= val(a)->0);
    assert(k <= len);
}

/// The number that a word stands for lies in `[0, 1)`, and is the word's upper bits over
/// the number of values that these can have.
pub proof fn words_stand_for_unit_numbers<F: Fn(Op, u64, u64) -> u64>(
    word: u64,
    val: spec_fn(Wide) -> Option<real>,
    calc: &Calc<F>,
)
    requires
        is_exact(val, calc),
        val(Wide { bits: UNIT_STEP }) is Some,
        val(Wide { bits: UNIT_STEP })->0 * (0x20_0000_0000_0000int as real) == 1real,
        val(unit_of(word, calc)) is Some,
    ensures
        val(unit_of(word, calc))->0 * (0x20_0000_0000_0000int as real) == (((word
            / 0x800) as int) as real),
        0real <= val(unit_of(word, calc))->0 < 1real,
{
    let step = val(Wide { bits: UNIT_STEP })->0;
    let top = (word / 0x800) as int;
    assert(val(calc.of(top)) is Some);
    let n = 0x20_0000_0000_0000int as real;
    let t = top as real;
    let u = val(unit_of(word, calc))->0;
    turn(step, t, n);
    once(t);
    assert(u * n == t);
    assert(top < 0x20_0000_0000_0000);
    if u < 0real {
        above_zero(0real - u, n);
        gather(0real, u, n);
        vanish(n);
    }
    if u >= 1real {
        not_below_zero(u - 1real, n);
        gather(u, 1real, n);
        once(n);
    }
}

/// The rounds without improvement are those since the best one, and no round since
/// improves on it.
pub proof fn stale_rounds_follow_the_best(values: Seq<Wide>, upward: bool, n: int)
    requires
        0 <= n <= values.len(),
    ensures
        ({
            let w = watched(values, upward, n);
            &&& 0 <= w.stale <= n
            &&& w.stale < n ==> w.at == n - 1 - w.stale && w.best == values[w.at]
            &&& w.stale == n ==> w.best == worst(upward)
            &&& forall|r: int|
                n - w.stale <= r < n ==> !improves(#[trigger] values[r], w.best, upward)
        }),
    decreases n,
{
    if n > 0 {
        stale_rounds_follow_the_best(values, upward, n - 1);
    }
}

/// A round takes its gradients at the margins of the trees before it that it does not
/// drop, under the weights that they have by then.
pub proof fn rounds_see_the_trees_they_keep<F: Fn(Op, u64, u64) -> u64>(
    params: TrainingParams,
    data: &DMatrix,
    base: Single,
    trees: Seq<RegTree>,
    row: int,
    out: int,
    k: int,
    r: int,
    val: spec_fn(Wide) -> Option<real>,
    calc: &Calc<F>,
)
    requires
        singles_are_exact(val, calc),
        0 <= row < data.height(),
        0 <= out < k,
        is_number(
            margins_in(params, data, base, trees, k, r, calc)[row * k + out],
            val,
            calc,
        ),
    ensures
        number(margins_in(params, data, base, trees, k, r, calc)[row * k + out], val, calc)
            == number(start_margins(data, base, k)[row * k + out], val, calc) + tree_total(
            trees,
            weights_after(params, k, r, calc),
            drops_in(params, k, r, calc),
            data,
            row,
            out,
            k,
            r * k,
            val,
            calc,
        ),
{
    margins_are_sums(
        trees,
        weights_after(params, k, r, calc),
        drops_in(params, k, r, calc),
        data,
        base,
        row,
        out,
        k,
        r * k,
        val,
        calc,
    );
}

/// Of several classes the one with the greatest margin is predicted, the first of equals;
/// of two classes the second one is predicted where its probability exceeds one half.
pub proof fn predicted_classes_are_the_most_likely<F: Fn(Op, u64, u64) -> u64>(
    model: &BoostedModel,
    data: &DMatrix,
    i: int,
    c: int,
    calc: &Calc<F>,
)
    requires
        0 <= i < data.height(),
        0 <= c < model.outputs() <= u32::MAX,
        model.margins(data, 0, calc).len() == data.height() * model.outputs(),
        forall|j: int|
            0 <= j < model.margins(data, 0, calc).len() ==> !(#[trigger] model.margins(
                data,
                0,
                calc,
            )[j]).nan(),
    ensures
        ({
            let k = model.outputs();
            let m = model.margins(data, 0, calc);
            let class = classes_of(model, data, calc)[i];
            let p = reported(model.objective_name(), model.classes(), m, calc)[i];
            &&& k > 1 ==> class < k && m[i * k + c].le(m[i * k + class]) && (c < class ==> m[i * k
                + c].lt(m[i * k + class]))
            &&& k == 1 ==> (class == 0 || class == 1) && (class == 1 <==> (Single {
                bits: HALF_S,
            }).lt(p))
        }),
{
    let k = model.outputs();
    let m = model.margins(data, 0, calc);
    entry_place(data.height(), k, i, c);
    entry_place(data.height(), k, i, k - 1);
    if k > 1 {
        top_classes_are_greatest(m, i * k, k, c);
    }
}

/// The base score of a single output is the margin of the given prediction, or else of the
/// mean of the labels: itself for squared error, its logarithm for counts, its logit for
/// classes, the prediction being held within its bounds.
pub proof fn base_scores_stand_for_predictions<F: Fn(Op, u64, u64) -> u64>(
    params: TrainingParams,
    data: &DMatrix,
    poisson: PoissonObjective,
    logistic: LogisticObjective,
    e: spec_fn(real) -> real,
    val: spec_fn(Wide) -> Option<real>,
    calc: &Calc<F>,
)
    requires
        is_exact(val, calc),
        singles_are_exact(val, calc),
        exponentiates(e, val, calc),
        params.base_score matches Some(b) ==> is_number(calc.narrowed(b), val, calc),
        params.base_score is None ==> val(
            label_mean(labels_or_none(data), data.weight_list(), calc),
        ) is Some,
        val(Wide { bits: LEAST_MEAN }) is Some,
        val(Wide { bits: LEAST_PROB }) is Some,
        val(Wide { bits: GREATEST_PROB }) is Some,
        is_number(Single { bits: LEAST_PROB_S }, val, calc),
        is_number(Single { bits: GREATEST_PROB_S }, val, calc),
    ensures
        ({
            let told = match params.base_score {
                Some(b) => val(b)->0,
                None => val(label_mean(labels_or_none(data), data.weight_list(), calc))->0,
            };
            let squared = base_of(params, data, &SquaredErrorObjective, calc);
            let counts = base_of(params, data, &poisson, calc);
            let odds = base_of(params, data, &logistic, calc);
            let least = val(Wide { bits: LEAST_MEAN })->0;
            let low = if params.base_score is Some {
                number(Single { bits: LEAST_PROB_S }, val, calc)
            } else {
                val(Wide { bits: LEAST_PROB })->0
            };
            let high = if params.base_score is Some {
                number(Single { bits: GREATEST_PROB_S }, val, calc)
            } else {
                val(Wide { bits: GREATEST_PROB })->0
            };
            let p = held(told, low, high);
            &&& is_number(squared, val, calc) ==> number(squared, val, calc) == told
            &&& is_number(counts, val, calc) ==> e(number(counts, val, calc)) == if told < least {
                least
            } else {
                told
            }
            &&& is_number(odds, val, calc) ==> e(number(odds, val, calc)) * (1real - p) == p
        }),
{
    let tweedie = TweedieObjective::raising(Single { bits: ONE_S });
    match params.base_score {
        Some(b) => {
            margins_stand_for_base_scores(
                poisson,
                tweedie,
                logistic,
                calc.narrowed(b),
                e,
                val,
                calc,
            );
        },
        None => {
            base_margins_stand_for_the_mean(
                poisson,
                tweedie,
                logistic,
                labels_or_none(data),
                data.weight_list(),
                e,
                val,
                calc,
            );
        },
    }
}

/// Boosting starts from the dataset's own base margins: one for every row and output, or one
/// for every row that all its outputs share. Without them it starts from the base score.
pub proof fn margins_start_from_the_dataset(
    data: &DMatrix,
    base: Single,
    row: int,
    out: int,
    k: int,
)
    requires
        0 <= row < data.height(),
        0 <= out < k,
    ensures
        ({
            let n = data.height();
            let start = start_margins(data, base, k)[row * k + out];
            &&& data.margin_list() is None ==> start == base
            &&& data.margin_list() matches Some(own) ==> own.len() == n * k ==> start == own[row * k
                + out]
            &&& data.margin_list() matches Some(own) ==> own.len() == n && n != n * k ==> start
                == own[row]
        }),
{
    entry_place(data.height(), k, row, out);
}

/// The gradients of a round are those of the objective at the margins, for the dataset's
/// labels, weights and groups; the tree of an output is fit to those of that output.
pub proof fn trees_fit_the_gradients_of_their_output<
    F: Fn(Op, u64, u64) -> u64,
    O: Objective<F>,
>(
    o: &O,
    data: &DMatrix,
    margins: Seq<Single>,
    row: int,
    out: int,
    k: int,
    calc: &Calc<F>,
)
    requires
        0 <= row < data.height(),
        0 <= out < k,
        data.label_list() is Some,
    ensures
        ({
            let groups = match data.group_info() {
                Some(g) => Some(g.group_ptr@),
                None => None,
            };
            let all = o.gradients(
                margins,
                data.label_list()->0,
                data.weight_list(),
                groups,
                calc,
            );
            let fit = output_slice(gradients_at(o, data, margins, calc), k, out, data.height());
            fit.len() == data.height() && fit[row] == all[row * k + out]
        }),
{
}

proof fn one_value_is_named(
    scores: Seq<(String, String, Wide)>,
    names: Seq<Seq<char>>,
    j: int,
    n: int,
)
    requires
        names.no_duplicates(),
        0 <= j < names.len(),
        0 <= n <= names.len(),
    ensures
        values_named(scores, names, names[j], n) == if j < n {
            seq![scores[j].2]
        } else {
            Seq::empty()
        },
    decreases n,
{
    if n > 0 {
        one_value_is_named(scores, names, j, n - 1);
        if n - 1 != j {
            assert(names[n - 1] != names[j]);
        }
        assert(values_named(scores, names, names[j], n) =~= if j < n {
            seq![scores[j].2]
        } else {
            Seq::empty()
        });
    }
}

/// What a metric's score in a round is the mean of has one value of every fold: the fold's
/// own score of that metric in that round.
pub proof fn every_fold_is_scored_once(
    histories: Seq<Vec<RoundEval>>,
    names: Seq<Seq<char>>,
    j: int,
    r: int,
    n: int,
)
    requires
        names.no_duplicates(),
        0 <= j < names.len(),
        0 <= n <= histories.len(),
    ensures
        collected(histories, names, names[j], r, n) == Seq::new(
            n as nat,
            |f: int| histories[f][r].scores@[j].2,
        ),
    decreases n,
{
    let all = Seq::new(n as nat, |f: int| histories[f][r].scores@[j].2);
    if n > 0 {
        every_fold_is_scored_once(histories, names, j, r, n - 1);
        one_value_is_named(histories[n - 1][r].scores@, names, j, names.len() as int);
    }
    assert(collected(histories, names, names[j], r, n) =~= all);
}

/// The leaf that is reported for a row and a tree is the one whose weight the tree gives the
/// row.
pub proof fn reported_leaves_hold_the_values(
    model: &BoostedModel,
    data: &DMatrix,
    row: int,
    t: int,
)
    requires
        0 <= row < data.height(),
        0 <= t < model.tree_list().len(),
        model.tree_list()[t].leaf_of(|f: u32| data.cell(row, f as int)) <= usize::MAX,
        0 <= model.tree_list()[t].leaf_of(|f: u32| data.cell(row, f as int)),
    ensures
        ({
            let k = model.tree_list().len() as int;
            let tree = model.tree_list()[t];
            let leaf = leaves_of(model, data)[row * k + t] as int;
            tree.node_list()[leaf].leaf_value == tree_value(&tree, data, row)
        }),
{
    let k = model.tree_list().len() as int;
    entry_place(data.height(), k, row, t);
}

} // verus!
