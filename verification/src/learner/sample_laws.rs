//! What chance keeps and drops, in arithmetics that do not round.

use vstd::prelude::*;

use crate::arith::{Calc, Op};
use crate::config::TrainingParams;
use crate::exact::{above_zero, gather, is_exact, not_below_zero};
use crate::learner::ensemble_laws::{
    draws_take_the_nearest_count, rounds_to_nearest, words_stand_for_unit_numbers,
};
use crate::learner::sample::{
    after_words, chance_drops, drawn_under, kept_rows, round_drops, tree_sampling,
};
use crate::number::{Wide, ONE};
use crate::random::{drawn_word, unit_of, UNIT_STEP};
use crate::tree::sampler::{draw_at, level_draw_at, share_of, taken_of};

verus! {

/// Whether a word falls below a chance: its upper bits, of which there are
/// `2^53`, lie below that share of all.
pub open spec fn falls_below(word: u64, chance: real) -> bool {
    (((word / 0x800) as int) as real) < chance * (0x20_0000_0000_0000int as real)
}

proof fn words_fall_below<F: Fn(Op, u64, u64) -> u64>(
    word: u64,
    chance: Wide,
    val: spec_fn(Wide) -> Option<real>,
    calc: &Calc<F>,
)
    requires
        is_exact(val, calc),
        val(Wide { bits: UNIT_STEP }) is Some,
        val(Wide { bits: UNIT_STEP })->0 * (0x20_0000_0000_0000int as real) == 1real,
        val(unit_of(word, calc)) is Some,
        val(chance) is Some,
    ensures
        unit_of(word, calc).lt(chance) <==> falls_below(word, val(chance)->0),
{
    words_stand_for_unit_numbers(word, val, calc);
    let u = val(unit_of(word, calc))->0;
    let c = val(chance)->0;
    let n = 0x20_0000_0000_0000int as real;
    gather(c, u, n);
    if u < c {
        above_zero(c - u, n);
    } else {
        not_below_zero(u - c, n);
        gather(u, c, n);
    }
}

/// Whether the numbers that a generator's words stand for are not rounded.
pub open spec fn units_stand<F: Fn(Op, u64, u64) -> u64>(
    val: spec_fn(Wide) -> Option<real>,
    calc: &Calc<F>,
) -> bool {
    &&& val(Wide { bits: UNIT_STEP }) is Some
    &&& val(Wide { bits: UNIT_STEP })->0 * (0x20_0000_0000_0000int as real) == 1real
    &&& forall|word: u64| val(#[trigger] unit_of(word, calc)) is Some
}

/// A row is kept just when its word falls below the chance to be kept.
pub proof fn rows_are_kept_by_chance<F: Fn(Op, u64, u64) -> u64>(
    seed: u64,
    requests: Seq<int>,
    chance: Wide,
    n: int,
    r: int,
    val: spec_fn(Wide) -> Option<real>,
    calc: &Calc<F>,
)
    requires
        is_exact(val, calc),
        units_stand(val, calc),
        val(chance) is Some,
        0 <= r < n <= u32::MAX,
    ensures
        kept_rows(seed, requests, chance, n, calc).contains(r as u32) <==> falls_below(
            drawn_word(seed, after_words(requests, r)),
            val(chance)->0,
        ),
        kept_rows(seed, requests, chance, n, calc).no_duplicates(),
{
    kept_rows_are_those_drawn(seed, requests, chance, n, calc);
    assert(r as u32 as int == r);
    words_fall_below(drawn_word(seed, after_words(requests, r)), chance, val, calc);
}

proof fn kept_rows_are_those_drawn<F: Fn(Op, u64, u64) -> u64>(
    seed: u64,
    requests: Seq<int>,
    chance: Wide,
    n: int,
    calc: &Calc<F>,
)
    requires
        0 <= n <= u32::MAX,
    ensures
        ({
            let kept = kept_rows(seed, requests, chance, n, calc);
            &&& kept.no_duplicates()
            &&& forall|j: int| 0 <= j < kept.len() ==> (#[trigger] kept[j]) < n
            &&& forall|r: u32|
                r < n ==> (#[trigger] kept.contains(r) <==> drawn_under(
                    seed,
                    after_words(requests, r as int),
                    chance,
                    calc,
                ))
        }),
    decreases n,
{
    if n > 0 {
        kept_rows_are_those_drawn(seed, requests, chance, n - 1, calc);
        let rest = kept_rows(seed, requests, chance, n - 1, calc);
        let kept = kept_rows(seed, requests, chance, n, calc);
        let last = (n - 1) as u32;
        assert forall|r: u32| r < n implies (#[trigger] kept.contains(r) <==> drawn_under(
            seed,
            after_words(requests, r as int),
            chance,
            calc,
        )) by {
            if r < n - 1 {
                if rest.contains(r) {
                    let j = choose|j: int| 0 <= j < rest.len() && rest[j] == r;
                    assert(kept[j] == r);
                }
                if kept.contains(r) {
                    let j = choose|j: int| 0 <= j < kept.len() && kept[j] == r;
                    assert(j < rest.len());
                    assert(rest[j] == r);
                }
            } else {
                assert(r == last);
                if drawn_under(seed, after_words(requests, n - 1), chance, calc) {
                    assert(kept[rest.len() as int] == last);
                } else if rest.contains(r) {
                    let j = choose|j: int| 0 <= j < rest.len() && rest[j] == r;
                    assert(rest[j] < n - 1);
                }
            }
        }
    }
}

/// A round that drops trees drops none where its first word falls below the chance to
/// skip, and else each tree whose word falls below the rate, if there is any.
pub proof fn trees_are_dropped_by_chance<F: Fn(Op, u64, u64) -> u64>(
    params: TrainingParams,
    seed: u64,
    n: int,
    val: spec_fn(Wide) -> Option<real>,
    calc: &Calc<F>,
)
    requires
        is_exact(val, calc),
        units_stand(val, calc),
        val(params.skip_drop) is Some,
        val(params.rate_drop) is Some,
        0 < n,
    ensures
        ({
            let drops = round_drops(params, seed, n, calc);
            let start = Seq::<int>::empty();
            let first = start.push(-1);
            let below = |i: int|
                falls_below(drawn_word(seed, after_words(first, i)), val(params.rate_drop)->0);
            if falls_below(drawn_word(seed, start), val(params.skip_drop)->0) {
                forall|i: int| 0 <= i < n ==> !#[trigger] drops[i]
            } else {
                (exists|i: int| 0 <= i < n && #[trigger] below(i)) ==> (forall|i: int|
                    0 <= i < n ==> (#[trigger] drops[i] <==> below(i)))
            }
        }),
{
    let drops = round_drops(params, seed, n, calc);
    let start = Seq::<int>::empty();
    let first = start.push(-1);
    let below = |i: int|
        falls_below(drawn_word(seed, after_words(first, i)), val(params.rate_drop)->0);
    words_fall_below(drawn_word(seed, start), params.skip_drop, val, calc);
    let chanced = chance_drops(seed, first, params.rate_drop, n, calc);
    assert forall|i: int| 0 <= i < n implies (#[trigger] chanced[i] <==> below(i)) by {
        words_fall_below(drawn_word(seed, after_words(first, i)), params.rate_drop, val, calc);
    }
    if exists|i: int| 0 <= i < n && #[trigger] below(i) {
        let i = choose|i: int| 0 <= i < n && #[trigger] below(i);
        assert(chanced[i]);
        assert(chanced.contains(true));
    }
}

/// Whether a count is the nearest to a share of a number, or one where that is less.
pub open spec fn nearest_count(k: int, share: real, len: int) -> bool {
    let exact = share * (len as real);
    &&& 1 <= k <= len
    &&& exact < (k as real) + 1real / 2real
    &&& k > 1 ==> (k as real) - 1real / 2real <= exact
}

/// A tree is offered the nearest count to its share of all features; a node is offered the
/// nearest count to its share of what its level is offered, and that the nearest count to
/// its share of the tree's features.
pub proof fn trees_levels_and_nodes_take_their_shares<F: Fn(Op, u64, u64) -> u64>(
    params: TrainingParams,
    seed: u64,
    requests: Seq<int>,
    n: int,
    round: u64,
    output: u64,
    val: spec_fn(Wide) -> Option<real>,
    calc: &Calc<F>,
)
    requires
        is_exact(val, calc),
        rounds_to_nearest(val, calc),
        1 <= n <= u32::MAX,
        val(params.colsample_bytree) is Some,
        val(params.colsample_bylevel) is Some,
        val(params.colsample_bynode) is Some,
        0real < val(params.colsample_bytree)->0 <= 1real,
        0real < val(params.colsample_bylevel)->0 <= 1real,
        0real < val(params.colsample_bynode)->0 <= 1real,
        val(calc.times(params.colsample_bytree, calc.of(n))) is Some,
        forall|k: int|
            1 <= k <= n ==> val(#[trigger] calc.times(params.colsample_bylevel, calc.of(k))) is Some,
        forall|k: int|
            1 <= k <= n ==> val(#[trigger] calc.times(params.colsample_bynode, calc.of(k))) is Some,
    ensures
        ({
            let s = tree_sampling(params, seed, requests, n, round, output, calc);
            let level = level_draw_at(s, calc).len() as int;
            let node = draw_at(s, calc).len() as int;
            &&& nearest_count(s.pool.len() as int, val(params.colsample_bytree)->0, n)
            &&& nearest_count(level, val(params.colsample_bylevel)->0, s.pool.len() as int)
            &&& nearest_count(node, val(params.colsample_bynode)->0, level)
        }),
{
    let s = tree_sampling(params, seed, requests, n, round, output, calc);
    let t = params.colsample_bytree;
    draws_take_the_nearest_count(n, t, val, calc);
    let one = Wide { bits: ONE };
    assert(one.le(t) <==> 1real <= val(t)->0);
    if n == 1 && !one.le(t) {
        assert(share_of(n, t, calc) == 1);
    }
    let pool = s.pool.len() as int;
    assert(pool == taken_of(n, t, calc));
    let l = params.colsample_bylevel;
    assert(val(calc.times(l, calc.of(pool))) is Some);
    draws_take_the_nearest_count(pool, l, val, calc);
    let level = level_draw_at(s, calc).len() as int;
    assert(level == taken_of(pool, l, calc));
    let b = params.colsample_bynode;
    assert(val(calc.times(b, calc.of(level))) is Some);
    draws_take_the_nearest_count(level, b, val, calc);
    assert(draw_at(s, calc).len() == taken_of(level, b, calc));
}

} // verus!
