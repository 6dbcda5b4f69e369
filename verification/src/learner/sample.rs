//! What a boosting round draws at random: rows, features, and trees to drop.

use vstd::prelude::*;

use crate::arith::{Calc, Op};
use crate::config::TrainingParams;
use crate::number::{Wide, ONE};
use crate::random::{
    drawn_below_u32, drawn_below_u64, drawn_order, drawn_word, shuffled_places, unit_of, Random,
};
use crate::tree::sampler::{
    all_features, all_rows, in_order_is_sorted, pick_features, picked, share_of, share_size,
    ColumnSampler, Sampling,
};

verus! {

/// The seed of a round.
pub open spec fn round_seed(seed: u64, round: u64) -> u64 {
    seed ^ round.wrapping_mul(0x9E37_79B9)
}

/// The seed of a round that drops trees.
pub open spec fn dart_seed(seed: u64, round: u64) -> u64 {
    round_seed(seed, round) ^ 0x0DA27
}

/// The requests after `n` more words were drawn.
pub open spec fn after_words(requests: Seq<int>, n: int) -> Seq<int>
    decreases n,
{
    if n <= 0 { requests } else { after_words(requests, n - 1).push(-1) }
}

/// Whether the next number of `[0, 1)` lies below a chance.
pub open spec fn drawn_under<F: Fn(Op, u64, u64) -> u64>(
    seed: u64,
    requests: Seq<int>,
    chance: Wide,
    calc: &Calc<F>,
) -> bool {
    unit_of(drawn_word(seed, requests), calc).lt(chance)
}

/// The rows `0..n`.
pub open spec fn every(n: int) -> Seq<u32> {
    Seq::new(n as nat, |i: int| i as u32)
}

/// Those of the first `n` rows that are kept, each with the given chance.
pub open spec fn kept_rows<F: Fn(Op, u64, u64) -> u64>(
    seed: u64,
    requests: Seq<int>,
    chance: Wide,
    n: int,
    calc: &Calc<F>,
) -> Seq<u32>
    decreases n,
{
    if n <= 0 {
        Seq::empty()
    } else {
        let rest = kept_rows(seed, requests, chance, n - 1, calc);
        if drawn_under(seed, after_words(requests, n - 1), chance, calc) {
            rest.push((n - 1) as u32)
        } else {
            rest
        }
    }
}

/// The rows that a round is fit on: all, or each with the given chance and at
/// least one.
pub open spec fn round_rows<F: Fn(Op, u64, u64) -> u64>(
    seed: u64,
    requests: Seq<int>,
    subsample: Wide,
    n: int,
    calc: &Calc<F>,
) -> Seq<u32> {
    if (Wide { bits: ONE }).le(subsample) {
        every(n)
    } else {
        let kept = kept_rows(seed, requests, subsample, n, calc);
        if kept.len() == 0 {
            seq![drawn_below_u32(seed, after_words(requests, n), n as u32)]
        } else {
            kept
        }
    }
}

proof fn kept_rows_are_distinct<F: Fn(Op, u64, u64) -> u64>(
    seed: u64,
    requests: Seq<int>,
    chance: Wide,
    n: int,
    calc: &Calc<F>,
)
    requires
        n <= 0x1_0000_0000,
    ensures
        kept_rows(seed, requests, chance, n, calc).no_duplicates(),
        forall|i: int|
            0 <= i < kept_rows(seed, requests, chance, n, calc).len() ==> #[trigger] kept_rows(
                seed,
                requests,
                chance,
                n,
                calc,
            )[i] < n,
    decreases n,
{
    if n > 0 {
        kept_rows_are_distinct(seed, requests, chance, n - 1, calc);
    }
}

/// A round is fit on different rows.
pub proof fn round_rows_are_distinct<F: Fn(Op, u64, u64) -> u64>(
    seed: u64,
    requests: Seq<int>,
    subsample: Wide,
    n: int,
    calc: &Calc<F>,
)
    requires
        0 <= n <= 0x1_0000_0000,
    ensures
        round_rows(seed, requests, subsample, n, calc).no_duplicates(),
{
    kept_rows_are_distinct(seed, requests, subsample, n, calc);
    let all = every(n);
    assert forall|i: int, j: int| 0 <= i < all.len() && 0 <= j < all.len() && i != j implies all[i]
        != all[j] by {
        assert(all[i] as int == i && all[j] as int == j);
    }
    assert(all.no_duplicates());
}

/// The requests after the rows of a round were drawn.
pub open spec fn after_rows<F: Fn(Op, u64, u64) -> u64>(
    seed: u64,
    requests: Seq<int>,
    subsample: Wide,
    n: int,
    calc: &Calc<F>,
) -> Seq<int> {
    if (Wide { bits: ONE }).le(subsample) {
        requests
    } else if kept_rows(seed, requests, subsample, n, calc).len() == 0 {
        after_words(requests, n).push(-2 - 2 * n)
    } else {
        after_words(requests, n)
    }
}

/// Draw the rows of a round.
pub fn sample_rows<F: Fn(Op, u64, u64) -> u64>(
    n: usize,
    subsample: Wide,
    rng: &mut Random,
    calc: &Calc<F>,
) -> (r: Vec<u32>)
    requires
        0 < n <= u32::MAX,
    ensures
        r@ == round_rows(old(rng).seed(), old(rng).requests(), subsample, n as int, calc),
        r.len() > 0,
        forall|i: int| 0 <= i < r.len() ==> #[trigger] r[i] < n,
        final(rng).seed() == old(rng).seed(),
        final(rng).requests() == after_rows(
            old(rng).seed(),
            old(rng).requests(),
            subsample,
            n as int,
            calc,
        ),
{
    let one = Wide { bits: ONE };
    if one.is_le(subsample) {
        return all_rows(n);
    }
    let ghost seed = rng.seed();
    let ghost requests = rng.requests();
    let mut rows: Vec<u32> = Vec::new();
    let mut i: usize = 0;
    while i < n
        invariant
            n <= u32::MAX,
            i <= n,
            rng.seed() == seed,
            rng.requests() == after_words(requests, i as int),
            rows@ == kept_rows(seed, requests, subsample, i as int, calc),
            forall|k: int| 0 <= k < rows.len() ==> #[trigger] rows[k] < n,
        decreases n - i,
    {
        let u = rng.unit(calc);
        if u.is_lt(subsample) {
            rows.push(i as u32);
        }
        i = i + 1;
    }
    if rows.len() == 0 {
        let row: u32 = rng.below_u32(n as u32);
        rows.push(row);
        assert(rows@ =~= seq![row]);
    }
    rows
}

/// The features that a tree may split on: all, or a share of them.
pub open spec fn tree_features<F: Fn(Op, u64, u64) -> u64>(
    seed: u64,
    requests: Seq<int>,
    colsample: Wide,
    n: int,
    calc: &Calc<F>,
) -> Seq<u32> {
    if (Wide { bits: ONE }).le(colsample) {
        every(n)
    } else {
        picked(every(n), drawn_order(seed, requests, n as nat), share_of(n, colsample, calc))
    }
}

/// The requests after the features of a tree were drawn.
pub open spec fn after_features(requests: Seq<int>, colsample: Wide, n: int) -> Seq<int> {
    if (Wide { bits: ONE }).le(colsample) { requests } else { requests.push(n) }
}

/// Draw the features of a tree.
pub fn sample_features<F: Fn(Op, u64, u64) -> u64>(
    n: usize,
    colsample: Wide,
    rng: &mut Random,
    calc: &Calc<F>,
) -> (r: Vec<u32>)
    requires
        0 < n <= u32::MAX,
    ensures
        r@ == tree_features(old(rng).seed(), old(rng).requests(), colsample, n as int, calc),
        1 <= r.len() <= n,
        forall|i: int| 0 <= i < r.len() ==> #[trigger] r[i] < n,
        forall|i: int, j: int| 0 <= i < j < r.len() ==> #[trigger] r[i] < #[trigger] r[j],
        final(rng).seed() == old(rng).seed(),
        final(rng).requests() == after_features(old(rng).requests(), colsample, n as int),
{
    let one = Wide { bits: ONE };
    let all = all_features(n);
    if one.is_le(colsample) {
        return all;
    }
    let k: usize = share_size(n, colsample, calc);
    let order = shuffled_places(rng, n);
    let ghost named = drawn_order(old(rng).seed(), old(rng).requests(), n as nat);
    let ghost places = order@.map_values(|p: usize| p as int);
    let out = pick_features(all.as_slice(), order.as_slice(), k);
    proof {
        let taken = Seq::new(k as nat, |i: int| every(n as int)[places[i]]);
        assert(taken =~= Seq::new(k as nat, |i: int| every(n as int)[named[i]]));
        assert(taken.no_duplicates()) by {
            assert forall|i: int, j: int|
                0 <= i < taken.len() && 0 <= j < taken.len() && i != j implies taken[i]
                != taken[j] by {
                assert(order[i] != order[j]);
                assert(places[i] == order[i] && places[j] == order[j]);
            }
        }
        in_order_is_sorted(taken);
        assert forall|i: int| 0 <= i < out.len() implies #[trigger] out[i] < n by {
            assert(out@.contains(out[i]));
            let j = choose|j: int| 0 <= j < taken.len() && taken[j] == out[i];
            assert(places[j] == order[j]);
        }
    }
    out
}

/// The seed of a tree's column sampler.
pub open spec fn sampler_seed(seed: u64, round: u64, output: u64) -> u64 {
    seed.wrapping_add(round.wrapping_mul(0x9E37_79B9_7F4A_7C15)).wrapping_add(
        output.wrapping_mul(0xC2B2_AE3D_27D4_EB4F),
    )
}

/// The column sampler of a tree: its features, and the shares that levels and
/// nodes take of them.
pub open spec fn tree_sampling<F: Fn(Op, u64, u64) -> u64>(
    params: TrainingParams,
    seed: u64,
    requests: Seq<int>,
    n_features: int,
    round: u64,
    output: u64,
    calc: &Calc<F>,
) -> Sampling {
    Sampling {
        pool: tree_features(seed, requests, params.colsample_bytree, n_features, calc),
        bylevel: params.colsample_bylevel,
        bynode: params.colsample_bynode,
        seed: sampler_seed(params.seed, round, output),
        requests: Seq::empty(),
    }
}

/// Make the column sampler of a tree.
pub fn make_column_sampler<F: Fn(Op, u64, u64) -> u64>(
    n_features: usize,
    params: &TrainingParams,
    rng: &mut Random,
    round: u64,
    output: u64,
    calc: &Calc<F>,
) -> (r: ColumnSampler)
    requires
        0 < n_features <= u32::MAX,
    ensures
        r@ == tree_sampling(
            *params,
            old(rng).seed(),
            old(rng).requests(),
            n_features as int,
            round,
            output,
            calc,
        ),
        forall|i: int| 0 <= i < r.features().len() ==> #[trigger] r.features()[i] < n_features,
        final(rng).seed() == old(rng).seed(),
        final(rng).requests() == after_features(
            old(rng).requests(),
            params.colsample_bytree,
            n_features as int,
        ),
{
    let pool = sample_features(n_features, params.colsample_bytree, rng, calc);
    let seed: u64 = params.seed.wrapping_add(
        round.wrapping_mul(0x9E37_79B9_7F4A_7C15),
    ).wrapping_add(output.wrapping_mul(0xC2B2_AE3D_27D4_EB4F));
    ColumnSampler::new(pool, params.colsample_bylevel, params.colsample_bynode, seed)
}

/// Which of the first `n` trees chance drops.
pub open spec fn chance_drops<F: Fn(Op, u64, u64) -> u64>(
    seed: u64,
    requests: Seq<int>,
    rate: Wide,
    n: int,
    calc: &Calc<F>,
) -> Seq<bool> {
    Seq::new(n as nat, |i: int| drawn_under(seed, after_words(requests, i), rate, calc))
}

/// Which of `n` trees a round drops: none with the chance to skip, else each
/// by chance and at least one.
pub open spec fn round_drops<F: Fn(Op, u64, u64) -> u64>(
    params: TrainingParams,
    seed: u64,
    n: int,
    calc: &Calc<F>,
) -> Seq<bool> {
    let start = Seq::<int>::empty();
    let first = start.push(-1);
    let none = Seq::new(n as nat, |i: int| false);
    if drawn_under(seed, start, params.skip_drop, calc) || n == 0 {
        none
    } else {
        let drops = chance_drops(seed, first, params.rate_drop, n, calc);
        if drops.contains(true) {
            drops
        } else {
            none.update(drawn_below_u64(seed, after_words(first, n), n as u64) as int, true)
        }
    }
}

/// The requests after the trees to drop were drawn.
pub open spec fn after_drops<F: Fn(Op, u64, u64) -> u64>(
    params: TrainingParams,
    seed: u64,
    n: int,
    calc: &Calc<F>,
) -> Seq<int> {
    let start = Seq::<int>::empty();
    let first = start.push(-1);
    if drawn_under(seed, start, params.skip_drop, calc) || n == 0 {
        first
    } else if chance_drops(seed, first, params.rate_drop, n, calc).contains(true) {
        after_words(first, n)
    } else {
        after_words(first, n).push(-3 - 2 * n)
    }
}

/// The number of trees dropped among the first `n`.
pub open spec fn drop_count(drops: Seq<bool>, n: int) -> int
    decreases n,
{
    if n <= 0 {
        0
    } else {
        drop_count(drops, n - 1) + if drops[n - 1] {
            1int
        } else {
            0
        }
    }
}

/// Draw the trees that a round drops.
pub fn draw_drops<F: Fn(Op, u64, u64) -> u64>(
    params: &TrainingParams,
    n: usize,
    rng: &mut Random,
    calc: &Calc<F>,
) -> (r: Vec<bool>)
    requires
        old(rng).requests() == Seq::<int>::empty(),
    ensures
        r@ == round_drops(*params, old(rng).seed(), n as int, calc),
        r.len() == n,
        n > 0 && !drawn_under(old(rng).seed(), Seq::<int>::empty(), params.skip_drop, calc)
            ==> r@.contains(true),
        final(rng).seed() == old(rng).seed(),
        final(rng).requests() == after_drops(*params, old(rng).seed(), n as int, calc),
{
    let ghost seed = rng.seed();
    let ghost start = Seq::<int>::empty();
    let ghost first = start.push(-1);
    let mut dropped: Vec<bool> = vec![false; n];
    let ghost none = Seq::new(n as nat, |i: int| false);
    let u = rng.unit(calc);
    assert(dropped@ =~= none);
    if u.is_lt(params.skip_drop) || n == 0 {
        return dropped;
    }
    let ghost drops = chance_drops(seed, first, params.rate_drop, n as int, calc);
    let mut any = false;
    let mut i: usize = 0;
    while i < n
        invariant
            i <= n,
            dropped.len() == n,
            rng.seed() == seed,
            rng.requests() == after_words(first, i as int),
            drops == chance_drops(seed, first, params.rate_drop, n as int, calc),
            forall|k: int| 0 <= k < i ==> #[trigger] dropped[k] == drops[k],
            forall|k: int| i <= k < n ==> !#[trigger] dropped[k],
            any == exists|k: int| 0 <= k < i && #[trigger] drops[k],
        decreases n - i,
    {
        let u = rng.unit(calc);
        if u.is_lt(params.rate_drop) {
            dropped.set(i, true);
            any = true;
            assert(drops[i as int]);
        }
        i = i + 1;
    }
    if any {
        proof {
            let k = choose|k: int| 0 <= k < n && #[trigger] drops[k];
            assert(drops[k] == true);
            assert(drops.contains(true));
            assert(dropped@ =~= drops);
        }
    } else {
        proof {
            assert(!drops.contains(true)) by {
                if drops.contains(true) {
                    let k = choose|k: int| 0 <= k < drops.len() && drops[k] == true;
                    assert(drops[k]);
                }
            }
            assert(dropped@ =~= none);
        }
        let i: usize = rng.below_u64(n as u64) as usize;
        dropped.set(i, true);
        assert(dropped[i as int] == true);
    }
    dropped
}

} // verus!
