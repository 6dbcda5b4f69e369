//! Column (feature) sampling shared by the tree builders.
//!
//! The features of a tree form a pool. Each draw takes a share of the pool and
//! then a share of what it took, in ascending order; with shares of one, every
//! draw holds the whole pool.

use vstd::prelude::*;

use crate::arith::{Calc, Op};
use crate::number::{Wide, ONE};
use crate::random::{drawn_order, shuffled_places, Random};
use crate::sort::{argsort, before, stable_order, stable_order_exists, stable_order_is_unique};

verus! {

/// The features as sorting keys.
pub open spec fn feature_keys(s: Seq<u32>) -> Seq<i64> {
    Seq::new(s.len(), |i: int| s[i] as i64)
}

/// The features in ascending order.
pub open spec fn in_order(s: Seq<u32>) -> Seq<u32> {
    let order = choose|o: Seq<usize>| stable_order(feature_keys(s), o);
    Seq::new(s.len(), |i: int| s[order[i] as int])
}

/// Sorting keeps the features and puts them in order.
pub proof fn in_order_is_sorted(s: Seq<u32>)
    requires
        s.len() <= usize::MAX,
    ensures
        in_order(s).len() == s.len(),
        forall|i: int, j: int|
            0 <= i <= j < s.len() ==> #[trigger] in_order(s)[i] <= #[trigger] in_order(s)[j],
        s.no_duplicates() ==> forall|i: int, j: int|
            0 <= i < j < s.len() ==> #[trigger] in_order(s)[i] < #[trigger] in_order(s)[j],
        forall|x: u32| #[trigger] in_order(s).contains(x) <==> s.contains(x),
{
    stable_order_exists(feature_keys(s));
    let order = choose|o: Seq<usize>| stable_order(feature_keys(s), o);
    let sorted = in_order(s);
    assert forall|i: int, j: int| 0 <= i <= j < s.len() implies #[trigger] sorted[i]
        <= #[trigger] sorted[j] by {
        if i < j {
            assert(before(feature_keys(s), order[i] as int, order[j] as int));
        }
    }
    assert forall|i: int, j: int|
        0 <= i < j < s.len() && s.no_duplicates() implies #[trigger] sorted[i]
        < #[trigger] sorted[j] by {
        assert(before(feature_keys(s), order[i] as int, order[j] as int));
    }
    assert forall|x: u32| #[trigger] sorted.contains(x) <==> s.contains(x) by {
        if sorted.contains(x) {
            let i = choose|i: int| 0 <= i < sorted.len() && sorted[i] == x;
            assert(s[order[i] as int] == x);
        }
        if s.contains(x) {
            let k = choose|k: int| 0 <= k < s.len() && s[k] == x;
            assert(order.contains(k as usize));
            let i = choose|i: int| 0 <= i < order.len() && order[i] == k as usize;
            assert(sorted[i] == x);
        }
    }
}

/// The features in ascending order.
pub fn sort_features(s: &Vec<u32>) -> (r: Vec<u32>)
    ensures
        r@ == in_order(s@),
{
    let mut keys: Vec<i64> = Vec::new();
    let mut i: usize = 0;
    while i < s.len()
        invariant
            i <= s.len(),
            keys.len() == i,
            forall|k: int| 0 <= k < i ==> #[trigger] keys[k] == s[k],
        decreases s.len() - i,
    {
        keys.push(s[i] as i64);
        i = i + 1;
    }
    assert(keys@ =~= feature_keys(s@));
    let order = argsort(keys.as_slice());
    let mut out: Vec<u32> = Vec::new();
    let mut i: usize = 0;
    while i < order.len()
        invariant
            i <= order.len(),
            order.len() == s.len(),
            stable_order(feature_keys(s@), order@),
            out.len() == i,
            forall|k: int| 0 <= k < i ==> #[trigger] out[k] == s[order[k] as int],
        decreases order.len() - i,
    {
        out.push(s[order[i]]);
        i = i + 1;
    }
    proof {
        let o = choose|o: Seq<usize>| stable_order(feature_keys(s@), o);
        stable_order_is_unique(feature_keys(s@), o, order@);
        assert(out@ =~= in_order(s@));
    }
    out
}

/// Whether a draw takes the whole pool.
pub open spec fn takes_all(len: int, ratio: Wide) -> bool {
    (Wide { bits: ONE }).le(ratio) || len <= 1
}

/// How many of `len` features a share takes: the nearest count, at least one.
pub open spec fn share_of<F: Fn(Op, u64, u64) -> u64>(len: int, ratio: Wide, calc: &Calc<F>) -> int {
    let k = calc.rounded(calc.times(ratio, calc.of(len))).count(usize::MAX as int);
    if k < 1 {
        1
    } else if k > len {
        len
    } else {
        k
    }
}

/// The features at the first `k` of the given places, in ascending order.
pub open spec fn picked(pool: Seq<u32>, order: Seq<int>, k: int) -> Seq<u32> {
    in_order(Seq::new(k as nat, |i: int| pool[order[i]]))
}

/// The share of a pool that a draw takes, with the pool shuffled into `order`.
pub open spec fn subset<F: Fn(Op, u64, u64) -> u64>(
    pool: Seq<u32>,
    ratio: Wide,
    order: Seq<int>,
    calc: &Calc<F>,
) -> Seq<u32> {
    if takes_all(pool.len() as int, ratio) {
        in_order(pool)
    } else {
        picked(pool, order, share_of(pool.len() as int, ratio, calc))
    }
}

/// How many of `len` features a draw takes.
pub open spec fn taken_of<F: Fn(Op, u64, u64) -> u64>(
    len: int,
    ratio: Wide,
    calc: &Calc<F>,
) -> int {
    if takes_all(len, ratio) {
        len
    } else {
        share_of(len, ratio, calc)
    }
}

/// The requests after a draw.
pub open spec fn after_draw(requests: Seq<int>, len: int, ratio: Wide) -> Seq<int> {
    if takes_all(len, ratio) { requests } else { requests.push(len) }
}

/// A share of a pool is part of the pool, in ascending order and without
/// repetition, and holds at least one feature of it.
pub proof fn subsets_are_sorted_parts<F: Fn(Op, u64, u64) -> u64>(
    pool: Seq<u32>,
    ratio: Wide,
    order: Seq<int>,
    calc: &Calc<F>,
)
    requires
        0 < pool.len() <= usize::MAX,
        pool.no_duplicates(),
        order.len() == pool.len(),
        order.no_duplicates(),
        forall|i: int| 0 <= i < order.len() ==> 0 <= #[trigger] order[i] < pool.len(),
    ensures
        subset(pool, ratio, order, calc).len() == taken_of(pool.len() as int, ratio, calc),
        1 <= subset(pool, ratio, order, calc).len() <= pool.len(),
        forall|x: u32| #[trigger]
            subset(pool, ratio, order, calc).contains(x) ==> pool.contains(x),
        forall|i: int, j: int|
            0 <= i < j < subset(pool, ratio, order, calc).len() ==> #[trigger] subset(
                pool,
                ratio,
                order,
                calc,
            )[i] < #[trigger] subset(pool, ratio, order, calc)[j],
{
    in_order_is_sorted(pool);
    let k = share_of(pool.len() as int, ratio, calc);
    let taken = Seq::new(k as nat, |i: int| pool[order[i]]);
    assert(taken.no_duplicates()) by {
        assert forall|i: int, j: int|
            0 <= i < taken.len() && 0 <= j < taken.len() && i != j implies taken[i]
            != taken[j] by {
            assert(order[i] != order[j]);
        }
    }
    in_order_is_sorted(taken);
    assert forall|x: u32| #[trigger] in_order(taken).contains(x) implies pool.contains(x) by {
        let i = choose|i: int| 0 <= i < taken.len() && taken[i] == x;
        assert(pool[order[i]] == x);
    }
}

/// Features in ascending order stay as they are when they are sorted.
pub proof fn sorted_features_stay(s: Seq<u32>)
    requires
        s.len() <= usize::MAX,
        forall|i: int, j: int| 0 <= i <= j < s.len() ==> #[trigger] s[i] <= #[trigger] s[j],
    ensures
        in_order(s) == s,
{
    let keys = feature_keys(s);
    let plain = Seq::new(s.len(), |i: int| i as usize);
    assert(stable_order(keys, plain)) by {
        assert forall|i: usize| 0 <= i < plain.len() implies #[trigger] plain.contains(i) by {
            assert(plain[i as int] == i);
        }
    }
    let order = choose|o: Seq<usize>| stable_order(keys, o);
    stable_order_is_unique(keys, order, plain);
    assert(in_order(s) =~= s);
}

/// The features of a pool at the first `k` of the given places, in ascending
/// order.
pub fn pick_features(pool: &[u32], order: &[usize], k: usize) -> (r: Vec<u32>)
    requires
        k <= order.len(),
        forall|i: int| 0 <= i < order.len() ==> #[trigger] order[i] < pool.len(),
    ensures
        r@ == picked(pool@, order@.map_values(|p: usize| p as int), k as int),
{
    let mut taken: Vec<u32> = Vec::new();
    let mut i: usize = 0;
    while i < k
        invariant
            i <= k <= order.len(),
            forall|j: int| 0 <= j < order.len() ==> #[trigger] order[j] < pool.len(),
            taken.len() == i,
            forall|j: int| 0 <= j < i ==> #[trigger] taken[j] == pool[order[j] as int],
        decreases k - i,
    {
        taken.push(pool[order[i]]);
        i = i + 1;
    }
    let ghost places = order@.map_values(|p: usize| p as int);
    assert(taken@ =~= Seq::new(k as nat, |i: int| pool@[places[i]]));
    sort_features(&taken)
}

/// The number of features that a share takes.
pub fn share_size<F: Fn(Op, u64, u64) -> u64>(len: usize, ratio: Wide, calc: &Calc<F>) -> (r: usize)
    requires
        1 <= len,
    ensures
        r == share_of(len as int, ratio, calc),
        1 <= r <= len,
{
    let k: usize = calc.round(calc.mul(ratio, calc.of_usize(len))).to_usize();
    if k < 1 {
        1
    } else if k > len {
        len
    } else {
        k
    }
}

/// Draw a share of a pool.
pub fn subsample<F: Fn(Op, u64, u64) -> u64>(
    pool: &[u32],
    ratio: Wide,
    rng: &mut Random,
    calc: &Calc<F>,
) -> (r: Vec<u32>)
    ensures
        r@ == subset(
            pool@,
            ratio,
            drawn_order(old(rng).seed(), old(rng).requests(), pool@.len()),
            calc,
        ),
        r.len() <= pool.len(),
        pool.len() > 0 ==> r.len() > 0,
        r.len() == taken_of(pool.len() as int, ratio, calc),
        forall|i: int, j: int| 0 <= i <= j < r.len() ==> #[trigger] r@[i] <= #[trigger] r@[j],
        pool@.no_duplicates() ==> r@.no_duplicates(),
        pool@.no_duplicates() ==> forall|i: int, j: int|
            0 <= i < j < r.len() ==> #[trigger] r@[i] < #[trigger] r@[j],
        forall|x: u32| #[trigger] r@.contains(x) ==> pool@.contains(x),
        final(rng).seed() == old(rng).seed(),
        final(rng).requests() == after_draw(old(rng).requests(), pool.len() as int, ratio),
{
    let one = Wide { bits: ONE };
    if one.is_le(ratio) || pool.len() <= 1 {
        let all = vstd::slice::slice_to_vec(pool);
        proof {
            assert(all.len() <= usize::MAX && all@ == pool@);
            in_order_is_sorted(all@);
        }
        return sort_features(&all);
    }
    let k: usize = share_size(pool.len(), ratio, calc);
    let order = shuffled_places(rng, pool.len());
    let ghost named = drawn_order(old(rng).seed(), old(rng).requests(), pool@.len());
    let ghost places = order@.map_values(|p: usize| p as int);
    let out = pick_features(pool, order.as_slice(), k);
    proof {
        let taken = Seq::new(k as nat, |i: int| pool@[places[i]]);
        assert(taken =~= Seq::new(k as nat, |i: int| pool@[named[i]]));
        in_order_is_sorted(taken);
        assert forall|x: u32| #[trigger] out@.contains(x) implies pool@.contains(x) by {
            assert(taken.contains(x));
            let i = choose|i: int| 0 <= i < taken.len() && taken[i] == x;
            assert(pool@[order[i] as int] == x);
        }
        if pool@.no_duplicates() {
            assert forall|i: int, j: int|
                0 <= i < taken.len() && 0 <= j < taken.len() && i != j implies taken[i]
                != taken[j] by {
                assert(order[i] != order[j]);
            }
            assert(taken.no_duplicates());
        }
    }
    out
}

/// Draws feature subsets from a tree's pool.
pub struct ColumnSampler {
    pool: Vec<u32>,
    bylevel: Wide,
    bynode: Wide,
    rng: Random,
}

impl ColumnSampler {
    /// The pool.
    pub closed spec fn features(&self) -> Seq<u32> {
        self.pool@
    }

    /// The share of the pool that a draw takes first.
    pub closed spec fn level_share(&self) -> Wide {
        self.bylevel
    }

    /// The share that a draw takes of what it took first.
    pub closed spec fn node_share(&self) -> Wide {
        self.bynode
    }

    /// The generator.
    pub closed spec fn generator(&self) -> Random {
        self.rng
    }

    /// A sampler over a pool.
    pub fn new(pool: Vec<u32>, bylevel: Wide, bynode: Wide, seed: u64) -> (r: Self)
        ensures
            r.features() == pool@,
            r.level_share() == bylevel,
            r.node_share() == bynode,
            r.generator().seed() == seed,
            r.generator().requests() == Seq::<int>::empty(),
    {
        ColumnSampler { pool, bylevel, bynode, rng: Random::seeded(seed) }
    }

    /// A sampler whose every draw is all of `n_features` columns.
    pub fn all(n_features: usize) -> (r: Self)
        requires
            n_features <= u32::MAX,
        ensures
            r.features() == Seq::new(n_features as nat, |i: int| i as u32),
            r.level_share() == (Wide { bits: ONE }),
            r.node_share() == (Wide { bits: ONE }),
            r.generator().seed() == 0,
            r.generator().requests() == Seq::<int>::empty(),
    {
        ColumnSampler::new(
            all_features(n_features),
            Wide { bits: ONE },
            Wide { bits: ONE },
            0,
        )
    }

    /// The pool.
    pub fn pool(&self) -> (r: &[u32])
        ensures
            r@ == self.features(),
    {
        self.pool.as_slice()
    }

    /// The subset that the next draw takes.
    pub open spec fn next_draw<F: Fn(Op, u64, u64) -> u64>(&self, calc: &Calc<F>) -> Seq<u32> {
        draw_at(self@, calc)
    }

    /// Draw a feature subset, in ascending order.
    pub fn sample<F: Fn(Op, u64, u64) -> u64>(&mut self, calc: &Calc<F>) -> (r: Vec<u32>)
        ensures
            r@ == old(self).next_draw(calc),
            old(self).features().len() > 0 ==> r.len() > 0,
            r.len() <= old(self).features().len(),
            r.len() == taken_of(
                taken_of(old(self).features().len() as int, old(self).level_share(), calc),
                old(self).node_share(),
                calc,
            ),
            forall|i: int, j: int| 0 <= i <= j < r.len() ==> #[trigger] r@[i] <= #[trigger] r@[j],
            old(self).features().no_duplicates() ==> r@.no_duplicates(),
            old(self).features().no_duplicates() ==> forall|i: int, j: int|
                0 <= i < j < r.len() ==> #[trigger] r@[i] < #[trigger] r@[j],
            forall|x: u32| #[trigger] r@.contains(x) ==> old(self).features().contains(x),
            final(self).features() == old(self).features(),
            final(self).level_share() == old(self).level_share(),
            final(self).node_share() == old(self).node_share(),
            final(self).generator().seed() == old(self).generator().seed(),
            final(self)@ == after_draw_at(old(self)@, calc),
    {
        let level = subsample(self.pool.as_slice(), self.bylevel, &mut self.rng, calc);
        subsample(level.as_slice(), self.bynode, &mut self.rng, calc)
    }
}

/// A sampler, as contracts speak of it.
#[verifier::ext_equal]
pub struct Sampling {
    /// The pool.
    pub pool: Seq<u32>,
    /// The share of the pool that a draw takes first.
    pub bylevel: Wide,
    /// The share that a draw takes of what it took first.
    pub bynode: Wide,
    /// The generator's seed.
    pub seed: u64,
    /// The requests that the generator has answered.
    pub requests: Seq<int>,
}

impl View for ColumnSampler {
    type V = Sampling;

    open spec fn view(&self) -> Sampling {
        Sampling {
            pool: self.features(),
            bylevel: self.level_share(),
            bynode: self.node_share(),
            seed: self.generator().seed(),
            requests: self.generator().requests(),
        }
    }
}

/// The share of the pool that the next draw takes first.
pub open spec fn level_draw_at<F: Fn(Op, u64, u64) -> u64>(s: Sampling, calc: &Calc<F>) -> Seq<u32> {
    subset(s.pool, s.bylevel, drawn_order(s.seed, s.requests, s.pool.len()), calc)
}

/// The subset that the next draw takes.
pub open spec fn draw_at<F: Fn(Op, u64, u64) -> u64>(s: Sampling, calc: &Calc<F>) -> Seq<u32> {
    let level = level_draw_at(s, calc);
    let second = after_draw(s.requests, s.pool.len() as int, s.bylevel);
    subset(level, s.bynode, drawn_order(s.seed, second, level.len()), calc)
}

/// The sampler after the next draw.
pub open spec fn after_draw_at<F: Fn(Op, u64, u64) -> u64>(
    s: Sampling,
    calc: &Calc<F>,
) -> Sampling {
    let level = level_draw_at(s, calc);
    let second = after_draw(s.requests, s.pool.len() as int, s.bylevel);
    Sampling { requests: after_draw(second, level.len() as int, s.bynode), ..s }
}

/// Two samplers with the same pool, shares and seed that have answered the
/// same requests draw the same subset.
pub proof fn sampling_is_reproducible<F: Fn(Op, u64, u64) -> u64>(
    a: ColumnSampler,
    b: ColumnSampler,
    calc: &Calc<F>,
)
    requires
        a.features() == b.features(),
        a.level_share() == b.level_share(),
        a.node_share() == b.node_share(),
        a.generator().seed() == b.generator().seed(),
        a.generator().requests() == b.generator().requests(),
    ensures
        a.next_draw(calc) == b.next_draw(calc),
{
}

/// With shares of one, a draw is the whole pool, in ascending order.
pub proof fn full_shares_draw_the_pool<F: Fn(Op, u64, u64) -> u64>(
    a: ColumnSampler,
    calc: &Calc<F>,
)
    requires
        a.level_share() == (Wide { bits: ONE }),
        a.node_share() == (Wide { bits: ONE }),
        a.features().len() <= usize::MAX,
    ensures
        a.next_draw(calc) == in_order(a.features()),
{
    in_order_is_sorted(a.features());
    sorted_features_stay(in_order(a.features()));
}

/// All rows `0..n_rows`.
pub fn all_rows(n_rows: usize) -> (r: Vec<u32>)
    requires
        n_rows <= u32::MAX,
    ensures
        r@ == Seq::new(n_rows as nat, |i: int| i as u32),
{
    let mut out: Vec<u32> = Vec::new();
    let mut i: u32 = 0;
    while (i as usize) < n_rows
        invariant
            i <= n_rows <= u32::MAX,
            out.len() == i,
            forall|k: int| 0 <= k < i ==> #[trigger] out[k] == k,
        decreases n_rows - i,
    {
        out.push(i);
        i = i + 1;
    }
    assert(out@ =~= Seq::new(n_rows as nat, |i: int| i as u32));
    out
}

/// All features `0..n_cols`.
pub fn all_features(n_cols: usize) -> (r: Vec<u32>)
    requires
        n_cols <= u32::MAX,
    ensures
        r@ == Seq::new(n_cols as nat, |i: int| i as u32),
{
    all_rows(n_cols)
}

} // verus!
