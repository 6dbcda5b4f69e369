//! Reproducible randomness.
//!
//! A generator is known by its seed and by the requests it has answered so
//! far: these decide every answer. Requests are recorded as numbers: a shuffle
//! of `n` items as `n`, a word as `-1`, a 32-bit number below `n` as
//! `-2 - 2 n` and a 64-bit one as `-3 - 2 n`.

use rand::rngs::StdRng;
use rand::seq::SliceRandom;
use rand::{Rng, RngCore, SeedableRng};
use vstd::prelude::*;

use crate::arith::{Calc, Op};
use crate::number::Wide;

verus! {

/// The generator of the `rand` crate, carried along unopened.
#[verifier::external_type_specification]
#[verifier::external_body]
pub struct ExStdRng(StdRng);

/// The word that a generator with this seed draws after these requests.
pub uninterp spec fn drawn_word(seed: u64, requests: Seq<int>) -> u64;

/// The 32-bit number below `n` that a generator draws after these requests.
pub uninterp spec fn drawn_below_u32(seed: u64, requests: Seq<int>, n: u32) -> u32;

/// The 64-bit number below `n` that a generator draws after these requests.
pub uninterp spec fn drawn_below_u64(seed: u64, requests: Seq<int>, n: u64) -> u64;

/// The order into which a generator shuffles `len` items after these requests:
/// item `i` of the result is the item that stood at place `order[i]`.
pub uninterp spec fn drawn_order(seed: u64, requests: Seq<int>, len: nat) -> Seq<int>;

/// A seeded generator.
pub struct Random {
    rng: StdRng,
    seed: Ghost<u64>,
    requests: Ghost<Seq<int>>,
}

impl Random {
    /// The seed.
    pub closed spec fn seed(&self) -> u64 {
        self.seed@
    }

    /// The requests answered so far.
    pub closed spec fn requests(&self) -> Seq<int> {
        self.requests@
    }

    /// Calls `StdRng::seed_from_u64`, which makes the generator's state out of
    /// the seed alone; a fresh generator has answered no request.
    #[verifier::external_body]
    pub(crate) fn seeded(seed: u64) -> (r: Self)
        ensures
            r.seed() == seed,
            r.requests() == Seq::<int>::empty(),
    {
        Random {
            rng: StdRng::seed_from_u64(seed),
            seed: Ghost(seed),
            requests: Ghost(Seq::empty()),
        }
    }

    /// Calls `RngCore::next_u64`, whose answer depends on the generator's state
    /// alone.
    #[verifier::external_body]
    pub(crate) fn word(&mut self) -> (r: u64)
        ensures
            r == drawn_word(old(self).seed(), old(self).requests()),
            final(self).seed() == old(self).seed(),
            final(self).requests() == old(self).requests().push(-1),
    {
        self.rng.next_u64()
    }

    /// Calls `Rng::gen_range` on `0..n`, which draws a number of that range, as
    /// the generator's state decides. An empty range would panic.
    #[verifier::external_body]
    pub(crate) fn below_u32(&mut self, n: u32) -> (r: u32)
        requires
            n > 0,
        ensures
            r < n,
            r == drawn_below_u32(old(self).seed(), old(self).requests(), n),
            final(self).seed() == old(self).seed(),
            final(self).requests() == old(self).requests().push(-2 - 2 * n),
    {
        self.rng.gen_range(0..n)
    }

    /// Calls `Rng::gen_range` on `0..n`, which draws a number of that range, as
    /// the generator's state decides. An empty range would panic.
    #[verifier::external_body]
    pub(crate) fn below_u64(&mut self, n: u64) -> (r: u64)
        requires
            n > 0,
        ensures
            r < n,
            r == drawn_below_u64(old(self).seed(), old(self).requests(), n),
            final(self).seed() == old(self).seed(),
            final(self).requests() == old(self).requests().push(-3 - 2 * n),
    {
        self.rng.gen_range(0..n)
    }

    /// Calls `SliceRandom::shuffle`, which swaps items by places drawn from the
    /// generator, looking at their number and never at the items.
    #[verifier::external_body]
    pub(crate) fn shuffle(&mut self, items: &mut Vec<usize>)
        ensures
            final(items).len() == old(items).len(),
            final(items)@.to_multiset() == old(items)@.to_multiset(),
            forall|i: int|
                0 <= i < old(items).len() ==> {
                    let k = drawn_order(
                        old(self).seed(),
                        old(self).requests(),
                        old(items)@.len(),
                    )[i];
                    0 <= k < old(items).len() && #[trigger] final(items)[i] == old(items)[k]
                },
            final(self).seed() == old(self).seed(),
            final(self).requests() == old(self).requests().push(old(items).len() as int),
    {
        items.shuffle(&mut self.rng)
    }

    /// A fresh generator with the given seed.
    pub fn from_seed(seed: u64) -> (r: Self)
        ensures
            r.seed() == seed,
            r.requests() == Seq::<int>::empty(),
    {
        Random::seeded(seed)
    }

    /// A number of `[0, 1)`: the upper 53 bits of a word, over `2^53`.
    pub fn unit<F: Fn(Op, u64, u64) -> u64>(&mut self, calc: &Calc<F>) -> (r: Wide)
        ensures
            r == unit_of(drawn_word(old(self).seed(), old(self).requests()), calc),
            final(self).seed() == old(self).seed(),
            final(self).requests() == old(self).requests().push(-1),
    {
        let word: u64 = self.word();
        calc.mul(Wide { bits: UNIT_STEP }, calc.of_u64(word / 0x800))
    }
}

/// The bit pattern of `2^-53` in double precision.
pub const UNIT_STEP: u64 = 0x3ca0_0000_0000_0000;

/// The number of `[0, 1)` that a word stands for.
pub open spec fn unit_of<F: Fn(Op, u64, u64) -> u64>(word: u64, calc: &Calc<F>) -> Wide {
    calc.times(Wide { bits: UNIT_STEP }, calc.of((word / 0x800) as int))
}

/// The places `0..n` in the order into which a generator shuffles them.
pub fn shuffled_places(rng: &mut Random, n: usize) -> (r: Vec<usize>)
    ensures
        is_permutation(r@, n as int),
        forall|i: int|
            0 <= i < n ==> #[trigger] r[i] == drawn_order(
                old(rng).seed(),
                old(rng).requests(),
                n as nat,
            )[i],
        final(rng).seed() == old(rng).seed(),
        final(rng).requests() == old(rng).requests().push(n as int),
{
    let mut items: Vec<usize> = Vec::new();
    let mut i: usize = 0;
    while i < n
        invariant
            i <= n,
            items.len() == i,
            forall|k: int| 0 <= k < i ==> #[trigger] items[k] == k,
        decreases n - i,
    {
        items.push(i);
        i = i + 1;
    }
    let ghost plain = items@;
    rng.shuffle(&mut items);
    proof {
        reordering_is_permutation(plain, items@);
    }
    items
}

/// Whether a list holds every place of `0..n` once.
pub open spec fn is_permutation(s: Seq<usize>, n: int) -> bool {
    &&& s.len() == n
    &&& s.no_duplicates()
    &&& forall|i: int| 0 <= i < s.len() ==> #[trigger] s[i] < n
    &&& forall|x: usize| 0 <= x < n ==> #[trigger] s.contains(x)
}

proof fn reordering_is_permutation(plain: Seq<usize>, s: Seq<usize>)
    requires
        s.len() == plain.len(),
        s.to_multiset() == plain.to_multiset(),
        forall|k: int| 0 <= k < plain.len() ==> #[trigger] plain[k] == k,
    ensures
        is_permutation(s, plain.len() as int),
{
    broadcast use vstd::seq_lib::group_to_multiset_ensures;

    assert(plain.no_duplicates());
    plain.lemma_multiset_has_no_duplicates();
    s.lemma_multiset_has_no_duplicates_conv();
    assert forall|x: usize| 0 <= x < plain.len() implies #[trigger] s.contains(x) by {
        assert(plain[x as int] == x);
        assert(plain.contains(x));
        assert(plain.to_multiset().count(x) > 0);
    }
    assert forall|i: int| 0 <= i < s.len() implies #[trigger] s[i] < plain.len() by {
        assert(s.contains(s[i]));
        assert(s.to_multiset().count(s[i]) > 0);
        assert(plain.contains(s[i]));
    }
}

} // verus!
