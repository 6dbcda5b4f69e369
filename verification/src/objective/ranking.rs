//! Learning-to-rank objectives.
//!
//! Rows form query groups. Within a group, documents of different relevance
//! form pairs that pull their scores apart, each pair weighted by how much the
//! ranking metric would change if the two documents swapped places.

use vstd::prelude::*;

use crate::arith::{Calc, Op};
use crate::data::dmatrix::slice_view;
use crate::data::meta::GroupInfo;
use crate::number::{Single, Wide, ONE, TWO};
use crate::objective::base::{groups_of, Objective, ObjectiveInfo};
use crate::objective::pair::{zero_pair, GradPair};
use crate::sort::{argsort, stable_order, stable_order_is_unique};

verus! {

/// Greatest number of pairs that a group forms; of more, a sample is kept.
pub const MAX_PAIRS_PER_GROUP: u64 = 4096;

/// The bit pattern of the least pair Hessian in double precision, `1e-16`.
pub const LEAST_HESS: u64 = 0x3c9c_d2b2_97d8_89bc;

/// Which ranking loss is optimized.
#[derive(Clone, Copy, Debug, PartialEq, Eq, Structural)]
pub enum RankMode {
    /// Every pair weighs one.
    Pairwise,
    /// Pairs weigh by the change of normalized discounted gain.
    Ndcg,
    /// Pairs weigh by the change of average precision.
    Precision,
}

/// A small reproducible generator.
#[derive(Clone, Copy, Debug, PartialEq, Eq, Structural)]
pub struct SplitMix64 {
    /// The state.
    pub state: u64,
}

/// The state after one step.
pub open spec fn stepped(state: u64) -> u64 {
    state.wrapping_add(0x9E37_79B9_7F4A_7C15)
}

/// The word that a stepped state gives.
pub open spec fn mixed(z: u64) -> u64 {
    let a = (z ^ (z >> 30)).wrapping_mul(0xBF58_476D_1CE4_E5B9);
    let b = (a ^ (a >> 27)).wrapping_mul(0x94D0_49BB_1331_11EB);
    b ^ (b >> 31)
}

/// The number of `[0, 1)` that a word stands for.
pub open spec fn unit_word<F: Fn(Op, u64, u64) -> u64>(word: u64, calc: &Calc<F>) -> Wide {
    calc.over(calc.of((word / 0x800) as int), calc.of(0x20_0000_0000_0000))
}

impl SplitMix64 {
    /// A generator with the given seed.
    pub fn new(seed: u64) -> (r: Self)
        ensures
            r.state == seed,
    {
        SplitMix64 { state: seed }
    }

    /// The next word.
    pub fn next_u64(&mut self) -> (r: u64)
        ensures
            final(self).state == stepped(old(self).state),
            r == mixed(stepped(old(self).state)),
    {
        self.state = self.state.wrapping_add(0x9E37_79B9_7F4A_7C15);
        let z: u64 = self.state;
        let a: u64 = (z ^ (z >> 30)).wrapping_mul(0xBF58_476D_1CE4_E5B9);
        let b: u64 = (a ^ (a >> 27)).wrapping_mul(0x94D0_49BB_1331_11EB);
        b ^ (b >> 31)
    }

    /// The next number of `[0, 1)`.
    pub fn next_unit<F: Fn(Op, u64, u64) -> u64>(&mut self, calc: &Calc<F>) -> (r: Wide)
        ensures
            final(self).state == stepped(old(self).state),
            r == unit_word(mixed(stepped(old(self).state)), calc),
    {
        let word: u64 = self.next_u64();
        calc.div(calc.of_u64(word / 0x800), calc.of_u64(0x20_0000_0000_0000))
    }
}

/// Sorting keys that put greater numbers first.
pub open spec fn falling_keys(s: Seq<Wide>) -> Seq<i64> {
    Seq::new(s.len(), |i: int| (-s[i].place()) as i64)
}

/// The positions of numbers, the greatest first.
pub open spec fn falling_order(s: Seq<Wide>) -> Seq<usize> {
    choose|o: Seq<usize>| stable_order(falling_keys(s), o)
}

/// Whether `pos` gives the place of every document in `order`.
pub open spec fn places_in(order: Seq<usize>, pos: Seq<usize>) -> bool {
    &&& pos.len() == order.len()
    &&& forall|p: int|
        0 <= p < order.len() ==> (#[trigger] order[p]) < pos.len() && pos[order[p] as int] == p
}

/// The place of document `d` in an order.
pub open spec fn place_in(order: Seq<usize>, d: int) -> int {
    choose|p: int| 0 <= p < order.len() && order[p] == d
}

/// The positions of numbers, the greatest first.
pub fn sort_falling(s: &Vec<Wide>) -> (order: Vec<usize>)
    ensures
        order@ == falling_order(s@),
        stable_order(falling_keys(s@), order@),
{
    let mut keys: Vec<i64> = Vec::new();
    let mut i: usize = 0;
    while i < s.len()
        invariant
            i <= s.len(),
            keys.len() == i,
            forall|k: int| 0 <= k < i ==> #[trigger] keys[k] == -s[k].place(),
        decreases s.len() - i,
    {
        keys.push(-s[i].key());
        i = i + 1;
    }
    assert(keys@ =~= falling_keys(s@));
    let order = argsort(keys.as_slice());
    proof {
        stable_order_is_unique(keys@, falling_order(s@), order@);
    }
    order
}

/// The gain of a relevance label: `2^rel - 1`.
pub open spec fn gain_of<F: Fn(Op, u64, u64) -> u64>(rel: Wide, calc: &Calc<F>) -> Wide {
    calc.minus(calc.power(Wide { bits: TWO }, rel), Wide { bits: ONE })
}

/// The discount of place `p`: `1 / log2(p + 2)`.
pub open spec fn discount_of<F: Fn(Op, u64, u64) -> u64>(p: int, calc: &Calc<F>) -> Wide {
    calc.over(Wide { bits: ONE }, calc.binary_logarithm(calc.of(p + 2)))
}

/// The gain of a relevance label.
pub fn gain<F: Fn(Op, u64, u64) -> u64>(rel: Wide, calc: &Calc<F>) -> (r: Wide)
    ensures
        r == gain_of(rel, calc),
{
    calc.sub(calc.pow(Wide { bits: TWO }, rel), Wide { bits: ONE })
}

/// The discount of a place.
pub fn discount<F: Fn(Op, u64, u64) -> u64>(p: usize, calc: &Calc<F>) -> (r: Wide)
    requires
        p <= u32::MAX,
    ensures
        r == discount_of(p as int, calc),
{
    calc.div(Wide { bits: ONE }, calc.log2(calc.of_u64(p as u64 + 2)))
}

/// The gains of labels.
pub open spec fn gains_of<F: Fn(Op, u64, u64) -> u64>(labs: Seq<Wide>, calc: &Calc<F>) -> Seq<Wide> {
    Seq::new(labs.len(), |i: int| gain_of(labs[i], calc))
}

/// The discounted gains of the first `n` places in the given order.
pub open spec fn discounted<F: Fn(Op, u64, u64) -> u64>(
    gains: Seq<Wide>,
    order: Seq<usize>,
    n: int,
    calc: &Calc<F>,
) -> Wide
    decreases n,
{
    if n <= 0 {
        Wide { bits: 0 }
    } else {
        calc.plus(
            discounted(gains, order, n - 1, calc),
            calc.times(gains[order[n - 1] as int], discount_of(n - 1, calc)),
        )
    }
}

/// The greatest discounted gain that any order gives.
pub open spec fn ideal_gain<F: Fn(Op, u64, u64) -> u64>(labs: Seq<Wide>, calc: &Calc<F>) -> Wide {
    let gains = gains_of(labs, calc);
    discounted(gains, falling_order(gains), gains.len() as int, calc)
}

/// Whether the document at place `p` is relevant.
pub open spec fn relevant_at(labs: Seq<Wide>, order: Seq<usize>, p: int) -> bool {
    (Wide { bits: 0 }).lt(labs[order[p] as int])
}

/// One where the document at place `p` is relevant, else zero.
pub open spec fn relevance(labs: Seq<Wide>, order: Seq<usize>, p: int) -> Wide {
    if relevant_at(labs, order, p) { Wide { bits: ONE } } else { Wide { bits: 0 } }
}

/// The number of relevant documents in the first `n` places.
pub open spec fn relevant_before(labs: Seq<Wide>, order: Seq<usize>, n: int) -> int
    decreases n,
{
    if n <= 0 {
        0
    } else {
        relevant_before(labs, order, n - 1) + if relevant_at(labs, order, n - 1) {
            1int
        } else {
            0
        }
    }
}

/// The sum of relevance over place, one-based, of the first `n` places.
pub open spec fn precision_before<F: Fn(Op, u64, u64) -> u64>(
    labs: Seq<Wide>,
    order: Seq<usize>,
    n: int,
    calc: &Calc<F>,
) -> Wide
    decreases n,
{
    if n <= 0 {
        Wide { bits: 0 }
    } else {
        calc.plus(
            precision_before(labs, order, n - 1, calc),
            calc.over(relevance(labs, order, n - 1), calc.of(n)),
        )
    }
}

/// The change of average precision if the documents at places `p < q` swap.
pub open spec fn precision_change<F: Fn(Op, u64, u64) -> u64>(
    labs: Seq<Wide>,
    order: Seq<usize>,
    p: int,
    q: int,
    calc: &Calc<F>,
) -> Wide {
    let rp = relevance(labs, order, p);
    let rq = relevance(labs, order, q);
    if rp.same(rq) {
        Wide { bits: 0 }
    } else {
        let cum_p = calc.of(relevant_before(labs, order, p + 1));
        let cum_q = calc.of(relevant_before(labs, order, q + 1));
        let at_p = calc.over(
            calc.minus(
                calc.times(rq, calc.plus(calc.minus(cum_p, rp), rq)),
                calc.times(rp, cum_p),
            ),
            calc.of(p + 1),
        );
        let middle = calc.times(
            calc.minus(rq, rp),
            calc.minus(
                precision_before(labs, order, q, calc),
                precision_before(labs, order, p + 1, calc),
            ),
        );
        let at_q = calc.over(calc.times(calc.minus(rp, rq), cum_q), calc.of(q + 1));
        calc.over(
            calc.plus(calc.plus(at_p, middle), at_q),
            calc.of(relevant_before(labs, order, order.len() as int)),
        ).absolute()
    }
}

/// The weight of the pair of documents `hi` and `lo`: how much the metric
/// would change if they swapped places.
pub open spec fn pair_weight<F: Fn(Op, u64, u64) -> u64>(
    mode: RankMode,
    labs: Seq<Wide>,
    order: Seq<usize>,
    hi: int,
    lo: int,
    calc: &Calc<F>,
) -> Wide {
    let ph = place_in(order, hi);
    let pl = place_in(order, lo);
    match mode {
        RankMode::Pairwise => Wide { bits: ONE },
        RankMode::Ndcg => {
            let ideal = ideal_gain(labs, calc);
            if ideal.le(Wide { bits: 0 }) {
                Wide { bits: 0 }
            } else {
                let gains = gains_of(labs, calc);
                calc.over(
                    calc.times(
                        calc.minus(gains[hi], gains[lo]),
                        calc.minus(discount_of(ph, calc), discount_of(pl, calc)),
                    ),
                    ideal,
                ).absolute()
            }
        },
        RankMode::Precision => if relevant_before(labs, order, order.len() as int) == 0 {
            Wide { bits: 0 }
        } else if ph > pl {
            precision_change(labs, order, pl, ph, calc)
        } else {
            precision_change(labs, order, ph, pl, calc)
        },
    }
}

/// What the weights of a group's pairs are computed from.
enum MetricCtx {
    Uniform,
    Ndcg { gains: Vec<Wide>, pos: Vec<usize>, idcg: Wide },
    Precision {
        pos: Vec<usize>,
        rel_sorted: Vec<Wide>,
        cum: Vec<usize>,
        prefix: Vec<Wide>,
        num_rel: usize,
    },
}

spec fn ctx_fits<F: Fn(Op, u64, u64) -> u64>(
    ctx: MetricCtx,
    mode: RankMode,
    labs: Seq<Wide>,
    order: Seq<usize>,
    calc: &Calc<F>,
) -> bool {
    let m = labs.len() as int;
    match ctx {
        MetricCtx::Uniform => mode == RankMode::Pairwise,
        MetricCtx::Ndcg { gains, pos, idcg } => {
            &&& mode == RankMode::Ndcg
            &&& gains@ == gains_of(labs, calc)
            &&& idcg == ideal_gain(labs, calc)
            &&& places_in(order, pos@)
        },
        MetricCtx::Precision { pos, rel_sorted, cum, prefix, num_rel } => {
            &&& mode == RankMode::Precision
            &&& places_in(order, pos@)
            &&& rel_sorted.len() == m
            &&& cum.len() == m
            &&& prefix.len() == m + 1
            &&& num_rel == relevant_before(labs, order, m)
            &&& forall|p: int|
                0 <= p < m ==> #[trigger] rel_sorted[p] == relevance(labs, order, p)
            &&& forall|p: int|
                0 <= p < m ==> #[trigger] cum[p] == relevant_before(labs, order, p + 1)
            &&& forall|p: int|
                0 <= p <= m ==> #[trigger] prefix[p] == precision_before(labs, order, p, calc)
        },
    }
}

fn invert(order: &Vec<usize>) -> (pos: Vec<usize>)
    requires
        forall|a: int| 0 <= a < order.len() ==> #[trigger] order[a] < order.len(),
        forall|a: int, b: int|
            0 <= a < b < order.len() ==> #[trigger] order[a] != #[trigger] order[b],
    ensures
        places_in(order@, pos@),
        forall|a: int| 0 <= a < pos.len() ==> #[trigger] pos[a] < order.len(),
{
    let n: usize = order.len();
    let mut pos: Vec<usize> = vec![0; n];
    let mut p: usize = 0;
    while p < n
        invariant
            n == order.len(),
            pos.len() == n,
            p <= n,
            forall|a: int| 0 <= a < order.len() ==> #[trigger] order[a] < order.len(),
            forall|a: int, b: int|
                0 <= a < b < order.len() ==> #[trigger] order[a] != #[trigger] order[b],
            forall|a: int| 0 <= a < p ==> pos[#[trigger] order[a] as int] == a,
            forall|a: int| 0 <= a < pos.len() ==> #[trigger] pos[a] < n || pos[a] == 0,
        decreases n - p,
    {
        pos.set(order[p], p);
        p = p + 1;
    }
    pos
}

proof fn places_are_unique(order: Seq<usize>, pos: Seq<usize>, d: int)
    requires
        places_in(order, pos),
        0 <= d < pos.len(),
        exists|p: int| 0 <= p < order.len() && order[p] == d,
    ensures
        pos[d] == place_in(order, d),
{
    let p = place_in(order, d);
    assert(0 <= p < order.len() && order[p] == d);
}

/// By how much the metric changes if two documents swap their places in an
/// order.
pub fn swap_delta<F: Fn(Op, u64, u64) -> u64>(
    mode: RankMode,
    labs: &Vec<Wide>,
    order: &Vec<usize>,
    hi: usize,
    lo: usize,
    calc: &Calc<F>,
) -> (r: Wide)
    requires
        order.len() == labs.len(),
        labs.len() <= u32::MAX,
        hi < labs.len(),
        lo < labs.len(),
        forall|a: int| 0 <= a < order.len() ==> #[trigger] order[a] < labs.len(),
        forall|a: int, b: int|
            0 <= a < b < order.len() ==> #[trigger] order[a] != #[trigger] order[b],
        forall|d: usize| 0 <= d < labs.len() ==> #[trigger] order@.contains(d),
    ensures
        r == pair_weight(mode, labs@, order@, hi as int, lo as int, calc),
{
    let pos = invert(order);
    let ctx = MetricCtx::build(mode, labs, order, &pos, calc);
    ctx.delta(hi, lo, Ghost(mode), Ghost(labs@), Ghost(order@), calc)
}

impl MetricCtx {
    fn build<F: Fn(Op, u64, u64) -> u64>(
        mode: RankMode,
        labs: &Vec<Wide>,
        order: &Vec<usize>,
        pos: &Vec<usize>,
        calc: &Calc<F>,
    ) -> (r: MetricCtx)
        requires
            order.len() == labs.len(),
            labs.len() <= u32::MAX,
            forall|a: int| 0 <= a < order.len() ==> #[trigger] order[a] < labs.len(),
            places_in(order@, pos@),
        ensures
            ctx_fits(r, mode, labs@, order@, calc),
    {
        let m: usize = labs.len();
        match mode {
            RankMode::Pairwise => MetricCtx::Uniform,
            RankMode::Ndcg => {
                let mut gains: Vec<Wide> = Vec::new();
                let mut i: usize = 0;
                while i < m
                    invariant
                        m == labs.len(),
                        i <= m,
                        gains.len() == i,
                        forall|k: int| 0 <= k < i ==> #[trigger] gains[k] == gain_of(labs[k], calc),
                    decreases m - i,
                {
                    gains.push(gain(labs[i], calc));
                    i = i + 1;
                }
                assert(gains@ =~= gains_of(labs@, calc));
                let ideal = sort_falling(&gains);
                let mut idcg = Wide::zero();
                let mut p: usize = 0;
                while p < m
                    invariant
                        m == gains.len(),
                        m <= u32::MAX,
                        ideal.len() == m,
                        forall|a: int| 0 <= a < ideal.len() ==> #[trigger] ideal[a] < m,
                        p <= m,
                        idcg == discounted(gains@, ideal@, p as int, calc),
                    decreases m - p,
                {
                    idcg = calc.add(idcg, calc.mul(gains[ideal[p]], discount(p, calc)));
                    p = p + 1;
                }
                MetricCtx::Ndcg {
                    gains,
                    pos: vstd::slice::slice_to_vec(pos.as_slice()),
                    idcg,
                }
            },
            RankMode::Precision => {
                let mut rel_sorted: Vec<Wide> = Vec::new();
                let mut cum: Vec<usize> = Vec::new();
                let mut prefix: Vec<Wide> = Vec::new();
                prefix.push(Wide::zero());
                let mut acc: usize = 0;
                let mut p: usize = 0;
                while p < m
                    invariant
                        m == labs.len(),
                        order.len() == m,
                        forall|a: int| 0 <= a < order.len() ==> #[trigger] order[a] < m,
                        p <= m,
                        acc <= p,
                        acc == relevant_before(labs@, order@, p as int),
                        rel_sorted.len() == p,
                        cum.len() == p,
                        prefix.len() == p + 1,
                        forall|a: int|
                            0 <= a < p ==> #[trigger] rel_sorted[a] == relevance(labs@, order@, a),
                        forall|a: int|
                            0 <= a < p ==> #[trigger] cum[a] == relevant_before(
                                labs@,
                                order@,
                                a + 1,
                            ),
                        forall|a: int|
                            0 <= a <= p ==> #[trigger] prefix[a] == precision_before(
                                labs@,
                                order@,
                                a,
                                calc,
                            ),
                    decreases m - p,
                {
                    let relevant = Wide::zero().is_lt(labs[order[p]]);
                    let rel = if relevant { Wide { bits: ONE } } else { Wide::zero() };
                    if relevant {
                        acc = acc + 1;
                    }
                    let so_far = prefix[p];
                    rel_sorted.push(rel);
                    cum.push(acc);
                    prefix.push(calc.add(so_far, calc.div(rel, calc.of_usize(p + 1))));
                    p = p + 1;
                }
                MetricCtx::Precision {
                    pos: vstd::slice::slice_to_vec(pos.as_slice()),
                    rel_sorted,
                    cum,
                    prefix,
                    num_rel: acc,
                }
            },
        }
    }

    fn delta<F: Fn(Op, u64, u64) -> u64>(
        &self,
        hi: usize,
        lo: usize,
        mode: Ghost<RankMode>,
        labs: Ghost<Seq<Wide>>,
        order: Ghost<Seq<usize>>,
        calc: &Calc<F>,
    ) -> (r: Wide)
        requires
            ctx_fits(*self, mode@, labs@, order@, calc),
            order@.len() == labs@.len(),
            labs@.len() <= u32::MAX,
            hi < labs@.len(),
            lo < labs@.len(),
            forall|d: usize| 0 <= d < labs@.len() ==> #[trigger] order@.contains(d),
        ensures
            r == pair_weight(mode@, labs@, order@, hi as int, lo as int, calc),
    {
        proof {
            assert(order@.contains(hi));
            assert(order@.contains(lo));
            assert(exists|p: int| 0 <= p < order@.len() && order@[p] == hi as int);
            assert(exists|p: int| 0 <= p < order@.len() && order@[p] == lo as int);
        }
        match self {
            MetricCtx::Uniform => Wide { bits: ONE },
            MetricCtx::Ndcg { gains, pos, idcg } => {
                proof {
                    places_are_unique(order@, pos@, hi as int);
                    places_are_unique(order@, pos@, lo as int);
                }
                if idcg.is_le(Wide::zero()) {
                    return Wide::zero();
                }
                let d = calc.mul(
                    calc.sub(gains[hi], gains[lo]),
                    calc.sub(discount(pos[hi], calc), discount(pos[lo], calc)),
                );
                calc.div(d, *idcg).abs()
            },
            MetricCtx::Precision { pos, rel_sorted, cum, prefix, num_rel } => {
                proof {
                    places_are_unique(order@, pos@, hi as int);
                    places_are_unique(order@, pos@, lo as int);
                }
                if *num_rel == 0 {
                    return Wide::zero();
                }
                let ph: usize = pos[hi];
                let pl: usize = pos[lo];
                let p: usize = if ph > pl { pl } else { ph };
                let q: usize = if ph > pl { ph } else { pl };
                let rp = rel_sorted[p];
                let rq = rel_sorted[q];
                if rp.is_same(rq) {
                    return Wide::zero();
                }
                let cum_p = calc.of_usize(cum[p]);
                let cum_q = calc.of_usize(cum[q]);
                let at_p = calc.div(
                    calc.sub(
                        calc.mul(rq, calc.add(calc.sub(cum_p, rp), rq)),
                        calc.mul(rp, cum_p),
                    ),
                    calc.of_usize(p + 1),
                );
                let middle = calc.mul(
                    calc.sub(rq, rp),
                    calc.sub(prefix[q], prefix[p + 1]),
                );
                let at_q = calc.div(calc.mul(calc.sub(rp, rq), cum_q), calc.of_usize(q + 1));
                calc.div(
                    calc.add(calc.add(at_p, middle), at_q),
                    calc.of_usize(*num_rel),
                ).abs()
            },
        }
    }
}

/// A query group: its scores and labels.
#[verifier::ext_equal]
pub struct Query {
    /// The scores of the group's documents.
    pub scores: Seq<Wide>,
    /// The labels of the group's documents.
    pub labs: Seq<Wide>,
    /// The first row of the group.
    pub start: int,
    /// The ranking loss.
    pub mode: RankMode,
}

/// Gradients and the state of the sampler, as pairs are gone through.
#[verifier::ext_equal]
pub struct Tally {
    /// The gradients of all rows.
    pub out: Seq<GradPair>,
    /// The state of the generator that samples pairs.
    pub state: u64,
}

impl Query {
    /// The documents, best score first.
    pub open spec fn order(self) -> Seq<usize> {
        falling_order(self.scores)
    }

    /// The share of pairs that is kept.
    pub open spec fn share<F: Fn(Op, u64, u64) -> u64>(self, calc: &Calc<F>) -> Wide {
        let m = self.labs.len() as int;
        let total = m * (m - 1) / 2;
        if total > MAX_PAIRS_PER_GROUP {
            calc.over(calc.of(MAX_PAIRS_PER_GROUP as int), calc.of(total))
        } else {
            Wide { bits: ONE }
        }
    }

    /// What a kept pair counts: its weight, divided by the share of pairs that is
    /// kept where some are left out, so that the kept ones stand for all.
    pub open spec fn worth<F: Fn(Op, u64, u64) -> u64>(self, weight: Wide, calc: &Calc<F>) -> Wide {
        let share = self.share(calc);
        if share.lt(Wide { bits: ONE }) { calc.over(weight, share) } else { weight }
    }

    /// How likely the less relevant document of a pair is ranked above the other.
    pub open spec fn risk<F: Fn(Op, u64, u64) -> u64>(
        self,
        hi: int,
        lo: int,
        calc: &Calc<F>,
    ) -> Wide {
        let one = Wide { bits: ONE };
        calc.over(
            one,
            calc.plus(one, calc.exponential(calc.minus(self.scores[hi], self.scores[lo]))),
        )
    }

    /// How strongly a pair pulls its documents apart.
    pub open spec fn pull<F: Fn(Op, u64, u64) -> u64>(
        self,
        hi: int,
        lo: int,
        calc: &Calc<F>,
    ) -> Wide {
        let weight = pair_weight(self.mode, self.labs, self.order(), hi, lo, calc);
        calc.times(self.risk(hi, lo, calc), self.worth(weight, calc))
    }

    /// The curvature of a pair.
    pub open spec fn curve<F: Fn(Op, u64, u64) -> u64>(
        self,
        hi: int,
        lo: int,
        calc: &Calc<F>,
    ) -> Wide {
        let weight = pair_weight(self.mode, self.labs, self.order(), hi, lo, calc);
        let rho = self.risk(hi, lo, calc);
        calc.times(
            calc.times(rho, calc.minus(Wide { bits: ONE }, rho)),
            self.worth(weight, calc),
        ).greater(Wide { bits: LEAST_HESS })
    }

    /// The gradients after the pair of a more and a less relevant document.
    pub open spec fn paired<F: Fn(Op, u64, u64) -> u64>(
        self,
        out: Seq<GradPair>,
        hi: int,
        lo: int,
        calc: &Calc<F>,
    ) -> Seq<GradPair> {
        let weight = pair_weight(self.mode, self.labs, self.order(), hi, lo, calc);
        if weight.same(Wide { bits: 0 }) {
            out
        } else {
            let grad = calc.narrowed(self.pull(hi, lo, calc));
            let hess = calc.narrowed(self.curve(hi, lo, calc));
            let h = out[self.start + hi];
            let raised = out.update(
                self.start + hi,
                GradPair { grad: calc.minus_s(h.grad, grad), hess: calc.plus_s(h.hess, hess) },
            );
            let l = raised[self.start + lo];
            raised.update(
                self.start + lo,
                GradPair { grad: calc.plus_s(l.grad, grad), hess: calc.plus_s(l.hess, hess) },
            )
        }
    }

    /// The state after the documents `a` and `b` are looked at: documents of
    /// equal relevance form no pair, and a pair may be left out by sampling.
    pub open spec fn looked_at<F: Fn(Op, u64, u64) -> u64>(
        self,
        t: Tally,
        a: int,
        b: int,
        calc: &Calc<F>,
    ) -> Tally {
        if self.labs[a].same(self.labs[b]) {
            t
        } else {
            let share = self.share(calc);
            let sampled = share.lt(Wide { bits: ONE });
            let state = if sampled { stepped(t.state) } else { t.state };
            if sampled && share.le(unit_word(mixed(stepped(t.state)), calc)) {
                Tally { out: t.out, state }
            } else if self.labs[b].lt(self.labs[a]) {
                Tally { out: self.paired(t.out, a, b, calc), state }
            } else {
                Tally { out: self.paired(t.out, b, a, calc), state }
            }
        }
    }

    /// The state after document `a` is paired with those from `a + 1` up to `n`.
    pub open spec fn with_document<F: Fn(Op, u64, u64) -> u64>(
        self,
        t: Tally,
        a: int,
        n: int,
        calc: &Calc<F>,
    ) -> Tally
        decreases n - a,
    {
        if n <= a + 1 {
            t
        } else {
            self.looked_at(self.with_document(t, a, n - 1, calc), a, n - 1, calc)
        }
    }

    /// The state after the first `n` documents are paired with all later ones.
    pub open spec fn with_documents<F: Fn(Op, u64, u64) -> u64>(
        self,
        t: Tally,
        n: int,
        calc: &Calc<F>,
    ) -> Tally
        decreases n,
    {
        if n <= 0 {
            t
        } else {
            self.with_document(
                self.with_documents(t, n - 1, calc),
                n - 1,
                self.labs.len() as int,
                calc,
            )
        }
    }
}

/// The seed of the generator that samples the pairs of a group.
pub open spec fn group_seed(start: u64) -> u64 {
    0x9E37_79B9_7F4A_7C15u64 ^ start.wrapping_mul(2654435761)
}

/// The query of rows `[start, end)`.
pub open spec fn query_of<F: Fn(Op, u64, u64) -> u64>(
    mode: RankMode,
    preds: Seq<Single>,
    labels: Seq<Single>,
    start: int,
    end: int,
    calc: &Calc<F>,
) -> Query {
    Query {
        scores: Seq::new((end - start) as nat, |i: int| calc.widened(preds[start + i])),
        labs: Seq::new((end - start) as nat, |i: int| calc.widened(labels[start + i])),
        start,
        mode,
    }
}

/// The gradients after the group of rows `[start, end)`.
pub open spec fn with_group<F: Fn(Op, u64, u64) -> u64>(
    mode: RankMode,
    preds: Seq<Single>,
    labels: Seq<Single>,
    start: int,
    end: int,
    out: Seq<GradPair>,
    calc: &Calc<F>,
) -> Seq<GradPair> {
    if end - start < 2 {
        out
    } else {
        let q = query_of(mode, preds, labels, start, end, calc);
        q.with_documents(
            Tally { out, state: group_seed(start as u64) },
            end - start,
            calc,
        ).out
    }
}

/// The gradients after the first `n` groups.
pub open spec fn with_groups<F: Fn(Op, u64, u64) -> u64>(
    mode: RankMode,
    preds: Seq<Single>,
    labels: Seq<Single>,
    ptr: Seq<usize>,
    n: int,
    out: Seq<GradPair>,
    calc: &Calc<F>,
) -> Seq<GradPair>
    decreases n,
{
    if n <= 0 {
        out
    } else {
        with_group(
            mode,
            preds,
            labels,
            ptr[n - 1] as int,
            ptr[n] as int,
            with_groups(mode, preds, labels, ptr, n - 1, out, calc),
            calc,
        )
    }
}

/// The unweighted gradients of all rows: group by group if the groups cover
/// the rows, else all rows as one group.
pub open spec fn ranked<F: Fn(Op, u64, u64) -> u64>(
    mode: RankMode,
    preds: Seq<Single>,
    labels: Seq<Single>,
    groups: Option<Seq<usize>>,
    calc: &Calc<F>,
) -> Seq<GradPair> {
    let zeros = Seq::new(preds.len(), |i: int| zero_pair());
    match groups {
        Some(ptr) => if ptr.last() == preds.len() {
            with_groups(mode, preds, labels, ptr, ptr.len() - 1, zeros, calc)
        } else {
            with_group(mode, preds, labels, 0, preds.len() as int, zeros, calc)
        },
        None => with_group(mode, preds, labels, 0, preds.len() as int, zeros, calc),
    }
}

proof fn pairs_fit(m: int)
    requires
        2 <= m <= u32::MAX,
    ensures
        0 <= m * (m - 1) <= u64::MAX,
{
    assert(0 <= m * (m - 1) && m * (m - 1) <= 0xffff_ffff * 0xffff_ffff) by (nonlinear_arith)
        requires
            2 <= m <= 0xffff_ffff,
    ;
}

/// The pairwise ranking objective.
#[derive(Clone, Copy, Debug)]
pub struct LambdaMartObjective {
    mode: RankMode,
}

impl LambdaMartObjective {
    /// The ranking loss.
    pub closed spec fn loss(&self) -> RankMode {
        self.mode
    }

    pub(crate) proof fn ranking(mode: RankMode) -> (r: Self)
        ensures
            r.loss() == mode,
    {
        LambdaMartObjective { mode }
    }

    /// Plain pairwise ranking.
    pub fn pairwise() -> (r: Self)
        ensures
            r.loss() == RankMode::Pairwise,
    {
        LambdaMartObjective { mode: RankMode::Pairwise }
    }

    /// Ranking by normalized discounted gain.
    pub fn ndcg() -> (r: Self)
        ensures
            r.loss() == RankMode::Ndcg,
    {
        LambdaMartObjective { mode: RankMode::Ndcg }
    }

    /// Ranking by average precision.
    pub fn map() -> (r: Self)
        ensures
            r.loss() == RankMode::Precision,
    {
        LambdaMartObjective { mode: RankMode::Precision }
    }

    /// Add the gradients of the pair of a more and a less relevant document.
    fn add_pair<F: Fn(Op, u64, u64) -> u64>(
        out: &mut Vec<GradPair>,
        scores: &Vec<Wide>,
        ctx: &MetricCtx,
        share: Wide,
        start: usize,
        hi: usize,
        lo: usize,
        q: Ghost<Query>,
        calc: &Calc<F>,
    )
        requires
            share == q@.share(calc),
            ctx_fits(*ctx, q@.mode, q@.labs, q@.order(), calc),
            scores@ == q@.scores,
            q@.start == start,
            scores.len() == q@.labs.len(),
            scores.len() <= u32::MAX,
            stable_order(falling_keys(q@.scores), q@.order()),
            hi < scores.len(),
            lo < scores.len(),
            start + scores.len() <= old(out).len(),
        ensures
            final(out)@ == q@.paired(old(out)@, hi as int, lo as int, calc),
            final(out).len() == old(out).len(),
    {
        let weight = ctx.delta(
            hi,
            lo,
            Ghost(q@.mode),
            Ghost(q@.labs),
            Ghost(q@.order()),
            calc,
        );
        if weight.is_same(Wide::zero()) {
            return ;
        }
        let one = Wide { bits: ONE };
        let delta = if share.is_lt(one) { calc.div(weight, share) } else { weight };
        let rho = calc.div(one, calc.add(one, calc.exp(calc.sub(scores[hi], scores[lo]))));
        let grad = calc.narrow(calc.mul(rho, delta));
        let curve = calc.mul(calc.mul(rho, calc.sub(one, rho)), delta);
        let hess = calc.narrow(curve.max(Wide { bits: LEAST_HESS }));
        let h = out[start + hi];
        out.set(
            start + hi,
            GradPair::new(calc.sub_s(h.grad, grad), calc.add_s(h.hess, hess)),
        );
        let l = out[start + lo];
        out.set(
            start + lo,
            GradPair::new(calc.add_s(l.grad, grad), calc.add_s(l.hess, hess)),
        );
    }

    /// Add the gradients of the group of rows `[start, end)`.
    fn accumulate_group<F: Fn(Op, u64, u64) -> u64>(
        &self,
        preds: &[Single],
        labels: &[Single],
        start: usize,
        end: usize,
        out: &mut Vec<GradPair>,
        calc: &Calc<F>,
    )
        requires
            start <= end <= preds.len(),
            preds.len() == labels.len(),
            preds.len() <= u32::MAX,
            old(out).len() == preds.len(),
        ensures
            final(out)@ == with_group(
                self.loss(),
                preds@,
                labels@,
                start as int,
                end as int,
                old(out)@,
                calc,
            ),
            final(out).len() == old(out).len(),
    {
        let m: usize = end - start;
        if m < 2 {
            return ;
        }
        let ghost q = query_of(self.mode, preds@, labels@, start as int, end as int, calc);
        let mut scores: Vec<Wide> = Vec::new();
        let mut labs: Vec<Wide> = Vec::new();
        let mut i: usize = 0;
        while i < m
            invariant
                m == end - start,
                start <= end <= preds.len(),
                preds.len() == labels.len(),
                i <= m,
                scores.len() == i,
                labs.len() == i,
                forall|k: int|
                    0 <= k < i ==> #[trigger] scores[k] == calc.widened(preds[start + k]),
                forall|k: int| 0 <= k < i ==> #[trigger] labs[k] == calc.widened(labels[start + k]),
            decreases m - i,
        {
            scores.push(calc.widen(preds[start + i]));
            labs.push(calc.widen(labels[start + i]));
            i = i + 1;
        }
        assert(scores@ =~= q.scores);
        assert(labs@ =~= q.labs);
        let order = sort_falling(&scores);
        assert forall|a: int, b: int| 0 <= a < b < order.len() implies #[trigger] order[a]
            != #[trigger] order[b] by {
            assert(crate::sort::before(falling_keys(scores@), order[a] as int, order[b] as int));
        }
        let pos = invert(&order);
        let ctx = MetricCtx::build(self.mode, &labs, &order, &pos, calc);
        proof {
            pairs_fit(m as int);
        }
        let total: u64 = (m as u64) * ((m - 1) as u64) / 2;
        let share = if total > MAX_PAIRS_PER_GROUP {
            calc.div(calc.of_u64(MAX_PAIRS_PER_GROUP), calc.of_u64(total))
        } else {
            Wide { bits: ONE }
        };
        assert(share == q.share(calc));
        let sampled = share.is_lt(Wide { bits: ONE });
        let seed: u64 = 0x9E37_79B9_7F4A_7C15u64 ^ (start as u64).wrapping_mul(2654435761);
        let mut rng = SplitMix64::new(seed);
        let ghost t0 = Tally { out: out@, state: seed };
        let mut a: usize = 0;
        while a < m
            invariant
                m == end - start,
                2 <= m <= u32::MAX,
                end <= out.len(),
                out.len() == old(out).len(),
                scores@ == q.scores,
                labs@ == q.labs,
                scores.len() == m,
                labs.len() == m,
                q.start == start,
                ctx_fits(ctx, q.mode, q.labs, q.order(), calc),
                stable_order(falling_keys(q.scores), q.order()),
                share == q.share(calc),
                sampled == share.lt(Wide { bits: ONE }),
                a <= m,
                (Tally { out: out@, state: rng.state }) == q.with_documents(t0, a as int, calc),
            decreases m - a,
        {
            let ghost before = Tally { out: out@, state: rng.state };
            let mut b: usize = a + 1;
            while b < m
                invariant
                    m == end - start,
                    2 <= m <= u32::MAX,
                    end <= out.len(),
                    out.len() == old(out).len(),
                    scores@ == q.scores,
                    labs@ == q.labs,
                    scores.len() == m,
                    labs.len() == m,
                    q.start == start,
                    ctx_fits(ctx, q.mode, q.labs, q.order(), calc),
                    stable_order(falling_keys(q.scores), q.order()),
                    share == q.share(calc),
                    sampled == share.lt(Wide { bits: ONE }),
                    a < b <= m,
                    (Tally { out: out@, state: rng.state }) == q.with_document(
                        before,
                        a as int,
                        b as int,
                        calc,
                    ),
                decreases m - b,
            {
                let ghost so_far = Tally { out: out@, state: rng.state };
                if !labs[a].is_same(labs[b]) {
                    let mut keep = true;
                    if sampled {
                        let u = rng.next_unit(calc);
                        if share.is_le(u) {
                            keep = false;
                        }
                    }
                    if keep {
                        if labs[b].is_lt(labs[a]) {
                            Self::add_pair(
                                out,
                                &scores,
                                &ctx,
                                share,
                                start,
                                a,
                                b,
                                Ghost(q),
                                calc,
                            );
                        } else {
                            Self::add_pair(
                                out,
                                &scores,
                                &ctx,
                                share,
                                start,
                                b,
                                a,
                                Ghost(q),
                                calc,
                            );
                        }
                    }
                }
                assert((Tally { out: out@, state: rng.state }) =~= q.looked_at(
                    so_far,
                    a as int,
                    b as int,
                    calc,
                ));
                b = b + 1;
            }
            a = a + 1;
        }
    }
}

impl ObjectiveInfo for LambdaMartObjective {
    open spec fn title(&self) -> Seq<char> {
        match self.loss() {
            RankMode::Pairwise => "rank:pairwise"@,
            RankMode::Ndcg => "rank:ndcg"@,
            RankMode::Precision => "rank:map"@,
        }
    }

    open spec fn outputs(&self) -> int {
        1
    }

    open spec fn metric(&self) -> Seq<char> {
        match self.loss() {
            RankMode::Ndcg => "ndcg"@,
            RankMode::Pairwise => "map"@,
            RankMode::Precision => "map"@,
        }
    }

    fn name(&self) -> (r: &str) {
        match self.mode {
            RankMode::Pairwise => "rank:pairwise",
            RankMode::Ndcg => "rank:ndcg",
            RankMode::Precision => "rank:map",
        }
    }

    fn n_outputs(&self) -> (r: usize) {
        1
    }

    fn default_metric(&self) -> (r: &str) {
        match self.mode {
            RankMode::Ndcg => "ndcg",
            RankMode::Pairwise => "map",
            RankMode::Precision => "map",
        }
    }
}

impl<F: Fn(Op, u64, u64) -> u64> Objective<F> for LambdaMartObjective {
    open spec fn usable(&self) -> bool {
        true
    }

    open spec fn gradients(
        &self,
        preds: Seq<Single>,
        labels: Seq<Single>,
        weights: Option<Seq<Single>>,
        groups: Option<Seq<usize>>,
        calc: &Calc<F>,
    ) -> Seq<GradPair> {
        let plain = ranked(self.loss(), preds, labels, groups, calc);
        match weights {
            Some(w) => Seq::new(
                preds.len(),
                |i: int|
                    GradPair {
                        grad: calc.times_s(plain[i].grad, w[i]),
                        hess: calc.times_s(plain[i].hess, w[i]),
                    },
            ),
            None => plain,
        }
    }

    open spec fn transformed(&self, preds: Seq<Single>, calc: &Calc<F>) -> Seq<Single> {
        preds
    }

    open spec fn start(
        &self,
        labels: Seq<Single>,
        weights: Option<Seq<Single>>,
        calc: &Calc<F>,
    ) -> Single {
        Single { bits: 0 }
    }

    open spec fn margin_of(&self, base_score: Single, calc: &Calc<F>) -> Single {
        base_score
    }

    fn gradient_grouped(
        &self,
        preds: &[Single],
        labels: &[Single],
        weights: Option<&[Single]>,
        group: Option<&GroupInfo>,
        out: &mut Vec<GradPair>,
        calc: &Calc<F>,
    ) {
        let n: usize = preds.len();
        let ghost zeros = Seq::new(n as nat, |i: int| zero_pair());
        *out = vec![GradPair::default(); n];
        assert(out@ =~= zeros);
        match group {
            Some(g) if g.num_rows() == n => {
                let ranges = g.iter_ranges();
                let ghost ptr = g.group_ptr@;
                let mut i: usize = 0;
                while i < ranges.len()
                    invariant
                        n == preds.len(),
                        n == labels.len(),
                        n <= u32::MAX,
                        out.len() == n,
                        ptr == g.group_ptr@,
                        ptr.len() > 0,
                        ptr.last() == n,
                        forall|a: int, b: int| 0 <= a <= b < ptr.len() ==> ptr[a] <= ptr[b],
                        ranges.len() == ptr.len() - 1,
                        forall|k: int|
                            0 <= k < ranges.len() ==> #[trigger] ranges[k] == (ptr[k], ptr[k + 1]),
                        i <= ranges.len(),
                        out@ == with_groups(
                            self.loss(),
                            preds@,
                            labels@,
                            ptr,
                            i as int,
                            zeros,
                            calc,
                        ),
                    decreases ranges.len() - i,
                {
                    let (start, end) = ranges[i];
                    assert(ptr[i as int] <= ptr[i + 1]);
                    assert(ptr[i + 1] <= ptr[ptr.len() - 1]);
                    self.accumulate_group(preds, labels, start, end, out, calc);
                    i = i + 1;
                }
            },
            _ => {
                self.accumulate_group(preds, labels, 0, n, out, calc);
            },
        }
        let ghost plain = out@;
        assert(plain == ranked(self.loss(), preds@, labels@, groups_of(group), calc));
        if let Some(w) = weights {
            let mut i: usize = 0;
            while i < n
                invariant
                    out.len() == n,
                    plain.len() == n,
                    w@.len() == n,
                    i <= n,
                    forall|k: int| i <= k < n ==> #[trigger] out[k] == plain[k],
                    forall|k: int|
                        0 <= k < i ==> #[trigger] out[k] == (GradPair {
                            grad: calc.times_s(plain[k].grad, w@[k]),
                            hess: calc.times_s(plain[k].hess, w@[k]),
                        }),
                decreases n - i,
            {
                let o = out[i];
                assert(o == plain[i as int]);
                out.set(i, GradPair::new(calc.mul_s(o.grad, w[i]), calc.mul_s(o.hess, w[i])));
                i = i + 1;
            }
        }
        assert(out@ =~= <Self as Objective<F>>::gradients(
            self,
            preds@,
            labels@,
            slice_view(weights),
            groups_of(group),
            calc,
        ));
    }

    fn pred_transform(&self, preds: &mut Vec<Single>, calc: &Calc<F>) {
    }

    fn base_margin(
        &self,
        labels: &[Single],
        weights: Option<&[Single]>,
        calc: &Calc<F>,
    ) -> (r: Single) {
        Single::zero()
    }

    fn prob_to_margin(&self, base_score: Single, calc: &Calc<F>) -> (r: Single) {
        base_score
    }
}

} // verus!
