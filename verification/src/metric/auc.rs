//! The area under the ROC curve.

use vstd::prelude::*;
use vstd::set_lib::{lemma_int_range, lemma_map_size, set_int_range};

use crate::arith::{Calc, Op};
use crate::data::meta::GroupInfo;
use crate::metric::base::{Metric, MetricInfo};
use crate::number::{Single, Wide, HALF, HALF_S, ONE, TWO};
use crate::sort::{argsort, stable_order};

verus! {

/// The places of the predictions below a place.
pub open spec fn those_below(preds: Seq<Single>, place: int) -> Set<int> {
    Set::new(|i: int| 0 <= i < preds.len() && preds[i].place() < place)
}

/// The places of the predictions not above a place.
pub open spec fn those_up_to(preds: Seq<Single>, place: int) -> Set<int> {
    Set::new(|i: int| 0 <= i < preds.len() && preds[i].place() <= place)
}

/// The sum of the least and the greatest rank, counted from one, that a
/// prediction shares with those equal to it.
pub open spec fn rank_pair(preds: Seq<Single>, k: int) -> int {
    let place = preds[k].place();
    those_below(preds, place).len() as int + 1 + those_up_to(preds, place).len() as int
}

/// The average rank of a prediction among all, counted from one.
pub open spec fn average_rank<F: Fn(Op, u64, u64) -> u64>(
    preds: Seq<Single>,
    k: int,
    calc: &Calc<F>,
) -> Wide {
    calc.over(calc.of(rank_pair(preds, k)), Wide { bits: TWO })
}

/// Whether a label is that of the positive class.
pub open spec fn positive(label: Single) -> bool {
    (Single { bits: HALF_S }).lt(label)
}

/// Over the first `n` instances: the sum of the ranks of the positive ones,
/// their number, and the number of the others.
pub open spec fn rank_sums<F: Fn(Op, u64, u64) -> u64>(
    preds: Seq<Single>,
    labels: Seq<Single>,
    n: int,
    calc: &Calc<F>,
) -> (Wide, Wide, Wide)
    decreases n,
{
    if n <= 0 {
        (Wide { bits: 0 }, Wide { bits: 0 }, Wide { bits: 0 })
    } else {
        let (sum, pos, neg) = rank_sums(preds, labels, n - 1, calc);
        if positive(labels[n - 1]) {
            (
                calc.plus(sum, average_rank(preds, n - 1, calc)),
                calc.plus(pos, Wide { bits: ONE }),
                neg,
            )
        } else {
            (sum, pos, calc.plus(neg, Wide { bits: ONE }))
        }
    }
}

/// The area under the ROC curve by the Mann-Whitney rank sum; one half where
/// one of the classes is missing.
pub open spec fn area<F: Fn(Op, u64, u64) -> u64>(
    preds: Seq<Single>,
    labels: Seq<Single>,
    calc: &Calc<F>,
) -> Wide {
    let zero = Wide { bits: 0 };
    let (sum, pos, neg) = rank_sums(preds, labels, preds.len() as int, calc);
    if pos.same(zero) || neg.same(zero) {
        Wide { bits: HALF }
    } else {
        let least = calc.over(
            calc.times(pos, calc.plus(pos, Wide { bits: ONE })),
            Wide { bits: TWO },
        );
        calc.over(calc.minus(sum, least), calc.times(pos, neg))
    }
}

/// In a sorted order, the predictions below a place come first.
proof fn prefix_counts(
    preds: Seq<Single>,
    keys: Seq<i64>,
    order: Seq<usize>,
    n: int,
    s: Set<int>,
)
    requires
        keys.len() == preds.len(),
        stable_order(keys, order),
        0 <= n <= order.len(),
        forall|i: int| s.contains(i) ==> 0 <= i < preds.len(),
        forall|t: int| 0 <= t < order.len() ==> (s.contains(#[trigger] order[t] as int) <==> t < n),
        keys.len() <= usize::MAX,
    ensures
        s.len() == n,
{
    let f = |t: int| order[t] as int;
    let places = set_int_range(0, n);
    lemma_int_range(0, n);
    assert forall|x: int| #[trigger] s.contains(x) implies places.map(f).contains(x) by {
        assert(order.contains(x as usize));
        let t = choose|t: int| 0 <= t < order.len() && order[t] == x as usize;
        assert(places.contains(t) && f(t) == x);
    }
    assert forall|x: int| places.map(f).contains(x) implies #[trigger] s.contains(x) by {
        let t = choose|t: int| places.contains(t) && f(t) == x;
        assert(s.contains(order[t] as int));
    }
    assert(places.map(f) =~= s);
    assert forall|a: int, b: int| places.contains(a) && places.contains(b) && f(a) == f(b) implies a == b by {
        if a < b {
            assert(crate::sort::before(keys, order[a] as int, order[b] as int));
        }
        if b < a {
            assert(crate::sort::before(keys, order[b] as int, order[a] as int));
        }
    }
    lemma_map_size(places, s, f);
}

/// How many predictions are below each prediction, and how many are not above
/// it.
pub open spec fn standing(preds: Seq<Single>, k: int) -> (int, int) {
    let place = preds[k].place();
    (those_below(preds, place).len() as int, those_up_to(preds, place).len() as int)
}

spec fn told(pairs: Seq<(usize, usize)>, preds: Seq<Single>, k: int) -> bool {
    &&& pairs[k].0 == standing(preds, k).0
    &&& pairs[k].1 == standing(preds, k).1
    &&& pairs[k].0 < pairs[k].1 <= preds.len()
}

/// The standings of all predictions.
pub fn standings(preds: &[Single]) -> (r: Vec<(usize, usize)>)
    ensures
        r.len() == preds.len(),
        forall|k: int|
            0 <= k < preds.len() ==> {
                &&& (#[trigger] r[k]).0 == standing(preds@, k).0
                &&& r[k].1 == standing(preds@, k).1
                &&& r[k].0 < r[k].1 <= preds.len()
            },
{
    let n: usize = preds.len();
    let mut keys: Vec<i64> = Vec::new();
    let mut k: usize = 0;
    while k < n
        invariant
            n == preds.len(),
            k <= n,
            keys.len() == k,
            forall|i: int| 0 <= i < k ==> #[trigger] keys[i] == preds[i].place(),
        decreases n - k,
    {
        keys.push(preds[k].key());
        k = k + 1;
    }
    let order: Vec<usize> = argsort(keys.as_slice());
    let mut ranks: Vec<(usize, usize)> = vec![(0usize, 0usize); n];
    let mut i: usize = 0;
    while i < n
        invariant
            n == preds.len(),
            keys.len() == n,
            order.len() == n,
            ranks.len() == n,
            forall|x: int| 0 <= x < n ==> #[trigger] keys[x] == preds[x].place(),
            stable_order(keys@, order@),
            i <= n,
            forall|t: int|
                0 <= t < i ==> told(ranks@, preds@, #[trigger] order[t] as int),
            0 < i < n ==> keys[order[i - 1] as int] < keys[order[i as int] as int],
        decreases n - i,
    {
        let first: usize = order[i];
        let mut j: usize = i + 1;
        while j < n && keys[order[j]] == keys[first]
            invariant
                n == keys.len(),
                order.len() == n,
                first < n,
                stable_order(keys@, order@),
                i < j <= n,
                forall|t: int| i <= t < j ==> keys[#[trigger] order[t] as int] == keys[first as int],
            decreases n - j,
        {
            j = j + 1;
        }
        let ghost place = preds[first as int].place();
        proof {
            assert forall|t: int| 0 <= t < n implies (those_below(preds@, place).contains(
                #[trigger] order[t] as int,
            ) <==> t < i) by {
                if t < i - 1 {
                    assert(crate::sort::before(keys@, order[t] as int, order[i - 1] as int));
                }
                if t > i {
                    assert(crate::sort::before(keys@, order[i as int] as int, order[t] as int));
                }
            }
            prefix_counts(preds@, keys@, order@, i as int, those_below(preds@, place));
            assert forall|t: int| 0 <= t < n implies (those_up_to(preds@, place).contains(
                #[trigger] order[t] as int,
            ) <==> t < j) by {
                if t < i {
                    assert(crate::sort::before(keys@, order[t] as int, order[i as int] as int));
                }
                if j < n {
                    assert(crate::sort::before(keys@, order[i as int] as int, order[j as int] as int));
                    if t > j {
                        assert(crate::sort::before(
                            keys@,
                            order[j as int] as int,
                            order[t] as int,
                        ));
                    }
                }
            }
            prefix_counts(preds@, keys@, order@, j as int, those_up_to(preds@, place));
        }
        let mut t: usize = i;
        while t < j
            invariant
                n == preds.len(),
                keys.len() == n,
                order.len() == n,
                ranks.len() == n,
                first < n,
                i <= t <= j <= n,
                stable_order(keys@, order@),
                forall|x: int| 0 <= x < n ==> #[trigger] keys[x] == preds[x].place(),
                forall|x: int|
                    i <= x < j ==> keys[#[trigger] order[x] as int] == keys[first as int],
                place == preds[first as int].place(),
                those_below(preds@, place).len() == i,
                those_up_to(preds@, place).len() == j,
                i < j,
                forall|x: int|
                    0 <= x < t ==> told(ranks@, preds@, #[trigger] order[x] as int),
            decreases j - t,
        {
            let ghost before = ranks@;
            let idx: usize = order[t];
            ranks.set(idx, (i, j));
            proof {
                assert forall|x: int| 0 <= x < t + 1 implies told(
                    ranks@,
                    preds@,
                    #[trigger] order[x] as int,
                ) by {
                    if x < t {
                        assert(crate::sort::before(
                            keys@,
                            order[x] as int,
                            order[t as int] as int,
                        ));
                        assert(told(before, preds@, order[x] as int));
                    } else {
                        assert(keys[order[x] as int] == keys[first as int]);
                        assert(preds[order[x] as int].place() == place);
                    }
                }
            }
            t = t + 1;
        }
        proof {
            if j < n {
                assert(crate::sort::before(keys@, order[j - 1] as int, order[j as int] as int));
                assert(keys[order[j - 1] as int] == keys[first as int]);
            }
        }
        i = j;
    }
    proof {
        assert forall|k: int| 0 <= k < n implies {
            &&& (#[trigger] ranks[k]).0 == standing(preds@, k).0
            &&& ranks[k].1 == standing(preds@, k).1
            &&& ranks[k].0 < ranks[k].1 <= preds.len()
        } by {
            assert(order@.contains(k as usize));
            let t = choose|t: int| 0 <= t < order.len() && order[t] == k as usize;
            assert(told(ranks@, preds@, order[t] as int));
        }
    }
    ranks
}

/// The area under the ROC curve.
pub fn area_of<F: Fn(Op, u64, u64) -> u64>(
    preds: &[Single],
    labels: &[Single],
    calc: &Calc<F>,
) -> (r: Wide)
    requires
        preds.len() <= labels.len(),
        preds.len() < usize::MAX / 2,
    ensures
        r == area(preds@, labels@, calc),
{
    let ranks = standings(preds);
    let half = Single { bits: HALF_S };
    let one = Wide { bits: ONE };
    let mut sum = Wide::zero();
    let mut pos = Wide::zero();
    let mut neg = Wide::zero();
    let mut k: usize = 0;
    while k < preds.len()
        invariant
            preds.len() <= labels.len(),
            preds.len() < usize::MAX / 2,
            ranks.len() == preds.len(),
            half == (Single { bits: HALF_S }),
            one == (Wide { bits: ONE }),
            forall|i: int|
                0 <= i < preds.len() ==> {
                    &&& (#[trigger] ranks[i]).0 == standing(preds@, i).0
                    &&& ranks[i].1 == standing(preds@, i).1
                    &&& ranks[i].0 < ranks[i].1 <= preds.len()
                },
            k <= preds.len(),
            (sum, pos, neg) == rank_sums(preds@, labels@, k as int, calc),
        decreases preds.len() - k,
    {
        if half.is_lt(labels[k]) {
            let (below, up_to) = ranks[k];
            let rank = calc.div(calc.of_usize(below + 1 + up_to), Wide { bits: TWO });
            sum = calc.add(sum, rank);
            pos = calc.add(pos, one);
        } else {
            neg = calc.add(neg, one);
        }
        k = k + 1;
    }
    if pos.is_same(Wide::zero()) || neg.is_same(Wide::zero()) {
        return Wide { bits: HALF };
    }
    let least = calc.div(calc.mul(pos, calc.add(pos, one)), Wide { bits: TWO });
    calc.div(calc.sub(sum, least), calc.mul(pos, neg))
}

/// Binary ROC AUC by the Mann-Whitney rank sum, with average ranks for ties.
/// Greater is better. Weights are ignored.
#[derive(Clone, Copy, Debug)]
pub struct Auc;

impl Default for Auc {
    fn default() -> (r: Self)
        ensures
            r == Auc,
    {
        Auc
    }
}

impl MetricInfo for Auc {
    open spec fn title(&self) -> Seq<char> {
        "auc"@
    }

    open spec fn rises(&self) -> bool {
        true
    }

    fn name(&self) -> (r: &str) {
        "auc"
    }

    fn maximize(&self) -> (r: bool) {
        true
    }
}

impl<F: Fn(Op, u64, u64) -> u64> Metric<F> for Auc {
    open spec fn accepts(
        &self,
        preds: Seq<Single>,
        labels: Seq<Single>,
        weights: Option<Seq<Single>>,
        groups: Option<Seq<usize>>,
    ) -> bool {
        &&& preds.len() <= labels.len()
        &&& preds.len() < usize::MAX / 2
    }

    open spec fn value(
        &self,
        preds: Seq<Single>,
        labels: Seq<Single>,
        weights: Option<Seq<Single>>,
        groups: Option<Seq<usize>>,
        calc: &Calc<F>,
    ) -> Wide {
        area(preds, labels, calc)
    }

    fn eval_grouped(
        &self,
        preds: &[Single],
        labels: &[Single],
        weights: Option<&[Single]>,
        group: Option<&GroupInfo>,
        calc: &Calc<F>,
    ) -> (r: Wide) {
        area_of(preds, labels, calc)
    }
}

} // verus!
