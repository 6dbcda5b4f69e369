//! The area under the precision-recall curve.

use vstd::prelude::*;
use vstd::set_lib::{lemma_int_range, lemma_set_disjoint_lens, set_int_range};

use crate::arith::{Calc, Op};
use crate::data::meta::GroupInfo;
use crate::metric::auc::{positive, standing, standings, those_below};
use crate::metric::base::{Metric, MetricInfo};
use crate::number::{Single, Wide, HALF_S};

verus! {

/// The places of the predictions not below a place.
pub open spec fn those_from(preds: Seq<Single>, place: int) -> Set<int> {
    Set::new(|i: int| 0 <= i < preds.len() && place <= preds[i].place())
}

/// The predictions of the positive instances among the first `n`.
pub open spec fn hits(preds: Seq<Single>, labels: Seq<Single>, n: int) -> Seq<Single>
    decreases n,
{
    if n <= 0 {
        Seq::empty()
    } else {
        let rest = hits(preds, labels, n - 1);
        if positive(labels[n - 1]) { rest.push(preds[n - 1]) } else { rest }
    }
}

/// The share of positive instances among those that are predicted at a place or
/// above it.
pub open spec fn precision<F: Fn(Op, u64, u64) -> u64>(
    preds: Seq<Single>,
    hits: Seq<Single>,
    place: int,
    calc: &Calc<F>,
) -> Wide {
    calc.over(
        calc.of(those_from(hits, place).len() as int),
        calc.of(those_from(preds, place).len() as int),
    )
}

/// The sum of the precisions at the first `n` positive instances.
pub open spec fn precision_sum<F: Fn(Op, u64, u64) -> u64>(
    preds: Seq<Single>,
    hits: Seq<Single>,
    n: int,
    calc: &Calc<F>,
) -> Wide
    decreases n,
{
    if n <= 0 {
        Wide { bits: 0 }
    } else {
        calc.plus(
            precision_sum(preds, hits, n - 1, calc),
            precision(preds, hits, hits[n - 1].place(), calc),
        )
    }
}

/// The area under the precision-recall curve: the mean of the precisions at the
/// positive instances, each of which moves recall by the same step. Zero where
/// there is no positive instance.
pub open spec fn recall_area<F: Fn(Op, u64, u64) -> u64>(
    preds: Seq<Single>,
    labels: Seq<Single>,
    calc: &Calc<F>,
) -> Wide {
    let found = hits(preds, labels, preds.len() as int);
    let n = found.len() as int;
    if n == 0 {
        Wide { bits: 0 }
    } else {
        calc.over(precision_sum(preds, found, n, calc), calc.of(n))
    }
}

/// What is not below a place is the rest of what is.
pub proof fn the_rest_is_from(preds: Seq<Single>, place: int)
    ensures
        those_below(preds, place).len() + those_from(preds, place).len() == preds.len(),
        those_from(preds, place).finite(),
{
    let n = preds.len() as int;
    let all = set_int_range(0, n);
    let below = those_below(preds, place);
    let from = those_from(preds, place);
    lemma_int_range(0, n);
    assert(below.subset_of(all));
    assert(from.subset_of(all));
    vstd::set_lib::lemma_len_subset(below, all);
    vstd::set_lib::lemma_len_subset(from, all);
    lemma_set_disjoint_lens(below, from);
    assert(below + from =~= all);
}

/// The area under the precision-recall curve.
pub fn recall_area_of<F: Fn(Op, u64, u64) -> u64>(
    preds: &[Single],
    labels: &[Single],
    calc: &Calc<F>,
) -> (r: Wide)
    requires
        preds.len() <= labels.len(),
    ensures
        r == recall_area(preds@, labels@, calc),
{
    let half = Single { bits: HALF_S };
    let mut found: Vec<Single> = Vec::new();
    let mut at: Vec<usize> = Vec::new();
    let mut k: usize = 0;
    while k < preds.len()
        invariant
            preds.len() <= labels.len(),
            half == (Single { bits: HALF_S }),
            k <= preds.len(),
            found@ == hits(preds@, labels@, k as int),
            at.len() == found.len(),
            forall|t: int|
                0 <= t < at.len() ==> (#[trigger] at[t]) < preds.len() && preds[at[t] as int]
                    == found[t],
        decreases preds.len() - k,
    {
        if half.is_lt(labels[k]) {
            found.push(preds[k]);
            at.push(k);
        }
        k = k + 1;
    }
    let n: usize = found.len();
    if n == 0 {
        return Wide::zero();
    }
    let among_all = standings(preds);
    let among_found = standings(found.as_slice());
    let mut sum = Wide::zero();
    let mut t: usize = 0;
    while t < n
        invariant
            n == found.len(),
            at.len() == n,
            forall|t: int|
                0 <= t < at.len() ==> (#[trigger] at[t]) < preds.len() && preds[at[t] as int]
                    == found[t],
            among_all.len() == preds.len(),
            among_found.len() == n,
            forall|k: int|
                0 <= k < preds.len() ==> {
                    &&& (#[trigger] among_all[k]).0 == standing(preds@, k).0
                    &&& among_all[k].0 < among_all[k].1 <= preds.len()
                },
            forall|k: int|
                0 <= k < n ==> {
                    &&& (#[trigger] among_found[k]).0 == standing(found@, k).0
                    &&& among_found[k].0 < among_found[k].1 <= n
                },
            t <= n,
            sum == precision_sum(preds@, found@, t as int, calc),
        decreases n - t,
    {
        let k: usize = at[t];
        proof {
            let place = found[t as int].place();
            assert(preds[k as int] == found[t as int]);
            assert(among_all[k as int].0 == standing(preds@, k as int).0);
            assert(among_found[t as int].0 == standing(found@, t as int).0);
            the_rest_is_from(preds@, place);
            the_rest_is_from(found@, place);
        }
        let right: usize = n - among_found[t].0;
        let all: usize = preds.len() - among_all[k].0;
        sum = calc.add(sum, calc.div(calc.of_usize(right), calc.of_usize(all)));
        t = t + 1;
    }
    calc.div(sum, calc.of_usize(n))
}

/// The area under the precision-recall curve. Greater is better. Weights are
/// ignored.
#[derive(Clone, Copy, Debug)]
pub struct AucPr;

impl MetricInfo for AucPr {
    open spec fn title(&self) -> Seq<char> {
        "aucpr"@
    }

    open spec fn rises(&self) -> bool {
        true
    }

    fn name(&self) -> (r: &str) {
        "aucpr"
    }

    fn maximize(&self) -> (r: bool) {
        true
    }
}

impl<F: Fn(Op, u64, u64) -> u64> Metric<F> for AucPr {
    open spec fn accepts(
        &self,
        preds: Seq<Single>,
        labels: Seq<Single>,
        weights: Option<Seq<Single>>,
        groups: Option<Seq<usize>>,
    ) -> bool {
        preds.len() <= labels.len()
    }

    open spec fn value(
        &self,
        preds: Seq<Single>,
        labels: Seq<Single>,
        weights: Option<Seq<Single>>,
        groups: Option<Seq<usize>>,
        calc: &Calc<F>,
    ) -> Wide {
        recall_area(preds, labels, calc)
    }

    fn eval_grouped(
        &self,
        preds: &[Single],
        labels: &[Single],
        weights: Option<&[Single]>,
        group: Option<&GroupInfo>,
        calc: &Calc<F>,
    ) -> (r: Wide) {
        recall_area_of(preds, labels, calc)
    }
}

/// Where all instances at a place or above it are positive, precision there
/// counts as many positive instances as instances.
pub proof fn perfect_rankings_are_precise(
    preds: Seq<Single>,
    labels: Seq<Single>,
    place: int,
)
    requires
        labels.len() == preds.len(),
        forall|i: int| 0 <= i < preds.len() && place <= preds[i].place() ==> positive(
            #[trigger] labels[i],
        ),
    ensures
        those_from(hits(preds, labels, preds.len() as int), place).len() == those_from(
            preds,
            place,
        ).len(),
{
    precise_up_to(preds, labels, place, preds.len() as int);
    assert(preds.take(preds.len() as int) =~= preds);
}

proof fn precise_up_to(preds: Seq<Single>, labels: Seq<Single>, place: int, n: int)
    requires
        0 <= n <= preds.len(),
        labels.len() == preds.len(),
        forall|i: int| 0 <= i < preds.len() && place <= preds[i].place() ==> positive(
            #[trigger] labels[i],
        ),
    ensures
        those_from(hits(preds, labels, n), place).len() == those_from(preds.take(n), place).len(),
    decreases n,
{
    if n <= 0 {
        assert(those_from(hits(preds, labels, n), place) =~= Set::<int>::empty());
        assert(those_from(preds.take(n), place) =~= Set::<int>::empty());
    } else {
        precise_up_to(preds, labels, place, n - 1);
        let rest = hits(preds, labels, n - 1);
        one_more(preds.take(n - 1), preds[n - 1], place);
        assert(preds.take(n) =~= preds.take(n - 1).push(preds[n - 1]));
        if positive(labels[n - 1]) {
            one_more(rest, preds[n - 1], place);
        }
    }
}

proof fn one_more(preds: Seq<Single>, p: Single, place: int)
    ensures
        those_from(preds.push(p), place).len() == those_from(preds, place).len() + (if place
            <= p.place() {
            1int
        } else {
            0
        }),
{
    let n = preds.len() as int;
    the_rest_is_from(preds, place);
    if place <= p.place() {
        assert(those_from(preds.push(p), place) =~= those_from(preds, place).insert(n));
    } else {
        assert(those_from(preds.push(p), place) =~= those_from(preds, place));
    }
}

} // verus!
