//! Ranking metrics, averaged over query groups.

use vstd::prelude::*;

use crate::arith::{Calc, Op};
use crate::data::meta::GroupInfo;
use crate::metric::base::{Metric, MetricInfo};
use crate::number::{Single, Wide, ONE};
use crate::objective::base::groups_of;
use crate::objective::ranking::{
    discount, discounted, falling_order, gain, gain_of, gains_of, relevant_at, relevant_before,
    sort_falling,
};

verus! {

/// The numbers of rows `[start, end)` in double precision.
pub open spec fn widened_rows<F: Fn(Op, u64, u64) -> u64>(
    list: Seq<Single>,
    start: int,
    end: int,
    calc: &Calc<F>,
) -> Seq<Wide> {
    Seq::new((end - start) as nat, |i: int| calc.widened(list[start + i]))
}

/// How many places of `m` count under a limit.
pub open spec fn counted(limit: Option<usize>, m: int) -> int {
    match limit {
        Some(k) => if k < m { k as int } else { m },
        None => m,
    }
}

/// The normalized discounted gain of a group; one where nothing can be gained.
pub open spec fn group_ndcg<F: Fn(Op, u64, u64) -> u64>(
    scores: Seq<Wide>,
    labs: Seq<Wide>,
    limit: Option<usize>,
    calc: &Calc<F>,
) -> Wide {
    let gains = gains_of(labs, calc);
    let top = counted(limit, labs.len() as int);
    let ideal = discounted(gains, falling_order(gains), top, calc);
    if (Wide { bits: 0 }).lt(ideal) {
        calc.over(discounted(gains, falling_order(scores), top, calc), ideal)
    } else {
        Wide { bits: ONE }
    }
}

/// The sum, over the relevant documents among the first `n` places, of the
/// share of relevant documents up to their place.
pub open spec fn precisions<F: Fn(Op, u64, u64) -> u64>(
    labs: Seq<Wide>,
    order: Seq<usize>,
    n: int,
    calc: &Calc<F>,
) -> Wide
    decreases n,
{
    if n <= 0 {
        Wide { bits: 0 }
    } else {
        let rest = precisions(labs, order, n - 1, calc);
        if relevant_at(labs, order, n - 1) {
            calc.plus(rest, calc.over(calc.of(relevant_before(labs, order, n)), calc.of(n)))
        } else {
            rest
        }
    }
}

/// The average precision of a group; one where nothing is relevant.
pub open spec fn group_precision<F: Fn(Op, u64, u64) -> u64>(
    scores: Seq<Wide>,
    labs: Seq<Wide>,
    limit: Option<usize>,
    calc: &Calc<F>,
) -> Wide {
    let order = falling_order(scores);
    let hits = relevant_before(labs, order, labs.len() as int);
    if hits == 0 {
        Wide { bits: ONE }
    } else {
        calc.over(
            precisions(labs, order, counted(limit, labs.len() as int), calc),
            calc.of(hits),
        )
    }
}

/// Which ranking metric is taken.
#[derive(Clone, Copy, Debug, PartialEq, Eq, Structural)]
pub enum RankScore {
    /// Normalized discounted gain.
    Gain,
    /// Average precision.
    Precision,
}

/// The metric of the rows `[start, end)`.
pub open spec fn group_score<F: Fn(Op, u64, u64) -> u64>(
    kind: RankScore,
    preds: Seq<Single>,
    labels: Seq<Single>,
    start: int,
    end: int,
    limit: Option<usize>,
    calc: &Calc<F>,
) -> Wide {
    let scores = widened_rows(preds, start, end, calc);
    let labs = widened_rows(labels, start, end, calc);
    match kind {
        RankScore::Gain => group_ndcg(scores, labs, limit, calc),
        RankScore::Precision => group_precision(scores, labs, limit, calc),
    }
}

/// The sum of the metric over the first `n` groups.
pub open spec fn score_sum<F: Fn(Op, u64, u64) -> u64>(
    kind: RankScore,
    preds: Seq<Single>,
    labels: Seq<Single>,
    bounds: Seq<usize>,
    n: int,
    limit: Option<usize>,
    calc: &Calc<F>,
) -> Wide
    decreases n,
{
    if n <= 0 {
        Wide { bits: 0 }
    } else {
        calc.plus(
            score_sum(kind, preds, labels, bounds, n - 1, limit, calc),
            group_score(
                kind,
                preds,
                labels,
                bounds[n - 1] as int,
                bounds[n] as int,
                limit,
                calc,
            ),
        )
    }
}

/// The metric averaged over the groups, or of all rows where there are no
/// groups.
pub open spec fn mean_score<F: Fn(Op, u64, u64) -> u64>(
    kind: RankScore,
    preds: Seq<Single>,
    labels: Seq<Single>,
    groups: Option<Seq<usize>>,
    limit: Option<usize>,
    calc: &Calc<F>,
) -> Wide {
    match groups {
        Some(bounds) => {
            let n = bounds.len() - 1;
            if n == 0 {
                Wide { bits: 0 }
            } else {
                calc.over(score_sum(kind, preds, labels, bounds, n, limit, calc), calc.of(n))
            }
        },
        None => group_score(kind, preds, labels, 0, preds.len() as int, limit, calc),
    }
}

/// Whether predictions and labels can be ranked within their groups.
pub open spec fn rankable(
    preds: Seq<Single>,
    labels: Seq<Single>,
    groups: Option<Seq<usize>>,
) -> bool {
    &&& preds.len() <= labels.len()
    &&& preds.len() <= u32::MAX
    &&& groups matches Some(p) ==> {
        &&& p.len() > 0
        &&& forall|a: int, b: int| 0 <= a <= b < p.len() ==> p[a] <= p[b]
        &&& p.last() <= preds.len()
    }
}

fn widen_rows<F: Fn(Op, u64, u64) -> u64>(
    list: &[Single],
    start: usize,
    end: usize,
    calc: &Calc<F>,
) -> (r: Vec<Wide>)
    requires
        start <= end <= list.len(),
    ensures
        r@ == widened_rows(list@, start as int, end as int, calc),
{
    let mut out: Vec<Wide> = Vec::new();
    let mut i: usize = start;
    while i < end
        invariant
            start <= i <= end <= list.len(),
            out.len() == i - start,
            forall|k: int| 0 <= k < i - start ==> #[trigger] out[k] == calc.widened(list[start + k]),
        decreases end - i,
    {
        out.push(calc.widen(list[i]));
        i = i + 1;
    }
    assert(out@ =~= widened_rows(list@, start as int, end as int, calc));
    out
}

fn discounted_of<F: Fn(Op, u64, u64) -> u64>(
    gains: &Vec<Wide>,
    order: &Vec<usize>,
    n: usize,
    calc: &Calc<F>,
) -> (r: Wide)
    requires
        n <= order.len() <= u32::MAX,
        forall|a: int| 0 <= a < order.len() ==> #[trigger] order[a] < gains.len(),
    ensures
        r == discounted(gains@, order@, n as int, calc),
{
    let mut sum = Wide::zero();
    let mut p: usize = 0;
    while p < n
        invariant
            n <= order.len() <= u32::MAX,
            forall|a: int| 0 <= a < order.len() ==> #[trigger] order[a] < gains.len(),
            p <= n,
            sum == discounted(gains@, order@, p as int, calc),
        decreases n - p,
    {
        sum = calc.add(sum, calc.mul(gains[order[p]], discount(p, calc)));
        p = p + 1;
    }
    sum
}

fn score_group<F: Fn(Op, u64, u64) -> u64>(
    kind: RankScore,
    preds: &[Single],
    labels: &[Single],
    start: usize,
    end: usize,
    limit: Option<usize>,
    calc: &Calc<F>,
) -> (r: Wide)
    requires
        start <= end <= preds.len() <= labels.len(),
        preds.len() <= u32::MAX,
    ensures
        r == group_score(kind, preds@, labels@, start as int, end as int, limit, calc),
{
    let scores = widen_rows(preds, start, end, calc);
    let labs = widen_rows(labels, start, end, calc);
    let m: usize = labs.len();
    let top: usize = match limit {
        Some(k) => if k < m { k } else { m },
        None => m,
    };
    let order = sort_falling(&scores);
    match kind {
        RankScore::Gain => {
            let mut gains: Vec<Wide> = Vec::new();
            let mut i: usize = 0;
            while i < m
                invariant
                    m == labs.len(),
                    i <= m,
                    gains.len() == i,
                    forall|k: int| 0 <= k < i ==> #[trigger] gains[k] == gain_of(labs[k], calc),
                decreases m - i,
            {
                gains.push(gain(labs[i], calc));
                i = i + 1;
            }
            assert(gains@ =~= gains_of(labs@, calc));
            let best = sort_falling(&gains);
            let ideal = discounted_of(&gains, &best, top, calc);
            if Wide::zero().is_lt(ideal) {
                calc.div(discounted_of(&gains, &order, top, calc), ideal)
            } else {
                Wide { bits: ONE }
            }
        },
        RankScore::Precision => {
            let mut sum = Wide::zero();
            let mut hits: usize = 0;
            let mut p: usize = 0;
            while p < m
                invariant
                    m == labs.len(),
                    order.len() == m,
                    top == counted(limit, m as int),
                    forall|a: int| 0 <= a < order.len() ==> #[trigger] order[a] < m,
                    p <= m,
                    hits <= p,
                    hits == relevant_before(labs@, order@, p as int),
                    sum == precisions(
                        labs@,
                        order@,
                        if p <= top {
                            p as int
                        } else {
                            top as int
                        },
                        calc,
                    ),
                decreases m - p,
            {
                if Wide::zero().is_lt(labs[order[p]]) {
                    hits = hits + 1;
                    if p < top {
                        sum = calc.add(sum, calc.div(calc.of_usize(hits), calc.of_usize(p + 1)));
                    }
                }
                p = p + 1;
            }
            if hits == 0 {
                Wide { bits: ONE }
            } else {
                calc.div(sum, calc.of_usize(hits))
            }
        },
    }
}

/// A ranking metric averaged over groups.
pub fn score_of<F: Fn(Op, u64, u64) -> u64>(
    kind: RankScore,
    preds: &[Single],
    labels: &[Single],
    group: Option<&GroupInfo>,
    limit: Option<usize>,
    calc: &Calc<F>,
) -> (r: Wide)
    requires
        rankable(preds@, labels@, groups_of(group)),
    ensures
        r == mean_score(kind, preds@, labels@, groups_of(group), limit, calc),
{
    match group {
        Some(g) => {
            let bounds = &g.group_ptr;
            let n: usize = bounds.len() - 1;
            if n == 0 {
                return Wide::zero();
            }
            let mut sum = Wide::zero();
            let mut i: usize = 0;
            while i < n
                invariant
                    rankable(preds@, labels@, Some(bounds@)),
                    n == bounds.len() - 1,
                    i <= n,
                    sum == score_sum(kind, preds@, labels@, bounds@, i as int, limit, calc),
                decreases n - i,
            {
                assert(bounds[i as int] <= bounds[i + 1] <= bounds@.last());
                let part = score_group(kind, preds, labels, bounds[i], bounds[i + 1], limit, calc);
                sum = calc.add(sum, part);
                i = i + 1;
            }
            calc.div(sum, calc.of_usize(n))
        },
        None => score_group(kind, preds, labels, 0, preds.len(), limit, calc),
    }
}

/// Normalized discounted cumulative gain. Greater is better. Weights are ignored.
#[derive(Clone, Copy, Debug)]
pub struct Ndcg {
    limit: Option<usize>,
}

impl Ndcg {
    /// The number of places that count; none for all.
    pub closed spec fn places(&self) -> Option<usize> {
        self.limit
    }

    /// The metric over the given number of places.
    pub fn new(limit: Option<usize>) -> (r: Self)
        ensures
            r.places() == limit,
    {
        Ndcg { limit }
    }
}

impl MetricInfo for Ndcg {
    open spec fn title(&self) -> Seq<char> {
        "ndcg"@
    }

    open spec fn rises(&self) -> bool {
        true
    }

    fn name(&self) -> (r: &str) {
        "ndcg"
    }

    fn maximize(&self) -> (r: bool) {
        true
    }
}

impl<F: Fn(Op, u64, u64) -> u64> Metric<F> for Ndcg {
    open spec fn accepts(
        &self,
        preds: Seq<Single>,
        labels: Seq<Single>,
        weights: Option<Seq<Single>>,
        groups: Option<Seq<usize>>,
    ) -> bool {
        rankable(preds, labels, groups)
    }

    open spec fn value(
        &self,
        preds: Seq<Single>,
        labels: Seq<Single>,
        weights: Option<Seq<Single>>,
        groups: Option<Seq<usize>>,
        calc: &Calc<F>,
    ) -> Wide {
        mean_score(RankScore::Gain, preds, labels, groups, self.places(), calc)
    }

    fn eval_grouped(
        &self,
        preds: &[Single],
        labels: &[Single],
        weights: Option<&[Single]>,
        group: Option<&GroupInfo>,
        calc: &Calc<F>,
    ) -> (r: Wide) {
        score_of(RankScore::Gain, preds, labels, group, self.limit, calc)
    }
}

/// Mean average precision. Greater is better. Weights are ignored.
#[derive(Clone, Copy, Debug)]
pub struct AveragePrecision {
    limit: Option<usize>,
}

impl AveragePrecision {
    /// The number of places that count; none for all.
    pub closed spec fn places(&self) -> Option<usize> {
        self.limit
    }

    /// The metric over the given number of places.
    pub fn new(limit: Option<usize>) -> (r: Self)
        ensures
            r.places() == limit,
    {
        AveragePrecision { limit }
    }
}

impl MetricInfo for AveragePrecision {
    open spec fn title(&self) -> Seq<char> {
        "map"@
    }

    open spec fn rises(&self) -> bool {
        true
    }

    fn name(&self) -> (r: &str) {
        "map"
    }

    fn maximize(&self) -> (r: bool) {
        true
    }
}

impl<F: Fn(Op, u64, u64) -> u64> Metric<F> for AveragePrecision {
    open spec fn accepts(
        &self,
        preds: Seq<Single>,
        labels: Seq<Single>,
        weights: Option<Seq<Single>>,
        groups: Option<Seq<usize>>,
    ) -> bool {
        rankable(preds, labels, groups)
    }

    open spec fn value(
        &self,
        preds: Seq<Single>,
        labels: Seq<Single>,
        weights: Option<Seq<Single>>,
        groups: Option<Seq<usize>>,
        calc: &Calc<F>,
    ) -> Wide {
        mean_score(RankScore::Precision, preds, labels, groups, self.places(), calc)
    }

    fn eval_grouped(
        &self,
        preds: &[Single],
        labels: &[Single],
        weights: Option<&[Single]>,
        group: Option<&GroupInfo>,
        calc: &Calc<F>,
    ) -> (r: Wide) {
        score_of(RankScore::Precision, preds, labels, group, self.limit, calc)
    }
}

} // verus!
