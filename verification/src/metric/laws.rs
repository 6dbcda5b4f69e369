//! What the area under the ROC curve counts.

use vstd::prelude::*;

use crate::metric::auc::{positive, rank_pair, those_below, those_up_to};
use crate::number::Single;

verus! {

/// Twice what a pair of instances counts: two where the first is predicted
/// above the second, one where they are predicted equal.
pub open spec fn pair_score(preds: Seq<Single>, p: int, q: int) -> int {
    if preds[q].place() < preds[p].place() {
        2
    } else if preds[q].place() == preds[p].place() {
        1
    } else {
        0
    }
}

/// The sum of the pair scores of instance `p` with those of the first `m`
/// instances that are positive, or that are not.
pub open spec fn scores_of(
    preds: Seq<Single>,
    labels: Seq<Single>,
    p: int,
    among_positive: bool,
    m: int,
) -> int
    decreases m,
{
    if m <= 0 {
        0
    } else {
        let rest = scores_of(preds, labels, p, among_positive, m - 1);
        if positive(labels[m - 1]) == among_positive {
            rest + pair_score(preds, p, m - 1)
        } else {
            rest
        }
    }
}

/// The sum of the pair scores of the positive ones of the first `n` instances
/// with those of the first `m` instances that are positive, or that are not.
pub open spec fn pair_scores(
    preds: Seq<Single>,
    labels: Seq<Single>,
    among_positive: bool,
    n: int,
    m: int,
) -> int
    decreases n,
{
    if n <= 0 {
        0
    } else {
        let rest = pair_scores(preds, labels, among_positive, n - 1, m);
        if positive(labels[n - 1]) {
            rest + scores_of(preds, labels, n - 1, among_positive, m)
        } else {
            rest
        }
    }
}

/// The number of positive ones among the first `n` instances.
pub open spec fn positives(labels: Seq<Single>, n: int) -> int
    decreases n,
{
    if n <= 0 {
        0
    } else {
        positives(labels, n - 1) + if positive(labels[n - 1]) {
            1int
        } else {
            0
        }
    }
}

/// Twice the sum of the average ranks of the positive ones among the first `n`
/// instances.
pub open spec fn doubled_rank_sum(preds: Seq<Single>, labels: Seq<Single>, n: int) -> int
    decreases n,
{
    if n <= 0 {
        0
    } else {
        doubled_rank_sum(preds, labels, n - 1) + if positive(labels[n - 1]) {
            rank_pair(preds, n - 1)
        } else {
            0
        }
    }
}

/// The rank sum of the positive instances, less the least that it can be,
/// counts the pairs of a positive and another instance that are predicted in
/// the right order, with one half for those predicted equal. (All doubled.)
pub proof fn rank_sum_counts_pairs(preds: Seq<Single>, labels: Seq<Single>)
    requires
        labels.len() == preds.len(),
    ensures
        ({
            let n = preds.len() as int;
            let pos = positives(labels, n);
            let right = pair_scores(preds, labels, false, n, n);
            &&& doubled_rank_sum(preds, labels, n) - pos * (pos + 1) == right
            &&& 0 <= right <= 2 * pos * (n - pos)
        }),
{
    let n = preds.len() as int;
    let pos = positives(labels, n);
    ranks_are_scores(preds, labels, n);
    positive_pairs(preds, labels, n);
    scores_are_bounded(preds, labels, n, n);
    assert(pos * (pos + 1) == pos * pos + pos) by (nonlinear_arith);
}

/// The places below `m` of the predictions below, or not above, a place.
spec fn below_until(preds: Seq<Single>, place: int, m: int) -> Set<int> {
    Set::new(|i: int| 0 <= i < m && preds[i].place() < place)
}

spec fn up_to_until(preds: Seq<Single>, place: int, m: int) -> Set<int> {
    Set::new(|i: int| 0 <= i < m && preds[i].place() <= place)
}

proof fn counts_are_scores(preds: Seq<Single>, labels: Seq<Single>, p: int, m: int)
    requires
        0 <= m <= preds.len(),
    ensures
        below_until(preds, preds[p].place(), m).finite(),
        up_to_until(preds, preds[p].place(), m).finite(),
        below_until(preds, preds[p].place(), m).len() + up_to_until(
            preds,
            preds[p].place(),
            m,
        ).len() == scores_of(preds, labels, p, true, m) + scores_of(preds, labels, p, false, m),
    decreases m,
{
    let place = preds[p].place();
    let below = below_until(preds, place, m);
    let up_to = up_to_until(preds, place, m);
    if m <= 0 {
        assert(below =~= Set::empty());
        assert(up_to =~= Set::empty());
    } else {
        counts_are_scores(preds, labels, p, m - 1);
        let b = below_until(preds, place, m - 1);
        let u = up_to_until(preds, place, m - 1);
        assert(below =~= if preds[m - 1].place() < place {
            b.insert(m - 1)
        } else {
            b
        });
        assert(up_to =~= if preds[m - 1].place() <= place {
            u.insert(m - 1)
        } else {
            u
        });
    }
}

proof fn ranks_are_scores(preds: Seq<Single>, labels: Seq<Single>, n: int)
    requires
        0 <= n <= preds.len(),
        labels.len() == preds.len(),
    ensures
        ({
            let all = preds.len() as int;
            doubled_rank_sum(preds, labels, n) == positives(labels, n) + pair_scores(
                preds,
                labels,
                true,
                n,
                all,
            ) + pair_scores(preds, labels, false, n, all)
        }),
    decreases n,
{
    if n > 0 {
        let all = preds.len() as int;
        ranks_are_scores(preds, labels, n - 1);
        let place = preds[n - 1].place();
        counts_are_scores(preds, labels, n - 1, all);
        assert(below_until(preds, place, all) =~= those_below(preds, place));
        assert(up_to_until(preds, place, all) =~= those_up_to(preds, place));
    }
}

/// The sum of the pair scores of the positive ones of the first `n` instances
/// with instance `q`.
spec fn scores_with(preds: Seq<Single>, labels: Seq<Single>, q: int, n: int) -> int
    decreases n,
{
    if n <= 0 {
        0
    } else {
        scores_with(preds, labels, q, n - 1) + if positive(labels[n - 1]) {
            pair_score(preds, n - 1, q)
        } else {
            0
        }
    }
}

proof fn one_more_column(
    preds: Seq<Single>,
    labels: Seq<Single>,
    among_positive: bool,
    n: int,
    m: int,
)
    requires
        0 <= n,
        0 <= m,
    ensures
        pair_scores(preds, labels, among_positive, n, m + 1) == pair_scores(
            preds,
            labels,
            among_positive,
            n,
            m,
        ) + if positive(labels[m]) == among_positive {
            scores_with(preds, labels, m, n)
        } else {
            0
        },
    decreases n,
{
    if n > 0 {
        one_more_column(preds, labels, among_positive, n - 1, m);
    }
}

proof fn opposite_pairs(preds: Seq<Single>, labels: Seq<Single>, q: int, n: int)
    requires
        0 <= n,
    ensures
        scores_with(preds, labels, q, n) + scores_of(preds, labels, q, true, n) == 2 * positives(
            labels,
            n,
        ),
    decreases n,
{
    if n > 0 {
        opposite_pairs(preds, labels, q, n - 1);
    }
}

proof fn positive_pairs(preds: Seq<Single>, labels: Seq<Single>, n: int)
    requires
        0 <= n,
    ensures
        pair_scores(preds, labels, true, n, n) == positives(labels, n) * positives(labels, n),
    decreases n,
{
    if n > 0 {
        positive_pairs(preds, labels, n - 1);
        one_more_column(preds, labels, true, n - 1, n - 1);
        opposite_pairs(preds, labels, n - 1, n - 1);
        let p = positives(labels, n - 1);
        assert((p + 1) * (p + 1) == p * p + 2 * p + 1) by (nonlinear_arith);
    }
}

proof fn row_is_bounded(preds: Seq<Single>, labels: Seq<Single>, p: int, m: int)
    requires
        0 <= m,
    ensures
        0 <= scores_of(preds, labels, p, false, m) <= 2 * (m - positives(labels, m)),
    decreases m,
{
    if m > 0 {
        row_is_bounded(preds, labels, p, m - 1);
    }
}

proof fn scores_are_bounded(preds: Seq<Single>, labels: Seq<Single>, n: int, m: int)
    requires
        0 <= n,
        0 <= m,
    ensures
        0 <= pair_scores(preds, labels, false, n, m) <= 2 * positives(labels, n) * (m - positives(
            labels,
            m,
        )),
    decreases n,
{
    let other = m - positives(labels, m);
    if n <= 0 {
        assert(2 * 0 * other == 0) by (nonlinear_arith);
    } else {
        scores_are_bounded(preds, labels, n - 1, m);
        row_is_bounded(preds, labels, n - 1, m);
        let p = positives(labels, n - 1);
        assert(2 * (p + 1) * other == 2 * p * other + 2 * other) by (nonlinear_arith);
    }
}

} // verus!
