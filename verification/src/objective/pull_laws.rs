//! The gradients of a ranking objective are sums of the pulls of its pairs, in arithmetics
//! that do not round.

use vstd::prelude::*;

use crate::arith::{Calc, Op};
use crate::exact::{is_exact, once, singles_are_exact};
use crate::number::{Single, Wide, ONE};
use crate::objective::base::Objective;
use crate::objective::laws::lies_in;
use crate::objective::loss_laws::{is_number, number};
use crate::objective::pair::zero_pair;
use crate::objective::ranking::{
    group_seed, pair_weight, query_of, ranked, LambdaMartObjective, Query, Tally,
    MAX_PAIRS_PER_GROUP,
};

verus! {

/// What document `j` adds to the gradient of document `i`: the pull of their pair, which
/// lowers the gradient of the more relevant one and raises that of the other.
pub open spec fn pull_on<F: Fn(Op, u64, u64) -> u64>(
    q: Query,
    i: int,
    j: int,
    val: spec_fn(Wide) -> Option<real>,
    calc: &Calc<F>,
) -> real {
    let x = val(q.labs[i])->0;
    let y = val(q.labs[j])->0;
    let zero = Wide { bits: 0 };
    if y < x && !pair_weight(q.mode, q.labs, q.order(), i, j, calc).same(zero) {
        0real - val(q.pull(i, j, calc))->0
    } else if x < y && !pair_weight(q.mode, q.labs, q.order(), j, i, calc).same(zero) {
        val(q.pull(j, i, calc))->0
    } else {
        0real
    }
}

/// What the documents from `from` up to `to` add to the gradient of document `i`.
pub open spec fn pull_sum<F: Fn(Op, u64, u64) -> u64>(
    q: Query,
    i: int,
    from: int,
    to: int,
    val: spec_fn(Wide) -> Option<real>,
    calc: &Calc<F>,
) -> real
    decreases to - from,
{
    if to <= from {
        0real
    } else {
        pull_sum(q, i, from, to - 1, val, calc) + if to - 1 == i {
            0real
        } else {
            pull_on(q, i, to - 1, val, calc)
        }
    }
}

/// Whether a gradient moved by the given number, as long as it stands for one.
spec fn moved_by<F: Fn(Op, u64, u64) -> u64>(
    before: Single,
    after: Single,
    by: real,
    val: spec_fn(Wide) -> Option<real>,
    calc: &Calc<F>,
) -> bool {
    is_number(after, val, calc) ==> is_number(before, val, calc) && number(after, val, calc)
        == number(before, val, calc) + by
}

spec fn labels_stand(q: Query, val: spec_fn(Wide) -> Option<real>) -> bool {
    forall|i: int| 0 <= i < q.labs.len() ==> val(#[trigger] q.labs[i]) is Some
}

proof fn looks_move<F: Fn(Op, u64, u64) -> u64>(
    q: Query,
    t: Tally,
    a: int,
    b: int,
    i: int,
    val: spec_fn(Wide) -> Option<real>,
    calc: &Calc<F>,
)
    requires
        is_exact(val, calc),
        singles_are_exact(val, calc),
        lies_in(q, t.out),
        labels_stand(q, val),
        !q.share(calc).lt(Wide { bits: ONE }),
        0 <= a < q.labs.len(),
        0 <= b < q.labs.len(),
        a != b,
        0 <= i < q.labs.len(),
    ensures
        lies_in(q, q.looked_at(t, a, b, calc).out),
        moved_by(
            t.out[q.start + i].grad,
            q.looked_at(t, a, b, calc).out[q.start + i].grad,
            if i == a {
                pull_on(q, a, b, val, calc)
            } else if i == b {
                pull_on(q, b, a, val, calc)
            } else {
                0real
            },
            val,
            calc,
        ),
{
    assert(val(q.labs[a]) is Some && val(q.labs[b]) is Some);
    assert(q.labs[a].le(q.labs[b]) <==> val(q.labs[a])->0 <= val(q.labs[b])->0);
    assert(q.labs[b].le(q.labs[a]) <==> val(q.labs[b])->0 <= val(q.labs[a])->0);
    assert(q.labs[b].lt(q.labs[a]) <==> val(q.labs[b])->0 < val(q.labs[a])->0);
    let hi = if q.labs[b].lt(q.labs[a]) { a } else { b };
    let lo = if q.labs[b].lt(q.labs[a]) { b } else { a };
    let after = q.looked_at(t, a, b, calc).out;
    let weight = pair_weight(q.mode, q.labs, q.order(), hi, lo, calc);
    if !q.labs[a].same(q.labs[b]) && !weight.same(Wide { bits: 0 }) {
        let grad = calc.narrowed(q.pull(hi, lo, calc));
        assert(after == q.paired(t.out, hi, lo, calc));
        assert(after[q.start + hi].grad == calc.minus_s(t.out[q.start + hi].grad, grad));
        assert(after[q.start + lo].grad == calc.plus_s(t.out[q.start + lo].grad, grad));
        if is_number(after[q.start + hi].grad, val, calc) {
            assert(is_number(grad, val, calc));
        }
        if is_number(after[q.start + lo].grad, val, calc) {
            assert(is_number(grad, val, calc));
        }
    }
}

proof fn documents_move<F: Fn(Op, u64, u64) -> u64>(
    q: Query,
    t: Tally,
    a: int,
    n: int,
    i: int,
    val: spec_fn(Wide) -> Option<real>,
    calc: &Calc<F>,
)
    requires
        is_exact(val, calc),
        singles_are_exact(val, calc),
        lies_in(q, t.out),
        labels_stand(q, val),
        !q.share(calc).lt(Wide { bits: ONE }),
        0 <= a < n <= q.labs.len(),
        0 <= i < q.labs.len(),
    ensures
        lies_in(q, q.with_document(t, a, n, calc).out),
        moved_by(
            t.out[q.start + i].grad,
            q.with_document(t, a, n, calc).out[q.start + i].grad,
            if i == a {
                pull_sum(q, a, a + 1, n, val, calc)
            } else if a < i < n {
                pull_on(q, i, a, val, calc)
            } else {
                0real
            },
            val,
            calc,
        ),
    decreases n - a,
{
    if n > a + 1 {
        documents_move(q, t, a, n - 1, i, val, calc);
        looks_move(q, q.with_document(t, a, n - 1, calc), a, n - 1, i, val, calc);
    }
}

proof fn sums_part<F: Fn(Op, u64, u64) -> u64>(
    q: Query,
    i: int,
    n: int,
    val: spec_fn(Wide) -> Option<real>,
    calc: &Calc<F>,
)
    requires
        0 <= i < n,
    ensures
        pull_sum(q, i, 0, n, val, calc) == pull_sum(q, i, 0, i, val, calc) + pull_sum(
            q,
            i,
            i + 1,
            n,
            val,
            calc,
        ),
    decreases n - i,
{
    if n > i + 1 {
        sums_part(q, i, n - 1, val, calc);
    }
}

proof fn all_documents_move<F: Fn(Op, u64, u64) -> u64>(
    q: Query,
    t: Tally,
    n: int,
    i: int,
    val: spec_fn(Wide) -> Option<real>,
    calc: &Calc<F>,
)
    requires
        is_exact(val, calc),
        singles_are_exact(val, calc),
        lies_in(q, t.out),
        labels_stand(q, val),
        !q.share(calc).lt(Wide { bits: ONE }),
        0 <= n <= q.labs.len(),
        0 <= i < q.labs.len(),
    ensures
        lies_in(q, q.with_documents(t, n, calc).out),
        moved_by(
            t.out[q.start + i].grad,
            q.with_documents(t, n, calc).out[q.start + i].grad,
            if i < n {
                pull_sum(q, i, 0, q.labs.len() as int, val, calc)
            } else {
                pull_sum(q, i, 0, n, val, calc)
            },
            val,
            calc,
        ),
    decreases n,
{
    if n > 0 {
        let m = q.labs.len() as int;
        all_documents_move(q, t, n - 1, i, val, calc);
        documents_move(q, q.with_documents(t, n - 1, calc), n - 1, m, i, val, calc);
        if i == n - 1 {
            sums_part(q, i, m, val, calc);
        }
    }
}

/// The gradient of a document is its weight times the sum of the pulls of all its pairs:
/// every document of another relevance in the group pulls at it, as long as none of the
/// pairs are left out by sampling.
pub proof fn ranking_gradients_are_sums_of_pulls<F: Fn(Op, u64, u64) -> u64>(
    o: LambdaMartObjective,
    preds: Seq<Single>,
    labels: Seq<Single>,
    weights: Option<Seq<Single>>,
    i: int,
    val: spec_fn(Wide) -> Option<real>,
    calc: &Calc<F>,
)
    requires
        is_exact(val, calc),
        singles_are_exact(val, calc),
        preds.len() == labels.len() <= u32::MAX,
        preds.len() * (preds.len() - 1) / 2 <= MAX_PAIRS_PER_GROUP,
        0 <= i < preds.len(),
        forall|j: int| 0 <= j < labels.len() ==> is_number(#[trigger] labels[j], val, calc),
        is_number(o.gradients(preds, labels, weights, None, calc)[i].grad, val, calc),
    ensures
        ({
            let n = preds.len() as int;
            let q = query_of(o.loss(), preds, labels, 0, n, calc);
            let w = match weights {
                Some(w) => number(w[i], val, calc),
                None => 1real,
            };
            number(o.gradients(preds, labels, weights, None, calc)[i].grad, val, calc) == pull_sum(
                q,
                i,
                0,
                n,
                val,
                calc,
            ) * w
        }),
{
    let n = preds.len() as int;
    let q = query_of(o.loss(), preds, labels, 0, n, calc);
    let zeros = Seq::new(preds.len(), |k: int| zero_pair());
    let plain = ranked(o.loss(), preds, labels, None, calc);
    let one = Wide { bits: ONE };
    assert(!one.lt(one));
    assert(labels_stand(q, val)) by {
        assert forall|j: int| 0 <= j < q.labs.len() implies val(#[trigger] q.labs[j]) is Some by {
            assert(is_number(labels[j], val, calc));
        }
    }
    let sum = pull_sum(q, i, 0, n, val, calc);
    once(sum);
    if n < 2 {
        assert(n == 1 && i == 0);
        assert(pull_sum(q, 0, 0, 0, val, calc) == 0real);
        assert(plain[i].grad == (Single { bits: 0 }));
    } else {
        let t = Tally { out: zeros, state: group_seed(0) };
        all_documents_move(q, t, n, i, val, calc);
        assert(plain == q.with_documents(t, n, calc).out);
        assert(t.out[i].grad == (Single { bits: 0 }));
    }
    if weights is Some {
        let w = weights->0;
        assert(is_number(calc.times_s(plain[i].grad, w[i]), val, calc));
        assert(is_number(plain[i].grad, val, calc));
    }
}

} // verus!
