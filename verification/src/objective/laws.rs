//! What ranking gradients depend on.

use vstd::prelude::*;

use crate::arith::{Calc, Op};
use crate::exact::{singles_add, singles_subtract};
use crate::number::{Single, Wide, ONE};
use crate::objective::pair::{zero_pair, GradPair};
use crate::objective::ranking::{
    group_seed, pair_weight, place_in, query_of, ranked, relevant_at, with_group, with_groups,
    Query, RankMode, Tally, MAX_PAIRS_PER_GROUP,
};

verus! {

/// Whether all documents of a query are equally relevant.
pub open spec fn all_alike(q: Query) -> bool {
    forall|i: int, j: int|
        0 <= i < q.labs.len() && 0 <= j < q.labs.len() ==> (#[trigger] q.labs[i]).same(
            #[trigger] q.labs[j],
        )
}

proof fn alike_documents_form_no_pairs<F: Fn(Op, u64, u64) -> u64>(
    q: Query,
    t: Tally,
    a: int,
    n: int,
    calc: &Calc<F>,
)
    requires
        all_alike(q),
        0 <= a,
        n <= q.labs.len(),
    ensures
        q.with_document(t, a, n, calc) == t,
    decreases n - a,
{
    if n > a + 1 {
        alike_documents_form_no_pairs(q, t, a, n - 1, calc);
        assert(q.labs[a].same(q.labs[n - 1]));
    }
}

proof fn alike_queries_form_no_pairs<F: Fn(Op, u64, u64) -> u64>(
    q: Query,
    t: Tally,
    n: int,
    calc: &Calc<F>,
)
    requires
        all_alike(q),
    ensures
        q.with_documents(t, n, calc) == t,
    decreases n,
{
    if n > 0 {
        alike_queries_form_no_pairs(q, t, n - 1, calc);
        alike_documents_form_no_pairs(q, t, n - 1, q.labs.len() as int, calc);
    }
}

/// A group whose documents are all equally relevant leaves every gradient as it
/// is.
pub proof fn groups_of_equal_relevance_change_nothing<F: Fn(Op, u64, u64) -> u64>(
    mode: RankMode,
    preds: Seq<Single>,
    labels: Seq<Single>,
    start: int,
    end: int,
    out: Seq<GradPair>,
    calc: &Calc<F>,
)
    requires
        all_alike(query_of(mode, preds, labels, start, end, calc)),
    ensures
        with_group(mode, preds, labels, start, end, out, calc) == out,
{
    let q = query_of(mode, preds, labels, start, end, calc);
    let t = Tally { out, state: group_seed(start as u64) };
    alike_queries_form_no_pairs(q, t, end - start, calc);
}

/// Whether two lists of gradients are equal within a query's rows.
pub open spec fn equal_within(q: Query, x: Seq<GradPair>, y: Seq<GradPair>) -> bool {
    forall|i: int|
        q.start <= i < q.start + q.labs.len() ==> #[trigger] x[i] == #[trigger] y[i]
}

/// Whether two lists of gradients are equal outside a query's rows.
pub open spec fn equal_beside(q: Query, x: Seq<GradPair>, y: Seq<GradPair>) -> bool {
    &&& x.len() == y.len()
    &&& forall|i: int|
        0 <= i < x.len() && !(q.start <= i < q.start + q.labs.len()) ==> #[trigger] x[i]
            == y[i]
}

/// Whether a query's rows exist.
pub open spec fn lies_in(q: Query, out: Seq<GradPair>) -> bool {
    0 <= q.start && q.start + q.labs.len() <= out.len()
}

proof fn looks_stay_within<F: Fn(Op, u64, u64) -> u64>(
    q: Query,
    s: Tally,
    t: Tally,
    a: int,
    b: int,
    calc: &Calc<F>,
)
    requires
        lies_in(q, s.out),
        lies_in(q, t.out),
        equal_within(q, s.out, t.out),
        s.state == t.state,
        0 <= a < q.labs.len(),
        0 <= b < q.labs.len(),
    ensures
        equal_beside(q, q.looked_at(s, a, b, calc).out, s.out),
        equal_within(q, q.looked_at(s, a, b, calc).out, q.looked_at(t, a, b, calc).out),
        q.looked_at(s, a, b, calc).state == q.looked_at(t, a, b, calc).state,
{
}

proof fn documents_stay_within<F: Fn(Op, u64, u64) -> u64>(
    q: Query,
    s: Tally,
    t: Tally,
    a: int,
    n: int,
    calc: &Calc<F>,
)
    requires
        lies_in(q, s.out),
        lies_in(q, t.out),
        equal_within(q, s.out, t.out),
        s.state == t.state,
        0 <= a < q.labs.len(),
        n <= q.labs.len(),
    ensures
        equal_beside(q, q.with_document(s, a, n, calc).out, s.out),
        equal_beside(q, q.with_document(t, a, n, calc).out, t.out),
        equal_within(q, q.with_document(s, a, n, calc).out, q.with_document(t, a, n, calc).out),
        q.with_document(s, a, n, calc).state == q.with_document(t, a, n, calc).state,
    decreases n - a,
{
    if n > a + 1 {
        documents_stay_within(q, s, t, a, n - 1, calc);
        let s1 = q.with_document(s, a, n - 1, calc);
        let t1 = q.with_document(t, a, n - 1, calc);
        looks_stay_within(q, s1, t1, a, n - 1, calc);
        looks_stay_within(q, t1, s1, a, n - 1, calc);
    }
}

proof fn queries_stay_within<F: Fn(Op, u64, u64) -> u64>(
    q: Query,
    s: Tally,
    t: Tally,
    n: int,
    calc: &Calc<F>,
)
    requires
        lies_in(q, s.out),
        lies_in(q, t.out),
        equal_within(q, s.out, t.out),
        s.state == t.state,
        n <= q.labs.len(),
    ensures
        equal_beside(q, q.with_documents(s, n, calc).out, s.out),
        equal_beside(q, q.with_documents(t, n, calc).out, t.out),
        equal_within(q, q.with_documents(s, n, calc).out, q.with_documents(t, n, calc).out),
        q.with_documents(s, n, calc).state == q.with_documents(t, n, calc).state,
    decreases n,
{
    if n > 0 {
        queries_stay_within(q, s, t, n - 1, calc);
        documents_stay_within(
            q,
            q.with_documents(s, n - 1, calc),
            q.with_documents(t, n - 1, calc),
            n - 1,
            q.labs.len() as int,
            calc,
        );
    }
}

/// Whether two datasets are equal in the rows `[start, end)`.
pub open spec fn rows_agree(
    preds: Seq<Single>,
    labels: Seq<Single>,
    other_preds: Seq<Single>,
    other_labels: Seq<Single>,
    start: int,
    end: int,
) -> bool {
    forall|i: int|
        #![trigger preds[i]]
        #![trigger labels[i]]
        start <= i < end ==> preds[i] == other_preds[i] && labels[i] == other_labels[i]
}

/// Whether group boundaries are in order and within `n` rows.
pub open spec fn bounds_rise(ptr: Seq<usize>, n: int) -> bool {
    &&& forall|a: int, b: int|
        0 <= a <= b < ptr.len() ==> #[trigger] ptr[a] <= #[trigger] ptr[b]
    &&& forall|a: int| 0 <= a < ptr.len() ==> #[trigger] ptr[a] <= n
}

proof fn groups_stay_within<F: Fn(Op, u64, u64) -> u64>(
    mode: RankMode,
    preds: Seq<Single>,
    labels: Seq<Single>,
    ptr: Seq<usize>,
    n: int,
    g: int,
    out: Seq<GradPair>,
    i: int,
    calc: &Calc<F>,
)
    requires
        bounds_rise(ptr, out.len() as int),
        0 <= n < ptr.len(),
        0 <= g < ptr.len() - 1,
        ptr[g] <= i < ptr[g + 1],
    ensures
        with_groups(mode, preds, labels, ptr, n, out, calc).len() == out.len(),
        with_groups(mode, preds, labels, ptr, n, out, calc)[i] == if n <= g {
            out[i]
        } else {
            with_group(mode, preds, labels, ptr[g] as int, ptr[g + 1] as int, out, calc)[i]
        },
    decreases n,
{
    if n > 0 {
        groups_stay_within(mode, preds, labels, ptr, n - 1, g, out, i, calc);
        let before = with_groups(mode, preds, labels, ptr, n - 1, out, calc);
        let from = ptr[n - 1] as int;
        let to = ptr[n] as int;
        assert(from <= to <= out.len());
        let q = query_of(mode, preds, labels, from, to, calc);
        let s = Tally { out: before, state: group_seed(from as u64) };
        if n - 1 == g {
            let t = Tally { out, state: s.state };
            assert forall|k: int| q.start <= k < q.start + q.labs.len() implies
                #[trigger] s.out[k] == #[trigger] t.out[k] by {
                groups_stay_within(mode, preds, labels, ptr, n - 1, g, out, k, calc);
            }
            queries_stay_within(q, s, t, to - from, calc);
        } else {
            queries_stay_within(q, s, s, to - from, calc);
            if n - 1 < g {
                assert(ptr[n] <= ptr[g]);
            } else {
                assert(ptr[g + 1] <= ptr[n - 1]);
            }
        }
    }
}

/// The gradients of a group's rows are decided by that group alone: two
/// datasets with the same groups that agree in the rows of one give those rows
/// the same gradients.
pub proof fn groups_are_independent<F: Fn(Op, u64, u64) -> u64>(
    mode: RankMode,
    preds: Seq<Single>,
    labels: Seq<Single>,
    other_preds: Seq<Single>,
    other_labels: Seq<Single>,
    ptr: Seq<usize>,
    g: int,
    i: int,
    calc: &Calc<F>,
)
    requires
        bounds_rise(ptr, preds.len() as int),
        0 <= g < ptr.len() - 1,
        ptr.last() == preds.len(),
        preds.len() == other_preds.len(),
        ptr[g] <= i < ptr[g + 1],
        rows_agree(
            preds,
            labels,
            other_preds,
            other_labels,
            ptr[g] as int,
            ptr[g + 1] as int,
        ),
    ensures
        ranked(mode, preds, labels, Some(ptr), calc)[i] == ranked(
            mode,
            other_preds,
            other_labels,
            Some(ptr),
            calc,
        )[i],
{
    let zeros = Seq::new(preds.len(), |k: int| zero_pair());
    let n = ptr.len() - 1;
    groups_stay_within(mode, preds, labels, ptr, n, g, zeros, i, calc);
    groups_stay_within(mode, other_preds, other_labels, ptr, n, g, zeros, i, calc);
    let from = ptr[g] as int;
    let to = ptr[g + 1] as int;
    assert(query_of(mode, preds, labels, from, to, calc) =~= query_of(
        mode,
        other_preds,
        other_labels,
        from,
        to,
        calc,
    ));
}

/// Whether a query's rows in one list of gradients are the first rows of another.
pub open spec fn carried(q: Query, x: Seq<GradPair>, y: Seq<GradPair>) -> bool {
    &&& lies_in(q, x)
    &&& q.labs.len() <= y.len()
    &&& forall|i: int| 0 <= i < q.labs.len() ==> x[q.start + i] == #[trigger] y[i]
}

proof fn looks_carry<F: Fn(Op, u64, u64) -> u64>(
    q: Query,
    s: Tally,
    t: Tally,
    a: int,
    b: int,
    calc: &Calc<F>,
)
    requires
        !q.share(calc).lt(Wide { bits: ONE }),
        carried(q, s.out, t.out),
        0 <= a < q.labs.len(),
        0 <= b < q.labs.len(),
    ensures
        carried(
            q,
            q.looked_at(s, a, b, calc).out,
            (Query { start: 0, ..q }).looked_at(t, a, b, calc).out,
        ),
{
    let p = Query { start: 0, ..q };
    assert(s.out[q.start + a] == t.out[a]);
    assert(s.out[q.start + b] == t.out[b]);
    assert(q.share(calc) == p.share(calc));
}

proof fn documents_carry<F: Fn(Op, u64, u64) -> u64>(
    q: Query,
    s: Tally,
    t: Tally,
    a: int,
    n: int,
    calc: &Calc<F>,
)
    requires
        !q.share(calc).lt(Wide { bits: ONE }),
        carried(q, s.out, t.out),
        0 <= a < q.labs.len(),
        n <= q.labs.len(),
    ensures
        carried(
            q,
            q.with_document(s, a, n, calc).out,
            (Query { start: 0, ..q }).with_document(t, a, n, calc).out,
        ),
    decreases n - a,
{
    if n > a + 1 {
        documents_carry(q, s, t, a, n - 1, calc);
        let p = Query { start: 0, ..q };
        looks_carry(
            q,
            q.with_document(s, a, n - 1, calc),
            p.with_document(t, a, n - 1, calc),
            a,
            n - 1,
            calc,
        );
    }
}

proof fn queries_carry<F: Fn(Op, u64, u64) -> u64>(
    q: Query,
    s: Tally,
    t: Tally,
    n: int,
    calc: &Calc<F>,
)
    requires
        !q.share(calc).lt(Wide { bits: ONE }),
        carried(q, s.out, t.out),
        n <= q.labs.len(),
    ensures
        carried(
            q,
            q.with_documents(s, n, calc).out,
            (Query { start: 0, ..q }).with_documents(t, n, calc).out,
        ),
    decreases n,
{
    if n > 0 {
        queries_carry(q, s, t, n - 1, calc);
        let p = Query { start: 0, ..q };
        documents_carry(
            q,
            q.with_documents(s, n - 1, calc),
            p.with_documents(t, n - 1, calc),
            n - 1,
            q.labs.len() as int,
            calc,
        );
    }
}

/// The gradients of a group's rows are those of the group taken alone, as long
/// as none of its pairs are left out by sampling.
pub proof fn groups_stand_alone<F: Fn(Op, u64, u64) -> u64>(
    mode: RankMode,
    preds: Seq<Single>,
    labels: Seq<Single>,
    ptr: Seq<usize>,
    g: int,
    i: int,
    calc: &Calc<F>,
)
    requires
        bounds_rise(ptr, preds.len() as int),
        0 <= g < ptr.len() - 1,
        ptr.last() == preds.len(),
        preds.len() == labels.len(),
        ptr[g] <= i < ptr[g + 1],
        (ptr[g + 1] - ptr[g]) * (ptr[g + 1] - ptr[g] - 1) / 2 <= MAX_PAIRS_PER_GROUP,
    ensures
        ranked(mode, preds, labels, Some(ptr), calc)[i] == ranked(
            mode,
            preds.subrange(ptr[g] as int, ptr[g + 1] as int),
            labels.subrange(ptr[g] as int, ptr[g + 1] as int),
            None,
            calc,
        )[i - ptr[g]],
{
    let from = ptr[g] as int;
    let to = ptr[g + 1] as int;
    let zeros = Seq::new(preds.len(), |k: int| zero_pair());
    groups_stay_within(mode, preds, labels, ptr, ptr.len() - 1, g, zeros, i, calc);
    assert(to <= preds.len());
    let m = to - from;
    let few = Seq::new(m as nat, |k: int| zero_pair());
    let own_preds = preds.subrange(from, to);
    let own_labels = labels.subrange(from, to);
    let q = query_of(mode, preds, labels, from, to, calc);
    let p = query_of(mode, own_preds, own_labels, 0, m, calc);
    assert(p =~= Query { start: 0, ..q });
    assert(own_preds.len() == m);
    let s = Tally { out: zeros, state: group_seed(from as u64) };
    let t = Tally { out: few, state: group_seed(0) };
    if m >= 2 {
        queries_carry(q, s, t, m, calc);
        let x = q.with_documents(s, m, calc).out;
        let y = p.with_documents(t, m, calc).out;
        assert(x[q.start + (i - from)] == y[i - from]);
    }
}

/// Whether the gradients of a query's rows stand for numbers.
pub open spec fn all_pull<F: Fn(Op, u64, u64) -> u64>(
    q: Query,
    out: Seq<GradPair>,
    val: spec_fn(Wide) -> Option<real>,
    calc: &Calc<F>,
) -> bool {
    forall|i: int|
        q.start <= i < q.start + q.labs.len() ==> val(calc.widened((#[trigger] out[i]).grad)) is Some
}

/// What the gradients of the first `n` of a query's rows add up to.
pub open spec fn pull_sum<F: Fn(Op, u64, u64) -> u64>(
    q: Query,
    out: Seq<GradPair>,
    n: int,
    val: spec_fn(Wide) -> Option<real>,
    calc: &Calc<F>,
) -> real
    decreases n,
{
    if n <= 0 {
        0real
    } else {
        pull_sum(q, out, n - 1, val, calc) + val(calc.widened(out[q.start + n - 1].grad))->0
    }
}

/// Whether pairs leave the sum of a query's gradients as it is.
spec fn keeps_the_sum<F: Fn(Op, u64, u64) -> u64>(
    q: Query,
    before: Seq<GradPair>,
    after: Seq<GradPair>,
    val: spec_fn(Wide) -> Option<real>,
    calc: &Calc<F>,
) -> bool {
    let m = q.labs.len() as int;
    &&& after.len() == before.len()
    &&& all_pull(q, after, val, calc) ==> all_pull(q, before, val, calc) && pull_sum(
        q,
        after,
        m,
        val,
        calc,
    ) == pull_sum(q, before, m, val, calc)
}

proof fn one_place_moves_the_sum<F: Fn(Op, u64, u64) -> u64>(
    q: Query,
    x: Seq<GradPair>,
    i: int,
    p: GradPair,
    n: int,
    val: spec_fn(Wide) -> Option<real>,
    calc: &Calc<F>,
)
    requires
        lies_in(q, x),
        0 <= i < q.labs.len(),
        0 <= n <= q.labs.len(),
    ensures
        pull_sum(q, x.update(q.start + i, p), n, val, calc) == pull_sum(q, x, n, val, calc) + (if i
            < n {
            val(calc.widened(p.grad))->0 - val(calc.widened(x[q.start + i].grad))->0
        } else {
            0real
        }),
    decreases n,
{
    if n > 0 {
        one_place_moves_the_sum(q, x, i, p, n - 1, val, calc);
    }
}

proof fn pairs_keep_the_sum<F: Fn(Op, u64, u64) -> u64>(
    q: Query,
    out: Seq<GradPair>,
    hi: int,
    lo: int,
    val: spec_fn(Wide) -> Option<real>,
    calc: &Calc<F>,
)
    requires
        singles_add(val, calc),
        singles_subtract(val, calc),
        lies_in(q, out),
        0 <= hi < q.labs.len(),
        0 <= lo < q.labs.len(),
        hi != lo,
    ensures
        keeps_the_sum(q, out, q.paired(out, hi, lo, calc), val, calc),
{
    let m = q.labs.len() as int;
    let grad = calc.narrowed(q.pull(hi, lo, calc));
    let hess = calc.narrowed(q.curve(hi, lo, calc));
    let h = out[q.start + hi];
    let up = GradPair { grad: calc.minus_s(h.grad, grad), hess: calc.plus_s(h.hess, hess) };
    let raised = out.update(q.start + hi, up);
    let l = raised[q.start + lo];
    let down = GradPair { grad: calc.plus_s(l.grad, grad), hess: calc.plus_s(l.hess, hess) };
    let r = raised.update(q.start + lo, down);
    one_place_moves_the_sum(q, out, hi, up, m, val, calc);
    one_place_moves_the_sum(q, raised, lo, down, m, val, calc);
    if all_pull(q, r, val, calc) {
        assert(val(calc.widened(r[q.start + hi].grad)) is Some);
        assert(val(calc.widened(r[q.start + lo].grad)) is Some);
        assert forall|i: int| q.start <= i < q.start + q.labs.len() implies val(
            calc.widened((#[trigger] out[i]).grad),
        ) is Some by {
            if i != q.start + hi && i != q.start + lo {
                assert(r[i] == out[i]);
            }
        }
    }
}

proof fn documents_keep_the_sum<F: Fn(Op, u64, u64) -> u64>(
    q: Query,
    t: Tally,
    a: int,
    n: int,
    val: spec_fn(Wide) -> Option<real>,
    calc: &Calc<F>,
)
    requires
        singles_add(val, calc),
        singles_subtract(val, calc),
        lies_in(q, t.out),
        0 <= a < q.labs.len(),
        n <= q.labs.len(),
    ensures
        keeps_the_sum(q, t.out, q.with_document(t, a, n, calc).out, val, calc),
    decreases n - a,
{
    if n > a + 1 {
        documents_keep_the_sum(q, t, a, n - 1, val, calc);
        let so_far = q.with_document(t, a, n - 1, calc);
        pairs_keep_the_sum(q, so_far.out, a, n - 1, val, calc);
        pairs_keep_the_sum(q, so_far.out, n - 1, a, val, calc);
    }
}

proof fn queries_keep_the_sum<F: Fn(Op, u64, u64) -> u64>(
    q: Query,
    t: Tally,
    n: int,
    val: spec_fn(Wide) -> Option<real>,
    calc: &Calc<F>,
)
    requires
        singles_add(val, calc),
        singles_subtract(val, calc),
        lies_in(q, t.out),
        n <= q.labs.len(),
    ensures
        keeps_the_sum(q, t.out, q.with_documents(t, n, calc).out, val, calc),
    decreases n,
{
    if n > 0 {
        queries_keep_the_sum(q, t, n - 1, val, calc);
        let so_far = q.with_documents(t, n - 1, calc);
        documents_keep_the_sum(q, so_far, n - 1, q.labs.len() as int, val, calc);
    }
}

proof fn zeros_sum_to_zero<F: Fn(Op, u64, u64) -> u64>(
    q: Query,
    x: Seq<GradPair>,
    n: int,
    val: spec_fn(Wide) -> Option<real>,
    calc: &Calc<F>,
)
    requires
        forall|i: int|
            q.start <= i < q.start + n ==> val(calc.widened((#[trigger] x[i]).grad)) == Some(0real),
    ensures
        pull_sum(q, x, n, val, calc) == 0real,
    decreases n,
{
    if n > 0 {
        zeros_sum_to_zero(q, x, n - 1, val, calc);
        assert(val(calc.widened(x[q.start + n - 1].grad)) == Some(0real));
    }
}

proof fn equal_rows_have_equal_sums<F: Fn(Op, u64, u64) -> u64>(
    q: Query,
    x: Seq<GradPair>,
    y: Seq<GradPair>,
    n: int,
    val: spec_fn(Wide) -> Option<real>,
    calc: &Calc<F>,
)
    requires
        forall|i: int|
            q.start <= i < q.start + n ==> (#[trigger] x[i]).grad == (#[trigger] y[i]).grad,
    ensures
        pull_sum(q, x, n, val, calc) == pull_sum(q, y, n, val, calc),
    decreases n,
{
    if n > 0 {
        equal_rows_have_equal_sums(q, x, y, n - 1, val, calc);
        assert(x[q.start + n - 1].grad == y[q.start + n - 1].grad);
    }
}

/// In an arithmetic that does not round sums, the gradients of a group sum to
/// zero: what a pair takes from one document it gives to the other.
pub proof fn groups_sum_to_zero<F: Fn(Op, u64, u64) -> u64>(
    mode: RankMode,
    preds: Seq<Single>,
    labels: Seq<Single>,
    ptr: Seq<usize>,
    g: int,
    val: spec_fn(Wide) -> Option<real>,
    calc: &Calc<F>,
)
    requires
        singles_add(val, calc),
        singles_subtract(val, calc),
        val(calc.widened(Single { bits: 0 })) == Some(0real),
        bounds_rise(ptr, preds.len() as int),
        0 <= g < ptr.len() - 1,
        ptr.last() == preds.len(),
        all_pull(
            query_of(mode, preds, labels, ptr[g] as int, ptr[g + 1] as int, calc),
            ranked(mode, preds, labels, Some(ptr), calc),
            val,
            calc,
        ),
    ensures
        pull_sum(
            query_of(mode, preds, labels, ptr[g] as int, ptr[g + 1] as int, calc),
            ranked(mode, preds, labels, Some(ptr), calc),
            ptr[g + 1] - ptr[g],
            val,
            calc,
        ) == 0real,
{
    let from = ptr[g] as int;
    let to = ptr[g + 1] as int;
    let zeros = Seq::new(preds.len(), |k: int| zero_pair());
    let q = query_of(mode, preds, labels, from, to, calc);
    let all = ranked(mode, preds, labels, Some(ptr), calc);
    let own = with_group(mode, preds, labels, from, to, zeros, calc);
    assert(from <= to <= preds.len());
    assert forall|i: int| from <= i < from + (to - from) implies (#[trigger] all[i]).grad == (
    #[trigger] own[i]).grad by {
        groups_stay_within(mode, preds, labels, ptr, ptr.len() - 1, g, zeros, i, calc);
    }
    equal_rows_have_equal_sums(q, all, own, to - from, val, calc);
    assert(all_pull(q, own, val, calc)) by {
        assert forall|i: int| q.start <= i < q.start + q.labs.len() implies val(
            calc.widened((#[trigger] own[i]).grad),
        ) is Some by {
            assert(all[i].grad == own[i].grad);
        }
    }
    let t = Tally { out: zeros, state: group_seed(from as u64) };
    queries_keep_the_sum(q, t, to - from, val, calc);
    zeros_sum_to_zero(q, zeros, to - from, val, calc);
}

/// Whether sums in single precision, and numbers that are narrowed to it, stay on
/// the side of zero that they come from.
pub open spec fn keeps_sign<F: Fn(Op, u64, u64) -> u64>(calc: &Calc<F>) -> bool {
    let zero = Single { bits: 0 };
    &&& forall|a: Single, b: Single|
        zero.le(a) && zero.le(b) ==> zero.le(#[trigger] calc.plus_s(a, b))
    &&& forall|x: Wide|
        (Wide { bits: 0 }).le(x) ==> zero.le(#[trigger] calc.narrowed(x))
}

/// Whether no Hessian is below zero.
pub open spec fn no_negative_hess(out: Seq<GradPair>) -> bool {
    forall|i: int| 0 <= i < out.len() ==> (Single { bits: 0 }).le((#[trigger] out[i]).hess)
}

proof fn pairs_curve_upwards<F: Fn(Op, u64, u64) -> u64>(
    q: Query,
    out: Seq<GradPair>,
    hi: int,
    lo: int,
    calc: &Calc<F>,
)
    requires
        keeps_sign(calc),
        no_negative_hess(out),
        lies_in(q, out),
        0 <= hi < q.labs.len(),
        0 <= lo < q.labs.len(),
    ensures
        no_negative_hess(q.paired(out, hi, lo, calc)),
        q.paired(out, hi, lo, calc).len() == out.len(),
{
    let hess = calc.narrowed(q.curve(hi, lo, calc));
    assert((Wide { bits: 0 }).le(q.curve(hi, lo, calc)));
    assert((Single { bits: 0 }).le(hess));
    let h = out[q.start + hi];
    assert((Single { bits: 0 }).le(calc.plus_s(h.hess, hess)));
    let l = out[q.start + lo];
    assert((Single { bits: 0 }).le(calc.plus_s(l.hess, hess)));
    assert((Single { bits: 0 }).le(calc.plus_s(calc.plus_s(h.hess, hess), hess)));
}

proof fn documents_curve_upwards<F: Fn(Op, u64, u64) -> u64>(
    q: Query,
    t: Tally,
    a: int,
    n: int,
    calc: &Calc<F>,
)
    requires
        keeps_sign(calc),
        no_negative_hess(t.out),
        lies_in(q, t.out),
        0 <= a < q.labs.len(),
        n <= q.labs.len(),
    ensures
        no_negative_hess(q.with_document(t, a, n, calc).out),
        q.with_document(t, a, n, calc).out.len() == t.out.len(),
    decreases n - a,
{
    if n > a + 1 {
        documents_curve_upwards(q, t, a, n - 1, calc);
        let so_far = q.with_document(t, a, n - 1, calc);
        pairs_curve_upwards(q, so_far.out, a, n - 1, calc);
        pairs_curve_upwards(q, so_far.out, n - 1, a, calc);
    }
}

proof fn queries_curve_upwards<F: Fn(Op, u64, u64) -> u64>(
    q: Query,
    t: Tally,
    n: int,
    calc: &Calc<F>,
)
    requires
        keeps_sign(calc),
        no_negative_hess(t.out),
        lies_in(q, t.out),
        n <= q.labs.len(),
    ensures
        no_negative_hess(q.with_documents(t, n, calc).out),
        q.with_documents(t, n, calc).out.len() == t.out.len(),
    decreases n,
{
    if n > 0 {
        queries_curve_upwards(q, t, n - 1, calc);
        let so_far = q.with_documents(t, n - 1, calc);
        documents_curve_upwards(q, so_far, n - 1, q.labs.len() as int, calc);
    }
}

proof fn groups_curve_upwards<F: Fn(Op, u64, u64) -> u64>(
    mode: RankMode,
    preds: Seq<Single>,
    labels: Seq<Single>,
    ptr: Seq<usize>,
    n: int,
    out: Seq<GradPair>,
    calc: &Calc<F>,
)
    requires
        keeps_sign(calc),
        no_negative_hess(out),
        bounds_rise(ptr, out.len() as int),
        0 <= n < ptr.len(),
    ensures
        no_negative_hess(with_groups(mode, preds, labels, ptr, n, out, calc)),
        with_groups(mode, preds, labels, ptr, n, out, calc).len() == out.len(),
    decreases n,
{
    if n > 0 {
        groups_curve_upwards(mode, preds, labels, ptr, n - 1, out, calc);
        let before = with_groups(mode, preds, labels, ptr, n - 1, out, calc);
        let from = ptr[n - 1] as int;
        let to = ptr[n] as int;
        assert(from <= to <= out.len());
        let q = query_of(mode, preds, labels, from, to, calc);
        let t = Tally { out: before, state: group_seed(from as u64) };
        queries_curve_upwards(q, t, to - from, calc);
    }
}

/// No Hessian of a ranking objective is below zero, in an arithmetic whose sums
/// and narrowed numbers keep to their side of zero.
pub proof fn ranking_curves_upwards<F: Fn(Op, u64, u64) -> u64>(
    mode: RankMode,
    preds: Seq<Single>,
    labels: Seq<Single>,
    groups: Option<Seq<usize>>,
    calc: &Calc<F>,
)
    requires
        keeps_sign(calc),
        groups matches Some(ptr) ==> ptr.len() > 0 && bounds_rise(ptr, preds.len() as int),
    ensures
        no_negative_hess(ranked(mode, preds, labels, groups, calc)),
{
    let n = preds.len() as int;
    let zeros = Seq::new(preds.len(), |i: int| zero_pair());
    assert(no_negative_hess(zeros));
    let q = query_of(mode, preds, labels, 0, n, calc);
    let t = Tally { out: zeros, state: group_seed(0) };
    queries_curve_upwards(q, t, n, calc);
    if let Some(ptr) = groups {
        groups_curve_upwards(mode, preds, labels, ptr, ptr.len() - 1, zeros, calc);
    }
}

/// For average precision a pair of documents that are both relevant, or both
/// not, weighs nothing.
pub proof fn swaps_within_a_class_weigh_nothing<F: Fn(Op, u64, u64) -> u64>(
    labs: Seq<Wide>,
    order: Seq<usize>,
    hi: int,
    lo: int,
    calc: &Calc<F>,
)
    requires
        exists|p: int| 0 <= p < order.len() && order[p] == hi,
        exists|p: int| 0 <= p < order.len() && order[p] == lo,
        (Wide { bits: 0 }).lt(labs[hi]) == (Wide { bits: 0 }).lt(labs[lo]),
    ensures
        pair_weight(RankMode::Precision, labs, order, hi, lo, calc) == (Wide { bits: 0 }),
{
    let ph = place_in(order, hi);
    let pl = place_in(order, lo);
    assert(0 <= ph < order.len() && order[ph] == hi);
    assert(0 <= pl < order.len() && order[pl] == lo);
    assert(relevant_at(labs, order, ph) == relevant_at(labs, order, pl));
}

} // verus!
