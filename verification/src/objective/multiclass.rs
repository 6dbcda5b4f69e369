//! Multiclass classification objectives.
//!
//! With `k` classes every instance carries `k` margins, one after the other;
//! each round grows one tree per class.

use vstd::prelude::*;

use crate::arith::{Calc, Op};
use crate::data::dmatrix::slice_view;
use crate::data::meta::GroupInfo;
use crate::number::{Single, ONE_S, TWO_S};
use crate::objective::base::{groups_of, weight_at, weight_of, Objective, ObjectiveInfo};
use crate::objective::pair::GradPair;

verus! {

/// The bit pattern of the least multiclass Hessian, `1e-16`.
pub const MIN_HESS: u32 = 0x24e6_9595;

/// The greatest of the first `n` margins, or negative infinity.
pub open spec fn greatest_margin(row: Seq<Single>, n: int) -> Single
    decreases n,
{
    if n <= 0 {
        Single { bits: 0xff80_0000 }
    } else {
        let so_far = greatest_margin(row, n - 1);
        if so_far.lt(row[n - 1]) { row[n - 1] } else { so_far }
    }
}

/// The exponential of a margin less the greatest.
pub open spec fn shifted_exp<F: Fn(Op, u64, u64) -> u64>(
    row: Seq<Single>,
    c: int,
    calc: &Calc<F>,
) -> Single {
    calc.exponential_s(calc.minus_s(row[c], greatest_margin(row, row.len() as int)))
}

/// The sum of the first `n` shifted exponentials.
pub open spec fn exp_sum<F: Fn(Op, u64, u64) -> u64>(
    row: Seq<Single>,
    n: int,
    calc: &Calc<F>,
) -> Single
    decreases n,
{
    if n <= 0 {
        Single { bits: 0 }
    } else {
        calc.plus_s(exp_sum(row, n - 1, calc), shifted_exp(row, n - 1, calc))
    }
}

/// The softmax of a row of margins.
pub open spec fn softmax<F: Fn(Op, u64, u64) -> u64>(
    row: Seq<Single>,
    calc: &Calc<F>,
) -> Seq<Single> {
    let scale = calc.over_s(Single { bits: ONE_S }, exp_sum(row, row.len() as int, calc));
    Seq::new(row.len(), |c: int| calc.times_s(shifted_exp(row, c, calc), scale))
}

/// Replace the margins `[from, to)` of a list by their softmax.
pub fn softmax_inplace<F: Fn(Op, u64, u64) -> u64>(
    list: &mut Vec<Single>,
    from: usize,
    to: usize,
    calc: &Calc<F>,
)
    requires
        from <= to <= old(list).len(),
    ensures
        final(list).len() == old(list).len(),
        final(list)@.subrange(from as int, to as int) == softmax(
            old(list)@.subrange(from as int, to as int),
            calc,
        ),
        forall|i: int|
            0 <= i < from || to <= i < old(list).len() ==> #[trigger] final(list)[i] == old(
                list,
            )[i],
{
    let ghost was = list@;
    let ghost row = was.subrange(from as int, to as int);
    let mut max = Single { bits: 0xff80_0000 };
    let mut i: usize = from;
    while i < to
        invariant
            from <= i <= to <= list.len(),
            list@ == was,
            row == was.subrange(from as int, to as int),
            max == greatest_margin(row, i - from),
        decreases to - i,
    {
        assert(row[i - from] == list[i as int]);
        if max.is_lt(list[i]) {
            max = list[i];
        }
        i = i + 1;
    }
    let mut sum = Single::zero();
    let mut i: usize = from;
    while i < to
        invariant
            from <= i <= to <= list.len(),
            list.len() == was.len(),
            row == was.subrange(from as int, to as int),
            max == greatest_margin(row, row.len() as int),
            sum == exp_sum(row, i - from, calc),
            forall|k: int|
                0 <= k < list.len() && !(from <= k < i) ==> #[trigger] list[k] == was[k],
            forall|k: int|
                from <= k < i ==> #[trigger] list[k] == shifted_exp(row, k - from, calc),
        decreases to - i,
    {
        assert(row[i - from] == list[i as int]);
        let e = calc.exp_s(calc.sub_s(list[i], max));
        list.set(i, e);
        sum = calc.add_s(sum, e);
        i = i + 1;
    }
    let scale = calc.div_s(Single { bits: ONE_S }, sum);
    let mut i: usize = from;
    while i < to
        invariant
            from <= i <= to <= list.len(),
            list.len() == was.len(),
            row == was.subrange(from as int, to as int),
            scale == calc.over_s(Single { bits: ONE_S }, exp_sum(row, row.len() as int, calc)),
            forall|k: int|
                0 <= k < from || to <= k < list.len() ==> #[trigger] list[k] == was[k],
            forall|k: int|
                i <= k < to ==> #[trigger] list[k] == shifted_exp(row, k - from, calc),
            forall|k: int|
                from <= k < i ==> #[trigger] list[k] == calc.times_s(
                    shifted_exp(row, k - from, calc),
                    scale,
                ),
        decreases to - i,
    {
        let p = calc.mul_s(list[i], scale);
        list.set(i, p);
        i = i + 1;
    }
    assert(list@.subrange(from as int, to as int) =~= softmax(row, calc));
}

/// The softmax objective: reports class probabilities, or the class itself.
#[derive(Clone, Copy, Debug)]
pub struct SoftmaxObjective {
    num_class: usize,
    output_prob: bool,
}

impl SoftmaxObjective {
    /// The number of classes.
    pub closed spec fn classes(&self) -> int {
        self.num_class as int
    }

    /// Whether probabilities are reported.
    pub closed spec fn reports_probabilities(&self) -> bool {
        self.output_prob
    }

    pub(crate) proof fn over(num_class: usize, output_prob: bool) -> (r: Self)
        ensures
            r.classes() == num_class,
            r.reports_probabilities() == output_prob,
    {
        SoftmaxObjective { num_class, output_prob }
    }

    /// A softmax objective over the given number of classes.
    pub fn new(num_class: usize, output_prob: bool) -> (r: Self)
        ensures
            r.classes() == num_class,
            r.reports_probabilities() == output_prob,
    {
        SoftmaxObjective { num_class, output_prob }
    }
}

/// The row of margins of instance `i`.
pub open spec fn margins_of(preds: Seq<Single>, k: int, i: int) -> Seq<Single> {
    preds.subrange(i * k, i * k + k)
}

/// The gradient of class `c` of an instance with the given class probability.
pub open spec fn softmax_pair<F: Fn(Op, u64, u64) -> u64>(
    p: Single,
    c: int,
    label: int,
    w: Single,
    calc: &Calc<F>,
) -> GradPair {
    let one = Single { bits: ONE_S };
    let target = if c == label { one } else { Single { bits: 0 } };
    GradPair {
        grad: calc.times_s(calc.minus_s(p, target), w),
        hess: calc.times_s(
            calc.times_s(calc.times_s(Single { bits: TWO_S }, p), calc.minus_s(one, p)),
            w,
        ).greater(Single { bits: MIN_HESS }),
    }
}

/// The end of the chunk of `k` margins that starts at `from`.
pub open spec fn chunk_end(len: int, k: int, from: int) -> int {
    if from + k < len { from + k } else { len }
}

proof fn row_bounds(n: int, k: int, i: int)
    requires
        0 <= i < n,
        0 < k,
    ensures
        0 <= i * k,
        i * k + k <= n * k,
        (i + 1) * k == i * k + k,
{
    assert(0 <= i * k && i * k + k <= n * k && (i + 1) * k == i * k + k) by (nonlinear_arith)
        requires
            0 <= i < n,
            0 < k,
    ;
}

proof fn row_of_index(k: int, i: int, c: int)
    requires
        0 <= i,
        0 <= c < k,
    ensures
        (i * k + c) / k == i,
        (i * k + c) % k == c,
{
    vstd::arithmetic::div_mod::lemma_fundamental_div_mod_converse(i * k + c, k, i, c);
}

impl ObjectiveInfo for SoftmaxObjective {
    open spec fn title(&self) -> Seq<char> {
        if self.reports_probabilities() { "multi:softprob"@ } else { "multi:softmax"@ }
    }

    open spec fn outputs(&self) -> int {
        self.classes()
    }

    open spec fn metric(&self) -> Seq<char> {
        "mlogloss"@
    }

    fn name(&self) -> (r: &str) {
        if self.output_prob { "multi:softprob" } else { "multi:softmax" }
    }

    fn n_outputs(&self) -> (r: usize) {
        self.num_class
    }

    fn default_metric(&self) -> (r: &str) {
        "mlogloss"
    }
}

impl<F: Fn(Op, u64, u64) -> u64> Objective<F> for SoftmaxObjective {
    open spec fn usable(&self) -> bool {
        self.classes() > 0
    }

    open spec fn gradients(
        &self,
        preds: Seq<Single>,
        labels: Seq<Single>,
        weights: Option<Seq<Single>>,
        groups: Option<Seq<usize>>,
        calc: &Calc<F>,
    ) -> Seq<GradPair> {
        let k = self.classes();
        Seq::new(
            preds.len(),
            |j: int|
                softmax_pair(
                    softmax(margins_of(preds, k, j / k), calc)[j % k],
                    j % k,
                    labels[j / k].count(usize::MAX as int),
                    weight_at(weights, j / k),
                    calc,
                ),
        )
    }

    open spec fn transformed(&self, preds: Seq<Single>, calc: &Calc<F>) -> Seq<Single> {
        let k = self.classes();
        Seq::new(
            preds.len(),
            |j: int|
                softmax(
                    preds.subrange(
                        (j / k) * k,
                        chunk_end(preds.len() as int, k, (j / k) * k),
                    ),
                    calc,
                )[j % k],
        )
    }

    open spec fn start(
        &self,
        labels: Seq<Single>,
        weights: Option<Seq<Single>>,
        calc: &Calc<F>,
    ) -> Single {
        Single { bits: 0 }
    }

    open spec fn margin_of(&self, base_score: Single, calc: &Calc<F>) -> Single {
        base_score
    }

    fn gradient_grouped(
        &self,
        preds: &[Single],
        labels: &[Single],
        weights: Option<&[Single]>,
        group: Option<&GroupInfo>,
        out: &mut Vec<GradPair>,
        calc: &Calc<F>,
    ) {
        let ghost want = <Self as Objective<F>>::gradients(
            self,
            preds@,
            labels@,
            slice_view(weights),
            groups_of(group),
            calc,
        );
        let k: usize = self.num_class;
        let n: usize = labels.len();
        let mut i: usize = 0;
        let mut base: usize = 0;
        assert(0 * k == 0);
        while i < n
            invariant
                k == self.classes(),
                k > 0,
                n == labels.len(),
                preds.len() == n * k,
                out.len() == preds.len(),
                weights matches Some(w) ==> w@.len() == n,
                want == <Self as Objective<F>>::gradients(
                    self,
                    preds@,
                    labels@,
                    slice_view(weights),
                    groups_of(group),
                    calc,
                ),
                i <= n,
                base == i * k,
                base <= preds.len(),
                forall|j: int| 0 <= j < base ==> #[trigger] out[j] == want[j],
            decreases n - i,
        {
            proof {
                row_bounds(n as int, k as int, i as int);
            }
            let ghost row = margins_of(preds@, k as int, i as int);
            let mut probs: Vec<Single> = vstd::slice::slice_to_vec(
                vstd::slice::slice_subrange(preds, base, base + k),
            );
            assert(probs@ =~= row);
            assert(probs@.subrange(0, k as int) =~= row);
            softmax_inplace(&mut probs, 0, k, calc);
            assert(probs@.subrange(0, k as int) =~= probs@);
            let w = weight_of(weights, i);
            let label: usize = labels[i].to_usize();
            let mut c: usize = 0;
            while c < k
                invariant
                    k == self.classes(),
                    k > 0,
                    i < n,
                    n == labels.len(),
                    base == i * k,
                    base + k <= preds.len(),
                    out.len() == preds.len(),
                    probs.len() == k,
                    probs@ == softmax(row, calc),
                    row == margins_of(preds@, k as int, i as int),
                    w == weight_at(slice_view(weights), i as int),
                    label == labels[i as int].count(usize::MAX as int),
                    want == <Self as Objective<F>>::gradients(
                        self,
                        preds@,
                        labels@,
                        slice_view(weights),
                        groups_of(group),
                        calc,
                    ),
                    c <= k,
                    forall|j: int| 0 <= j < base + c ==> #[trigger] out[j] == want[j],
                decreases k - c,
            {
                let one = Single { bits: ONE_S };
                let p = probs[c];
                let target = if c == label { one } else { Single::zero() };
                let grad = calc.mul_s(calc.sub_s(p, target), w);
                let curve = calc.mul_s(
                    calc.mul_s(Single { bits: TWO_S }, p),
                    calc.sub_s(one, p),
                );
                let hess = calc.mul_s(curve, w).max(Single { bits: MIN_HESS });
                proof {
                    row_of_index(k as int, i as int, c as int);
                }
                out.set(base + c, GradPair::new(grad, hess));
                assert(out[base + c] == want[base + c]);
                c = c + 1;
            }
            base = base + k;
            i = i + 1;
        }
        assert(out@ =~= want);
    }

    fn pred_transform(&self, preds: &mut Vec<Single>, calc: &Calc<F>) {
        let ghost was = preds@;
        let ghost want = <Self as Objective<F>>::transformed(self, was, calc);
        let k: usize = self.num_class;
        let n: usize = preds.len();
        let mut from: usize = 0;
        let ghost mut i: int = 0;
        assert(0 * k == 0);
        while from < n
            invariant
                k == self.classes(),
                k > 0,
                n == was.len(),
                preds.len() == n,
                want == <Self as Objective<F>>::transformed(self, was, calc),
                from <= n,
                0 <= i,
                from < n ==> from == i * k,
                forall|j: int| 0 <= j < from ==> #[trigger] preds[j] == want[j],
                forall|j: int| from <= j < n ==> #[trigger] preds[j] == was[j],
            decreases n - from,
        {
            let to: usize = if k < n - from { from + k } else { n };
            let ghost before = preds@;
            assert(before.subrange(from as int, to as int) =~= was.subrange(
                from as int,
                to as int,
            ));
            softmax_inplace(preds, from, to, calc);
            proof {
                assert forall|j: int| 0 <= j < to implies #[trigger] preds[j] == want[j] by {
                    if j >= from {
                        row_of_index(k as int, i, j - from);
                        assert(preds@.subrange(from as int, to as int)[j - from] == preds[j]);
                    } else {
                        assert(preds[j] == before[j]);
                    }
                }
                assert((i + 1) * k == i * k + k) by (nonlinear_arith);
                i = i + 1;
            }
            from = to;
        }
        assert(preds@ =~= want);
    }

    fn base_margin(
        &self,
        labels: &[Single],
        weights: Option<&[Single]>,
        calc: &Calc<F>,
    ) -> (r: Single) {
        Single::zero()
    }

    fn prob_to_margin(&self, base_score: Single, calc: &Calc<F>) -> (r: Single) {
        base_score
    }
}

} // verus!
