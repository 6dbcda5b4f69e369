//! Objectives supplied by the caller.

use vstd::prelude::*;

use crate::arith::{Calc, Op};
use crate::data::dmatrix::slice_view;
use crate::data::meta::GroupInfo;
use crate::number::Single;
use crate::objective::base::{Objective, ObjectiveInfo};
use crate::objective::pair::GradPair;

verus! {

/// Whether a function gives one gradient per margin, and equal ones for equal
/// data.
pub open spec fn grades_steadily<
    G: Fn(&[Single], &[Single], Option<&[Single]>) -> Vec<GradPair>,
>(g: G) -> bool {
    &&& forall|p: &[Single], l: &[Single], w: Option<&[Single]>| #[trigger]
        call_requires(g, (p, l, w))
    &&& forall|p: &[Single], l: &[Single], w: Option<&[Single]>, x: Vec<GradPair>| #[trigger]
        call_ensures(g, (p, l, w), x) ==> x@.len() == p@.len()
    &&& forall|
        p: &[Single],
        l: &[Single],
        w: Option<&[Single]>,
        q: &[Single],
        m: &[Single],
        v: Option<&[Single]>,
        x: Vec<GradPair>,
        y: Vec<GradPair>,
    |
        #![trigger call_ensures(g, (p, l, w), x), call_ensures(g, (q, m, v), y)]
        p@ == q@ && l@ == m@ && slice_view(w) == slice_view(v) && call_ensures(g, (p, l, w), x)
            && call_ensures(g, (q, m, v), y) ==> x@ == y@
}

/// Whether a function may give these gradients.
pub open spec fn may_grade<G: Fn(&[Single], &[Single], Option<&[Single]>) -> Vec<GradPair>>(
    g: G,
    preds: Seq<Single>,
    labels: Seq<Single>,
    weights: Option<Seq<Single>>,
    r: Seq<GradPair>,
) -> bool {
    exists|p: &[Single], l: &[Single], w: Option<&[Single]>, x: Vec<GradPair>|
        p@ == preds && l@ == labels && slice_view(w) == weights && x@ == r
            && #[trigger] call_ensures(g, (p, l, w), x)
}

/// How margins turn into reported predictions.
pub trait Reshape {
    /// The predictions of margins.
    spec fn reshaped(&self, preds: Seq<Single>) -> Seq<Single>;

    /// The predictions of margins.
    fn reshape(&self, preds: &[Single]) -> (r: Vec<Single>)
        ensures
            r@ == self.reshaped(preds@),
            r.len() == preds.len(),
    ;
}

/// Margins are reported as they are.
pub struct Unchanged;

impl Reshape for Unchanged {
    open spec fn reshaped(&self, preds: Seq<Single>) -> Seq<Single> {
        preds
    }

    fn reshape(&self, preds: &[Single]) -> (r: Vec<Single>) {
        vstd::slice::slice_to_vec(preds)
    }
}

/// Whether a function gives one prediction per margin, and equal ones for
/// equal margins.
pub open spec fn maps_steadily<T: Fn(&[Single]) -> Vec<Single>>(t: T) -> bool {
    &&& forall|p: &[Single]| #[trigger] call_requires(t, (p,))
    &&& forall|p: &[Single], x: Vec<Single>| #[trigger]
        call_ensures(t, (p,), x) ==> x@.len() == p@.len()
    &&& forall|p: &[Single], q: &[Single], x: Vec<Single>, y: Vec<Single>|
        #![trigger call_ensures(t, (p,), x), call_ensures(t, (q,), y)]
        p@ == q@ && call_ensures(t, (p,), x) && call_ensures(t, (q,), y) ==> x@ == y@
}

/// Whether a function may give these predictions.
pub open spec fn may_map<T: Fn(&[Single]) -> Vec<Single>>(
    t: T,
    preds: Seq<Single>,
    r: Seq<Single>,
) -> bool {
    exists|p: &[Single], x: Vec<Single>|
        p@ == preds && x@ == r && #[trigger] call_ensures(t, (p,), x)
}

/// Margins are reported as a function of the caller's gives them.
pub struct Mapped<T: Fn(&[Single]) -> Vec<Single>> {
    t: T,
}

impl<T: Fn(&[Single]) -> Vec<Single>> Mapped<T> {
    #[verifier::type_invariant]
    spec fn is_steady(&self) -> bool {
        maps_steadily(self.t)
    }

    /// What the function gives.
    pub closed spec fn image(&self, preds: Seq<Single>) -> Seq<Single> {
        choose|r: Seq<Single>| may_map(self.t, preds, r)
    }

    /// The transform that a function is.
    pub fn new(t: T) -> (r: Self)
        requires
            maps_steadily(t),
        ensures
            forall|p: &[Single], x: Vec<Single>| #[trigger]
                call_ensures(t, (p,), x) ==> x@ == r.image(p@),
    {
        let r = Mapped { t };
        assert forall|p: &[Single], x: Vec<Single>| #[trigger] call_ensures(t, (p,), x) implies x@
            == r.image(p@) by {
            assert(may_map(t, p@, x@));
            assert(may_map(t, p@, r.image(p@)));
        }
        r
    }
}

impl<T: Fn(&[Single]) -> Vec<Single>> Reshape for Mapped<T> {
    open spec fn reshaped(&self, preds: Seq<Single>) -> Seq<Single> {
        self.image(preds)
    }

    fn reshape(&self, preds: &[Single]) -> (r: Vec<Single>) {
        proof {
            use_type_invariant(self);
        }
        let t = &self.t;
        let r = t(preds);
        proof {
            assert(call_ensures(self.t, (preds,), r));
            assert(may_map(self.t, preds@, r@));
            assert(may_map(self.t, preds@, self.image(preds@)));
        }
        r
    }
}

/// An objective that is made of functions of the caller's.
pub struct CustomObjective<
    G: Fn(&[Single], &[Single], Option<&[Single]>) -> Vec<GradPair>,
    T: Reshape,
> {
    name: String,
    n_outputs: usize,
    base: Single,
    default_metric: String,
    grad_fn: G,
    transform_fn: T,
}

impl<
    G: Fn(&[Single], &[Single], Option<&[Single]>) -> Vec<GradPair>,
    T: Reshape,
> CustomObjective<G, T> {
    #[verifier::type_invariant]
    spec fn is_steady(&self) -> bool {
        grades_steadily(self.grad_fn)
    }

    /// The objective's name.
    pub closed spec fn label(&self) -> Seq<char> {
        self.name@
    }

    /// The number of outputs.
    pub closed spec fn width(&self) -> int {
        self.n_outputs as int
    }

    /// The margin to start from.
    pub closed spec fn base(&self) -> Single {
        self.base
    }

    /// The name of the metric to report.
    pub closed spec fn metric_name(&self) -> Seq<char> {
        self.default_metric@
    }

    /// What the gradient function gives.
    pub closed spec fn grades(
        &self,
        preds: Seq<Single>,
        labels: Seq<Single>,
        weights: Option<Seq<Single>>,
    ) -> Seq<GradPair> {
        choose|r: Seq<GradPair>| may_grade(self.grad_fn, preds, labels, weights, r)
    }

    /// How margins are reported.
    pub closed spec fn transform(&self) -> T {
        self.transform_fn
    }

    /// Replace the way in which margins are reported.
    pub fn with_transform<U: Reshape>(self, transform: U) -> (r: CustomObjective<G, U>)
        ensures
            r.label() == self.label(),
            r.width() == self.width(),
            r.base() == self.base(),
            r.metric_name() == self.metric_name(),
            r.transform() == transform,
            forall|p: Seq<Single>, l: Seq<Single>, w: Option<Seq<Single>>| #[trigger]
                r.grades(p, l, w) == self.grades(p, l, w),
    {
        proof {
            use_type_invariant(&self);
        }
        CustomObjective {
            name: self.name,
            n_outputs: self.n_outputs,
            base: self.base,
            default_metric: self.default_metric,
            grad_fn: self.grad_fn,
            transform_fn: transform,
        }
    }
}

impl<
    G: Fn(&[Single], &[Single], Option<&[Single]>) -> Vec<GradPair>,
> CustomObjective<G, Unchanged> {
    /// An objective with the given gradients, starting from `base`, that
    /// reports margins as they are.
    pub fn new(
        name: String,
        n_outputs: usize,
        base: Single,
        default_metric: String,
        grad_fn: G,
    ) -> (r: Self)
        requires
            grades_steadily(grad_fn),
        ensures
            r.label() == name@,
            r.width() == n_outputs,
            r.base() == base,
            r.metric_name() == default_metric@,
            r.transform() == Unchanged,
            forall|p: &[Single], l: &[Single], w: Option<&[Single]>, x: Vec<GradPair>| #[trigger]
                call_ensures(grad_fn, (p, l, w), x) ==> x@ == r.grades(p@, l@, slice_view(w)),
    {
        let r = CustomObjective {
            name,
            n_outputs,
            base,
            default_metric,
            grad_fn,
            transform_fn: Unchanged,
        };
        assert forall|p: &[Single], l: &[Single], w: Option<&[Single]>, x: Vec<GradPair>| #[trigger]
            call_ensures(grad_fn, (p, l, w), x) implies x@ == r.grades(p@, l@, slice_view(w)) by {
            let v = slice_view(w);
            assert(may_grade(grad_fn, p@, l@, v, x@));
            assert(may_grade(grad_fn, p@, l@, v, r.grades(p@, l@, v)));
        }
        r
    }
}

impl<
    G: Fn(&[Single], &[Single], Option<&[Single]>) -> Vec<GradPair>,
    T: Reshape,
> ObjectiveInfo for CustomObjective<G, T> {
    open spec fn title(&self) -> Seq<char> {
        self.label()
    }

    open spec fn outputs(&self) -> int {
        self.width()
    }

    open spec fn metric(&self) -> Seq<char> {
        self.metric_name()
    }

    fn name(&self) -> (r: &str) {
        self.name.as_str()
    }

    fn n_outputs(&self) -> (r: usize) {
        self.n_outputs
    }

    fn default_metric(&self) -> (r: &str) {
        self.default_metric.as_str()
    }
}

impl<
    F: Fn(Op, u64, u64) -> u64,
    G: Fn(&[Single], &[Single], Option<&[Single]>) -> Vec<GradPair>,
    T: Reshape,
> Objective<F> for CustomObjective<G, T> {
    open spec fn usable(&self) -> bool {
        true
    }

    open spec fn gradients(
        &self,
        preds: Seq<Single>,
        labels: Seq<Single>,
        weights: Option<Seq<Single>>,
        groups: Option<Seq<usize>>,
        calc: &Calc<F>,
    ) -> Seq<GradPair> {
        self.grades(preds, labels, weights)
    }

    open spec fn transformed(&self, preds: Seq<Single>, calc: &Calc<F>) -> Seq<Single> {
        self.transform().reshaped(preds)
    }

    open spec fn start(
        &self,
        labels: Seq<Single>,
        weights: Option<Seq<Single>>,
        calc: &Calc<F>,
    ) -> Single {
        self.base()
    }

    open spec fn margin_of(&self, base_score: Single, calc: &Calc<F>) -> Single {
        base_score
    }

    fn gradient_grouped(
        &self,
        preds: &[Single],
        labels: &[Single],
        weights: Option<&[Single]>,
        group: Option<&GroupInfo>,
        out: &mut Vec<GradPair>,
        calc: &Calc<F>,
    ) {
        proof {
            use_type_invariant(self);
        }
        let g = &self.grad_fn;
        let r = g(preds, labels, weights);
        proof {
            let w = slice_view(weights);
            assert(call_ensures(self.grad_fn, (preds, labels, weights), r));
            assert(may_grade(self.grad_fn, preds@, labels@, w, r@));
            assert(may_grade(self.grad_fn, preds@, labels@, w, self.grades(preds@, labels@, w)));
        }
        *out = r;
    }

    fn pred_transform(&self, preds: &mut Vec<Single>, calc: &Calc<F>) {
        let r = self.transform_fn.reshape(preds.as_slice());
        *preds = r;
    }

    fn base_margin(
        &self,
        labels: &[Single],
        weights: Option<&[Single]>,
        calc: &Calc<F>,
    ) -> (r: Single) {
        self.base
    }

    fn prob_to_margin(&self, base_score: Single, calc: &Calc<F>) -> (r: Single) {
        base_score
    }
}

} // verus!
