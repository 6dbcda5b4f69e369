//! Metrics supplied by the caller.

use vstd::prelude::*;

use crate::arith::{Calc, Op};
use crate::data::dmatrix::slice_view;
use crate::data::meta::GroupInfo;
use crate::metric::base::{Metric, MetricInfo};
use crate::number::{Single, Wide};

verus! {

/// Whether a function scores equal data equally.
pub open spec fn scores_steadily<G: Fn(&[Single], &[Single], Option<&[Single]>) -> Wide>(g: G) -> bool {
    &&& forall|p: &[Single], l: &[Single], w: Option<&[Single]>| #[trigger]
        call_requires(g, (p, l, w))
    &&& forall|
        p: &[Single],
        l: &[Single],
        w: Option<&[Single]>,
        q: &[Single],
        m: &[Single],
        v: Option<&[Single]>,
        x: Wide,
        y: Wide,
    |
        #![trigger call_ensures(g, (p, l, w), x), call_ensures(g, (q, m, v), y)]
        p@ == q@ && l@ == m@ && slice_view(w) == slice_view(v) && call_ensures(g, (p, l, w), x)
            && call_ensures(g, (q, m, v), y) ==> x == y
}

/// Whether a function may score data in a way.
pub open spec fn may_score<G: Fn(&[Single], &[Single], Option<&[Single]>) -> Wide>(
    g: G,
    preds: Seq<Single>,
    labels: Seq<Single>,
    weights: Option<Seq<Single>>,
    r: Wide,
) -> bool {
    exists|p: &[Single], l: &[Single], w: Option<&[Single]>|
        p@ == preds && l@ == labels && slice_view(w) == weights && #[trigger] call_ensures(
            g,
            (p, l, w),
            r,
        )
}

/// A metric that is a function of the caller's.
pub struct CustomMetric<G: Fn(&[Single], &[Single], Option<&[Single]>) -> Wide> {
    name: String,
    maximize: bool,
    g: G,
}

impl<G: Fn(&[Single], &[Single], Option<&[Single]>) -> Wide> CustomMetric<G> {
    #[verifier::type_invariant]
    spec fn is_steady(&self) -> bool {
        scores_steadily(self.g)
    }

    /// The metric's name.
    pub closed spec fn label(&self) -> Seq<char> {
        self.name@
    }

    /// Whether greater is better.
    pub closed spec fn upward(&self) -> bool {
        self.maximize
    }

    /// What the function gives.
    pub closed spec fn score(
        &self,
        preds: Seq<Single>,
        labels: Seq<Single>,
        weights: Option<Seq<Single>>,
    ) -> Wide {
        choose|r: Wide| may_score(self.g, preds, labels, weights, r)
    }

    /// A metric with the given name and direction.
    pub fn new(name: String, maximize: bool, g: G) -> (r: Self)
        requires
            scores_steadily(g),
        ensures
            r.label() == name@,
            r.upward() == maximize,
            forall|p: &[Single], l: &[Single], w: Option<&[Single]>, x: Wide| #[trigger]
                call_ensures(g, (p, l, w), x) ==> x == r.score(p@, l@, slice_view(w)),
    {
        let r = CustomMetric { name, maximize, g };
        assert forall|p: &[Single], l: &[Single], w: Option<&[Single]>, x: Wide| #[trigger]
            call_ensures(g, (p, l, w), x) implies x == r.score(p@, l@, slice_view(w)) by {
            assert(may_score(g, p@, l@, slice_view(w), x));
            assert(may_score(g, p@, l@, slice_view(w), r.score(p@, l@, slice_view(w))));
        }
        r
    }
}

impl<G: Fn(&[Single], &[Single], Option<&[Single]>) -> Wide> MetricInfo for CustomMetric<G> {
    open spec fn title(&self) -> Seq<char> {
        self.label()
    }

    open spec fn rises(&self) -> bool {
        self.upward()
    }

    fn name(&self) -> (r: &str) {
        self.name.as_str()
    }

    fn maximize(&self) -> (r: bool) {
        self.maximize
    }
}

impl<
    F: Fn(Op, u64, u64) -> u64,
    G: Fn(&[Single], &[Single], Option<&[Single]>) -> Wide,
> Metric<F> for CustomMetric<G> {
    open spec fn accepts(
        &self,
        preds: Seq<Single>,
        labels: Seq<Single>,
        weights: Option<Seq<Single>>,
        groups: Option<Seq<usize>>,
    ) -> bool {
        true
    }

    open spec fn value(
        &self,
        preds: Seq<Single>,
        labels: Seq<Single>,
        weights: Option<Seq<Single>>,
        groups: Option<Seq<usize>>,
        calc: &Calc<F>,
    ) -> Wide {
        self.score(preds, labels, weights)
    }

    fn eval_grouped(
        &self,
        preds: &[Single],
        labels: &[Single],
        weights: Option<&[Single]>,
        group: Option<&GroupInfo>,
        calc: &Calc<F>,
    ) -> (r: Wide) {
        proof {
            use_type_invariant(self);
        }
        let g = &self.g;
        let r = g(preds, labels, weights);
        proof {
            let w = slice_view(weights);
            assert(call_ensures(self.g, (preds, labels, weights), r));
            assert(may_score(self.g, preds@, labels@, w, r));
            assert(may_score(self.g, preds@, labels@, w, self.score(preds@, labels@, w)));
        }
        r
    }
}

} // verus!
