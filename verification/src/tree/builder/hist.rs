//! Histogram-based tree construction.
//!
//! Features are binned once; growing a node comes down to scanning its
//! gradient histogram. Of two siblings the histogram of the smaller is built
//! and that of the other follows by subtraction. Growth is level by level or by
//! loss reduction.

use vstd::prelude::*;

use crate::arith::{Calc, Op};
use crate::config::{GrowPolicy, TrainingParams};
use crate::data::ghist::{first_within, first_within_finds, GHistIndex};
use crate::data::quantile::HistCuts;
use crate::number::{Single, Wide, ONE};
use crate::objective::pair::GradPair;
use crate::tree::builder::exact::{features_exist, rows_stats, splits_among};
use crate::tree::builder::growth::{
    arranged, boundary, categorical, eval_boundary, eval_categorical, no_split,
    nothing_is_not_found, ratio_order,
    root_growth, sweep, target_of, valid, Best, BestSplit, Growth, Grown, Target,
};
use crate::tree::constraints::{Bounds, MonotoneConstraints};
use crate::tree::gain::{no_stats, GradStats, RegParams};
use crate::tree::hist::{
    is_histogram, rows_fit, subtracted, zeroed, CpuBackend, Histogram, HistogramBackend,
};
use crate::tree::builder::laws::{is_height, settles_by_height, settling_keeps_the_shape};
use crate::tree::interaction::{
    groups_view, permitted, InteractionConstraints,
};
use crate::tree::regtree::{settles, RegTree};
use crate::tree::sampler::{after_draw_at, draw_at, ColumnSampler, Sampling};

verus! {

/// Statistics of the bins from `fs` up to `n` together.
pub open spec fn bins_stats<F: Fn(Op, u64, u64) -> u64>(
    hist: Seq<GradStats>,
    fs: int,
    n: int,
    calc: &Calc<F>,
) -> GradStats
    decreases n - fs,
{
    if n <= fs {
        no_stats()
    } else {
        bins_stats(hist, fs, n - 1, calc).joined(hist[n - 1], calc)
    }
}

/// What splits of a binned node are weighed by.
#[verifier::ext_equal]
pub struct Rules {
    /// The cuts.
    pub cuts: HistCuts,
    /// The directions of features.
    pub cons: MonotoneConstraints,
    /// The regularization.
    pub reg: RegParams,
}

/// The best split after weighing the boundaries behind the bins `fs..n` of a
/// numeric feature with bins `fs..fe`.
pub open spec fn numeric_scan<F: Fn(Op, u64, u64) -> u64>(
    rules: Rules,
    hist: Seq<GradStats>,
    target: Target,
    best: Best,
    f: u32,
    fs: int,
    fe: int,
    n: int,
    calc: &Calc<F>,
) -> Best
    decreases n - fs,
{
    if n <= fs {
        best
    } else {
        boundary(
            numeric_scan(rules, hist, target, best, f, fs, fe, n - 1, calc),
            target,
            rules.cons.direction(f as int),
            bins_stats(hist, fs, fe, calc),
            bins_stats(hist, fs, n, calc),
            f,
            rules.cuts.cuts()[n - 1],
            (n - 1) as usize,
            rules.reg,
            calc,
        )
    }
}

/// The categories of the bins `fs..n` that hold any weight, and their
/// statistics.
pub open spec fn category_table(
    cuts: &HistCuts,
    hist: Seq<GradStats>,
    fs: int,
    n: int,
) -> (Seq<u32>, Seq<GradStats>)
    decreases n - fs,
{
    if n <= fs {
        (Seq::empty(), Seq::empty())
    } else {
        let (cats, stats) = category_table(cuts, hist, fs, n - 1);
        if (Wide { bits: 0 }).lt(hist[n - 1].hess) {
            (
                cats.push(cuts.cuts()[n - 1].count(u32::MAX as int) as u32),
                stats.push(hist[n - 1]),
            )
        } else {
            (cats, stats)
        }
    }
}

/// The best split after weighing the first `n` of the given features.
pub open spec fn features_scan<F: Fn(Op, u64, u64) -> u64>(
    rules: Rules,
    hist: Seq<GradStats>,
    target: Target,
    features: Seq<u32>,
    n: int,
    calc: &Calc<F>,
) -> Best
    decreases n,
{
    if n <= 0 {
        no_split()
    } else {
        let so_far = features_scan(rules, hist, target, features, n - 1, calc);
        let f = features[n - 1];
        let fs = rules.cuts.start(f as int);
        let fe = rules.cuts.start(f + 1);
        if fe <= fs + 1 {
            so_far
        } else if rules.cuts.categorical(f as int) {
            let (cats, stats) = category_table(&rules.cuts, hist, fs, fe);
            categorical(
                so_far,
                target,
                rules.cons.direction(f as int),
                f,
                cats,
                stats,
                rules.reg,
                calc,
            )
        } else {
            numeric_scan(rules, hist, target, so_far, f, fs, fe, fe - 1, calc)
        }
    }
}

/// The best split of a node with the given histogram.
pub open spec fn evaluated<F: Fn(Op, u64, u64) -> u64>(
    rules: Rules,
    hist: Seq<GradStats>,
    total: GradStats,
    bounds: Bounds,
    features: Seq<u32>,
    calc: &Calc<F>,
) -> Best {
    features_scan(
        rules,
        hist,
        target_of(total, bounds, true, rules.reg, calc),
        features,
        features.len() as int,
        calc,
    )
}

/// Whether a row goes to the left side of a split, by its bin.
pub open spec fn bin_goes_left(cuts: &HistCuts, b: Best, bin: Option<u32>) -> bool {
    match bin {
        Some(x) => if b.is_categorical {
            b.cat_left.contains(cuts.cuts()[x as int].count(u32::MAX as int) as u32)
        } else {
            x <= b.split_bin
        },
        None => b.default_left,
    }
}

/// Whether a row of a binned dataset goes to the left side of a split.
pub open spec fn row_goes_left(ghist: &GHistIndex, b: Best, r: u32) -> bool {
    let cuts = ghist.table();
    bin_goes_left(
        &cuts,
        b,
        first_within(
            ghist.row_bins(r as int),
            cuts.start(b.feature as int),
            cuts.start(b.feature + 1),
            0,
        ),
    )
}

/// The rows on the left side of a split.
pub open spec fn left_rows(ghist: &GHistIndex, b: Best, rows: Seq<u32>) -> Seq<u32> {
    rows.filter(|r: u32| row_goes_left(ghist, b, r))
}

/// The rows on the right side of a split.
pub open spec fn right_rows(ghist: &GHistIndex, b: Best, rows: Seq<u32>) -> Seq<u32> {
    rows.filter(|r: u32| !row_goes_left(ghist, b, r))
}

/// A split sends every row to one side and loses none.
pub proof fn splits_partition_the_rows(ghist: &GHistIndex, b: Best, rows: Seq<u32>)
    ensures
        left_rows(ghist, b, rows).len() + right_rows(ghist, b, rows).len() == rows.len(),
        forall|r: u32| #[trigger]
            rows.contains(r) <==> (left_rows(ghist, b, rows).contains(r) || right_rows(
                ghist,
                b,
                rows,
            ).contains(r)),
        forall|r: u32|
            !(#[trigger] left_rows(ghist, b, rows).contains(r) && right_rows(
                ghist,
                b,
                rows,
            ).contains(r)),
    decreases rows.len(),
{
    let goes = |r: u32| row_goes_left(ghist, b, r);
    let stays = |r: u32| !row_goes_left(ghist, b, r);
    let left = left_rows(ghist, b, rows);
    let right = right_rows(ghist, b, rows);
    assert forall|r: u32| #[trigger] rows.contains(r) implies left.contains(r) || right.contains(
        r,
    ) by {
        let i = choose|i: int| 0 <= i < rows.len() && rows[i] == r;
        if goes(rows[i]) {
            rows.lemma_filter_contains(goes, i);
        } else {
            rows.lemma_filter_contains(stays, i);
        }
    }
    assert forall|r: u32| left.contains(r) implies #[trigger] rows.contains(r) by {
        rows.lemma_filter_contains_rev(goes, r);
    }
    assert forall|r: u32| right.contains(r) implies #[trigger] rows.contains(r) by {
        rows.lemma_filter_contains_rev(stays, r);
    }
    assert forall|r: u32| !(#[trigger] left.contains(r) && right.contains(r)) by {
        if left.contains(r) && right.contains(r) {
            let i = choose|i: int| 0 <= i < left.len() && left[i] == r;
            let j = choose|j: int| 0 <= j < right.len() && right[j] == r;
            rows.lemma_filter_pred(goes, i);
            rows.lemma_filter_pred(stays, j);
        }
    }
    reveal(Seq::filter);
    if rows.len() > 0 {
        splits_partition_the_rows(ghist, b, rows.drop_last());
    }
}

/// A node that may still be split.
#[verifier::ext_equal]
pub struct OpenNode {
    /// The node.
    pub nid: int,
    /// Its distance from the root.
    pub depth: int,
    /// Its rows.
    pub rows: Seq<u32>,
    /// Its histogram.
    pub hist: Seq<GradStats>,
    /// The features that its splits are sought among.
    pub features: Seq<u32>,
}

/// The state of growth between two splits.
#[verifier::ext_equal]
pub struct Step {
    /// The tree.
    pub g: Grown,
    /// The nodes that may still be split.
    pub open: Seq<OpenNode>,
    /// The column sampler.
    pub sampling: Sampling,
}

/// What a tree is grown from and under which rules.
#[verifier::ext_equal]
pub struct Plan {
    /// The binned dataset.
    pub ghist: GHistIndex,
    /// The gradients of every row.
    pub gp: Seq<GradPair>,
    /// The directions of features.
    pub cons: MonotoneConstraints,
    /// The regularization.
    pub reg: RegParams,
    /// The loss reduction that a split must exceed.
    pub gamma: Wide,
    /// The groups of features that may interact.
    pub groups: Seq<Seq<u32>>,
    /// The features that every node is offered in this order, instead of a
    /// draw of its own.
    pub listed: Option<Seq<u32>>,
    /// The greatest depth.
    pub depth_limit: int,
    /// Which node is split next.
    pub policy: GrowPolicy,
    /// The greatest number of leaves.
    pub max_leaves: int,
}

impl Plan {
    /// What splits are weighed by.
    pub open spec fn rules(self) -> Rules {
        Rules { cuts: self.ghist.table(), cons: self.cons, reg: self.reg }
    }

    /// The features that the next node is offered.
    pub open spec fn offered<F: Fn(Op, u64, u64) -> u64>(
        self,
        s: Sampling,
        calc: &Calc<F>,
    ) -> Seq<u32> {
        match self.listed {
            Some(features) => features,
            None => draw_at(s, calc),
        }
    }

    /// The sampler after the next node is offered its features.
    pub open spec fn after_offer<F: Fn(Op, u64, u64) -> u64>(
        self,
        s: Sampling,
        calc: &Calc<F>,
    ) -> Sampling {
        match self.listed {
            Some(_) => s,
            None => after_draw_at(s, calc),
        }
    }

    /// The best split of an open node.
    pub open spec fn best<F: Fn(Op, u64, u64) -> u64>(
        self,
        g: Grown,
        e: OpenNode,
        calc: &Calc<F>,
    ) -> Best {
        evaluated(self.rules(), e.hist, g.stats[e.nid], g.bounds[e.nid], e.features, calc)
    }

    /// Whether open node `i` may be taken up next: the first one level by
    /// level, else the first with the greatest loss reduction.
    pub open spec fn may_pick<F: Fn(Op, u64, u64) -> u64>(
        self,
        s: Step,
        i: int,
        calc: &Calc<F>,
    ) -> bool {
        &&& 0 <= i < s.open.len()
        &&& match self.policy {
            GrowPolicy::DepthWise => i == 0,
            GrowPolicy::LossGuide => forall|j: int|
                0 <= j < s.open.len() ==> {
                    let other = self.best(s.g, #[trigger] s.open[j], calc).loss_chg.rank();
                    let this = self.best(s.g, s.open[i], calc).loss_chg.rank();
                    other < this || (other == this && i <= j)
                },
        }
    }

    /// Whether a node is split.
    pub open spec fn is_taken<F: Fn(Op, u64, u64) -> u64>(
        self,
        g: Grown,
        e: OpenNode,
        calc: &Calc<F>,
    ) -> bool {
        let b = self.best(g, e, calc);
        e.depth < self.depth_limit && b.is_valid(self.gamma, self.reg) && g.has_room(b)
    }

    /// Whether growth has come to its end.
    pub open spec fn is_done(self, s: Step) -> bool {
        s.open.len() == 0 || (self.policy == GrowPolicy::LossGuide && (s.g.nodes.len() + 1) / 2
            >= self.max_leaves)
    }

    /// Whether two histograms are those of a node's children: one built from
    /// the rows of the smaller child, the other the difference to the node's.
    pub open spec fn are_children<F: Fn(Op, u64, u64) -> u64>(
        self,
        e: OpenNode,
        b: Best,
        hl: Seq<GradStats>,
        hr: Seq<GradStats>,
        calc: &Calc<F>,
    ) -> bool {
        let ls = left_rows(&self.ghist, b, e.rows);
        let rs = right_rows(&self.ghist, b, e.rows);
        if ls.len() <= rs.len() {
            is_histogram(hl, &self.ghist, ls, self.gp, calc) && hr == subtracted(e.hist, hl, calc)
        } else {
            is_histogram(hr, &self.ghist, rs, self.gp, calc) && hl == subtracted(e.hist, hr, calc)
        }
    }

    /// The state after node `i` is split into children with the given
    /// histograms.
    pub open spec fn after_split<F: Fn(Op, u64, u64) -> u64>(
        self,
        s: Step,
        i: int,
        hl: Seq<GradStats>,
        hr: Seq<GradStats>,
        calc: &Calc<F>,
    ) -> Step {
        let e = s.open[i];
        let b = self.best(s.g, e, calc);
        let n = s.g.nodes.len() as int;
        let second = self.after_offer(s.sampling, calc);
        Step {
            g: s.g.after_split(
                e.nid,
                b,
                self.cons.direction(b.feature as int),
                calc.narrowed(b.w_left),
                calc.narrowed(b.w_right),
                calc,
            ),
            open: s.open.remove(i).push(
                OpenNode {
                    nid: n,
                    depth: e.depth + 1,
                    rows: left_rows(&self.ghist, b, e.rows),
                    hist: hl,
                    features: permitted(
                        self.groups,
                        s.g.paths[e.nid].push(b.feature),
                        self.offered(s.sampling, calc),
                    ),
                },
            ).push(
                OpenNode {
                    nid: n + 1,
                    depth: e.depth + 1,
                    rows: right_rows(&self.ghist, b, e.rows),
                    hist: hr,
                    features: permitted(
                        self.groups,
                        s.g.paths[e.nid].push(b.feature),
                        self.offered(second, calc),
                    ),
                },
            ),
            sampling: self.after_offer(second, calc),
        }
    }

    /// Whether growth goes from one state to the next: an open node is taken
    /// up, and either split or left as a leaf.
    pub open spec fn steps<F: Fn(Op, u64, u64) -> u64>(
        self,
        s: Step,
        t: Step,
        calc: &Calc<F>,
    ) -> bool {
        &&& !self.is_done(s)
        &&& exists|i: int| #[trigger] self.may_pick(s, i, calc) && self.picked(s, i, t, calc)
    }

    /// Whether taking up open node `i` leads to the next state.
    pub open spec fn picked<F: Fn(Op, u64, u64) -> u64>(
        self,
        s: Step,
        i: int,
        t: Step,
        calc: &Calc<F>,
    ) -> bool {
        let e = s.open[i];
        if self.is_taken(s.g, e, calc) {
            exists|hl: Seq<GradStats>, hr: Seq<GradStats>|
                self.are_children(e, self.best(s.g, e, calc), hl, hr, calc) && t
                    == #[trigger] self.after_split(s, i, hl, hr, calc)
        } else {
            t == Step { g: s.g, open: s.open.remove(i), sampling: s.sampling }
        }
    }

    /// Whether growth may start in a state: with a root that holds all given
    /// rows.
    pub open spec fn starts<F: Fn(Op, u64, u64) -> u64>(
        self,
        rows: Seq<u32>,
        sampling: Sampling,
        s: Step,
        calc: &Calc<F>,
    ) -> bool {
        &&& s.sampling == self.after_offer(sampling, calc)
        &&& s.open[0].features == self.offered(sampling, calc)
        &&& s.g == root_growth(rows_stats(self.gp, rows, rows.len() as int, calc), calc)
        &&& s.open.len() == 1
        &&& s.open[0].nid == 0
        &&& s.open[0].depth == 0
        &&& s.open[0].rows == rows
        &&& is_histogram(s.open[0].hist, &self.ghist, rows, self.gp, calc)
    }

    /// Whether a list of states is a run of growth from its start to its end.
    pub open spec fn is_run<F: Fn(Op, u64, u64) -> u64>(
        self,
        rows: Seq<u32>,
        sampling: Sampling,
        run: Seq<Step>,
        calc: &Calc<F>,
    ) -> bool {
        &&& run.len() > 0
        &&& self.starts(rows, sampling, run[0], calc)
        &&& forall|i: int, j: int|
            0 <= i && j == i + 1 && j < run.len() ==> #[trigger] self.steps(run[i], run[j], calc)
    }
}

fn sum_bins<F: Fn(Op, u64, u64) -> u64>(
    hist: &Histogram,
    fs: usize,
    fe: usize,
    calc: &Calc<F>,
) -> (r: GradStats)
    requires
        fs <= fe <= hist.len(),
    ensures
        r == bins_stats(hist@, fs as int, fe as int, calc),
{
    let mut sum = GradStats::default();
    let mut i: usize = fs;
    while i < fe
        invariant
            fs <= i <= fe <= hist.len(),
            sum == bins_stats(hist@, fs as int, i as int, calc),
        decreases fe - i,
    {
        sum.add(hist[i], calc);
        i = i + 1;
    }
    sum
}

/// The histogram tree builder.
pub struct HistTreeBuilder<'a> {
    params: &'a TrainingParams,
    reg: RegParams,
    cons: MonotoneConstraints,
    inter: InteractionConstraints,
    backend: CpuBackend,
}

impl<'a> HistTreeBuilder<'a> {
    /// The configuration.
    pub closed spec fn config(&self) -> &'a TrainingParams {
        self.params
    }

    /// The directions of features.
    pub closed spec fn constraints(&self) -> MonotoneConstraints {
        self.cons
    }

    /// The groups of features that may interact.
    pub closed spec fn interactions(&self) -> Seq<Seq<u32>> {
        self.inter.groups()
    }

    /// The regularization.
    pub closed spec fn regularization(&self) -> RegParams {
        self.reg
    }

    /// What a tree is grown from and under which rules.
    pub open spec fn plan(&self, ghist: &GHistIndex, gp: Seq<GradPair>) -> Plan {
        Plan {
            ghist: *ghist,
            gp,
            cons: self.constraints(),
            reg: self.regularization(),
            gamma: self.config().gamma,
            groups: self.interactions(),
            listed: None,
            depth_limit: if self.config().max_depth == 0 {
                usize::MAX as int
            } else {
                self.config().max_depth as int
            },
            policy: self.config().grow_policy,
            max_leaves: if self.config().max_leaves == 0 {
                usize::MAX as int
            } else {
                self.config().max_leaves as int
            },
        }
    }

    /// A builder for a training configuration.
    pub fn new(params: &'a TrainingParams) -> (r: Self)
        ensures
            r.config() == params,
            r.regularization() == RegParams::of(params),
            r.interactions() == groups_view(params.interaction_constraints@),
            r.constraints().directions() == Seq::new(
                params.monotone_constraints.len() as nat,
                |i: int|
                    crate::tree::constraints::sign_of(params.monotone_constraints@[i]),
            ),
    {
        HistTreeBuilder {
            params,
            reg: RegParams::from_params(params),
            cons: MonotoneConstraints::from_params(params.monotone_constraints.as_slice()),
            inter: InteractionConstraints::from_params(&params.interaction_constraints),
            backend: CpuBackend,
        }
    }

    /// The best split of a node with the given histogram.
    pub fn evaluate<F: Fn(Op, u64, u64) -> u64>(
        &self,
        cuts: &HistCuts,
        hist: &Histogram,
        total: GradStats,
        features: &[u32],
        bounds: Bounds,
        calc: &Calc<F>,
    ) -> (r: BestSplit)
        requires
            cuts.well_formed(),
            hist.len() == cuts.cuts().len(),
            forall|i: int| 0 <= i < features.len() ==> #[trigger] features[i] < cuts.features(),
        ensures
            r@ == evaluated(
                Rules { cuts: *cuts, cons: self.constraints(), reg: self.regularization() },
                hist@,
                total,
                bounds,
                features@,
                calc,
            ),
    {
        let ghost rules = Rules { cuts: *cuts, cons: self.cons, reg: self.reg };
        let target = Target::new(total, bounds, true, &self.reg, calc);
        let mut best = BestSplit::none();
        let mut k: usize = 0;
        while k < features.len()
            invariant
                cuts.well_formed(),
                hist.len() == cuts.cuts().len(),
                forall|i: int|
                    0 <= i < features.len() ==> #[trigger] features[i] < cuts.features(),
                rules == (Rules { cuts: *cuts, cons: self.cons, reg: self.reg }),
                k <= features.len(),
                best@ == features_scan(rules, hist@, target, features@, k as int, calc),
            decreases features.len() - k,
        {
            let f: u32 = features[k];
            let (fs, fe) = cuts.feature_bins(f as usize);
            proof {
                cuts.layout(f as int);
            }
            if fe > fs + 1 {
                let dir: i8 = self.cons.dir(f as usize);
                if cuts.is_categorical(f as usize) {
                    self.evaluate_categorical(&mut best, cuts, hist, &target, dir, f, fs, fe, calc);
                } else {
                    let present = sum_bins(hist, fs, fe, calc);
                    let mut acc = GradStats::default();
                    let mut i: usize = fs;
                    let ghost start = best@;
                    while i < fe - 1
                        invariant
                            fs <= i <= fe - 1,
                            fe <= hist.len(),
                            hist.len() == cuts.cuts().len(),
                            rules == (Rules { cuts: *cuts, cons: self.cons, reg: self.reg }),
                            dir == self.cons.direction(f as int),
                            present == bins_stats(hist@, fs as int, fe as int, calc),
                            acc == bins_stats(hist@, fs as int, i as int, calc),
                            best@ == numeric_scan(
                                rules,
                                hist@,
                                target,
                                start,
                                f,
                                fs as int,
                                fe as int,
                                i as int,
                                calc,
                            ),
                        decreases fe - i,
                    {
                        acc.add(hist[i], calc);
                        eval_boundary(
                            &mut best,
                            &target,
                            dir,
                            present,
                            acc,
                            f,
                            cuts.cut_value(i),
                            i,
                            &self.reg,
                            calc,
                        );
                        i = i + 1;
                    }
                }
            }
            k = k + 1;
        }
        best
    }

    /// Weigh the categories of a feature.
    fn evaluate_categorical<F: Fn(Op, u64, u64) -> u64>(
        &self,
        best: &mut BestSplit,
        cuts: &HistCuts,
        hist: &Histogram,
        target: &Target,
        dir: i8,
        f: u32,
        fs: usize,
        fe: usize,
        calc: &Calc<F>,
    )
        requires
            fs <= fe <= hist.len(),
            hist.len() == cuts.cuts().len(),
        ensures
            final(best)@ == categorical(
                old(best)@,
                *target,
                dir,
                f,
                category_table(cuts, hist@, fs as int, fe as int).0,
                category_table(cuts, hist@, fs as int, fe as int).1,
                self.regularization(),
                calc,
            ),
    {
        let mut cats: Vec<u32> = Vec::new();
        let mut stats: Vec<GradStats> = Vec::new();
        let mut i: usize = fs;
        while i < fe
            invariant
                fs <= i <= fe <= hist.len(),
                hist.len() == cuts.cuts().len(),
                cats.len() == stats.len(),
                (cats@, stats@) == category_table(cuts, hist@, fs as int, i as int),
            decreases fe - i,
        {
            if Wide::zero().is_lt(hist[i].hess) {
                cats.push(cuts.cut_value(i).to_u32());
                stats.push(hist[i]);
            }
            i = i + 1;
        }
        eval_categorical(best, target, dir, f, &cats, &stats, &self.reg, calc);
    }

    /// What a tree is grown from where the features of nodes are listed.
    pub open spec fn listed_plan(
        &self,
        ghist: &GHistIndex,
        gp: Seq<GradPair>,
        listed: Option<Seq<u32>>,
    ) -> Plan {
        Plan { listed, ..self.plan(ghist, gp) }
    }
}

proof fn numeric_scan_keeps_features<F: Fn(Op, u64, u64) -> u64>(
    rules: Rules,
    hist: Seq<GradStats>,
    target: Target,
    best: Best,
    f: u32,
    fs: int,
    fe: int,
    n: int,
    calc: &Calc<F>,
)
    ensures
        ({
            let after = numeric_scan(rules, hist, target, best, f, fs, fe, n, calc);
            after == best || after.feature == f
        }),
    decreases n - fs,
{
    if n > fs {
        numeric_scan_keeps_features(rules, hist, target, best, f, fs, fe, n - 1, calc);
    }
}

proof fn sweep_keeps_features<F: Fn(Op, u64, u64) -> u64>(
    best: Best,
    target: Target,
    dir: i8,
    f: u32,
    cats: Seq<u32>,
    stats: Seq<GradStats>,
    n: int,
    reg: RegParams,
    calc: &Calc<F>,
)
    ensures
        ({
            let after = sweep(best, target, dir, f, cats, stats, n, reg, calc);
            after == best || after.feature == f
        }),
    decreases n,
{
    if n > 0 {
        sweep_keeps_features(best, target, dir, f, cats, stats, n - 1, reg, calc);
    }
}

/// A node's best split is by one of the given features.
pub proof fn best_feature_is_drawn<F: Fn(Op, u64, u64) -> u64>(
    rules: Rules,
    hist: Seq<GradStats>,
    target: Target,
    features: Seq<u32>,
    n: int,
    calc: &Calc<F>,
)
    requires
        0 <= n <= features.len(),
    ensures
        ({
            let b = features_scan(rules, hist, target, features, n, calc);
            b == no_split() || features.contains(b.feature)
        }),
    decreases n,
{
    if n > 0 {
        best_feature_is_drawn(rules, hist, target, features, n - 1, calc);
        let so_far = features_scan(rules, hist, target, features, n - 1, calc);
        let f = features[n - 1];
        let fs = rules.cuts.start(f as int);
        let fe = rules.cuts.start(f + 1);
        numeric_scan_keeps_features(rules, hist, target, so_far, f, fs, fe, fe - 1, calc);
        let (cats, stats) = category_table(&rules.cuts, hist, fs, fe);
        let order = ratio_order(stats, rules.reg, calc);
        sweep_keeps_features(
            so_far,
            target,
            rules.cons.direction(f as int),
            f,
            arranged(cats, order),
            arranged(stats, order),
            cats.len() - 1,
            rules.reg,
            calc,
        );
    }
}

/// A node awaiting or undergoing expansion.
struct NodeEntry {
    nid: usize,
    depth: usize,
    rows: Vec<u32>,
    hist: Histogram,
    best: BestSplit,
    features: Ghost<Seq<u32>>,
}

impl View for NodeEntry {
    type V = OpenNode;

    closed spec fn view(&self) -> OpenNode {
        OpenNode {
            nid: self.nid as int,
            depth: self.depth as int,
            rows: self.rows@,
            hist: self.hist@,
            features: self.features@,
        }
    }
}

/// Whether an entry is one of a growing tree's open nodes.
spec fn entry_fits<F: Fn(Op, u64, u64) -> u64>(
    plan: Plan,
    pool: Seq<u32>,
    g: Grown,
    e: NodeEntry,
    calc: &Calc<F>,
) -> bool {
    &&& e.nid < g.nodes.len()
    &&& g.nodes[e.nid as int].leafy()
    &&& e.hist.len() == plan.ghist.table().cuts().len()
    &&& e.best@ == plan.best(g, e@, calc)
    &&& rows_fit(&plan.ghist, e.rows@, plan.gp)
    &&& forall|i: int|
        0 <= i < e.features@.len() ==> #[trigger] e.features@[i] < plan.ghist.table().features()
    &&& forall|i: int| 0 <= i < e.features@.len() ==> pool.contains(#[trigger] e.features@[i])
}

/// Whether all entries are different open nodes of a growing tree.
spec fn entries_fit<F: Fn(Op, u64, u64) -> u64>(
    plan: Plan,
    pool: Seq<u32>,
    g: Grown,
    open: Seq<NodeEntry>,
    calc: &Calc<F>,
) -> bool {
    &&& forall|i: int| 0 <= i < open.len() ==> entry_fits(plan, pool, g, #[trigger] open[i], calc)
    &&& forall|i: int, j: int|
        0 <= i < j < open.len() ==> (#[trigger] open[i]).nid != (#[trigger] open[j]).nid
}

spec fn views(open: Seq<NodeEntry>) -> Seq<OpenNode> {
    Seq::new(open.len(), |i: int| open[i]@)
}

fn holds(cats: &Vec<u32>, c: u32) -> (r: bool)
    ensures
        r == cats@.contains(c),
{
    let mut k: usize = 0;
    while k < cats.len()
        invariant
            k <= cats.len(),
            forall|j: int| 0 <= j < k ==> #[trigger] cats[j] != c,
        decreases cats.len() - k,
    {
        if cats[k] == c {
            assert(cats@[k as int] == c);
            return true;
        }
        k = k + 1;
    }
    false
}

/// Whether a row goes to the left side of a split.
fn goes_to_left(ghist: &GHistIndex, b: &BestSplit, r: u32) -> (left: bool)
    requires
        ghist.well_formed(),
        r < ghist.height(),
        b.feature < ghist.table().features(),
    ensures
        left == row_goes_left(ghist, b@, r),
{
    let cuts = ghist.cuts();
    proof {
        ghist.layout(r as int);
    }
    let (fs, fe) = cuts.feature_bins(b.feature as usize);
    proof {
        first_within_finds(ghist.row_bins(r as int), fs as int, fe as int, 0);
    }
    match ghist.feature_bin(r as usize, fs, fe) {
        Some(bin) => if b.is_categorical {
            holds(&b.cat_left, cuts.cut_value(bin as usize).to_u32())
        } else {
            bin as usize <= b.split_bin
        },
        None => b.default_left,
    }
}

proof fn filter_grows<A>(s: Seq<A>, k: int, pred: spec_fn(A) -> bool)
    requires
        0 <= k < s.len(),
    ensures
        s.take(k + 1).filter(pred) == if pred(s[k]) {
            s.take(k).filter(pred).push(s[k])
        } else {
            s.take(k).filter(pred)
        },
{
    assert(s.take(k + 1) =~= s.take(k).push(s[k]));
    s.take(k).lemma_filter_push(s[k], pred);
}

/// The rows on the two sides of a split.
pub fn partition_rows(ghist: &GHistIndex, b: &BestSplit, rows: &Vec<u32>) -> (r: (Vec<u32>, Vec<u32>))
    requires
        ghist.well_formed(),
        b.feature < ghist.table().features(),
        forall|i: int| 0 <= i < rows.len() ==> #[trigger] rows[i] < ghist.height(),
    ensures
        r.0@ == left_rows(ghist, b@, rows@),
        r.1@ == right_rows(ghist, b@, rows@),
        forall|i: int| 0 <= i < r.0.len() ==> #[trigger] r.0[i] < ghist.height(),
        forall|i: int| 0 <= i < r.1.len() ==> #[trigger] r.1[i] < ghist.height(),
{
    let ghost goes = |x: u32| row_goes_left(ghist, b@, x);
    let ghost stays = |x: u32| !row_goes_left(ghist, b@, x);
    let mut left: Vec<u32> = Vec::new();
    let mut right: Vec<u32> = Vec::new();
    let mut i: usize = 0;
    proof {
        reveal(Seq::filter);
        assert(left@ =~= rows@.take(0).filter(goes));
        assert(right@ =~= rows@.take(0).filter(stays));
    }
    while i < rows.len()
        invariant
            ghist.well_formed(),
            b.feature < ghist.table().features(),
            forall|k: int| 0 <= k < rows.len() ==> #[trigger] rows[k] < ghist.height(),
            goes == (|x: u32| row_goes_left(ghist, b@, x)),
            stays == (|x: u32| !row_goes_left(ghist, b@, x)),
            i <= rows.len(),
            left@ == rows@.take(i as int).filter(goes),
            right@ == rows@.take(i as int).filter(stays),
            forall|k: int| 0 <= k < left.len() ==> #[trigger] left[k] < ghist.height(),
            forall|k: int| 0 <= k < right.len() ==> #[trigger] right[k] < ghist.height(),
        decreases rows.len() - i,
    {
        proof {
            filter_grows(rows@, i as int, goes);
            filter_grows(rows@, i as int, stays);
        }
        let r: u32 = rows[i];
        if goes_to_left(ghist, b, r) {
            left.push(r);
        } else {
            right.push(r);
        }
        i = i + 1;
    }
    assert(rows@.take(i as int) =~= rows@);
    (left, right)
}

/// Splitting one node leaves every other open node as it was.
proof fn split_keeps_entry<F: Fn(Op, u64, u64) -> u64>(
    plan: Plan,
    pool: Seq<u32>,
    g: Grown,
    nid: int,
    b: Best,
    dir: i8,
    lw: Single,
    rw: Single,
    e: NodeEntry,
    calc: &Calc<F>,
)
    requires
        g.well_formed(),
        0 <= nid < g.nodes.len(),
        e.nid != nid,
        entry_fits(plan, pool, g, e, calc),
    ensures
        entry_fits(plan, pool, g.after_split(nid, b, dir, lw, rw, calc), e, calc),
{
    let after = g.after_split(nid, b, dir, lw, rw, calc);
    assert(after.nodes[e.nid as int] == g.nodes[e.nid as int]);
    assert(after.stats[e.nid as int] == g.stats[e.nid as int]);
    assert(after.bounds[e.nid as int] == g.bounds[e.nid as int]);
}

/// The view of an optional list of features.
pub open spec fn list_view(listed: Option<&[u32]>) -> Option<Seq<u32>> {
    match listed {
        Some(features) => Some(features@),
        None => None,
    }
}

/// Whether every feature that nodes may be offered exists.
spec fn offers_exist(plan: Plan, s: Sampling, width: int) -> bool {
    match plan.listed {
        Some(features) => forall|i: int|
            0 <= i < features.len() ==> #[trigger] features[i] < width,
        None => forall|i: int| 0 <= i < s.pool.len() ==> #[trigger] s.pool[i] < width,
    }
}

/// The features that nodes are offered some of.
pub open spec fn source(plan: Plan, s: Sampling) -> Seq<u32> {
    match plan.listed {
        Some(features) => features,
        None => s.pool,
    }
}

/// The features that the next node is offered.
fn offer<F: Fn(Op, u64, u64) -> u64>(
    listed: Option<&[u32]>,
    sampler: &mut ColumnSampler,
    plan: Ghost<Plan>,
    width: Ghost<int>,
    calc: &Calc<F>,
) -> (r: Vec<u32>)
    requires
        plan@.listed == list_view(listed),
        offers_exist(plan@, old(sampler)@, width@),
    ensures
        r@ == plan@.offered(old(sampler)@, calc),
        final(sampler)@ == plan@.after_offer(old(sampler)@, calc),
        final(sampler)@.pool == old(sampler)@.pool,
        forall|x: u32| #[trigger]
            r@.contains(x) ==> x < width@ && source(plan@, old(sampler)@).contains(x),
{
    match listed {
        Some(features) => vstd::slice::slice_to_vec(features),
        None => {
            let ghost pool = sampler@.pool;
            let r = sampler.sample(calc);
            proof {
                assert forall|x: u32| #[trigger] r@.contains(x) implies x < width@ by {
                    assert(pool.contains(x));
                    let j = choose|j: int| 0 <= j < pool.len() && pool[j] == x;
                    assert(pool[j] < width@);
                }
            }
            r
        },
    }
}

impl<'a> HistTreeBuilder<'a> {
    /// Split an open node: expand the tree, part its rows, and build both
    /// children's histograms. Gives the children.
    fn split<F: Fn(Op, u64, u64) -> u64 + Sync>(
        &self,
        growth: &mut Growth,
        ghist: &GHistIndex,
        gpair: &[GradPair],
        listed: Option<&[u32]>,
        sampler: &mut ColumnSampler,
        entry: NodeEntry,
        plan: Ghost<Plan>,
        calc: &Calc<F>,
    ) -> (r: (NodeEntry, NodeEntry))
        requires
            plan@.ghist == *ghist,
            plan@.gp == gpair@,
            plan@.cons == self.cons,
            plan@.reg == self.reg,
            plan@.groups == self.inter.groups(),
            plan@.listed == list_view(listed),
            ghist.well_formed(),
            old(growth)@.well_formed(),
            entry_fits(plan@, source(plan@, old(sampler)@), old(growth)@, entry, calc),
            entry.best@.is_found(),
            old(growth)@.has_room(entry.best@),
            entry.depth < usize::MAX,
            offers_exist(plan@, old(sampler)@, ghist.table().features()),
        ensures
            final(growth)@ == old(growth)@.after_split(
                entry.nid as int,
                entry.best@,
                self.cons.direction(entry.best.feature as int),
                calc.narrowed(entry.best.w_left),
                calc.narrowed(entry.best.w_right),
                calc,
            ),
            final(growth)@.well_formed(),
            entry_fits(plan@, source(plan@, old(sampler)@), final(growth)@, r.0, calc),
            entry_fits(plan@, source(plan@, old(sampler)@), final(growth)@, r.1, calc),
            plan@.are_children(entry@, entry.best@, r.0.hist@, r.1.hist@, calc),
            r.0@ == (OpenNode {
                nid: old(growth)@.nodes.len() as int,
                depth: entry.depth + 1,
                rows: left_rows(ghist, entry.best@, entry.rows@),
                hist: r.0.hist@,
                features: permitted(
                    plan@.groups,
                    old(growth)@.paths[entry.nid as int].push(entry.best.feature),
                    plan@.offered(old(sampler)@, calc),
                ),
            }),
            r.1@ == (OpenNode {
                nid: old(growth)@.nodes.len() as int + 1,
                depth: entry.depth + 1,
                rows: right_rows(ghist, entry.best@, entry.rows@),
                hist: r.1.hist@,
                features: permitted(
                    plan@.groups,
                    old(growth)@.paths[entry.nid as int].push(entry.best.feature),
                    plan@.offered(plan@.after_offer(old(sampler)@, calc), calc),
                ),
            }),
            final(sampler)@ == plan@.after_offer(plan@.after_offer(old(sampler)@, calc), calc),
            final(sampler)@.pool == old(sampler)@.pool,
    {
        let cuts = ghist.cuts();
        let ghost g = growth@;
        let b = &entry.best;
        proof {
            ghist.shape();
            best_feature_is_drawn(
                plan@.rules(),
                entry.hist@,
                target_of(
                    g.stats[entry.nid as int],
                    g.bounds[entry.nid as int],
                    true,
                    self.reg,
                    calc,
                ),
                entry.features@,
                entry.features@.len() as int,
                calc,
            );
        }
        let dir: i8 = self.cons.dir(b.feature as usize);
        let lw = calc.narrow(b.w_left);
        let rw = calc.narrow(b.w_right);
        let (left_id, right_id) = growth.split(entry.nid, b, dir, lw, rw, calc);
        let (left_rows, right_rows) = partition_rows(ghist, b, &entry.rows);
        let total: usize = entry.hist.len();
        let mut left_hist = zeroed(total);
        let mut right_hist = zeroed(total);
        if left_rows.len() <= right_rows.len() {
            self.backend.build(ghist, left_rows.as_slice(), gpair, &mut left_hist, calc);
            self.backend.subtract(&entry.hist, &left_hist, &mut right_hist, calc);
        } else {
            self.backend.build(ghist, right_rows.as_slice(), gpair, &mut right_hist, calc);
            self.backend.subtract(&entry.hist, &right_hist, &mut left_hist, calc);
        }
        let left_draw = offer(listed, sampler, plan, Ghost(ghist.table().features()), calc);
        let left_features = self.inter.permit(&growth.paths[left_id], &left_draw);
        proof {
            let path = g.paths[entry.nid as int].push(entry.best.feature);
            assert(growth@.paths[left_id as int] == path);
            assert(growth@.paths[right_id as int] == path);
            assert(growth.paths[left_id as int]@ == growth@.paths[left_id as int]);
            assert(growth.paths[right_id as int]@ == growth@.paths[right_id as int]);
        }
        assert forall|i: int| 0 <= i < left_features.len() implies #[trigger] left_features[i]
            < ghist.table().features() && source(plan@, old(sampler)@).contains(
            left_features[i],
        ) by {
            assert(left_features@.contains(left_features[i]));
            assert(left_draw@.contains(left_features[i]));
        }
        let lb = growth.bounds[left_id];
        let ls = growth.stats[left_id];
        let left_best = self.evaluate(
            cuts,
            &left_hist,
            ls,
            left_features.as_slice(),
            lb,
            calc,
        );
        let right_draw = offer(listed, sampler, plan, Ghost(ghist.table().features()), calc);
        let right_features = self.inter.permit(&growth.paths[right_id], &right_draw);
        assert forall|i: int| 0 <= i < right_features.len() implies #[trigger] right_features[i]
            < ghist.table().features() && source(plan@, old(sampler)@).contains(
            right_features[i],
        ) by {
            assert(right_features@.contains(right_features[i]));
            assert(right_draw@.contains(right_features[i]));
        }
        let rb = growth.bounds[right_id];
        let rs = growth.stats[right_id];
        let right_best = self.evaluate(
            cuts,
            &right_hist,
            rs,
            right_features.as_slice(),
            rb,
            calc,
        );
        let left = NodeEntry {
            nid: left_id,
            depth: entry.depth + 1,
            rows: left_rows,
            hist: left_hist,
            best: left_best,
            features: Ghost(left_features@),
        };
        let right = NodeEntry {
            nid: right_id,
            depth: entry.depth + 1,
            rows: right_rows,
            hist: right_hist,
            best: right_best,
            features: Ghost(right_features@),
        };
        (left, right)
    }
}

/// The open node to take up next: the first one level by level, else the first
/// with the greatest loss reduction.
fn pick(open: &Vec<NodeEntry>, policy: GrowPolicy) -> (r: usize)
    requires
        open.len() > 0,
    ensures
        r < open.len(),
        policy == GrowPolicy::DepthWise ==> r == 0,
        policy == GrowPolicy::LossGuide ==> forall|j: int|
            0 <= j < open.len() ==> {
                let other = (#[trigger] open[j]).best.loss_chg.rank();
                let this = open[r as int].best.loss_chg.rank();
                other < this || (other == this && r <= j)
            },
{
    let by_loss = match policy {
        GrowPolicy::DepthWise => false,
        GrowPolicy::LossGuide => true,
    };
    if !by_loss {
        return 0;
    }
    let mut top: usize = 0;
    let mut i: usize = 1;
    while i < open.len()
        invariant
            0 < open.len(),
            1 <= i <= open.len(),
            top < i,
            forall|j: int|
                0 <= j < i ==> {
                    let other = (#[trigger] open[j]).best.loss_chg.rank();
                    let this = open[top as int].best.loss_chg.rank();
                    other < this || (other == this && top <= j)
                },
        decreases open.len() - i,
    {
        if open[i].best.loss_chg.total_key() > open[top].best.loss_chg.total_key() {
            top = i;
        }
        i = i + 1;
    }
    top
}

/// What growth keeps: a well-formed tree whose open nodes are different leaves
/// at their recorded depths, none below the limit.
spec fn in_shape<F: Fn(Op, u64, u64) -> u64>(
    plan: Plan,
    pool: Seq<u32>,
    g: Grown,
    open: Seq<NodeEntry>,
    h: Seq<nat>,
    calc: &Calc<F>,
) -> bool {
    &&& plan.ghist.well_formed()
    &&& g.well_formed()
    &&& features_exist(g.nodes, plan.ghist.table().features())
    &&& splits_among(g.nodes, pool)
    &&& entries_fit(plan, pool, g, open, calc)
    &&& is_height(g.nodes, h)
    &&& forall|i: int| 0 <= i < h.len() ==> #[trigger] h[i] <= plan.depth_limit
    &&& forall|i: int| 0 <= i < open.len() ==> h[(#[trigger] open[i]).nid as int] == open[i].depth
}

/// Taking an entry out leaves the others in shape.
proof fn removal_keeps_shape<F: Fn(Op, u64, u64) -> u64>(
    plan: Plan,
    pool: Seq<u32>,
    g: Grown,
    was: Seq<NodeEntry>,
    i: int,
    h: Seq<nat>,
    calc: &Calc<F>,
)
    requires
        in_shape(plan, pool, g, was, h, calc),
        0 <= i < was.len(),
    ensures
        in_shape(plan, pool, g, was.remove(i), h, calc),
        views(was).remove(i) == views(was.remove(i)),
        forall|a: int|
            0 <= a < was.len() - 1 ==> (#[trigger] was.remove(i)[a]).nid != was[i].nid,
{
    let open = was.remove(i);
    assert(views(was).remove(i) =~= views(open));
    assert forall|a: int| 0 <= a < open.len() implies entry_fits(
        plan,
        pool,
        g,
        #[trigger] open[a],
        calc,
    ) && open[a].nid != was[i].nid && h[open[a].nid as int] == open[a].depth by {
        let a0 = if a < i { a } else { a + 1 };
        assert(open[a] == was[a0]);
        if a0 < i {
            assert(was[a0].nid != was[i].nid);
        } else {
            assert(was[i].nid != was[a0].nid);
        }
    }
    assert forall|a: int, b: int| 0 <= a < b < open.len() implies (#[trigger] open[a]).nid != (
    #[trigger] open[b]).nid by {
        let a0 = if a < i { a } else { a + 1 };
        let b0 = if b < i { b } else { b + 1 };
        assert(was[a0].nid != was[b0].nid);
    }
}

/// Splitting a node and opening its children keeps growth in shape.
proof fn split_keeps_shape<F: Fn(Op, u64, u64) -> u64>(
    plan: Plan,
    pool: Seq<u32>,
    g: Grown,
    rest: Seq<NodeEntry>,
    nid: int,
    depth: nat,
    b: Best,
    lw: Single,
    rw: Single,
    left: NodeEntry,
    right: NodeEntry,
    h: Seq<nat>,
    calc: &Calc<F>,
)
    requires
        in_shape(plan, pool, g, rest, h, calc),
        0 <= nid < g.nodes.len(),
        g.nodes[nid].leafy(),
        h[nid] == depth,
        depth < plan.depth_limit,
        b.feature < plan.ghist.table().features(),
        pool.contains(b.feature),
        g.has_room(b),
        forall|a: int| 0 <= a < rest.len() ==> (#[trigger] rest[a]).nid != nid,
        ({
            let after = g.after_split(
                nid,
                b,
                plan.cons.direction(b.feature as int),
                lw,
                rw,
                calc,
            );
            &&& entry_fits(plan, pool, after, left, calc)
            &&& entry_fits(plan, pool, after, right, calc)
        }),
        left.nid == g.nodes.len(),
        right.nid == g.nodes.len() + 1,
        left.depth == depth + 1,
        right.depth == depth + 1,
    ensures
        in_shape(
            plan,
            pool,
            g.after_split(nid, b, plan.cons.direction(b.feature as int), lw, rw, calc),
            rest.push(left).push(right),
            h.push((depth + 1) as nat).push((depth + 1) as nat),
            calc,
        ),
{
    let dir = plan.cons.direction(b.feature as int);
    let after = g.after_split(nid, b, dir, lw, rw, calc);
    let open = rest.push(left).push(right);
    let h2 = h.push((depth + 1) as nat).push((depth + 1) as nat);
    let nodes = after.nodes;
    let m = g.nodes.len() as int;
    crate::tree::builder::growth::splits_keep_growth_well_formed(g, nid, b, dir, lw, rw, calc);
    assert forall|a: int| 0 <= a < open.len() implies entry_fits(
        plan,
        pool,
        after,
        #[trigger] open[a],
        calc,
    ) && h2[open[a].nid as int] == open[a].depth by {
        if a < rest.len() {
            assert(open[a] == rest[a]);
            split_keeps_entry(plan, pool, g, nid, b, dir, lw, rw, rest[a], calc);
            assert(h[rest[a].nid as int] == rest[a].depth);
        }
    }
    assert forall|a: int, c: int| 0 <= a < c < open.len() implies (#[trigger] open[a]).nid != (
    #[trigger] open[c]).nid by {
        if a < rest.len() {
            assert(open[a] == rest[a]);
            assert(entry_fits(plan, pool, g, rest[a], calc));
            if c < rest.len() {
                assert(open[c] == rest[c]);
                assert(rest[a].nid != rest[c].nid);
            }
        }
    }
    assert forall|a: int|
        #![trigger nodes[a]]
        0 <= a < nodes.len() && !nodes[a].leafy() implies h2[nodes[a].left as int] == h2[a] + 1
        && h2[nodes[a].right as int] == h2[a] + 1 by {
        if a != nid && a < m {
            assert(nodes[a] == g.nodes[a]);
        }
    }
    assert forall|a: int|
        0 <= a < nodes.len() && !(#[trigger] nodes[a]).leafy() implies nodes[a].split_feature
        < plan.ghist.table().features() && pool.contains(nodes[a].split_feature) by {
        if a != nid && a < m {
            assert(nodes[a] == g.nodes[a]);
        }
    }
}

proof fn longer_run<F: Fn(Op, u64, u64) -> u64>(
    plan: Plan,
    rows: Seq<u32>,
    sampling: Sampling,
    run: Seq<Step>,
    t: Step,
    calc: &Calc<F>,
) -> (longer: Seq<Step>)
    requires
        plan.is_run(rows, sampling, run, calc),
        plan.steps(run.last(), t, calc),
    ensures
        plan.is_run(rows, sampling, longer, calc),
        longer.last() == t,
        longer.len() > 0,
{
    let longer = run.push(t);
    assert forall|a: int, b: int| 0 <= a && b == a + 1 && b < longer.len() implies
        #[trigger] plan.steps(longer[a], longer[b], calc) by {
        if b < run.len() {
            assert(plan.steps(run[a], run[b], calc));
        }
    }
    longer
}

impl<'a> HistTreeBuilder<'a> {
    /// Take up an open node and split it if it should be. Gives the distance
    /// of every node from the root.
    fn advance<F: Fn(Op, u64, u64) -> u64 + Sync>(
        &self,
        growth: &mut Growth,
        open: &mut Vec<NodeEntry>,
        ghist: &GHistIndex,
        gpair: &[GradPair],
        listed: Option<&[u32]>,
        sampler: &mut ColumnSampler,
        limit: usize,
        policy: GrowPolicy,
        plan: Ghost<Plan>,
        h: Ghost<Seq<nat>>,
        calc: &Calc<F>,
    ) -> (h2: Ghost<Seq<nat>>)
        requires
            plan@ == self.listed_plan(ghist, gpair@, list_view(listed)),
            policy == plan@.policy,
            limit == plan@.depth_limit,
            in_shape(
                plan@,
                source(plan@, old(sampler)@),
                old(growth)@,
                old(open)@,
                h@,
                calc,
            ),
            !plan@.is_done(
                Step {
                    g: old(growth)@,
                    open: views(old(open)@),
                    sampling: old(sampler)@,
                },
            ),
            offers_exist(plan@, old(sampler)@, ghist.table().features()),
        ensures
            in_shape(
                plan@,
                source(plan@, old(sampler)@),
                final(growth)@,
                final(open)@,
                h2@,
                calc,
            ),
            plan@.steps(
                Step {
                    g: old(growth)@,
                    open: views(old(open)@),
                    sampling: old(sampler)@,
                },
                Step { g: final(growth)@, open: views(final(open)@), sampling: final(sampler)@ },
                calc,
            ),
            final(growth)@.nodes.len() == old(growth)@.nodes.len() + 2 || (
            final(growth)@.nodes.len() == old(growth)@.nodes.len() && final(open).len() < old(
                open,
            ).len()),
            final(sampler)@.pool == old(sampler)@.pool,
    {
        let ghost s = Step { g: growth@, open: views(open@), sampling: sampler@ };
        let ghost was = open@;
        let ghost pool = sampler@.pool;
        let ghost from = source(plan@, sampler@);
        let i: usize = pick(open, policy);
        proof {
            assert forall|j: int| 0 <= j < s.open.len() implies plan@.best(
                s.g,
                #[trigger] s.open[j],
                calc,
            ) == was[j].best@ by {
                assert(entry_fits(plan@, from, s.g, was[j], calc));
            }
            assert(plan@.may_pick(s, i as int, calc));
            removal_keeps_shape(plan@, from, s.g, was, i as int, h@, calc);
        }
        let entry = open.remove(i);
        assert(entry_fits(plan@, from, s.g, was[i as int], calc));
        let ghost e = entry@;
        let ghost b = entry.best@;
        let ghost nid = entry.nid as int;
        let ghost depth = entry.depth as nat;
        let ghost rest = open@;
        assert(s.open[i as int] == e);
        assert(b == plan@.best(s.g, e, calc));
        let taken = entry.depth < limit && valid(&entry.best, self.params.gamma, &self.reg)
            && growth.room(&entry.best);
        assert(taken == plan@.is_taken(s.g, e, calc));
        if taken {
            proof {
                best_feature_is_drawn(
                    plan@.rules(),
                    entry.hist@,
                    target_of(s.g.stats[nid], s.g.bounds[nid], true, self.reg, calc),
                    entry.features@,
                    entry.features@.len() as int,
                    calc,
                );
                nothing_is_not_found();
            }
            let (left, right) = self.split(
                growth,
                ghist,
                gpair,
                listed,
                sampler,
                entry,
                plan,
                calc,
            );
            let ghost h2 = h@.push((depth + 1) as nat).push((depth + 1) as nat);
            proof {
                split_keeps_shape(
                    plan@,
                    from,
                    s.g,
                    rest,
                    nid,
                    depth,
                    b,
                    calc.narrowed(b.w_left),
                    calc.narrowed(b.w_right),
                    left,
                    right,
                    h@,
                    calc,
                );
                let after = plan@.after_split(s, i as int, left.hist@, right.hist@, calc);
                let t = Step {
                    g: growth@,
                    open: views(rest.push(left).push(right)),
                    sampling: sampler@,
                };
                assert(views(rest.push(left).push(right)) =~= views(rest).push(left@).push(right@));
                assert(t =~= after);
                assert(plan@.picked(s, i as int, t, calc));
                assert(plan@.steps(s, t, calc));
                assert(sampler@.pool == pool);
            }
            open.push(left);
            open.push(right);
            Ghost(h2)
        } else {
            proof {
                let t = Step { g: growth@, open: views(open@), sampling: sampler@ };
                assert(plan@.picked(s, i as int, t, calc));
                assert(plan@.steps(s, t, calc));
            }
            h
        }
    }
}

/// Whether a run of growth led to a tree.
pub open spec fn grows_into<F: Fn(Op, u64, u64) -> u64>(
    plan: Plan,
    rows: Seq<u32>,
    sampling: Sampling,
    run: Seq<Step>,
    tree: RegTree,
    calc: &Calc<F>,
) -> bool {
    let last = run.last();
    &&& plan.is_run(rows, sampling, run, calc)
    &&& plan.is_done(last)
    &&& tree.node_list() == last.g.settled(plan.reg, last.g.nodes.len() as int, calc)
    &&& tree.category_list() == last.g.cats
}

impl<'a> HistTreeBuilder<'a> {
    fn root_stats<F: Fn(Op, u64, u64) -> u64>(
        gpair: &[GradPair],
        rows: &[u32],
        calc: &Calc<F>,
    ) -> (r: GradStats)
        requires
            forall|i: int| 0 <= i < rows.len() ==> #[trigger] rows[i] < gpair.len(),
        ensures
            r == rows_stats(gpair@, rows@, rows.len() as int, calc),
    {
        let mut sum = GradStats::default();
        let mut i: usize = 0;
        while i < rows.len()
            invariant
                forall|k: int| 0 <= k < rows.len() ==> #[trigger] rows[k] < gpair.len(),
                i <= rows.len(),
                sum == rows_stats(gpair@, rows@, i as int, calc),
            decreases rows.len() - i,
        {
            sum.add(gpair[rows[i] as usize].to_stats(calc), calc);
            i = i + 1;
        }
        sum
    }

    /// Grow one tree on the given rows, with the listed features or one draw of
    /// features per node.
    fn grow<F: Fn(Op, u64, u64) -> u64 + Sync>(
        &self,
        ghist: &GHistIndex,
        gpair: &[GradPair],
        row_subset: &[u32],
        listed: Option<&[u32]>,
        sampler: &mut ColumnSampler,
        calc: &Calc<F>,
    ) -> (r: RegTree)
        requires
            rows_fit(ghist, row_subset@, gpair@),
            offers_exist(
                self.listed_plan(ghist, gpair@, list_view(listed)),
                old(sampler)@,
                ghist.table().features(),
            ),
        ensures
            exists|run: Seq<Step>|
                #![trigger grows_into(
                    self.listed_plan(ghist, gpair@, list_view(listed)),
                    row_subset@,
                    old(sampler)@,
                    run,
                    r,
                    calc,
                )]
                grows_into(
                    self.listed_plan(ghist, gpair@, list_view(listed)),
                    row_subset@,
                    old(sampler)@,
                    run,
                    r,
                    calc,
                ) && final(sampler)@ == run.last().sampling,
            r.grown(),
            r.node_list().len() == 2 * r.leaves() - 1,
            features_exist(r.node_list(), ghist.table().features()),
            splits_among(
                r.node_list(),
                source(
                    self.listed_plan(ghist, gpair@, list_view(listed)),
                    old(sampler)@,
                ),
            ),
            self.config().max_depth > 0 ==> settles(
                r.node_list(),
                r.category_list(),
                0,
                self.config().max_depth as nat,
            ),
            self.config().grow_policy == GrowPolicy::LossGuide && self.config().max_leaves > 0
                ==> r.leaves() <= self.config().max_leaves,
    {
        let ghost plan = self.listed_plan(ghist, gpair@, list_view(listed));
        let ghost width = ghist.table().features();
        let ghost start = sampler@;
        let ghost from = source(plan, start);
        proof {
            ghist.shape();
        }
        let total: usize = ghist.total_bins();
        let root_stats = Self::root_stats(gpair, row_subset, calc);
        let mut root_hist = zeroed(total);
        self.backend.build(ghist, row_subset, gpair, &mut root_hist, calc);
        let mut growth = Growth::start(root_stats, calc);
        let features = offer(listed, sampler, Ghost(plan), Ghost(width), calc);
        assert forall|i: int| 0 <= i < features.len() implies #[trigger] features[i] < width
            && from.contains(features[i]) by {
            assert(features@.contains(features[i]));
        }
        let best = self.evaluate(
            ghist.cuts(),
            &root_hist,
            root_stats,
            features.as_slice(),
            Bounds::default(),
            calc,
        );
        let root = NodeEntry {
            nid: 0,
            depth: 0,
            rows: vstd::slice::slice_to_vec(row_subset),
            hist: root_hist,
            best,
            features: Ghost(features@),
        };
        let mut open: Vec<NodeEntry> = Vec::new();
        open.push(root);
        let limit: usize = if self.params.max_depth == 0 {
            usize::MAX
        } else {
            self.params.max_depth
        };
        let max_leaves: usize = if self.params.max_leaves == 0 {
            usize::MAX
        } else {
            self.params.max_leaves
        };
        let policy = self.params.grow_policy;
        let by_loss = match policy {
            GrowPolicy::DepthWise => false,
            GrowPolicy::LossGuide => true,
        };
        let ghost mut run: Seq<Step> = seq![
            Step { g: growth@, open: views(open@), sampling: sampler@ },
        ];
        let ghost flat: Seq<nat> = seq![0];
        let mut h: Ghost<Seq<nat>> = Ghost(flat);
        let mut n_leaves: usize = 1;
        while open.len() > 0 && !(by_loss && n_leaves >= max_leaves)
            invariant
                plan == self.listed_plan(ghist, gpair@, list_view(listed)),
                width == ghist.table().features(),
                rows_fit(ghist, row_subset@, gpair@),
                policy == self.params.grow_policy,
                by_loss == (policy == GrowPolicy::LossGuide),
                limit == plan.depth_limit,
                max_leaves == plan.max_leaves,
                offers_exist(plan, sampler@, width),
                source(plan, sampler@) == from,
                in_shape(plan, from, growth@, open@, h@, calc),
                n_leaves == (growth@.nodes.len() + 1) / 2,
                run.len() > 0,
                run.last() == (Step { g: growth@, open: views(open@), sampling: sampler@ }),
                plan.is_run(row_subset@, start, run, calc),
                by_loss ==> n_leaves <= max_leaves || n_leaves == 1,
            decreases i32::MAX - growth@.nodes.len(), open.len(),
        {
            let ghost s = run.last();
            h = self.advance(
                &mut growth,
                &mut open,
                ghist,
                gpair,
                listed,
                sampler,
                limit,
                policy,
                Ghost(plan),
                Ghost(h@),
                calc,
            );
            n_leaves = growth.tree.num_nodes() / 2 + 1;
            proof {
                let t = Step { g: growth@, open: views(open@), sampling: sampler@ };
                run = longer_run(plan, row_subset@, start, run, t, calc);
            }
        }
        let ghost done = growth@;
        let tree = growth.finish(&self.reg, calc);
        proof {
            settles_by_height(done.nodes, done.cats, h@, limit as nat, 0);
            settling_keeps_the_shape(done, self.reg, 0, limit as nat, limit as nat, calc);
            assert forall|i: int|
                0 <= i < tree.node_list().len() && !(
                #[trigger] tree.node_list()[i]).leafy() implies tree.node_list()[i].split_feature
                < width && from.contains(tree.node_list()[i].split_feature) by {
                assert(tree.node_list()[i] == done.nodes[i]);
            }
            assert(grows_into(plan, row_subset@, start, run, tree, calc));
        }
        tree
    }

    /// Grow one tree on the given rows, with one draw of features per node.
    pub fn build_sampled<F: Fn(Op, u64, u64) -> u64 + Sync>(
        &self,
        ghist: &GHistIndex,
        gpair: &[GradPair],
        row_subset: &[u32],
        sampler: &mut ColumnSampler,
        calc: &Calc<F>,
    ) -> (r: RegTree)
        requires
            rows_fit(ghist, row_subset@, gpair@),
            forall|i: int|
                0 <= i < old(sampler).features().len() ==> #[trigger] old(sampler).features()[i]
                    < ghist.table().features(),
        ensures
            exists|run: Seq<Step>|
                #![trigger grows_into(
                    self.plan(ghist, gpair@),
                    row_subset@,
                    old(sampler)@,
                    run,
                    r,
                    calc,
                )]
                grows_into(
                    self.plan(ghist, gpair@),
                    row_subset@,
                    old(sampler)@,
                    run,
                    r,
                    calc,
                ) && final(sampler)@ == run.last().sampling,
            r.grown(),
            r.node_list().len() == 2 * r.leaves() - 1,
            features_exist(r.node_list(), ghist.table().features()),
            splits_among(r.node_list(), old(sampler).features()),
            self.config().max_depth > 0 ==> settles(
                r.node_list(),
                r.category_list(),
                0,
                self.config().max_depth as nat,
            ),
            self.config().grow_policy == GrowPolicy::LossGuide && self.config().max_leaves > 0
                ==> r.leaves() <= self.config().max_leaves,
    {
        assert(self.listed_plan(ghist, gpair@, None) == self.plan(ghist, gpair@));
        assert(offers_exist(
            self.listed_plan(ghist, gpair@, None),
            sampler@,
            ghist.table().features(),
        )) by {
            assert(sampler@.pool == sampler.features());
        }
        self.grow(ghist, gpair, row_subset, None, sampler, calc)
    }

    /// Grow one tree on the given rows, weighing the given features in the given
    /// order.
    pub fn build<F: Fn(Op, u64, u64) -> u64 + Sync>(
        &self,
        ghist: &GHistIndex,
        gpair: &[GradPair],
        row_subset: &[u32],
        feature_subset: &[u32],
        calc: &Calc<F>,
    ) -> (r: RegTree)
        requires
            rows_fit(ghist, row_subset@, gpair@),
            forall|i: int|
                0 <= i < feature_subset.len() ==> #[trigger] feature_subset[i]
                    < ghist.table().features(),
        ensures
            exists|run: Seq<Step>| #[trigger]
                grows_into(
                    self.listed_plan(ghist, gpair@, Some(feature_subset@)),
                    row_subset@,
                    no_draws(),
                    run,
                    r,
                    calc,
                ),
            r.grown(),
            r.node_list().len() == 2 * r.leaves() - 1,
            features_exist(r.node_list(), ghist.table().features()),
            splits_among(r.node_list(), feature_subset@),
            self.config().max_depth > 0 ==> settles(
                r.node_list(),
                r.category_list(),
                0,
                self.config().max_depth as nat,
            ),
            self.config().grow_policy == GrowPolicy::LossGuide && self.config().max_leaves > 0
                ==> r.leaves() <= self.config().max_leaves,
    {
        let one = Wide { bits: ONE };
        let mut sampler = ColumnSampler::new(Vec::new(), one, one, 0);
        assert(sampler@ =~= no_draws());
        self.grow(ghist, gpair, row_subset, Some(feature_subset), &mut sampler, calc)
    }
}

/// A sampler without features.
pub open spec fn no_draws() -> Sampling {
    Sampling {
        pool: Seq::empty(),
        bylevel: Wide { bits: ONE },
        bynode: Wide { bits: ONE },
        seed: 0,
        requests: Seq::empty(),
    }
}

} // verus!
