//! What both tree builders share: weighing a split, keeping the best one, and
//! carrying it out on the growing tree.

use vstd::prelude::*;

use crate::arith::{Calc, Op};
use crate::number::{Single, Wide};
use crate::sort::{argsort, stable_order, stable_order_is_unique};
use crate::tree::constraints::{
    bounded_weight, calc_weight_bounded, child_bounds, gain_at_weight, midpoint, respects,
    satisfies, score_at, split_bounds, unbounded, Bounds,
};
use crate::tree::interaction::groups_view;
use crate::tree::gain::{calc_gain, no_stats, score, GradStats, RegParams};
use crate::tree::laws::{
    expanded, expansion_adds_one_leaf, expansion_keeps_order, is_expansion,
};
use crate::tree::regtree::{count_leaves, leaf_node, ordered, Node, RegTree};

verus! {

/// The bit pattern of the least gain that counts, one millionth.
pub const LEAST_GAIN: u64 = 0x3eb0_c6f7_a0b5_ed8d;

/// The best split found so far for a node.
#[derive(Clone, Debug)]
pub struct BestSplit {
    /// Loss reduction.
    pub loss_chg: Wide,
    /// Split feature.
    pub feature: u32,
    /// Threshold of a numeric split.
    pub threshold: Single,
    /// Last bin on the left side of a numeric split over bins.
    pub split_bin: usize,
    /// Where missing values go.
    pub default_left: bool,
    /// Statistics of the left side.
    pub left: GradStats,
    /// Statistics of the right side.
    pub right: GradStats,
    /// Weight of the left child.
    pub w_left: Wide,
    /// Weight of the right child.
    pub w_right: Wide,
    /// Whether the split is by category.
    pub is_categorical: bool,
    /// The categories on the left side of a split by category.
    pub cat_left: Vec<u32>,
}

/// A split, as contracts speak of it.
#[verifier::ext_equal]
pub struct Best {
    /// Loss reduction.
    pub loss_chg: Wide,
    /// Split feature.
    pub feature: u32,
    /// Threshold of a numeric split.
    pub threshold: Single,
    /// Last bin on the left side of a numeric split over bins.
    pub split_bin: usize,
    /// Where missing values go.
    pub default_left: bool,
    /// Statistics of the left side.
    pub left: GradStats,
    /// Statistics of the right side.
    pub right: GradStats,
    /// Weight of the left child.
    pub w_left: Wide,
    /// Weight of the right child.
    pub w_right: Wide,
    /// Whether the split is by category.
    pub is_categorical: bool,
    /// The categories on the left side of a split by category.
    pub cat_left: Seq<u32>,
}

impl View for BestSplit {
    type V = Best;

    open spec fn view(&self) -> Best {
        Best {
            loss_chg: self.loss_chg,
            feature: self.feature,
            threshold: self.threshold,
            split_bin: self.split_bin,
            default_left: self.default_left,
            left: self.left,
            right: self.right,
            w_left: self.w_left,
            w_right: self.w_right,
            is_categorical: self.is_categorical,
            cat_left: self.cat_left@,
        }
    }
}

/// No split.
pub open spec fn no_split() -> Best {
    Best {
        loss_chg: Wide { bits: 0 },
        feature: 0,
        threshold: Single { bits: 0 },
        split_bin: 0,
        default_left: true,
        left: no_stats(),
        right: no_stats(),
        w_left: Wide { bits: 0 },
        w_right: Wide { bits: 0 },
        is_categorical: false,
        cat_left: Seq::empty(),
    }
}

impl BestSplit {
    /// No split.
    pub fn none() -> (r: Self)
        ensures
            r@ == no_split(),
    {
        BestSplit {
            loss_chg: Wide::zero(),
            feature: 0,
            threshold: Single::zero(),
            split_bin: 0,
            default_left: true,
            left: GradStats::default(),
            right: GradStats::default(),
            w_left: Wide::zero(),
            w_right: Wide::zero(),
            is_categorical: false,
            cat_left: Vec::new(),
        }
    }

    /// The same split again.
    pub fn copy(&self) -> (r: Self)
        ensures
            r@ == self@,
    {
        BestSplit {
            loss_chg: self.loss_chg,
            feature: self.feature,
            threshold: self.threshold,
            split_bin: self.split_bin,
            default_left: self.default_left,
            left: self.left,
            right: self.right,
            w_left: self.w_left,
            w_right: self.w_right,
            is_categorical: self.is_categorical,
            cat_left: vstd::slice::slice_to_vec(self.cat_left.as_slice()),
        }
    }

    /// Whether a split was found.
    pub fn found(&self) -> (r: bool)
        ensures
            r == self@.is_found(),
    {
        Wide { bits: LEAST_GAIN }.is_lt(self.loss_chg)
    }
}

/// The same splits again.
pub fn copies(list: &Vec<BestSplit>) -> (r: Vec<BestSplit>)
    ensures
        r.len() == list.len(),
        forall|i: int| 0 <= i < list.len() ==> (#[trigger] r[i])@ == list[i]@,
{
    let mut out: Vec<BestSplit> = Vec::new();
    let mut i: usize = 0;
    while i < list.len()
        invariant
            i <= list.len(),
            out.len() == i,
            forall|k: int| 0 <= k < i ==> (#[trigger] out[k])@ == list[k]@,
        decreases list.len() - i,
    {
        out.push(list[i].copy());
        i = i + 1;
    }
    out
}

impl Best {
    /// Whether a split was found.
    pub open spec fn is_found(self) -> bool {
        (Wide { bits: LEAST_GAIN }).lt(self.loss_chg)
    }

    /// Whether a split may be taken.
    pub open spec fn is_valid(self, gamma: Wide, reg: RegParams) -> bool {
        &&& self.is_found()
        &&& gamma.lt(self.loss_chg)
        &&& reg.min_child_weight.le(self.left.hess)
        &&& reg.min_child_weight.le(self.right.hess)
    }
}

pub(crate) proof fn nothing_is_not_found()
    ensures
        !no_split().is_found(),
{
}

/// Whether a split may be taken.
pub fn valid(best: &BestSplit, gamma: Wide, reg: &RegParams) -> (r: bool)
    ensures
        r == best@.is_valid(gamma, *reg),
{
    best.found() && gamma.is_lt(best.loss_chg) && reg.min_child_weight.is_le(best.left.hess)
        && reg.min_child_weight.is_le(best.right.hess)
}

/// The node for which splits are weighed.
#[derive(Clone, Copy, Debug, PartialEq, Eq, Structural)]
pub struct Target {
    /// Statistics of the node.
    pub total: GradStats,
    /// Score of the node as a leaf.
    pub parent_gain: Wide,
    /// Interval for the weights of its children.
    pub bounds: Bounds,
    /// Whether weights are bounded.
    pub constrained: bool,
}

/// The score of a node as a leaf.
pub open spec fn leaf_score<F: Fn(Op, u64, u64) -> u64>(
    total: GradStats,
    bounds: Bounds,
    constrained: bool,
    reg: RegParams,
    calc: &Calc<F>,
) -> Wide {
    if constrained {
        score_at(total, reg, bounded_weight(total, reg, bounds, calc), calc)
    } else {
        score(total, reg, calc)
    }
}

/// The node for which splits are weighed.
pub open spec fn target_of<F: Fn(Op, u64, u64) -> u64>(
    total: GradStats,
    bounds: Bounds,
    constrained: bool,
    reg: RegParams,
    calc: &Calc<F>,
) -> Target {
    Target {
        total,
        parent_gain: leaf_score(total, bounds, constrained, reg, calc),
        bounds,
        constrained,
    }
}

impl Target {
    /// The node for which splits are weighed.
    pub fn new<F: Fn(Op, u64, u64) -> u64>(
        total: GradStats,
        bounds: Bounds,
        constrained: bool,
        reg: &RegParams,
        calc: &Calc<F>,
    ) -> (r: Self)
        ensures
            r == target_of(total, bounds, constrained, *reg, calc),
    {
        let parent_gain = if constrained {
            let w = calc_weight_bounded(total, reg, bounds, calc);
            gain_at_weight(total, reg, w, calc)
        } else {
            calc_gain(total, reg, calc)
        };
        Target { total, parent_gain, bounds, constrained }
    }
}

/// The loss reduction of a split and the bounded weights of its children, or
/// nothing where the weights run against the asked direction. Without
/// constraints the weights are not needed and left at zero.
pub open spec fn weighed<F: Fn(Op, u64, u64) -> u64>(
    target: Target,
    dir: i8,
    left: GradStats,
    right: GradStats,
    reg: RegParams,
    calc: &Calc<F>,
) -> Option<(Wide, Wide, Wide)> {
    if target.constrained {
        let wl = bounded_weight(left, reg, target.bounds, calc);
        let wr = bounded_weight(right, reg, target.bounds, calc);
        if respects(dir, wl, wr) {
            Some(
                (
                    calc.minus(
                        calc.plus(score_at(left, reg, wl, calc), score_at(right, reg, wr, calc)),
                        target.parent_gain,
                    ),
                    wl,
                    wr,
                ),
            )
        } else {
            None
        }
    } else {
        Some(
            (
                calc.minus(
                    calc.plus(score(left, reg, calc), score(right, reg, calc)),
                    target.parent_gain,
                ),
                Wide { bits: 0 },
                Wide { bits: 0 },
            ),
        )
    }
}

/// The loss reduction of a split and the weights of its children.
pub fn eval_gain<F: Fn(Op, u64, u64) -> u64>(
    target: &Target,
    dir: i8,
    left: GradStats,
    right: GradStats,
    reg: &RegParams,
    calc: &Calc<F>,
) -> (r: Option<(Wide, Wide, Wide)>)
    ensures
        r == weighed(*target, dir, left, right, *reg, calc),
{
    if target.constrained {
        let wl = calc_weight_bounded(left, reg, target.bounds, calc);
        let wr = calc_weight_bounded(right, reg, target.bounds, calc);
        if !satisfies(dir, wl, wr) {
            return None;
        }
        let both = calc.add(
            gain_at_weight(left, reg, wl, calc),
            gain_at_weight(right, reg, wr, calc),
        );
        Some((calc.sub(both, target.parent_gain), wl, wr))
    } else {
        let both = calc.add(calc_gain(left, reg, calc), calc_gain(right, reg, calc));
        Some((calc.sub(both, target.parent_gain), Wide::zero(), Wide::zero()))
    }
}

/// Where a candidate split lies.
#[verifier::ext_equal]
pub struct Place {
    /// Split feature.
    pub feature: u32,
    /// Threshold of a numeric split.
    pub threshold: Single,
    /// Last bin on the left side of a numeric split over bins.
    pub split_bin: usize,
    /// Where missing values go.
    pub default_left: bool,
    /// Whether the split is by category.
    pub is_categorical: bool,
    /// The categories on the left side of a split by category.
    pub cat_left: Seq<u32>,
}

/// The better of the best split so far and a candidate: the candidate if its
/// loss reduction exceeds that of the best by more than the least gain.
pub open spec fn better<F: Fn(Op, u64, u64) -> u64>(
    best: Best,
    target: Target,
    dir: i8,
    left: GradStats,
    right: GradStats,
    place: Place,
    reg: RegParams,
    calc: &Calc<F>,
) -> Best {
    match weighed(target, dir, left, right, reg, calc) {
        Some((g, wl, wr)) => if calc.plus(best.loss_chg, Wide { bits: LEAST_GAIN }).lt(g) {
            Best {
                loss_chg: g,
                feature: place.feature,
                threshold: place.threshold,
                split_bin: place.split_bin,
                default_left: place.default_left,
                left,
                right,
                w_left: wl,
                w_right: wr,
                is_categorical: place.is_categorical,
                cat_left: place.cat_left,
            }
        } else {
            best
        },
        None => best,
    }
}

/// Where a numeric candidate lies.
pub open spec fn numeric_place(
    feature: u32,
    threshold: Single,
    split_bin: usize,
    default_left: bool,
) -> Place {
    Place {
        feature,
        threshold,
        split_bin,
        default_left,
        is_categorical: false,
        cat_left: Seq::empty(),
    }
}

/// Where a candidate by category lies: the listed categories go left, all
/// others and missing values go right.
pub open spec fn category_place(feature: u32, cat_left: Seq<u32>) -> Place {
    Place {
        feature,
        threshold: Single { bits: 0 },
        split_bin: 0,
        default_left: false,
        is_categorical: true,
        cat_left,
    }
}

/// Weigh a numeric candidate and keep it if it is better.
pub fn consider<F: Fn(Op, u64, u64) -> u64>(
    best: &mut BestSplit,
    target: &Target,
    dir: i8,
    left: GradStats,
    right: GradStats,
    feature: u32,
    threshold: Single,
    split_bin: usize,
    default_left: bool,
    reg: &RegParams,
    calc: &Calc<F>,
)
    ensures
        final(best)@ == better(
            old(best)@,
            *target,
            dir,
            left,
            right,
            numeric_place(feature, threshold, split_bin, default_left),
            *reg,
            calc,
        ),
{
    if let Some((g, wl, wr)) = eval_gain(target, dir, left, right, reg, calc) {
        if calc.add(best.loss_chg, Wide { bits: LEAST_GAIN }).is_lt(g) {
            *best = BestSplit {
                loss_chg: g,
                feature,
                threshold,
                split_bin,
                default_left,
                left,
                right,
                w_left: wl,
                w_right: wr,
                is_categorical: false,
                cat_left: Vec::new(),
            };
        }
    }
}

/// Weigh a candidate by category and keep it if it is better.
pub fn consider_cat<F: Fn(Op, u64, u64) -> u64>(
    best: &mut BestSplit,
    target: &Target,
    dir: i8,
    left: GradStats,
    right: GradStats,
    feature: u32,
    cats_left: &Vec<u32>,
    reg: &RegParams,
    calc: &Calc<F>,
)
    ensures
        final(best)@ == better(
            old(best)@,
            *target,
            dir,
            left,
            right,
            category_place(feature, cats_left@),
            *reg,
            calc,
        ),
{
    if let Some((g, wl, wr)) = eval_gain(target, dir, left, right, reg, calc) {
        if calc.add(best.loss_chg, Wide { bits: LEAST_GAIN }).is_lt(g) {
            let copy = vstd::slice::slice_to_vec(cats_left.as_slice());
            *best = BestSplit {
                loss_chg: g,
                feature,
                threshold: Single::zero(),
                split_bin: 0,
                default_left: false,
                left,
                right,
                w_left: wl,
                w_right: wr,
                is_categorical: true,
                cat_left: copy,
            };
        }
    }
}

/// A boundary weighed with missing values on the right, then with missing
/// values on the left; a side with too little weight rules a direction out.
pub open spec fn boundary<F: Fn(Op, u64, u64) -> u64>(
    best: Best,
    target: Target,
    dir: i8,
    present: GradStats,
    before: GradStats,
    feature: u32,
    threshold: Single,
    split_bin: usize,
    reg: RegParams,
    calc: &Calc<F>,
) -> Best {
    let mcw = reg.min_child_weight;
    let ra = target.total.without(before, calc);
    let first = if mcw.le(before.hess) && mcw.le(ra.hess) {
        better(
            best,
            target,
            dir,
            before,
            ra,
            numeric_place(feature, threshold, split_bin, false),
            reg,
            calc,
        )
    } else {
        best
    };
    let lb = before.joined(target.total.without(present, calc), calc);
    let rb = present.without(before, calc);
    if mcw.le(lb.hess) && mcw.le(rb.hess) {
        better(
            first,
            target,
            dir,
            lb,
            rb,
            numeric_place(feature, threshold, split_bin, true),
            reg,
            calc,
        )
    } else {
        first
    }
}

/// Weigh a boundary in both directions of missing values.
pub fn eval_boundary<F: Fn(Op, u64, u64) -> u64>(
    best: &mut BestSplit,
    target: &Target,
    dir: i8,
    present: GradStats,
    before: GradStats,
    feature: u32,
    threshold: Single,
    split_bin: usize,
    reg: &RegParams,
    calc: &Calc<F>,
)
    ensures
        final(best)@ == boundary(
            old(best)@,
            *target,
            dir,
            present,
            before,
            feature,
            threshold,
            split_bin,
            *reg,
            calc,
        ),
{
    let mcw = reg.min_child_weight;
    let missing = target.total.sub(present, calc);
    let ra = target.total.sub(before, calc);
    if mcw.is_le(before.hess) && mcw.is_le(ra.hess) {
        consider(best, target, dir, before, ra, feature, threshold, split_bin, false, reg, calc);
    }
    let mut lb = before;
    lb.add(missing, calc);
    let rb = present.sub(before, calc);
    if mcw.is_le(lb.hess) && mcw.is_le(rb.hess) {
        consider(best, target, dir, lb, rb, feature, threshold, split_bin, true, reg, calc);
    }
}

/// What categories are ranked by: gradient over regularized Hessian.
pub open spec fn ratio<F: Fn(Op, u64, u64) -> u64>(
    stats: GradStats,
    reg: RegParams,
    calc: &Calc<F>,
) -> Wide {
    calc.over(stats.grad, calc.plus(stats.hess, reg.lambda))
}

/// The ranks of categories with the given statistics.
pub open spec fn ratio_keys<F: Fn(Op, u64, u64) -> u64>(
    stats: Seq<GradStats>,
    reg: RegParams,
    calc: &Calc<F>,
) -> Seq<i64> {
    Seq::new(stats.len(), |i: int| ratio(stats[i], reg, calc).rank() as i64)
}

/// The positions of categories in ascending order of their ratios.
pub open spec fn ratio_order<F: Fn(Op, u64, u64) -> u64>(
    stats: Seq<GradStats>,
    reg: RegParams,
    calc: &Calc<F>,
) -> Seq<usize> {
    choose|o: Seq<usize>| stable_order(ratio_keys(stats, reg, calc), o)
}

/// What a list holds at the given positions.
pub open spec fn arranged<T>(list: Seq<T>, order: Seq<usize>) -> Seq<T> {
    Seq::new(order.len(), |i: int| list[order[i] as int])
}

/// The statistics of the first `n` categories together.
pub open spec fn prefix_stats<F: Fn(Op, u64, u64) -> u64>(
    stats: Seq<GradStats>,
    n: int,
    calc: &Calc<F>,
) -> GradStats
    decreases n,
{
    if n <= 0 {
        no_stats()
    } else {
        prefix_stats(stats, n - 1, calc).joined(stats[n - 1], calc)
    }
}

/// The best split after weighing the first `n` prefixes of a list of
/// categories as left sides.
pub open spec fn sweep<F: Fn(Op, u64, u64) -> u64>(
    best: Best,
    target: Target,
    dir: i8,
    feature: u32,
    cats: Seq<u32>,
    stats: Seq<GradStats>,
    n: int,
    reg: RegParams,
    calc: &Calc<F>,
) -> Best
    decreases n,
{
    if n <= 0 {
        best
    } else {
        let so_far = sweep(best, target, dir, feature, cats, stats, n - 1, reg, calc);
        let left = prefix_stats(stats, n, calc);
        let right = target.total.without(left, calc);
        if left.hess.lt(reg.min_child_weight) || right.hess.lt(reg.min_child_weight) {
            so_far
        } else {
            better(
                so_far,
                target,
                dir,
                left,
                right,
                category_place(feature, cats.take(n)),
                reg,
                calc,
            )
        }
    }
}

/// The best split after weighing the categories of a feature: ranked by their
/// ratios, every proper prefix is a left side.
pub open spec fn categorical<F: Fn(Op, u64, u64) -> u64>(
    best: Best,
    target: Target,
    dir: i8,
    feature: u32,
    cats: Seq<u32>,
    stats: Seq<GradStats>,
    reg: RegParams,
    calc: &Calc<F>,
) -> Best {
    if cats.len() < 2 {
        best
    } else {
        let order = ratio_order(stats, reg, calc);
        sweep(
            best,
            target,
            dir,
            feature,
            arranged(cats, order),
            arranged(stats, order),
            cats.len() - 1,
            reg,
            calc,
        )
    }
}

/// Weigh the categories of a feature.
pub fn eval_categorical<F: Fn(Op, u64, u64) -> u64>(
    best: &mut BestSplit,
    target: &Target,
    dir: i8,
    feature: u32,
    cats: &Vec<u32>,
    stats: &Vec<GradStats>,
    reg: &RegParams,
    calc: &Calc<F>,
)
    requires
        cats.len() == stats.len(),
    ensures
        final(best)@ == categorical(old(best)@, *target, dir, feature, cats@, stats@, *reg, calc),
        final(best).cat_left.len() <= cats.len() || final(best)@ == old(best)@,
{
    let n: usize = cats.len();
    if n < 2 {
        return ;
    }
    let mut keys: Vec<i64> = Vec::new();
    let mut i: usize = 0;
    while i < n
        invariant
            n == stats.len(),
            i <= n,
            keys.len() == i,
            forall|k: int| 0 <= k < i ==> #[trigger] keys[k] == ratio(stats[k], *reg, calc).rank(),
        decreases n - i,
    {
        let s = stats[i];
        keys.push(calc.div(s.grad, calc.add(s.hess, reg.lambda)).total_key());
        i = i + 1;
    }
    assert(keys@ =~= ratio_keys(stats@, *reg, calc));
    let order = argsort(keys.as_slice());
    proof {
        let o = ratio_order(stats@, *reg, calc);
        stable_order_is_unique(keys@, o, order@);
    }
    let ghost cs = arranged(cats@, order@);
    let ghost ss = arranged(stats@, order@);
    let mut left = GradStats::default();
    let mut cats_left: Vec<u32> = Vec::new();
    let mut j: usize = 0;
    assert(cats_left@ =~= cs.take(0));
    while j < n - 1
        invariant
            2 <= n,
            n == stats.len(),
            n == cats.len(),
            order.len() == n,
            forall|a: int| 0 <= a < order.len() ==> 0 <= #[trigger] order[a] < n,
            j <= n - 1,
            cs == arranged(cats@, order@),
            ss == arranged(stats@, order@),
            cats_left@ == cs.take(j as int),
            left == prefix_stats(ss, j as int, calc),
            best@ == sweep(old(best)@, *target, dir, feature, cs, ss, j as int, *reg, calc),
            best.cat_left.len() <= n || best@ == old(best)@,
        decreases n - j,
    {
        let p: usize = order[j];
        assert(cs[j as int] == cats[p as int]);
        assert(ss[j as int] == stats[p as int]);
        left.add(stats[p], calc);
        cats_left.push(cats[p]);
        assert(cats_left@ =~= cs.take(j + 1));
        let right = target.total.sub(left, calc);
        if !(left.hess.is_lt(reg.min_child_weight) || right.hess.is_lt(reg.min_child_weight)) {
            consider_cat(best, target, dir, left, right, feature, &cats_left, reg, calc);
        }
        j = j + 1;
    }
}

/// A growing tree, with the statistics and the weight interval of every node.
pub struct Growth {
    /// The tree.
    pub tree: RegTree,
    /// Statistics per node.
    pub stats: Vec<GradStats>,
    /// Weight interval per node.
    pub bounds: Vec<Bounds>,
    /// The features split by on the way to every node.
    pub paths: Vec<Vec<u32>>,
}

/// A growing tree, as contracts speak of it.
#[verifier::ext_equal]
pub struct Grown {
    /// The nodes.
    pub nodes: Seq<Node>,
    /// The categories of all categorical nodes.
    pub cats: Seq<u32>,
    /// Statistics per node.
    pub stats: Seq<GradStats>,
    /// Weight interval per node.
    pub bounds: Seq<Bounds>,
    /// The features split by on the way to every node.
    pub paths: Seq<Seq<u32>>,
}

impl View for Growth {
    type V = Grown;

    open spec fn view(&self) -> Grown {
        Grown {
            nodes: self.tree.node_list(),
            cats: self.tree.category_list(),
            stats: self.stats@,
            bounds: self.bounds@,
            paths: groups_view(self.paths@),
        }
    }
}

impl Grown {
    /// The tree is laid out parents first, has one node less than twice its
    /// leaves, and every node has statistics and an interval.
    pub open spec fn well_formed(self) -> bool {
        &&& 0 < self.nodes.len() <= i32::MAX
        &&& self.cats.len() <= u32::MAX
        &&& ordered(self.nodes, self.cats)
        &&& self.nodes.len() == 2 * count_leaves(self.nodes, self.nodes.len() as int) - 1
        &&& self.stats.len() == self.nodes.len()
        &&& self.bounds.len() == self.nodes.len()
        &&& self.paths.len() == self.nodes.len()
        &&& forall|i: int|
            0 <= i < self.nodes.len() && (#[trigger] self.nodes[i]).leafy()
                ==> !self.nodes[i].is_categorical
    }

    /// Whether the tree's format has room for a split.
    pub open spec fn has_room(self, b: Best) -> bool {
        self.nodes.len() + 2 <= i32::MAX && self.cats.len() + b.cat_left.len() <= u32::MAX
    }

    /// The node that a split turns node `nid` into.
    pub open spec fn split_node<F: Fn(Op, u64, u64) -> u64>(
        self,
        nid: int,
        b: Best,
        calc: &Calc<F>,
    ) -> Node {
        let left = self.nodes.len() as i32;
        let right = (self.nodes.len() + 1) as i32;
        if b.is_categorical {
            Node {
                split_feature: b.feature,
                is_categorical: true,
                cat_begin: self.cats.len() as u32,
                cat_end: (self.cats.len() + b.cat_left.len()) as u32,
                default_left: b.default_left,
                left,
                right,
                split_gain: calc.narrowed(b.loss_chg),
                ..self.nodes[nid]
            }
        } else {
            Node {
                split_feature: b.feature,
                split_cond: b.threshold,
                default_left: b.default_left,
                left,
                right,
                split_gain: calc.narrowed(b.loss_chg),
                ..self.nodes[nid]
            }
        }
    }

    /// The tree after splitting node `nid`, with the given weights for the new
    /// leaves.
    pub open spec fn after_split<F: Fn(Op, u64, u64) -> u64>(
        self,
        nid: int,
        b: Best,
        dir: i8,
        lw: Single,
        rw: Single,
        calc: &Calc<F>,
    ) -> Grown {
        let intervals = split_bounds(self.bounds[nid], dir, midpoint(b.w_left, b.w_right, calc));
        Grown {
            nodes: expanded(
                self.nodes,
                nid,
                self.split_node(nid, b, calc),
                leaf_node(lw, calc.narrowed(b.left.hess)),
                leaf_node(rw, calc.narrowed(b.right.hess)),
            ),
            cats: if b.is_categorical { self.cats + b.cat_left } else { self.cats },
            stats: self.stats.push(b.left).push(b.right),
            bounds: self.bounds.push(intervals.0).push(intervals.1),
            paths: self.paths.push(self.paths[nid].push(b.feature)).push(
                self.paths[nid].push(b.feature),
            ),
        }
    }

    /// The tree with every leaf's weight settled within its interval.
    pub open spec fn settled<F: Fn(Op, u64, u64) -> u64>(
        self,
        reg: RegParams,
        n: int,
        calc: &Calc<F>,
    ) -> Seq<Node> {
        Seq::new(
            self.nodes.len(),
            |i: int|
                if i < n && self.nodes[i].leafy() {
                    Node {
                        leaf_value: calc.narrowed(
                            bounded_weight(self.stats[i], reg, self.bounds[i], calc),
                        ),
                        ..self.nodes[i]
                    }
                } else {
                    self.nodes[i]
                },
        )
    }
}

/// A tree of one leaf, as growth starts.
pub open spec fn root_growth<F: Fn(Op, u64, u64) -> u64>(total: GradStats, calc: &Calc<F>) -> Grown {
    Grown {
        nodes: seq![leaf_node(Single { bits: 0 }, calc.narrowed(total.hess))],
        cats: Seq::empty(),
        stats: seq![total],
        bounds: seq![unbounded()],
        paths: seq![Seq::empty()],
    }
}

/// Growth starts with a well-formed tree.
pub(crate) proof fn roots_are_well_formed<F: Fn(Op, u64, u64) -> u64>(
    total: GradStats,
    calc: &Calc<F>,
)
    ensures
        root_growth(total, calc).well_formed(),
{
    assert(count_leaves(root_growth(total, calc).nodes, 1) == 1) by {
        reveal_with_fuel(count_leaves, 2);
    }
}

/// A split keeps a growing tree well-formed.
pub proof fn splits_keep_growth_well_formed<F: Fn(Op, u64, u64) -> u64>(
    g: Grown,
    nid: int,
    b: Best,
    dir: i8,
    lw: Single,
    rw: Single,
    calc: &Calc<F>,
)
    requires
        g.well_formed(),
        0 <= nid < g.nodes.len(),
        g.nodes[nid].leafy(),
        g.has_room(b),
    ensures
        g.after_split(nid, b, dir, lw, rw, calc).well_formed(),
        is_expansion(
            g.nodes,
            g.after_split(nid, b, dir, lw, rw, calc).cats,
            nid,
            g.split_node(nid, b, calc),
            leaf_node(lw, calc.narrowed(b.left.hess)),
            leaf_node(rw, calc.narrowed(b.right.hess)),
        ),
{
    let after = g.after_split(nid, b, dir, lw, rw, calc);
    let split = g.split_node(nid, b, calc);
    let left = leaf_node(lw, calc.narrowed(b.left.hess));
    let right = leaf_node(rw, calc.narrowed(b.right.hess));
    let more = if b.is_categorical { b.cat_left } else { Seq::empty() };
    assert(g.cats + more =~= after.cats);
    expansion_keeps_order(g.nodes, g.cats, more, nid, split, left, right);
    expansion_adds_one_leaf(g.nodes, after.cats, nid, split, left, right);
    assert forall|i: int|
        0 <= i < after.nodes.len() && (
        #[trigger] after.nodes[i]).leafy() implies !after.nodes[i].is_categorical by {
        if i != nid && i < g.nodes.len() {
            assert(after.nodes[i] == g.nodes[i]);
        }
    }
}

impl Growth {
    /// A tree of one leaf.
    pub fn start<F: Fn(Op, u64, u64) -> u64>(total: GradStats, calc: &Calc<F>) -> (r: Self)
        ensures
            r@ == root_growth(total, calc),
            r@.well_formed(),
    {
        let tree = RegTree::with_root(calc.narrow(total.hess));
        let mut stats: Vec<GradStats> = Vec::new();
        stats.push(total);
        let mut bounds: Vec<Bounds> = Vec::new();
        bounds.push(Bounds::default());
        let mut paths: Vec<Vec<u32>> = Vec::new();
        paths.push(Vec::new());
        let r = Growth { tree, stats, bounds, paths };
        assert(r@.paths =~= root_growth(total, calc).paths);
        assert(r@ =~= root_growth(total, calc));
        proof {
            roots_are_well_formed(total, calc);
        }
        r
    }

    /// Whether the tree's format has room for a split.
    pub fn room(&self, b: &BestSplit) -> (r: bool)
        requires
            self@.well_formed(),
        ensures
            r == self@.has_room(b@),
    {
        self.tree.num_nodes() <= (i32::MAX - 2) as usize && b.cat_left.len() <= u32::MAX as usize
            && self.tree.categories().len() as u64 + b.cat_left.len() as u64 <= u32::MAX as u64
    }

    /// Split a leaf: expand the tree and record the children's statistics and
    /// intervals. Gives the ids of the children.
    pub fn split<F: Fn(Op, u64, u64) -> u64>(
        &mut self,
        nid: usize,
        b: &BestSplit,
        dir: i8,
        lw: Single,
        rw: Single,
        calc: &Calc<F>,
    ) -> (r: (usize, usize))
        requires
            old(self)@.well_formed(),
            nid < old(self)@.nodes.len(),
            old(self)@.nodes[nid as int].leafy(),
            old(self)@.has_room(b@),
        ensures
            final(self)@ == old(self)@.after_split(nid as int, b@, dir, lw, rw, calc),
            final(self)@.well_formed(),
            r.0 == old(self)@.nodes.len(),
            r.1 == r.0 + 1,
    {
        let ghost was = self@;
        let (lb, rb) = child_bounds(self.bounds[nid], dir, b.w_left, b.w_right, calc);
        let lh = calc.narrow(b.left.hess);
        let rh = calc.narrow(b.right.hess);
        let r = if b.is_categorical {
            self.tree.expand_categorical(
                nid,
                b.feature,
                b.cat_left.as_slice(),
                b.default_left,
                lw,
                lh,
                rw,
                rh,
            )
        } else {
            self.tree.expand(nid, b.feature, b.threshold, b.default_left, lw, lh, rw, rh)
        };
        self.tree.set_split_gain(nid, calc.narrow(b.loss_chg));
        self.stats.push(b.left);
        self.stats.push(b.right);
        self.bounds.push(lb);
        self.bounds.push(rb);
        let mut left_path = vstd::slice::slice_to_vec(self.paths[nid].as_slice());
        left_path.push(b.feature);
        let right_path = vstd::slice::slice_to_vec(left_path.as_slice());
        self.paths.push(left_path);
        self.paths.push(right_path);
        assert(self@.paths =~= was.after_split(nid as int, b@, dir, lw, rw, calc).paths);
        proof {
            assert(self@ =~= was.after_split(nid as int, b@, dir, lw, rw, calc));
            splits_keep_growth_well_formed(was, nid as int, b@, dir, lw, rw, calc);
        }
        r
    }

    /// Settle every leaf's weight within its interval.
    pub fn finish<F: Fn(Op, u64, u64) -> u64>(self, reg: &RegParams, calc: &Calc<F>) -> (r: RegTree)
        requires
            self@.well_formed(),
        ensures
            r.node_list() == self@.settled(*reg, self@.nodes.len() as int, calc),
            r.category_list() == self@.cats,
            r.grown(),
            r.node_list().len() == 2 * r.leaves() - 1,
    {
        let ghost was = self@;
        let mut growth = self;
        let n: usize = growth.tree.num_nodes();
        let mut id: usize = 0;
        assert(was.settled(*reg, 0, calc) =~= was.nodes);
        while id < n
            invariant
                was.well_formed(),
                n == was.nodes.len(),
                id <= n,
                growth@.nodes == was.settled(*reg, id as int, calc),
                growth@.cats == was.cats,
                growth@.stats == was.stats,
                growth@.bounds == was.bounds,
            decreases n - id,
        {
            if growth.tree.node(id).is_leaf() {
                let w = calc_weight_bounded(growth.stats[id], reg, growth.bounds[id], calc);
                growth.tree.set_leaf_value(id, calc.narrow(w));
            }
            id = id + 1;
            assert(growth@.nodes =~= was.settled(*reg, id as int, calc));
        }
        proof {
            let nodes = growth@.nodes;
            leafiness_counts(was.nodes, nodes, n as int);
            assert forall|i: int|
                #![trigger nodes[i]]
                0 <= i < nodes.len() && !nodes[i].leafy() implies {
                &&& i < nodes[i].left < nodes.len()
                &&& i < nodes[i].right < nodes.len()
                &&& nodes[i].is_categorical ==> nodes[i].cat_begin <= nodes[i].cat_end
                    <= was.cats.len()
            } by {
                assert(nodes[i] == was.nodes[i]);
            }
        }
        growth.tree
    }
}

proof fn leafiness_counts(a: Seq<Node>, b: Seq<Node>, n: int)
    requires
        0 <= n <= a.len(),
        n <= b.len(),
        forall|i: int| 0 <= i < n ==> (#[trigger] a[i]).leafy() == b[i].leafy(),
    ensures
        count_leaves(a, n) == count_leaves(b, n),
    decreases n,
{
    if n > 0 {
        leafiness_counts(a, b, n - 1);
        assert(a[n - 1].leafy() == b[n - 1].leafy());
    }
}

} // verus!
