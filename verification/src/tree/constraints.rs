//! Monotone constraints: bounded leaf weights and constrained scores.
//!
//! Each node carries an interval for its leaf weight. A split on a constrained
//! feature is taken only when the weights of its children respect the asked
//! direction, and the children's intervals meet at a point between these
//! weights, so that the constraint holds for the whole subtree.

use vstd::prelude::*;

use crate::arith::{Calc, Op};
use crate::config::Monotone;
use crate::number::{Wide, HALF, TWO};
use crate::tree::gain::{
    free_weight, is_too_light, shrunk, threshold_l1, too_light, unbounded_weight, GradStats,
    RegParams,
};

verus! {

/// Per-feature directions.
#[derive(Clone, Debug)]
pub struct MonotoneConstraints {
    dirs: Vec<i8>,
}

/// A direction as a sign: `1` increasing, `-1` decreasing, `0` none.
pub open spec fn sign_of(m: Monotone) -> i8 {
    match m {
        Monotone::Increasing => 1,
        Monotone::Decreasing => -1i8,
        Monotone::Unconstrained => 0,
    }
}

impl Default for MonotoneConstraints {
    fn default() -> (r: Self)
        ensures
            r.directions() == Seq::<i8>::empty(),
    {
        MonotoneConstraints { dirs: Vec::new() }
    }
}

impl MonotoneConstraints {
    /// The sign per feature.
    pub closed spec fn directions(&self) -> Seq<i8> {
        self.dirs@
    }

    /// The sign of a feature, zero beyond the list.
    pub open spec fn direction(&self, feature: int) -> i8 {
        if 0 <= feature < self.directions().len() { self.directions()[feature] } else { 0 }
    }

    /// Whether any feature is constrained.
    pub open spec fn active(&self) -> bool {
        exists|f: int| 0 <= f < self.directions().len() && #[trigger] self.directions()[f] != 0
    }

    /// The constraints of a parameter list.
    pub fn from_params(list: &[Monotone]) -> (r: Self)
        ensures
            r.directions() == Seq::new(list.len() as nat, |i: int| sign_of(list@[i])),
    {
        let mut dirs: Vec<i8> = Vec::new();
        let mut i: usize = 0;
        while i < list.len()
            invariant
                i <= list.len(),
                dirs.len() == i,
                forall|k: int| 0 <= k < i ==> #[trigger] dirs[k] == sign_of(list@[k]),
            decreases list.len() - i,
        {
            let d: i8 = match list[i] {
                Monotone::Increasing => 1,
                Monotone::Decreasing => -1,
                Monotone::Unconstrained => 0,
            };
            dirs.push(d);
            i = i + 1;
        }
        assert(dirs@ =~= Seq::new(list.len() as nat, |i: int| sign_of(list@[i])));
        MonotoneConstraints { dirs }
    }

    /// Whether any feature is constrained.
    pub fn is_active(&self) -> (r: bool)
        ensures
            r == self.active(),
    {
        let mut i: usize = 0;
        while i < self.dirs.len()
            invariant
                i <= self.dirs.len(),
                forall|k: int| 0 <= k < i ==> #[trigger] self.dirs[k] == 0,
            decreases self.dirs.len() - i,
        {
            if self.dirs[i] != 0 {
                assert(self.directions()[i as int] != 0);
                return true;
            }
            i = i + 1;
        }
        false
    }

    /// The sign of a feature, zero when it is unconstrained or beyond the list.
    pub fn dir(&self, feature: usize) -> (r: i8)
        ensures
            r == self.direction(feature as int),
    {
        if feature < self.dirs.len() { self.dirs[feature] } else { 0 }
    }
}

/// An interval `[lower, upper]` for a leaf weight.
#[derive(Clone, Copy, Debug, PartialEq, Eq, Structural)]
pub struct Bounds {
    /// Lower bound.
    pub lower: Wide,
    /// Upper bound.
    pub upper: Wide,
}

/// The interval of all weights.
pub open spec fn unbounded() -> Bounds {
    Bounds {
        lower: Wide { bits: 0xfff0_0000_0000_0000 },
        upper: Wide { bits: 0x7ff0_0000_0000_0000 },
    }
}

impl Default for Bounds {
    fn default() -> (r: Self)
        ensures
            r == unbounded(),
            r.nonempty(),
    {
        Bounds { lower: Wide::neg_infinity(), upper: Wide::infinity() }
    }
}

impl Bounds {
    /// Whether the interval holds any number.
    pub open spec fn nonempty(self) -> bool {
        self.lower.le(self.upper)
    }

    /// Whether a weight lies in the interval.
    pub open spec fn holds(self, w: Wide) -> bool {
        self.lower.le(w) && w.le(self.upper)
    }

    /// A weight held within the interval.
    pub fn clamp(&self, w: Wide) -> (r: Wide)
        requires
            self.nonempty(),
        ensures
            r == w.clamped(self.lower, self.upper),
            !w.nan() ==> self.holds(r),
    {
        w.clamp(self.lower, self.upper)
    }
}

/// The best leaf weight within bounds.
pub open spec fn bounded_weight<F: Fn(Op, u64, u64) -> u64>(
    stats: GradStats,
    reg: RegParams,
    bounds: Bounds,
    calc: &Calc<F>,
) -> Wide {
    let w = if too_light(stats, reg) { Wide { bits: 0 } } else { free_weight(stats, reg, calc) };
    w.clamped(bounds.lower, bounds.upper)
}

/// The best leaf weight within bounds.
pub fn calc_weight_bounded<F: Fn(Op, u64, u64) -> u64>(
    stats: GradStats,
    reg: &RegParams,
    bounds: Bounds,
    calc: &Calc<F>,
) -> (r: Wide)
    ensures
        r == bounded_weight(stats, *reg, bounds, calc),
        bounds.nonempty() && !r.nan() ==> bounds.holds(r),
{
    if is_too_light(stats, reg) {
        return Wide::zero().clamp(bounds.lower, bounds.upper);
    }
    unbounded_weight(stats, reg, calc).clamp(bounds.lower, bounds.upper)
}

/// The score of a node at weight `w`: `-(2 T(G) w + (H + lambda) w^2)`.
pub open spec fn score_at<F: Fn(Op, u64, u64) -> u64>(
    stats: GradStats,
    reg: RegParams,
    w: Wide,
    calc: &Calc<F>,
) -> Wide {
    if too_light(stats, reg) {
        Wide { bits: 0 }
    } else {
        let t = shrunk(stats.grad, reg.alpha, calc);
        let linear = calc.times(calc.times(Wide { bits: TWO }, t), w);
        let square = calc.times(calc.times(calc.plus(stats.hess, reg.lambda), w), w);
        calc.plus(linear, square).negated()
    }
}

/// The score of a node at weight `w`.
pub fn gain_at_weight<F: Fn(Op, u64, u64) -> u64>(
    stats: GradStats,
    reg: &RegParams,
    w: Wide,
    calc: &Calc<F>,
) -> (r: Wide)
    ensures
        r == score_at(stats, *reg, w, calc),
{
    if is_too_light(stats, reg) {
        return Wide::zero();
    }
    let t = threshold_l1(stats.grad, reg.alpha, calc);
    let linear = calc.mul(calc.mul(Wide { bits: TWO }, t), w);
    let square = calc.mul(calc.mul(calc.add(stats.hess, reg.lambda), w), w);
    calc.add(linear, square).neg()
}

/// The point at which the intervals of two children meet.
pub open spec fn midpoint<F: Fn(Op, u64, u64) -> u64>(
    w_left: Wide,
    w_right: Wide,
    calc: &Calc<F>,
) -> Wide {
    calc.times(Wide { bits: HALF }, calc.plus(w_left, w_right))
}

/// The intervals of the children of a split.
pub open spec fn split_bounds(parent: Bounds, dir: i8, mid: Wide) -> (Bounds, Bounds) {
    if dir == 0 {
        (parent, parent)
    } else if dir > 0 {
        (Bounds { lower: parent.lower, upper: mid }, Bounds { lower: mid, upper: parent.upper })
    } else {
        (Bounds { lower: mid, upper: parent.upper }, Bounds { lower: parent.lower, upper: mid })
    }
}

/// The intervals of the children of a split, whose weights are given.
pub fn child_bounds<F: Fn(Op, u64, u64) -> u64>(
    parent: Bounds,
    dir: i8,
    w_left: Wide,
    w_right: Wide,
    calc: &Calc<F>,
) -> (r: (Bounds, Bounds))
    ensures
        r == split_bounds(parent, dir, midpoint(w_left, w_right, calc)),
{
    if dir == 0 {
        return (parent, parent);
    }
    let mid = calc.mul(Wide { bits: HALF }, calc.add(w_left, w_right));
    if dir > 0 {
        (Bounds { lower: parent.lower, upper: mid }, Bounds { lower: mid, upper: parent.upper })
    } else {
        (Bounds { lower: mid, upper: parent.upper }, Bounds { lower: parent.lower, upper: mid })
    }
}

/// Whether the weights of two children respect a direction.
pub open spec fn respects(dir: i8, w_left: Wide, w_right: Wide) -> bool {
    if dir > 0 {
        w_left.le(w_right)
    } else if dir < 0 {
        w_right.le(w_left)
    } else {
        true
    }
}

/// Whether the weights of two children respect a direction.
pub fn satisfies(dir: i8, w_left: Wide, w_right: Wide) -> (r: bool)
    ensures
        r == respects(dir, w_left, w_right),
{
    if dir > 0 {
        w_left.is_le(w_right)
    } else if dir < 0 {
        w_right.is_le(w_left)
    } else {
        true
    }
}

/// The intervals of a split's children lie within the parent's, are nonempty
/// and meet in the asked order, if the point between the children's weights
/// lies within the parent's interval.
pub proof fn child_bounds_are_ordered(parent: Bounds, dir: i8, mid: Wide)
    requires
        parent.nonempty(),
        parent.holds(mid),
    ensures
        ({
            let (l, r) = split_bounds(parent, dir, mid);
            &&& l.nonempty() && r.nonempty()
            &&& parent.lower.le(l.lower) && l.upper.le(parent.upper)
            &&& parent.lower.le(r.lower) && r.upper.le(parent.upper)
            &&& dir > 0 ==> l.upper == r.lower
            &&& dir < 0 ==> r.upper == l.lower
        }),
{
}

} // verus!
