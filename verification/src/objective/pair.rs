//! Gradients of one instance.

use vstd::prelude::*;

use crate::arith::{Calc, Op};
use crate::number::Single;
use crate::tree::gain::GradStats;

verus! {

/// The first- and second-order gradient of one instance and output.
#[derive(Clone, Copy, Debug, PartialEq, Eq, Structural)]
pub struct GradPair {
    /// First-order gradient of the loss by the margin.
    pub grad: Single,
    /// Second-order gradient of the loss by the margin.
    pub hess: Single,
}

/// The gradient pair of zeros.
pub open spec fn zero_pair() -> GradPair {
    GradPair { grad: Single { bits: 0 }, hess: Single { bits: 0 } }
}

impl Default for GradPair {
    fn default() -> (r: Self)
        ensures
            r == zero_pair(),
    {
        GradPair { grad: Single::zero(), hess: Single::zero() }
    }
}

impl GradPair {
    /// A gradient pair.
    pub fn new(grad: Single, hess: Single) -> (r: Self)
        ensures
            r == (GradPair { grad, hess }),
    {
        GradPair { grad, hess }
    }

    /// The pair in double precision.
    pub open spec fn stats<F: Fn(Op, u64, u64) -> u64>(self, calc: &Calc<F>) -> GradStats {
        GradStats { grad: calc.widened(self.grad), hess: calc.widened(self.hess) }
    }

    /// The pair in double precision.
    pub fn to_stats<F: Fn(Op, u64, u64) -> u64>(self, calc: &Calc<F>) -> (r: GradStats)
        ensures
            r == self.stats(calc),
    {
        GradStats { grad: calc.widen(self.grad), hess: calc.widen(self.hess) }
    }
}

} // verus!
