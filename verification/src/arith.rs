//! The floating-point arithmetic that the library computes with.
//!
//! The library holds numbers by their bit patterns and does not calculate
//! itself: sums, products, exponentials and the like come from a function that
//! its user hands over. Every contract that involves a calculation says which
//! operations are applied to which operands, in which order.

use vstd::prelude::*;

use crate::number::{Single, Wide};

verus! {

/// A floating-point operation on bit patterns.
#[derive(Clone, Copy, Debug, PartialEq, Eq, Structural)]
pub enum Op {
    /// Double-precision `a + b`.
    Add,
    /// Double-precision `a - b`.
    Sub,
    /// Double-precision `a * b`.
    Mul,
    /// Double-precision `a / b`.
    Div,
    /// Double-precision `a` to the power `b`.
    Pow,
    /// Double-precision exponential of `a`.
    Exp,
    /// Double-precision natural logarithm of `a`.
    Ln,
    /// Double-precision binary logarithm of `a`.
    Log2,
    /// Double-precision square root of `a`.
    Sqrt,
    /// Double-precision `a`, rounded to the nearest integer, halves away from
    /// zero.
    Round,
    /// Double-precision least integer not below `a`.
    Ceil,
    /// Single-precision `a + b`.
    AddSingle,
    /// Single-precision `a - b`.
    SubSingle,
    /// Single-precision `a * b`.
    MulSingle,
    /// Single-precision `a / b`.
    DivSingle,
    /// Single-precision exponential of `a`.
    ExpSingle,
    /// Single-precision natural logarithm of `a`.
    LnSingle,
    /// Single-precision square root of `a`.
    SqrtSingle,
    /// The double-precision number nearest to the single-precision `a`.
    Widen,
    /// The single-precision number nearest to the double-precision `a`.
    Narrow,
    /// The double-precision number nearest to the integer `a`.
    OfInteger,
    /// The single-precision number nearest to the integer `a`.
    OfIntegerSingle,
}

/// Whether an arithmetic gives one result for every operation and operands.
pub open spec fn steady<F: Fn(Op, u64, u64) -> u64>(f: F) -> bool {
    &&& forall|op: Op, a: u64, b: u64| #[trigger] call_requires(f, (op, a, b))
    &&& forall|op: Op, a: u64, b: u64, x: u64, y: u64| #[trigger]
        call_ensures(f, (op, a, b), x) && #[trigger] call_ensures(f, (op, a, b), y) ==> x == y
}

/// An arithmetic.
pub struct Calc<F: Fn(Op, u64, u64) -> u64> {
    f: F,
}

impl<F: Fn(Op, u64, u64) -> u64> Calc<F> {
    #[verifier::type_invariant]
    spec fn is_steady(&self) -> bool {
        steady(self.f)
    }

    /// The result of an operation.
    pub closed spec fn result(&self, op: Op, a: u64, b: u64) -> u64 {
        choose|r: u64| call_ensures(self.f, (op, a, b), r)
    }

    /// The arithmetic that a function computes.
    pub fn new(f: F) -> (r: Self)
        requires
            steady(f),
        ensures
            forall|op: Op, a: u64, b: u64, x: u64| #[trigger]
                call_ensures(f, (op, a, b), x) ==> x == r.result(op, a, b),
    {
        let r = Calc { f };
        assert forall|op: Op, a: u64, b: u64, x: u64| #[trigger]
            call_ensures(f, (op, a, b), x) implies x == r.result(op, a, b) by {
            assert(call_ensures(f, (op, a, b), r.result(op, a, b)));
        }
        r
    }

    fn run(&self, op: Op, a: u64, b: u64) -> (r: u64)
        ensures
            r == self.result(op, a, b),
    {
        proof {
            use_type_invariant(self);
        }
        let f = &self.f;
        let r: u64 = f(op, a, b);
        proof {
            assert(call_ensures(self.f, (op, a, b), r));
        }
        r
    }

    /// `a + b`.
    pub open spec fn plus(&self, a: Wide, b: Wide) -> Wide {
        Wide { bits: self.result(Op::Add, a.bits, b.bits) }
    }

    /// `a + b`.
    pub fn add(&self, a: Wide, b: Wide) -> (r: Wide)
        ensures
            r == self.plus(a, b),
    {
        Wide { bits: self.run(Op::Add, a.bits, b.bits) }
    }

    /// `a - b`.
    pub open spec fn minus(&self, a: Wide, b: Wide) -> Wide {
        Wide { bits: self.result(Op::Sub, a.bits, b.bits) }
    }

    /// `a - b`.
    pub fn sub(&self, a: Wide, b: Wide) -> (r: Wide)
        ensures
            r == self.minus(a, b),
    {
        Wide { bits: self.run(Op::Sub, a.bits, b.bits) }
    }

    /// `a * b`.
    pub open spec fn times(&self, a: Wide, b: Wide) -> Wide {
        Wide { bits: self.result(Op::Mul, a.bits, b.bits) }
    }

    /// `a * b`.
    pub fn mul(&self, a: Wide, b: Wide) -> (r: Wide)
        ensures
            r == self.times(a, b),
    {
        Wide { bits: self.run(Op::Mul, a.bits, b.bits) }
    }

    /// `a / b`.
    pub open spec fn over(&self, a: Wide, b: Wide) -> Wide {
        Wide { bits: self.result(Op::Div, a.bits, b.bits) }
    }

    /// `a / b`.
    pub fn div(&self, a: Wide, b: Wide) -> (r: Wide)
        ensures
            r == self.over(a, b),
    {
        Wide { bits: self.run(Op::Div, a.bits, b.bits) }
    }

    /// `a` to the power `b`.
    pub open spec fn power(&self, a: Wide, b: Wide) -> Wide {
        Wide { bits: self.result(Op::Pow, a.bits, b.bits) }
    }

    /// `a` to the power `b`.
    pub fn pow(&self, a: Wide, b: Wide) -> (r: Wide)
        ensures
            r == self.power(a, b),
    {
        Wide { bits: self.run(Op::Pow, a.bits, b.bits) }
    }

    /// The exponential of `a`.
    pub open spec fn exponential(&self, a: Wide) -> Wide {
        Wide { bits: self.result(Op::Exp, a.bits, 0) }
    }

    /// The exponential of `a`.
    pub fn exp(&self, a: Wide) -> (r: Wide)
        ensures
            r == self.exponential(a),
    {
        Wide { bits: self.run(Op::Exp, a.bits, 0) }
    }

    /// The natural logarithm of `a`.
    pub open spec fn logarithm(&self, a: Wide) -> Wide {
        Wide { bits: self.result(Op::Ln, a.bits, 0) }
    }

    /// The natural logarithm of `a`.
    pub fn ln(&self, a: Wide) -> (r: Wide)
        ensures
            r == self.logarithm(a),
    {
        Wide { bits: self.run(Op::Ln, a.bits, 0) }
    }

    /// The binary logarithm of `a`.
    pub open spec fn binary_logarithm(&self, a: Wide) -> Wide {
        Wide { bits: self.result(Op::Log2, a.bits, 0) }
    }

    /// The binary logarithm of `a`.
    pub fn log2(&self, a: Wide) -> (r: Wide)
        ensures
            r == self.binary_logarithm(a),
    {
        Wide { bits: self.run(Op::Log2, a.bits, 0) }
    }

    /// The square root of `a`.
    pub open spec fn root(&self, a: Wide) -> Wide {
        Wide { bits: self.result(Op::Sqrt, a.bits, 0) }
    }

    /// The square root of `a`.
    pub fn sqrt(&self, a: Wide) -> (r: Wide)
        ensures
            r == self.root(a),
    {
        Wide { bits: self.run(Op::Sqrt, a.bits, 0) }
    }

    /// The integer nearest to `a`, halves away from zero.
    pub open spec fn rounded(&self, a: Wide) -> Wide {
        Wide { bits: self.result(Op::Round, a.bits, 0) }
    }

    /// The integer nearest to `a`, halves away from zero.
    pub fn round(&self, a: Wide) -> (r: Wide)
        ensures
            r == self.rounded(a),
    {
        Wide { bits: self.run(Op::Round, a.bits, 0) }
    }

    /// The least integer not below `a`.
    pub open spec fn raised(&self, a: Wide) -> Wide {
        Wide { bits: self.result(Op::Ceil, a.bits, 0) }
    }

    /// The least integer not below `a`.
    pub fn ceil(&self, a: Wide) -> (r: Wide)
        ensures
            r == self.raised(a),
    {
        Wide { bits: self.run(Op::Ceil, a.bits, 0) }
    }

    /// The single-precision number in the low half of a result.
    pub open spec fn single(&self, op: Op, a: u64, b: u64) -> Single {
        Single { bits: (self.result(op, a, b) % 0x1_0000_0000) as u32 }
    }

    fn run_single(&self, op: Op, a: u64, b: u64) -> (r: Single)
        ensures
            r == self.single(op, a, b),
    {
        Single { bits: (self.run(op, a, b) % 0x1_0000_0000) as u32 }
    }

    /// `a + b` in single precision.
    pub open spec fn plus_s(&self, a: Single, b: Single) -> Single {
        self.single(Op::AddSingle, a.bits as u64, b.bits as u64)
    }

    /// `a + b` in single precision.
    pub fn add_s(&self, a: Single, b: Single) -> (r: Single)
        ensures
            r == self.plus_s(a, b),
    {
        self.run_single(Op::AddSingle, a.bits as u64, b.bits as u64)
    }

    /// `a - b` in single precision.
    pub open spec fn minus_s(&self, a: Single, b: Single) -> Single {
        self.single(Op::SubSingle, a.bits as u64, b.bits as u64)
    }

    /// `a - b` in single precision.
    pub fn sub_s(&self, a: Single, b: Single) -> (r: Single)
        ensures
            r == self.minus_s(a, b),
    {
        self.run_single(Op::SubSingle, a.bits as u64, b.bits as u64)
    }

    /// `a * b` in single precision.
    pub open spec fn times_s(&self, a: Single, b: Single) -> Single {
        self.single(Op::MulSingle, a.bits as u64, b.bits as u64)
    }

    /// `a * b` in single precision.
    pub fn mul_s(&self, a: Single, b: Single) -> (r: Single)
        ensures
            r == self.times_s(a, b),
    {
        self.run_single(Op::MulSingle, a.bits as u64, b.bits as u64)
    }

    /// `a / b` in single precision.
    pub open spec fn over_s(&self, a: Single, b: Single) -> Single {
        self.single(Op::DivSingle, a.bits as u64, b.bits as u64)
    }

    /// `a / b` in single precision.
    pub fn div_s(&self, a: Single, b: Single) -> (r: Single)
        ensures
            r == self.over_s(a, b),
    {
        self.run_single(Op::DivSingle, a.bits as u64, b.bits as u64)
    }

    /// The exponential of `a` in single precision.
    pub open spec fn exponential_s(&self, a: Single) -> Single {
        self.single(Op::ExpSingle, a.bits as u64, 0)
    }

    /// The exponential of `a` in single precision.
    pub fn exp_s(&self, a: Single) -> (r: Single)
        ensures
            r == self.exponential_s(a),
    {
        self.run_single(Op::ExpSingle, a.bits as u64, 0)
    }

    /// The natural logarithm of `a` in single precision.
    pub open spec fn logarithm_s(&self, a: Single) -> Single {
        self.single(Op::LnSingle, a.bits as u64, 0)
    }

    /// The natural logarithm of `a` in single precision.
    pub fn ln_s(&self, a: Single) -> (r: Single)
        ensures
            r == self.logarithm_s(a),
    {
        self.run_single(Op::LnSingle, a.bits as u64, 0)
    }

    /// The square root of `a` in single precision.
    pub open spec fn root_s(&self, a: Single) -> Single {
        self.single(Op::SqrtSingle, a.bits as u64, 0)
    }

    /// The square root of `a` in single precision.
    pub fn sqrt_s(&self, a: Single) -> (r: Single)
        ensures
            r == self.root_s(a),
    {
        self.run_single(Op::SqrtSingle, a.bits as u64, 0)
    }

    /// A single-precision number in double precision.
    pub open spec fn widened(&self, a: Single) -> Wide {
        Wide { bits: self.result(Op::Widen, a.bits as u64, 0) }
    }

    /// A single-precision number in double precision.
    pub fn widen(&self, a: Single) -> (r: Wide)
        ensures
            r == self.widened(a),
    {
        Wide { bits: self.run(Op::Widen, a.bits as u64, 0) }
    }

    /// The single-precision number nearest to `a`.
    pub open spec fn narrowed(&self, a: Wide) -> Single {
        self.single(Op::Narrow, a.bits, 0)
    }

    /// The single-precision number nearest to `a`.
    pub fn narrow(&self, a: Wide) -> (r: Single)
        ensures
            r == self.narrowed(a),
    {
        self.run_single(Op::Narrow, a.bits, 0)
    }

    /// The double-precision number nearest to an integer.
    pub open spec fn of(&self, n: int) -> Wide {
        Wide { bits: self.result(Op::OfInteger, n as u64, 0) }
    }

    /// The double-precision number nearest to an integer.
    pub fn of_usize(&self, n: usize) -> (r: Wide)
        ensures
            r == self.of(n as int),
    {
        Wide { bits: self.run(Op::OfInteger, n as u64, 0) }
    }

    /// The double-precision number nearest to an integer.
    pub fn of_u64(&self, n: u64) -> (r: Wide)
        ensures
            r == self.of(n as int),
    {
        Wide { bits: self.run(Op::OfInteger, n, 0) }
    }

    /// The single-precision number nearest to an integer.
    pub open spec fn of_s(&self, n: int) -> Single {
        self.single(Op::OfIntegerSingle, n as u64, 0)
    }

    /// The single-precision number nearest to an integer.
    pub fn of_usize_s(&self, n: usize) -> (r: Single)
        ensures
            r == self.of_s(n as int),
    {
        self.run_single(Op::OfIntegerSingle, n as u64, 0)
    }
}

} // verus!
