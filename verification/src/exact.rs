//! Arithmetics that do not round.
//!
//! Floating-point numbers stand for real ones, and sums, products and quotients
//! of them mostly have to be rounded. An arithmetic is exact if it does not: a
//! result that would have to be rounded stands for no number at all. What holds
//! in such an arithmetic holds of every calculation in which nothing is rounded.

use vstd::prelude::*;

use crate::arith::{Calc, Op};
use crate::number::{Single, Wide, HALF_S, ONE, ONE_S, TWO, TWO_S};

verus! {

/// Whether an arithmetic adds and subtracts without rounding. `val` says what
/// numbers stand for: a sum or difference that stands for a number at all has
/// operands that do, and stands for the sum or difference of these.
pub open spec fn adds_exactly<F: Fn(Op, u64, u64) -> u64>(
    val: spec_fn(Wide) -> Option<real>,
    calc: &Calc<F>,
) -> bool {
    &&& val(Wide { bits: 0 }) == Some(0real)
    &&& forall|a: Wide, b: Wide|
        val(#[trigger] calc.plus(a, b)) is Some ==> {
            &&& val(a) is Some
            &&& val(b) is Some
            &&& val(calc.plus(a, b))->0 == val(a)->0 + val(b)->0
        }
    &&& forall|a: Wide, b: Wide|
        val(#[trigger] calc.minus(a, b)) is Some ==> {
            &&& val(a) is Some
            &&& val(b) is Some
            &&& val(calc.minus(a, b))->0 == val(a)->0 - val(b)->0
        }
}

/// Whether an arithmetic calculates without rounding, and orders numbers by what
/// they stand for.
pub open spec fn is_exact<F: Fn(Op, u64, u64) -> u64>(
    val: spec_fn(Wide) -> Option<real>,
    calc: &Calc<F>,
) -> bool {
    &&& adds_exactly(val, calc)
    &&& val(Wide { bits: ONE }) == Some(1real)
    &&& val(Wide { bits: TWO }) == Some(2real)
    &&& forall|a: Wide| (#[trigger] a.same(Wide { bits: 0 })) <==> val(a) == Some(0real)
    &&& forall|a: Wide, b: Wide|
        val(a) is Some && val(b) is Some ==> ((#[trigger] a.lt(b)) <==> val(a)->0 < val(b)->0)
    &&& forall|a: Wide, b: Wide|
        val(a) is Some && val(b) is Some ==> ((#[trigger] a.le(b)) <==> val(a)->0 <= val(b)->0)
    &&& forall|a: Wide|
        val(#[trigger] a.negated()) is Some ==> val(a) is Some && val(a.negated())->0
            == 0real - val(a)->0
    &&& forall|n: int|
        0 <= n <= u64::MAX && val(#[trigger] calc.of(n)) is Some ==> val(calc.of(n))->0 == n as real
    &&& forall|a: Wide, b: Wide|
        val(#[trigger] calc.times(a, b)) is Some ==> {
            &&& val(a) is Some
            &&& val(b) is Some
            &&& val(calc.times(a, b))->0 == val(a)->0 * val(b)->0
        }
    &&& forall|a: Wide, b: Wide|
        val(#[trigger] calc.over(a, b)) is Some ==> {
            &&& val(a) is Some
            &&& val(b) is Some
            &&& val(b)->0 != 0real
            &&& val(calc.over(a, b))->0 == val(a)->0 / val(b)->0
        }
}

/// Whether sums in single precision do not round.
pub open spec fn singles_add<F: Fn(Op, u64, u64) -> u64>(
    val: spec_fn(Wide) -> Option<real>,
    calc: &Calc<F>,
) -> bool {
    forall|a: Single, b: Single|
        val(calc.widened(#[trigger] calc.plus_s(a, b))) is Some ==> {
            &&& val(calc.widened(a)) is Some
            &&& val(calc.widened(b)) is Some
            &&& val(calc.widened(calc.plus_s(a, b)))->0 == val(calc.widened(a))->0 + val(
                calc.widened(b),
            )->0
        }
}

/// Whether differences in single precision do not round.
pub open spec fn singles_subtract<F: Fn(Op, u64, u64) -> u64>(
    val: spec_fn(Wide) -> Option<real>,
    calc: &Calc<F>,
) -> bool {
    forall|a: Single, b: Single|
        val(calc.widened(#[trigger] calc.minus_s(a, b))) is Some ==> {
            &&& val(calc.widened(a)) is Some
            &&& val(calc.widened(b)) is Some
            &&& val(calc.widened(calc.minus_s(a, b)))->0 == val(calc.widened(a))->0 - val(
                calc.widened(b),
            )->0
        }
}

/// Whether quotients in single precision do not round.
pub open spec fn singles_divide<F: Fn(Op, u64, u64) -> u64>(
    val: spec_fn(Wide) -> Option<real>,
    calc: &Calc<F>,
) -> bool {
    forall|a: Single, b: Single|
        val(calc.widened(#[trigger] calc.over_s(a, b))) is Some ==> {
            &&& val(calc.widened(a)) is Some
            &&& val(calc.widened(b)) is Some
            &&& val(calc.widened(b))->0 != 0real
            &&& val(calc.widened(calc.over_s(a, b)))->0 == val(calc.widened(a))->0 / val(
                calc.widened(b),
            )->0
        }
}

/// Whether halves of sums in single precision do not round, and numbers in single
/// precision are ordered by what they stand for.
pub open spec fn singles_halve<F: Fn(Op, u64, u64) -> u64>(
    val: spec_fn(Wide) -> Option<real>,
    calc: &Calc<F>,
) -> bool {
    &&& singles_add(val, calc)
    &&& forall|a: Single|
        val(calc.widened(#[trigger] calc.times_s(Single { bits: HALF_S }, a))) is Some ==> {
            let half = val(calc.widened(calc.times_s(Single { bits: HALF_S }, a)))->0;
            &&& val(calc.widened(a)) is Some
            &&& half + half == val(calc.widened(a))->0
        }
    &&& forall|a: Single, b: Single|
        val(calc.widened(a)) is Some && val(calc.widened(b)) is Some ==> ((#[trigger] a.lt(b))
            <==> val(calc.widened(a))->0 < val(calc.widened(b))->0)
    &&& forall|a: Single, b: Single|
        val(calc.widened(a)) is Some && val(calc.widened(b)) is Some ==> ((#[trigger] a.le(b))
            <==> val(calc.widened(a))->0 <= val(calc.widened(b))->0)
}

/// Whether products in single precision do not round.
pub open spec fn singles_multiply<F: Fn(Op, u64, u64) -> u64>(
    val: spec_fn(Wide) -> Option<real>,
    calc: &Calc<F>,
) -> bool {
    forall|a: Single, b: Single|
        val(calc.widened(#[trigger] calc.times_s(a, b))) is Some ==> {
            &&& val(calc.widened(a)) is Some
            &&& val(calc.widened(b)) is Some
            &&& val(calc.widened(calc.times_s(a, b)))->0 == val(calc.widened(a))->0 * val(
                calc.widened(b),
            )->0
        }
}

/// Whether an arithmetic calculates in single precision without rounding, narrows
/// numbers to it without rounding, and orders its numbers by what they stand for.
pub open spec fn singles_are_exact<F: Fn(Op, u64, u64) -> u64>(
    val: spec_fn(Wide) -> Option<real>,
    calc: &Calc<F>,
) -> bool {
    &&& val(calc.widened(Single { bits: 0 })) == Some(0real)
    &&& val(calc.widened(Single { bits: ONE_S })) == Some(1real)
    &&& val(calc.widened(Single { bits: TWO_S })) == Some(2real)
    &&& singles_add(val, calc)
    &&& singles_subtract(val, calc)
    &&& singles_multiply(val, calc)
    &&& singles_divide(val, calc)
    &&& forall|a: Single|
        val(calc.widened(#[trigger] a.negated())) is Some ==> val(calc.widened(a)) is Some && val(
            calc.widened(a.negated()),
        )->0 == 0real - val(calc.widened(a))->0
    &&& forall|a: Single|
        val(calc.widened(#[trigger] calc.root_s(a))) is Some ==> {
            let r = val(calc.widened(calc.root_s(a)))->0;
            val(calc.widened(a)) is Some && r >= 0real && r * r == val(calc.widened(a))->0
        }
    &&& forall|a: Wide|
        val(calc.widened(#[trigger] calc.narrowed(a))) is Some ==> val(a) == val(
            calc.widened(calc.narrowed(a)),
        )
    &&& forall|a: Single, b: Single|
        val(calc.widened(a)) is Some && val(calc.widened(b)) is Some ==> ((#[trigger] a.lt(b))
            <==> val(calc.widened(a))->0 < val(calc.widened(b))->0)
    &&& forall|a: Single, b: Single|
        val(calc.widened(a)) is Some && val(calc.widened(b)) is Some ==> ((#[trigger] a.le(b))
            <==> val(calc.widened(a))->0 <= val(calc.widened(b))->0)
}

/// Whether magnitudes and square roots are not rounded.
pub open spec fn takes_roots_exactly<F: Fn(Op, u64, u64) -> u64>(
    val: spec_fn(Wide) -> Option<real>,
    calc: &Calc<F>,
) -> bool {
    &&& magnitudes_stand(val)
    &&& forall|a: Wide|
        val(#[trigger] calc.root(a)) is Some ==> {
            let r = val(calc.root(a))->0;
            val(a) is Some && r >= 0real && r * r == val(a)->0
        }
}

/// Whether magnitudes stand for the magnitudes of what their numbers stand for.
pub open spec fn magnitudes_stand(val: spec_fn(Wide) -> Option<real>) -> bool {
    forall|a: Wide|
        val(#[trigger] a.absolute()) is Some ==> val(a) is Some && val(a.absolute())->0
            == distance_from_zero(val(a)->0)
}

/// The magnitude of a real number.
pub open spec fn distance_from_zero(x: real) -> real {
    if x < 0real { 0real - x } else { x }
}

/// Whether a number stands for another, if it stands for any.
pub open spec fn stands(x: Wide, r: real, val: spec_fn(Wide) -> Option<real>) -> bool {
    val(x) is Some ==> val(x)->0 == r
}

pub(crate) proof fn spread(a: real, b: real, c: real)
    ensures
        a * (b + c) == a * b + a * c,
        a * (b - c) == a * b - a * c,
{
    assert(a * (b + c) == a * b + a * c) by (nonlinear_arith);
    assert(a * (b - c) == a * b - a * c) by (nonlinear_arith);
}

pub(crate) proof fn gather(a: real, b: real, c: real)
    ensures
        (a + b) * c == a * c + b * c,
        (a - b) * c == a * c - b * c,
{
    assert((a + b) * c == a * c + b * c) by (nonlinear_arith);
    assert((a - b) * c == a * c - b * c) by (nonlinear_arith);
}

pub(crate) proof fn swap(a: real, b: real)
    ensures
        a * b == b * a,
{
    assert(a * b == b * a) by (nonlinear_arith);
}

pub(crate) proof fn shift(a: real, b: real, c: real)
    ensures
        (a * b) * c == a * (b * c),
{
    assert((a * b) * c == a * (b * c)) by (nonlinear_arith);
}

pub(crate) proof fn vanish(a: real)
    ensures
        a * 0real == 0real,
        0real * a == 0real,
{
    assert(a * 0real == 0real) by (nonlinear_arith);
    assert(0real * a == 0real) by (nonlinear_arith);
}

pub(crate) proof fn turn(a: real, b: real, c: real)
    ensures
        (a * b) * c == (a * c) * b,
{
    shift(a, b, c);
    swap(b, c);
    shift(a, c, b);
}

pub(crate) proof fn quotient(a: real, b: real, q: real)
    requires
        b != 0real,
        q * b == a,
    ensures
        a / b == q,
{
    assert(a / b == q) by (nonlinear_arith)
        requires
            b != 0real,
            q * b == a,
    ;
}

pub(crate) proof fn undivided(a: real, b: real)
    requires
        b != 0real,
    ensures
        (a / b) * b == a,
{
    assert((a / b) * b == a) by (nonlinear_arith)
        requires
            b != 0real,
    ;
}

pub(crate) proof fn products_are_not_zero(a: real, b: real)
    requires
        a != 0real,
        b != 0real,
    ensures
        a * b != 0real,
{
    assert(a * b != 0real) by (nonlinear_arith)
        requires
            a != 0real,
            b != 0real,
    ;
}

pub(crate) proof fn not_below_zero(a: real, b: real)
    requires
        (a >= 0real && b >= 0real) || (a <= 0real && b <= 0real),
    ensures
        a * b >= 0real,
{
    assert(a * b >= 0real) by (nonlinear_arith)
        requires
            (a >= 0real && b >= 0real) || (a <= 0real && b <= 0real),
    ;
}

pub(crate) proof fn above_zero(a: real, b: real)
    requires
        (a > 0real && b > 0real) || (a < 0real && b < 0real),
    ensures
        a * b > 0real,
{
    assert(a * b > 0real) by (nonlinear_arith)
        requires
            (a > 0real && b > 0real) || (a < 0real && b < 0real),
    ;
}

pub(crate) proof fn once(a: real)
    ensures
        a * 1real == a,
        1real * a == a,
{
    assert(a * 1real == a) by (nonlinear_arith);
    assert(1real * a == a) by (nonlinear_arith);
}

pub(crate) proof fn twice(a: real)
    ensures
        2real * a == a + a,
        a * 2real == a + a,
{
    assert(2real * a == a + a) by (nonlinear_arith);
    assert(a * 2real == a + a) by (nonlinear_arith);
}

pub(crate) proof fn equal_factors(a: real, b: real, c: real)
    requires
        c != 0real,
        a * c == b * c,
    ensures
        a == b,
{
    gather(a, b, c);
    if a != b {
        products_are_not_zero(a - b, c);
    }
}

} // verus!
