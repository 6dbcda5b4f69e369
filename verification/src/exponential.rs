//! Exponentials of real numbers, and arithmetics that calculate them without
//! rounding.

use vstd::prelude::*;

use crate::arith::{Calc, Op};
use crate::exact::{above_zero, equal_factors, not_below_zero, once, spread, vanish};
use crate::number::{Single, Wide};

verus! {

/// Whether a function turns the sum of two numbers into a product.
pub open spec fn multiplies(e: spec_fn(real) -> real, x: real, y: real) -> bool {
    e(x + y) == e(x) * e(y)
}

/// Whether a function on real numbers is the exponential: it turns sums into
/// products and lies on or above the line `1 + x`.
pub open spec fn is_exponential(e: spec_fn(real) -> real) -> bool {
    &&& forall|x: real, y: real| #[trigger] multiplies(e, x, y)
    &&& forall|x: real| #[trigger] e(x) >= 1real + x
}

/// Whether an arithmetic calculates exponentials, logarithms and powers without
/// rounding. `e` is the exponential, the logarithm of a number is what `e` takes to
/// it, the binary logarithm is that in units of the logarithm of two, and a power is
/// the exponential of the exponent times the logarithm.
pub open spec fn exponentiates<F: Fn(Op, u64, u64) -> u64>(
    e: spec_fn(real) -> real,
    val: spec_fn(Wide) -> Option<real>,
    calc: &Calc<F>,
) -> bool {
    &&& is_exponential(e)
    &&& forall|a: Wide|
        val(#[trigger] calc.exponential(a)) is Some ==> val(a) is Some && val(
            calc.exponential(a),
        )->0 == e(val(a)->0)
    &&& forall|a: Wide|
        val(#[trigger] calc.logarithm(a)) is Some ==> val(a) is Some && e(
            val(calc.logarithm(a))->0,
        ) == val(a)->0
    &&& forall|a: Single|
        val(calc.widened(#[trigger] calc.exponential_s(a))) is Some ==> val(calc.widened(a)) is Some
            && val(calc.widened(calc.exponential_s(a)))->0 == e(val(calc.widened(a))->0)
    &&& forall|a: Single|
        val(calc.widened(#[trigger] calc.logarithm_s(a))) is Some ==> val(calc.widened(a)) is Some
            && e(val(calc.widened(calc.logarithm_s(a)))->0) == val(calc.widened(a))->0
    &&& forall|a: Wide, l: real|
        #![trigger calc.binary_logarithm(a), e(l)]
        val(calc.binary_logarithm(a)) is Some ==> val(a) is Some && (e(l) == 2real ==> e(
            val(calc.binary_logarithm(a))->0 * l,
        ) == val(a)->0)
    &&& forall|a: Wide, b: Wide, l: real|
        #![trigger calc.power(a, b), e(l)]
        val(calc.power(a, b)) is Some ==> {
            &&& val(a) is Some
            &&& val(b) is Some
            &&& e(l) == val(a)->0 ==> val(calc.power(a, b))->0 == e(val(b)->0 * l)
        }
}

/// The exponential of zero is one.
pub proof fn exponential_of_zero(e: spec_fn(real) -> real)
    requires
        is_exponential(e),
    ensures
        e(0real) == 1real,
{
    let a = e(0real);
    assert(multiplies(e, 0real, 0real));
    assert(0real + 0real == 0real);
    assert(a >= 1real + 0real);
    once(a);
    equal_factors(a, 1real, a);
}

/// Exponentials are positive, and those of opposite numbers are each other's
/// inverses.
pub proof fn exponentials_are_positive(e: spec_fn(real) -> real, x: real)
    requires
        is_exponential(e),
    ensures
        e(x) > 0real,
        e(x) * e(0real - x) == 1real,
{
    let half = x / 2real;
    assert(half + half == x);
    assert(multiplies(e, half, half));
    not_below_zero(e(half), e(half));
    exponential_of_zero(e);
    assert(multiplies(e, x, 0real - x));
    assert(x + (0real - x) == 0real);
    if e(x) == 0real {
        vanish(e(0real - x));
    }
}

/// An exponential lies on or above each of its tangents.
pub proof fn tangents_lie_below(e: spec_fn(real) -> real, x: real, y: real)
    requires
        is_exponential(e),
    ensures
        e(y) >= e(x) + e(x) * (y - x),
{
    let d = y - x;
    exponentials_are_positive(e, x);
    assert(multiplies(e, x, d));
    assert(x + d == y);
    assert(e(d) >= 1real + d);
    not_below_zero(e(x), e(d) - (1real + d));
    spread(e(x), e(d), 1real + d);
    spread(e(x), 1real, d);
    once(e(x));
}

/// Exponentials rise.
pub proof fn exponentials_rise(e: spec_fn(real) -> real, x: real, y: real)
    requires
        is_exponential(e),
    ensures
        x < y <==> e(x) < e(y),
        x <= y <==> e(x) <= e(y),
        x == y <==> e(x) == e(y),
{
    exponentials_are_positive(e, x);
    exponentials_are_positive(e, y);
    tangents_lie_below(e, x, y);
    tangents_lie_below(e, y, x);
    if x < y {
        above_zero(e(x), y - x);
    }
    if y < x {
        above_zero(e(y), x - y);
    }
}

/// The exponential of a difference is the quotient of the exponentials.
pub proof fn exponentials_of_differences(e: spec_fn(real) -> real, x: real, y: real)
    requires
        is_exponential(e),
    ensures
        e(x - y) * e(y) == e(x),
{
    assert(multiplies(e, x - y, y));
    assert((x - y) + y == x);
}

} // verus!
