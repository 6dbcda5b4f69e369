//! Base scores survive being written and read.

use vstd::prelude::*;

use crate::arith::{Calc, Op};
use crate::exact::{
    gather, quotient, shift, singles_add, singles_divide, singles_subtract, undivided,
};
use crate::model::xgboost_json::stored_score;
use crate::number::{Single, Wide, ONE_S};
use crate::objective::base::Objective;
use crate::objective::classification::{logistic, GREATEST_PROB_S, LEAST_PROB_S};
use crate::objective::count::LEAST_MEAN;
use crate::objective::create::{
    is_kind, kind_named, outputs_named, some_objective_is_of_the_kind, started, too_few_classes,
    AnyObjective, ObjectiveKind,
};

verus! {

/// The odds of a probability.
pub open spec fn odds<F: Fn(Op, u64, u64) -> u64>(p: Single, calc: &Calc<F>) -> Single {
    calc.over_s(p, calc.minus_s(Single { bits: ONE_S }, p))
}

/// Whether the logarithm undoes the exponential on a margin, for an objective
/// that has them for its link: the mean or the odds that the margin stands for
/// are held to no bound and are its exponential, and the logarithm of these is
/// the margin.
pub open spec fn logarithm_undoes<F: Fn(Op, u64, u64) -> u64>(
    kind: ObjectiveKind,
    margin: Single,
    calc: &Calc<F>,
) -> bool {
    let e = calc.exponential_s(margin);
    match kind {
        ObjectiveKind::Logistic => {
            let p = logistic(margin, calc);
            &&& (Single { bits: LEAST_PROB_S }).le(p)
            &&& p.le(Single { bits: GREATEST_PROB_S })
            &&& odds(p, calc) == e
            &&& calc.logarithm_s(e) == margin
        },
        ObjectiveKind::Poisson | ObjectiveKind::Gamma | ObjectiveKind::Tweedie => {
            &&& (Wide { bits: LEAST_MEAN }).le(calc.widened(e))
            &&& calc.narrowed(calc.logarithm(calc.widened(e))) == margin
        },
        _ => true,
    }
}

/// Reading a base score undoes writing it: the margin that the stored score
/// stands for is the one that it was stored for, where the logarithm undoes the
/// exponential on it. Objectives without a link, and names that are not known,
/// keep every margin.
pub proof fn import_undoes_export<F: Fn(Op, u64, u64) -> u64>(
    name: Seq<char>,
    num_class: usize,
    margin: Single,
    calc: &Calc<F>,
)
    requires
        kind_named(name) matches Some(kind) ==> logarithm_undoes(kind, margin, calc),
    ensures
        started(name, num_class, stored_score(name, num_class, margin, calc), calc) == margin,
{
    if let Some(kind) = kind_named(name) {
        if !too_few_classes(kind, num_class) {
            let one = Single { bits: ONE_S };
            let some = some_objective_is_of_the_kind(kind, num_class, one);
            assert(is_kind(some, kind, num_class, one));
            let o = choose|o: AnyObjective| is_kind(o, kind, num_class, one);
            assert(is_kind(o, kind, num_class, one));
            let list = o.transformed(seq![margin], calc);
            if outputs_named(name, num_class) == 1 {
                assert(stored_score(name, num_class, margin, calc) == list[0]);
            }
        }
    }
}

/// In an arithmetic that does not round, the odds of a margin's probability are
/// the margin's exponential, where the exponential of the negated margin is its
/// inverse.
pub proof fn odds_are_exponentials<F: Fn(Op, u64, u64) -> u64>(
    margin: Single,
    val: spec_fn(Wide) -> Option<real>,
    calc: &Calc<F>,
)
    requires
        singles_add(val, calc),
        singles_subtract(val, calc),
        singles_divide(val, calc),
        val(calc.widened(Single { bits: ONE_S })) == Some(1real),
        val(calc.widened(calc.exponential_s(margin))) is Some,
        val(calc.widened(calc.exponential_s(margin.negated()))) is Some,
        val(calc.widened(calc.exponential_s(margin)))->0 * val(
            calc.widened(calc.exponential_s(margin.negated())),
        )->0 == 1real,
        val(calc.widened(odds(logistic(margin, calc), calc))) is Some,
    ensures
        val(calc.widened(odds(logistic(margin, calc), calc))) == val(
            calc.widened(calc.exponential_s(margin)),
        ),
{
    let one = Single { bits: ONE_S };
    let p = logistic(margin, calc);
    let rest = calc.minus_s(one, p);
    let o = odds(p, calc);
    let e = val(calc.widened(calc.exponential_s(margin)))->0;
    let x = val(calc.widened(calc.exponential_s(margin.negated())))->0;
    assert(val(calc.widened(p)) is Some);
    assert(val(calc.widened(rest)) is Some);
    let pv = val(calc.widened(p))->0;
    let rv = val(calc.widened(rest))->0;
    let ov = val(calc.widened(o))->0;
    assert(ov == pv / rv);
    undivided(pv, rv);
    if (Single { bits: 0 }).le(margin) {
        let sum = calc.plus_s(one, calc.exponential_s(margin.negated()));
        let s = val(calc.widened(sum))->0;
        assert(val(calc.widened(sum)) is Some);
        assert(pv == 1real / s);
        undivided(1real, s);
        gather(1real, pv, s);
        assert(1real * s == s) by (nonlinear_arith);
        assert(rv * s == x);
        shift(ov, rv, s);
        assert(ov * x == 1real);
        if x == 0real {
            assert(ov * 0real == 0real) by (nonlinear_arith);
        }
        quotient(1real, x, ov);
        quotient(1real, x, e);
    } else {
        let sum = calc.plus_s(one, calc.exponential_s(margin));
        let s = val(calc.widened(sum))->0;
        assert(val(calc.widened(sum)) is Some);
        assert(pv == e / s);
        undivided(e, s);
        gather(1real, pv, s);
        assert(1real * s == s) by (nonlinear_arith);
        assert(rv * s == 1real);
        shift(ov, rv, s);
        assert(ov * 1real == ov) by (nonlinear_arith);
    }
}

} // verus!
