//! Which training parameters are accepted.

use vstd::prelude::*;

use crate::arith::{Calc, Op};
use crate::config::{complaint, TrainingParams};
use crate::exact::is_exact;
use crate::number::Wide;

verus! {

/// Parameters are accepted just when the learning rate is above zero, no penalty and no
/// limit is below zero, every sampled share lies in `(0, 1]`, every chance in `[0, 1]`, and
/// there are two bins or more.
pub proof fn accepted_parameters_lie_in_their_ranges<F: Fn(Op, u64, u64) -> u64>(
    p: TrainingParams,
    val: spec_fn(Wide) -> Option<real>,
    calc: &Calc<F>,
)
    requires
        is_exact(val, calc),
        val(p.eta) is Some,
        val(p.gamma) is Some,
        val(p.lambda) is Some,
        val(p.alpha) is Some,
        val(p.min_child_weight) is Some,
        val(p.max_delta_step) is Some,
        val(p.subsample) is Some,
        val(p.colsample_bytree) is Some,
        val(p.colsample_bylevel) is Some,
        val(p.colsample_bynode) is Some,
        val(p.rate_drop) is Some,
        val(p.skip_drop) is Some,
    ensures
        complaint(p) is None <==> {
            &&& val(p.eta)->0 > 0real
            &&& val(p.gamma)->0 >= 0real
            &&& val(p.lambda)->0 >= 0real
            &&& val(p.alpha)->0 >= 0real
            &&& val(p.min_child_weight)->0 >= 0real
            &&& val(p.max_delta_step)->0 >= 0real
            &&& 0real < val(p.subsample)->0 <= 1real
            &&& 0real < val(p.colsample_bytree)->0 <= 1real
            &&& 0real < val(p.colsample_bylevel)->0 <= 1real
            &&& 0real < val(p.colsample_bynode)->0 <= 1real
            &&& 0real <= val(p.rate_drop)->0 <= 1real
            &&& 0real <= val(p.skip_drop)->0 <= 1real
            &&& p.max_bin >= 2
        },
{
}

} // verus!
