//! What cross-validation trains on and what it scores.

use vstd::prelude::*;

use crate::arith::{Calc, Op};
use crate::config::TrainingParams;
use crate::data::dmatrix::DMatrix;
use crate::learner::cv::{is_fold_history, is_selection};
use crate::learner::folds::{fold, fold_members, other_folds};
use crate::learner::train::{is_named_outcome, TrainResult};
use crate::learner::watch::RoundEval;
use crate::metric::create::AnyMetric;
use crate::objective::create::AnyObjective;
use crate::random::is_permutation;
use crate::text::{Precision, Reader};

verus! {

proof fn other_members(order: Seq<usize>, nfold: int, f: int, g: int, i: int)
    requires
        is_permutation(order, order.len() as int),
        0 <= f < nfold,
        0 <= g <= nfold,
        0 <= i < order.len(),
    ensures
        other_folds(order, nfold, f, g).contains(order[i]) <==> i % nfold != f && i % nfold < g,
    decreases g,
{
    assert(0 <= i % nfold < nfold) by (nonlinear_arith)
        requires
            0 < nfold,
    ;
    if g > 0 {
        other_members(order, nfold, f, g - 1, i);
        let n = order.len() as int;
        let rest = other_folds(order, nfold, f, g - 1);
        let last = fold(order, nfold, g - 1, n);
        let all = other_folds(order, nfold, f, g);
        one_fold_holds(order, nfold, g - 1, i);
        if g - 1 != f {
            assert(all == rest + last);
            if rest.contains(order[i]) {
                let j = choose|j: int| 0 <= j < rest.len() && rest[j] == order[i];
                assert(all[j] == order[i]);
            }
            if last.contains(order[i]) {
                let j = choose|j: int| 0 <= j < last.len() && last[j] == order[i];
                assert(all[rest.len() + j] == order[i]);
            }
            if all.contains(order[i]) {
                let j = choose|j: int| 0 <= j < all.len() && all[j] == order[i];
                if j < rest.len() {
                    assert(rest[j] == order[i]);
                } else {
                    assert(last[j - rest.len()] == order[i]);
                }
            }
        }
    }
}

proof fn one_fold_holds(order: Seq<usize>, nfold: int, f: int, i: int)
    requires
        is_permutation(order, order.len() as int),
        0 <= f < nfold,
        0 <= i < order.len(),
    ensures
        fold(order, nfold, f, order.len() as int).contains(order[i]) <==> i % nfold == f,
{
    let n = order.len() as int;
    fold_members(order, nfold, f, n, order[i]);
    if fold(order, nfold, f, n).contains(order[i]) {
        let j = choose|j: int| 0 <= j < n && j % nfold == f && #[trigger] order[j] == order[i];
        assert(i == j);
    }
}

/// Whether a history is that of training on some rows while others are scored.
pub open spec fn is_scored_apart<
    F: Fn(Op, u64, u64) -> u64,
    P: Fn(Precision, &str) -> Option<u64>,
>(
    params: TrainingParams,
    data: &DMatrix,
    trained: Seq<usize>,
    scored: Seq<usize>,
    num_rounds: int,
    reader: &Reader<P>,
    history: Seq<RoundEval>,
    calc: &Calc<F>,
) -> bool {
    exists|m: DMatrix, t: DMatrix, o: AnyObjective, metrics: Seq<AnyMetric>, result: TrainResult|
        is_selection(&m, data, trained) && is_selection(&t, data, scored) && result.history@
            == history && #[trigger] is_named_outcome(
            params,
            &m,
            o,
            metrics,
            seq![(&t, "test")],
            num_rounds,
            None,
            reader,
            result,
            calc,
        )
}

/// Every fold is scored on the rows that are dealt to it, by a model that is trained on all
/// the others and on none of these.
pub proof fn folds_are_scored_apart<
    F: Fn(Op, u64, u64) -> u64,
    P: Fn(Precision, &str) -> Option<u64>,
>(
    params: TrainingParams,
    data: &DMatrix,
    order: Seq<usize>,
    nfold: int,
    f: int,
    num_rounds: int,
    reader: &Reader<P>,
    history: Seq<RoundEval>,
    calc: &Calc<F>,
) -> (rows: (Seq<usize>, Seq<usize>))
    requires
        is_permutation(order, order.len() as int),
        0 <= f < nfold,
        is_fold_history(params, data, order, nfold, f, num_rounds, reader, history, calc),
    ensures
        is_scored_apart(params, data, rows.0, rows.1, num_rounds, reader, history, calc),
        forall|i: int|
            0 <= i < order.len() ==> {
                &&& rows.1.contains(#[trigger] order[i]) <==> i % nfold == f
                &&& rows.0.contains(order[i]) <==> i % nfold != f
            },
{
    let trained = other_folds(order, nfold, f, nfold);
    let scored = fold(order, nfold, f, order.len() as int);
    assert forall|i: int| 0 <= i < order.len() implies {
        &&& scored.contains(#[trigger] order[i]) <==> i % nfold == f
        &&& trained.contains(order[i]) <==> i % nfold != f
    } by {
        one_fold_holds(order, nfold, f, i);
        other_members(order, nfold, f, nfold, i);
        assert(0 <= i % nfold < nfold) by (nonlinear_arith)
            requires
                0 < nfold,
        ;
    }
    (trained, scored)
}

} // verus!
