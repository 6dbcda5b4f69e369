//! Which datasets can be trained on.

use vstd::prelude::*;

use crate::arith::{Calc, Op};
use crate::config::TrainingParams;
use crate::data::dmatrix::{listed_in, missing_under, DMatrix, Entry};
use crate::data::ghist::entries_before;
use crate::data::meta::FeatureType;
use crate::data::quantile::{column_values, cut_bound, cuts_are_bounded, sortable};
use crate::learner::boost::{data_groups, labels_or_none};
use crate::learner::cv::{is_selection, selectable, splittable};
use crate::learner::prepare::{bins_fit, columns_are_counted, growable};
use crate::learner::train::{nameable, own_metric};
use crate::metric::base::Metric;
use crate::metric::create::{metric_named, metric_names, AnyMetric};
use crate::number::Single;
use crate::objective::create::{kind_named, outputs_named};
use crate::text::{Precision, Reader};

verus! {

/// Whether no row lists more entries than there are features.
pub open spec fn rows_are_short(data: &DMatrix) -> bool {
    forall|r: int|
        0 <= r < data.height() ==> (#[trigger] data.stored(r)).len() <= data.width()
}

proof fn present_entries_are_numbers(data: &DMatrix, r: int)
    requires
        data.sentinel().nan(),
    ensures
        data.entries(r).len() <= data.stored(r).len(),
        forall|k: int| 0 <= k < data.entries(r).len() ==> !(#[trigger] data.entries(r)[k]).value.nan(),
{
    broadcast use vstd::seq_lib::group_filter_ensures;

    let missing = data.sentinel();
    let keep = |e: Entry| !missing_under(e.value, missing);
    let kept = data.stored(r).filter(keep);
    assert(data.entries(r) == kept);
    assert forall|k: int| 0 <= k < kept.len() implies !(#[trigger] kept[k]).value.nan() by {
        assert(kept.contains(kept[k]));
        assert(keep(kept[k]));
    }
}

proof fn columns_hold_numbers(data: &DMatrix, c: int, n: int)
    requires
        data.sentinel().nan(),
    ensures
        forall|i: int|
            0 <= i < data.column_prefix(c, n).len() ==> !(#[trigger] data.column_prefix(
                c,
                n,
            )[i]).1.nan(),
    decreases n,
{
    broadcast use vstd::seq_lib::group_filter_ensures;

    if n > 0 {
        columns_hold_numbers(data, c, n - 1);
        present_entries_are_numbers(data, n - 1);
        let entries = data.entries(n - 1);
        let keep = |e: Entry| e.index == c;
        let front = data.column_prefix(c, n - 1);
        assert forall|i: int| 0 <= i < data.column_prefix(c, n).len() implies !(
        #[trigger] data.column_prefix(c, n)[i]).1.nan() by {
            if i < front.len() {
                assert(data.column_prefix(c, n)[i] == front[i]);
            } else {
                let e = entries.filter(keep)[i - front.len()];
                assert(entries.filter(keep).contains(e));
                entries.lemma_filter_contains_rev(keep, e);
                let k = choose|k: int| 0 <= k < entries.len() && entries[k] == e;
                assert(!entries[k].value.nan());
            }
        }
    }
}

proof fn short_rows_are_counted(data: &DMatrix, n: int)
    requires
        data.sentinel().nan(),
        rows_are_short(data),
        0 <= n <= data.height(),
    ensures
        entries_before(data, n) <= n * data.width(),
    decreases n,
{
    if n > 0 {
        short_rows_are_counted(data, n - 1);
        present_entries_are_numbers(data, n - 1);
        assert(data.stored(n - 1).len() <= data.width());
        let w = data.width();
        assert(n * w == (n - 1) * w + w) by (nonlinear_arith);
    }
}

proof fn numeric_bins_are_bounded(data: &DMatrix, max_bin: int, n: int)
    requires
        forall|f: int| 0 <= f < n ==> #[trigger] data.types()[f] == FeatureType::Numerical,
        0 <= n,
    ensures
        cut_bound(data, max_bin, n) == n * (max_bin + 1),
    decreases n,
{
    if n > 0 {
        numeric_bins_are_bounded(data, max_bin, n - 1);
        assert(data.types()[n - 1] == FeatureType::Numerical);
        let b = max_bin + 1;
        assert(n * b == (n - 1) * b + b) by (nonlinear_arith);
    }
}

/// A dataset of numeric features whose absent values are those that are not
/// numbers can be trained on, as long as its rows, features, cells and bins can
/// be numbered.
pub proof fn numeric_datasets_can_be_trained_on<
    F: Fn(Op, u64, u64) -> u64,
    P: Fn(Precision, &str) -> Option<u64>,
>(params: TrainingParams, data: &DMatrix, reader: &Reader<P>, calc: &Calc<F>)
    requires
        data.well_formed(),
        data.readable(),
        data.sentinel().nan(),
        rows_are_short(data),
        forall|f: int|
            0 <= f < data.width() ==> #[trigger] data.types()[f] == FeatureType::Numerical,
        data.height() <= u32::MAX,
        data.width() <= u32::MAX,
        data.height() * data.width() <= usize::MAX,
        1 <= params.max_bin,
        data.width() * (params.max_bin + 1) <= u32::MAX,
        data.height() * outputs_named(params.objective@, params.num_class) <= usize::MAX,
        data.width() * outputs_named(params.objective@, params.num_class) <= usize::MAX,
    ensures
        nameable(params, data, Seq::empty(), reader, calc),
{
    data.shape();
    assert forall|f: int| 0 <= f < data.width() implies sortable(
        #[trigger] column_values(data, f),
    ) by {
        columns_hold_numbers(data, f, data.height());
    }
    short_rows_are_counted(data, data.height());
    assert(growable(data));
    columns_are_counted(data);
    numeric_bins_are_bounded(data, params.max_bin as int, data.width());
    cuts_are_bounded(data, params.max_bin as int, None, calc, data.width());
    assert(bins_fit(params, data, calc));
}

proof fn entries_are_stored(data: &DMatrix, r: int)
    ensures
        data.entries(r).len() <= data.stored(r).len(),
{
    broadcast use vstd::seq_lib::group_filter_ensures;

}

proof fn short_selections_are_counted(data: &DMatrix, rows: Seq<usize>, n: int)
    requires
        rows_are_short(data),
        selectable(data, rows),
        0 <= n <= rows.len(),
    ensures
        listed_in(data, rows, n) <= n * data.width(),
    decreases n,
{
    if n > 0 {
        short_selections_are_counted(data, rows, n - 1);
        entries_are_stored(data, rows[n - 1] as int);
        assert(data.stored(rows[n - 1] as int).len() <= data.width());
        let w = data.width();
        assert(n * w == (n - 1) * w + w) by (nonlinear_arith);
    }
}

/// Whether the metrics that parameters name can score any labels, weighted or
/// not, by `k` predictions each.
pub open spec fn metrics_take_labels<
    F: Fn(Op, u64, u64) -> u64,
    P: Fn(Precision, &str) -> Option<u64>,
>(params: TrainingParams, k: int, most: int, reader: &Reader<P>, calc: &Calc<F>) -> bool {
    kind_named(params.objective@) matches Some(kind) ==> {
        let names = metric_names(params.eval_metric@, own_metric(kind));
        forall|i: int, p: Seq<Single>, l: Seq<Single>, w: Option<Seq<Single>>|
            #![trigger names[i], p.len(), l.len(), w is Some]
            0 <= i < names.len() && metric_named(names[i], params.num_class, reader) is Some
                && p.len() == l.len() * k && l.len() <= most && (w matches Some(ws) ==> ws.len()
                == l.len()) ==> <AnyMetric as Metric<F>>::accepts(
                &metric_named(names[i], params.num_class, reader)->0,
                p,
                l,
                w,
                None,
            )
    }
}

/// Whether a metric scores each label by one prediction, whatever the label is.
pub open spec fn is_plain(metric: AnyMetric) -> bool {
    match metric {
        AnyMetric::Mean(loss) => !(loss is ClassLogistic) && !(loss is ClassWrong),
        _ => true,
    }
}

/// Metrics that score each label by one prediction can score any labels.
pub proof fn plain_metrics_take_labels<
    F: Fn(Op, u64, u64) -> u64,
    P: Fn(Precision, &str) -> Option<u64>,
>(params: TrainingParams, most: int, reader: &Reader<P>, calc: &Calc<F>)
    requires
        most < u32::MAX / 2,
        kind_named(params.objective@) matches Some(kind) ==> {
            let names = metric_names(params.eval_metric@, own_metric(kind));
            forall|i: int|
                0 <= i < names.len() ==> (metric_named(
                    #[trigger] names[i],
                    params.num_class,
                    reader,
                ) matches Some(metric) ==> is_plain(metric))
        },
    ensures
        metrics_take_labels(params, 1, most, reader, calc),
{
    if let Some(kind) = kind_named(params.objective@) {
        let names = metric_names(params.eval_metric@, own_metric(kind));
        assert forall|i: int, p: Seq<Single>, l: Seq<Single>, w: Option<Seq<Single>>|
            #![trigger names[i], p.len(), l.len(), w is Some]
            0 <= i < names.len() && metric_named(names[i], params.num_class, reader) is Some
                && p.len() == l.len() * 1 && l.len() <= most && (w matches Some(ws) ==> ws.len()
                == l.len()) implies <AnyMetric as Metric<F>>::accepts(
            &metric_named(names[i], params.num_class, reader)->0,
            p,
            l,
            w,
            None,
        ) by {
            assert(is_plain(metric_named(names[i], params.num_class, reader)->0));
        }
    }
}

proof fn smaller_products_fit(a: int, b: int, k: int, most: int)
    requires
        0 <= a <= b,
        0 <= k,
        b * k <= most,
    ensures
        a * k <= most,
{
    assert(a * k <= b * k) by (nonlinear_arith)
        requires
            0 <= a <= b,
            0 <= k,
    ;
}

proof fn selections_can_be_trained_on<
    F: Fn(Op, u64, u64) -> u64,
    P: Fn(Precision, &str) -> Option<u64>,
>(
    params: TrainingParams,
    data: &DMatrix,
    m: &DMatrix,
    t: &DMatrix,
    a: Seq<usize>,
    b: Seq<usize>,
    name: &str,
    reader: &Reader<P>,
    calc: &Calc<F>,
)
    requires
        data.well_formed(),
        rows_are_short(data),
        forall|f: int|
            0 <= f < data.width() ==> #[trigger] data.types()[f] == FeatureType::Numerical,
        data.label_list() is Some,
        data.height() <= u32::MAX,
        data.width() <= u32::MAX,
        data.height() * data.width() <= usize::MAX,
        1 <= params.max_bin,
        data.width() * (params.max_bin + 1) <= u32::MAX,
        data.height() * outputs_named(params.objective@, params.num_class) <= usize::MAX,
        data.width() * outputs_named(params.objective@, params.num_class) <= usize::MAX,
        metrics_take_labels(
            params,
            outputs_named(params.objective@, params.num_class),
            data.height(),
            reader,
            calc,
        ),
        selectable(data, a),
        selectable(data, b),
        is_selection(m, data, a),
        is_selection(t, data, b),
    ensures
        nameable(params, m, seq![(t, name)], reader, calc),
{
    let k = outputs_named(params.objective@, params.num_class);
    data.shape();
    assert forall|r: int| 0 <= r < m.height() implies (#[trigger] m.stored(r)).len()
        <= m.width() by {
        entries_are_stored(data, a[r] as int);
        assert(data.stored(a[r] as int).len() <= data.width());
    }
    assert forall|f: int| 0 <= f < m.width() implies #[trigger] m.types()[f]
        == FeatureType::Numerical by {
        assert(data.types()[f] == FeatureType::Numerical);
    }
    smaller_products_fit(m.height(), data.height(), data.width(), usize::MAX as int);
    smaller_products_fit(m.height(), data.height(), k, usize::MAX as int);
    smaller_products_fit(t.height(), data.height(), k, usize::MAX as int);
    numeric_datasets_can_be_trained_on(params, m, reader, calc);
    let evals = seq![(t, name)];
    if let Some(kind) = kind_named(params.objective@) {
        let names = metric_names(params.eval_metric@, own_metric(kind));
        t.shape();
        assert forall|i: int, e: int, p: Seq<Single>|
            #![trigger names[i], evals[e], p.len()]
            0 <= i < names.len() && 0 <= e < evals.len() && p.len() == evals[e].0.height() * k && (
            metric_named(names[i], params.num_class, reader) is Some) implies <AnyMetric as Metric<
            F,
        >>::accepts(
            &metric_named(names[i], params.num_class, reader)->0,
            p,
            labels_or_none(evals[e].0),
            evals[e].0.weight_list(),
            data_groups(evals[e].0),
        ) by {
            let l = labels_or_none(t);
            let w = t.weight_list();
            assert(evals[e].0 == t);
            assert(l.len() == t.height());
            assert(p.len() == l.len() * k);
            assert(w is Some ==> w->0.len() == l.len());
        }
    }
}

/// A labeled dataset of numeric features can be cross-validated, as long as its
/// rows, features, cells and bins can be numbered and the metrics can score any
/// labels.
pub proof fn numeric_datasets_can_be_cross_validated<
    F: Fn(Op, u64, u64) -> u64,
    P: Fn(Precision, &str) -> Option<u64>,
>(params: TrainingParams, data: &DMatrix, reader: &Reader<P>, calc: &Calc<F>)
    requires
        data.well_formed(),
        data.readable(),
        rows_are_short(data),
        forall|f: int|
            0 <= f < data.width() ==> #[trigger] data.types()[f] == FeatureType::Numerical,
        data.label_list() is Some,
        data.margin_list() matches Some(b) ==> data.height() <= b.len(),
        data.height() < u32::MAX,
        data.width() <= u32::MAX,
        data.height() * data.width() <= usize::MAX,
        1 <= params.max_bin,
        data.width() * (params.max_bin + 1) <= u32::MAX,
        data.height() * outputs_named(params.objective@, params.num_class) <= usize::MAX,
        data.width() * outputs_named(params.objective@, params.num_class) <= usize::MAX,
        metrics_take_labels(
            params,
            outputs_named(params.objective@, params.num_class),
            data.height(),
            reader,
            calc,
        ),
    ensures
        splittable(params, data, reader, calc),
{
    data.shape();
    assert forall|rows: Seq<usize>| #[trigger] selectable(data, rows) implies listed_in(
        data,
        rows,
        rows.len() as int,
    ) <= usize::MAX by {
        short_selections_are_counted(data, rows, rows.len() as int);
        smaller_products_fit(
            rows.len() as int,
            data.height(),
            data.width(),
            usize::MAX as int,
        );
    }
    assert forall|m: DMatrix, t: DMatrix, a: Seq<usize>, b: Seq<usize>, name: &str|
        #![trigger is_selection(&m, data, a), is_selection(&t, data, b), name@]
        selectable(data, a) && selectable(data, b) && is_selection(&m, data, a) && is_selection(
            &t,
            data,
            b,
        ) implies nameable(params, &m, seq![(&t, name)], reader, calc) by {
        selections_can_be_trained_on(params, data, &m, &t, a, b, name, reader, calc);
    }
}

} // verus!
