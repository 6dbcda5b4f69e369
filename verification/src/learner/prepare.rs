//! What tree building needs, prepared once before boosting.

use vstd::prelude::*;

use crate::arith::{Calc, Op};
use crate::config::{GrowPolicy, TrainingParams, TreeMethod};
use crate::data::dmatrix::{picks, DMatrix, Entry};
use crate::data::ghist::{binnable, binned, entries_before, GHistIndex};
use crate::data::meta::FeatureType;
use crate::data::quantile::{
    category_cuts, column_values, cut_bound, cuts_are_bounded, cuts_before, distinct_run,
    feature_cuts, sortable, sorted_values, sorted_values_are_sorted, values_of, HistCuts,
};
use crate::error::SequoiaError;
use crate::number::Single;
use crate::objective::pair::GradPair;
use crate::tree::builder::exact::{
    by_value, features_exist, first_stage, last_stage, level_limit, ExactTreeBuilder, Setting,
    SortedColumns,
};
use crate::tree::builder::hist::{grows_into, HistTreeBuilder, Plan, Step};
use crate::tree::constraints::{sign_of, MonotoneConstraints};
use crate::tree::gain::RegParams;
use crate::tree::regtree::{settles, RegTree};
use crate::tree::interaction::groups_view;
use crate::tree::sampler::{ColumnSampler, Sampling};

verus! {

/// The direction of every feature, as the parameters give it.
pub open spec fn directions_of(params: TrainingParams) -> Seq<i8> {
    Seq::new(
        params.monotone_constraints.len() as nat,
        |i: int| sign_of(params.monotone_constraints@[i]),
    )
}

/// Whether a tree is the one that exact search grows.
pub open spec fn exact_tree<F: Fn(Op, u64, u64) -> u64>(
    params: TrainingParams,
    cons: MonotoneConstraints,
    cols: &SortedColumns,
    data: &DMatrix,
    gp: Seq<GradPair>,
    rows: Seq<u32>,
    sampling: Sampling,
    tree: &RegTree,
    calc: &Calc<F>,
) -> bool {
    let st = Setting {
        cols: *cols,
        types: data.types(),
        gp,
        cons,
        reg: RegParams::of(&params),
        gamma: params.gamma,
        groups: groups_view(params.interaction_constraints@),
    };
    let last = last_stage(
        st,
        data,
        first_stage(gp, rows, data.height(), sampling, calc),
        level_limit(params.max_depth),
        calc,
    );
    &&& cons.directions() == directions_of(params)
    &&& tree.node_list() == last.g.settled(st.reg, last.g.nodes.len() as int, calc)
    &&& tree.category_list() == last.g.cats
}

/// What a tree is grown from by histograms, and under which rules.
pub open spec fn plan_of(
    params: TrainingParams,
    cons: MonotoneConstraints,
    ghist: &GHistIndex,
    gp: Seq<GradPair>,
) -> Plan {
    Plan {
        ghist: *ghist,
        gp,
        cons,
        reg: RegParams::of(&params),
        gamma: params.gamma,
        groups: groups_view(params.interaction_constraints@),
        listed: None,
        depth_limit: if params.max_depth == 0 {
            usize::MAX as int
        } else {
            params.max_depth as int
        },
        policy: params.grow_policy,
        max_leaves: if params.max_leaves == 0 {
            usize::MAX as int
        } else {
            params.max_leaves as int
        },
    }
}

/// Whether a tree is one that histogram search grows in the given run.
pub open spec fn hist_tree<F: Fn(Op, u64, u64) -> u64>(
    params: TrainingParams,
    cons: MonotoneConstraints,
    ghist: &GHistIndex,
    gp: Seq<GradPair>,
    rows: Seq<u32>,
    sampling: Sampling,
    run: Seq<Step>,
    tree: &RegTree,
    calc: &Calc<F>,
) -> bool {
    &&& cons.directions() == directions_of(params)
    &&& grows_into(plan_of(params, cons, ghist, gp), rows, sampling, run, *tree, calc)
}

/// Whether an index is a dataset binned by its own cuts, with rows weighted
/// where weights are given.
pub open spec fn is_binned<F: Fn(Op, u64, u64) -> u64>(
    ghist: &GHistIndex,
    data: &DMatrix,
    max_bin: int,
    weights: Option<Seq<Single>>,
    calc: &Calc<F>,
) -> bool {
    &&& ghist.well_formed()
    &&& ghist.height() == data.height()
    &&& ghist.table().features() == data.width()
    &&& forall|f: int|
        0 <= f < data.width() ==> #[trigger] ghist.table().cuts_of(f) == feature_cuts(
            data,
            max_bin,
            weights,
            calc,
            f,
        )
    &&& forall|f: int|
        0 <= f < data.width() ==> #[trigger] ghist.table().categorical(f) == (data.types()[f]
            == FeatureType::Categorical)
    &&& forall|i: int|
        0 <= i < data.height() ==> #[trigger] ghist.row_bins(i) == binned(
            data.entries(i),
            &ghist.table(),
        )
}

/// The Hessians of gradients.
pub open spec fn hessians(gp: Seq<GradPair>) -> Seq<Single> {
    Seq::new(gp.len(), |i: int| gp[i].hess)
}

/// Whether trees can be grown from a dataset: its rows and features can be
/// numbered, its values put in order and its categories told apart.
pub open spec fn growable(data: &DMatrix) -> bool {
    &&& data.well_formed()
    &&& data.readable()
    &&& data.height() <= u32::MAX
    &&& data.width() <= u32::MAX
    &&& entries_before(data, data.height()) <= usize::MAX
    &&& forall|f: int| 0 <= f < data.width() ==> sortable(#[trigger] column_values(data, f))
    &&& forall|f: int, i: int|
        0 <= f < data.width() && data.types()[f] == FeatureType::Categorical && 0 <= i
            < column_values(data, f).len() ==> !(#[trigger] column_values(data, f)[i]).nan()
}

/// Whether the bins of a dataset can be numbered.
pub open spec fn bins_fit<F: Fn(Op, u64, u64) -> u64>(
    params: TrainingParams,
    data: &DMatrix,
    calc: &Calc<F>,
) -> bool {
    let mb = params.max_bin as int;
    match params.tree_method {
        TreeMethod::Exact => true,
        TreeMethod::Approx => cut_bound(data, mb, data.width()) <= u32::MAX,
        _ => cuts_before(data, mb, None, calc, data.width()) <= u32::MAX,
    }
}

/// What tree building starts from, by the method that finds splits.
pub enum Prepared {
    /// Columns sorted by value.
    Exact(SortedColumns),
    /// The binned dataset.
    Hist(GHistIndex),
    /// Nothing: bins are chosen anew in each round.
    Approx,
}

impl Prepared {
    /// Whether this is what a configuration and a dataset ask for.
    pub open spec fn fits<F: Fn(Op, u64, u64) -> u64>(
        &self,
        params: TrainingParams,
        data: &DMatrix,
        calc: &Calc<F>,
    ) -> bool {
        match *self {
            Prepared::Exact(cols) => {
                &&& params.tree_method == TreeMethod::Exact
                &&& cols.well_formed()
                &&& cols.height() == data.height()
                &&& cols.width() == data.width()
                &&& forall|c: int|
                    0 <= c < data.width() ==> #[trigger] cols.pairs(c) == by_value(
                        data.column_prefix(c, data.height()),
                    )
            },
            Prepared::Hist(ghist) => {
                &&& params.tree_method == TreeMethod::Hist || params.tree_method
                    == TreeMethod::Auto
                &&& is_binned(&ghist, data, params.max_bin as int, None, calc)
            },
            Prepared::Approx => params.tree_method == TreeMethod::Approx,
        }
    }

    /// Whether a tree is one that may be grown from the given gradients and
    /// rows.
    pub open spec fn may_grow<F: Fn(Op, u64, u64) -> u64>(
        &self,
        params: TrainingParams,
        data: &DMatrix,
        gp: Seq<GradPair>,
        rows: Seq<u32>,
        sampling: Sampling,
        tree: &RegTree,
        calc: &Calc<F>,
    ) -> bool {
        match *self {
            Prepared::Exact(cols) => exists|cons: MonotoneConstraints| #[trigger]
                exact_tree(params, cons, &cols, data, gp, rows, sampling, tree, calc),
            Prepared::Hist(ghist) => exists|cons: MonotoneConstraints, run: Seq<Step>| #[trigger]
                hist_tree(params, cons, &ghist, gp, rows, sampling, run, tree, calc),
            Prepared::Approx => exists|
                cons: MonotoneConstraints,
                ghist: GHistIndex,
                run: Seq<Step>,
            |
                is_binned(&ghist, data, params.max_bin as int, Some(hessians(gp)), calc)
                    && #[trigger] hist_tree(
                    params,
                    cons,
                    &ghist,
                    gp,
                    rows,
                    sampling,
                    run,
                    tree,
                    calc,
                ),
        }
    }

    /// Grow one tree for a round's gradients and rows.
    pub fn build_tree<F: Fn(Op, u64, u64) -> u64 + Sync>(
        &self,
        params: &TrainingParams,
        data: &DMatrix,
        gpair: &[GradPair],
        rows: &[u32],
        sampler: &mut ColumnSampler,
        calc: &Calc<F>,
    ) -> (r: RegTree)
        requires
            growable(data),
            bins_fit(*params, data, calc),
            self.fits(*params, data, calc),
            1 <= params.max_bin,
            gpair.len() == data.height(),
            forall|i: int| 0 <= i < rows.len() ==> #[trigger] rows[i] < data.height(),
            forall|i: int|
                0 <= i < old(sampler).features().len() ==> #[trigger] old(sampler).features()[i]
                    < data.width(),
        ensures
            self.may_grow(*params, data, gpair@, rows@, old(sampler)@, &r, calc),
            r.grown(),
            features_exist(r.node_list(), data.width()),
            params.max_depth > 0 ==> settles(
                r.node_list(),
                r.category_list(),
                0,
                params.max_depth as nat,
            ),
    {
        match self {
            Prepared::Exact(cols) => {
                let builder = ExactTreeBuilder::new(params);
                let tree = builder.build(cols, data, gpair, rows, sampler, calc);
                proof {
                    assert(builder.constraints().directions() =~= directions_of(*params));
                    assert(exact_tree(
                        *params,
                        builder.constraints(),
                        cols,
                        data,
                        gpair@,
                        rows@,
                        old(sampler)@,
                        &tree,
                        calc,
                    ));
                }
                tree
            },
            Prepared::Hist(ghist) => grow_binned(params, ghist, gpair, rows, sampler, calc),
            Prepared::Approx => {
                let mut weights: Vec<Single> = Vec::new();
                let mut i: usize = 0;
                while i < gpair.len()
                    invariant
                        i <= gpair.len(),
                        weights.len() == i,
                        forall|k: int| 0 <= k < i ==> #[trigger] weights[k] == gpair[k].hess,
                    decreases gpair.len() - i,
                {
                    weights.push(gpair[i].hess);
                    i = i + 1;
                }
                proof {
                    assert(weights@ =~= hessians(gpair@));
                    data.shape();
                    columns_are_counted(data);
                    cuts_are_bounded(
                        data,
                        params.max_bin as int,
                        Some(weights@),
                        calc,
                        data.width(),
                    );
                }
                let cuts = HistCuts::from_dmatrix_weighted(
                    data,
                    params.max_bin,
                    weights.as_slice(),
                    calc,
                );
                proof {
                    rows_are_binnable(
                        data,
                        &cuts,
                        params.max_bin as int,
                        Some(weights@),
                        calc,
                    );
                }
                let ghist = GHistIndex::from_dmatrix(data, cuts);
                let tree = grow_binned(params, &ghist, gpair, rows, sampler, calc);
                proof {
                    assert(is_binned(
                        &ghist,
                        data,
                        params.max_bin as int,
                        Some(hessians(gpair@)),
                        calc,
                    ));
                }
                tree
            },
        }
    }
}

fn grow_binned<F: Fn(Op, u64, u64) -> u64 + Sync>(
    params: &TrainingParams,
    ghist: &GHistIndex,
    gpair: &[GradPair],
    rows: &[u32],
    sampler: &mut ColumnSampler,
    calc: &Calc<F>,
) -> (r: RegTree)
    requires
        ghist.well_formed(),
        gpair.len() >= ghist.height(),
        forall|i: int| 0 <= i < rows.len() ==> #[trigger] rows[i] < ghist.height(),
        forall|i: int|
            0 <= i < old(sampler).features().len() ==> #[trigger] old(sampler).features()[i]
                < ghist.table().features(),
    ensures
        exists|cons: MonotoneConstraints, run: Seq<Step>| #[trigger]
            hist_tree(*params, cons, ghist, gpair@, rows@, old(sampler)@, run, &r, calc),
        r.grown(),
        features_exist(r.node_list(), ghist.table().features()),
        params.max_depth > 0 ==> settles(
            r.node_list(),
            r.category_list(),
            0,
            params.max_depth as nat,
        ),
{
    let builder = HistTreeBuilder::new(params);
    let tree = builder.build_sampled(ghist, gpair, rows, sampler, calc);
    proof {
        let plan = builder.plan(ghist, gpair@);
        let run = choose|run: Seq<Step>|
            #![trigger grows_into(plan, rows@, old(sampler)@, run, tree, calc)]
            grows_into(plan, rows@, old(sampler)@, run, tree, calc) && sampler@
                == run.last().sampling;
        assert(builder.constraints().directions() =~= directions_of(*params));
        assert(plan =~= plan_of(*params, builder.constraints(), ghist, gpair@));
        assert(hist_tree(
            *params,
            builder.constraints(),
            ghist,
            gpair@,
            rows@,
            old(sampler)@,
            run,
            &tree,
            calc,
        ));
    }
    tree
}

proof fn filtering_shortens<T>(s: Seq<T>, keep: spec_fn(T) -> bool)
    ensures
        s.filter(keep).len() <= s.len(),
    decreases s.len(),
{
    reveal(Seq::filter);
    if s.len() > 0 {
        filtering_shortens(s.drop_last(), keep);
    }
}

proof fn columns_fit(data: &DMatrix, c: int, n: int)
    ensures
        data.column_prefix(c, n).len() <= entries_before(data, n),
    decreases n,
{
    if n > 0 {
        columns_fit(data, c, n - 1);
        filtering_shortens(data.entries(n - 1), |e: Entry| e.index == c);
    }
}

pub(crate) proof fn columns_are_counted(data: &DMatrix)
    requires
        entries_before(data, data.height()) <= usize::MAX,
    ensures
        forall|f: int|
            0 <= f < data.width() ==> (#[trigger] column_values(data, f)).len() <= usize::MAX,
{
    assert forall|f: int| 0 <= f < data.width() implies (#[trigger] column_values(data, f)).len()
        <= usize::MAX by {
        columns_fit(data, f, data.height());
    }
}

/// Every entry of a row stands in its column.
pub proof fn entries_stand_in_columns(data: &DMatrix, r: int, k: int, n: int)
    requires
        0 <= r < n,
        0 <= k < data.entries(r).len(),
    ensures
        exists|i: int|
            0 <= i < data.column_prefix(data.entries(r)[k].index as int, n).len()
                && #[trigger] data.column_prefix(data.entries(r)[k].index as int, n)[i].1
                == data.entries(r)[k].value,
    decreases n,
{
    broadcast use vstd::seq_lib::group_filter_ensures;

    let e = data.entries(r)[k];
    let c = e.index as int;
    let front = data.column_prefix(c, n - 1);
    let last = picks(data.entries(n - 1), c, n - 1);
    let whole = data.column_prefix(c, n);
    if r == n - 1 {
        let keep = |x: Entry| x.index == c;
        let kept = data.entries(n - 1).filter(keep);
        assert(data.entries(n - 1).contains(e));
        assert(kept.contains(e));
        let i = choose|i: int| 0 <= i < kept.len() && kept[i] == e;
        assert(last[i].1 == e.value);
        assert(whole[front.len() + i].1 == e.value);
    } else {
        entries_stand_in_columns(data, r, k, n - 1);
        let i = choose|i: int|
            0 <= i < front.len() && #[trigger] front[i].1 == e.value;
        assert(whole[i].1 == e.value);
    }
}

proof fn rows_are_binnable<F: Fn(Op, u64, u64) -> u64>(
    data: &DMatrix,
    cuts: &HistCuts,
    max_bin: int,
    weights: Option<Seq<Single>>,
    calc: &Calc<F>,
)
    requires
        growable(data),
        cuts.well_formed(),
        cuts.features() == data.width(),
        forall|f: int|
            0 <= f < data.width() ==> #[trigger] cuts.cuts_of(f) == feature_cuts(
                data,
                max_bin,
                weights,
                calc,
                f,
            ),
        forall|f: int|
            0 <= f < data.width() ==> #[trigger] cuts.categorical(f) == (data.types()[f]
                == FeatureType::Categorical),
    ensures
        forall|i: int| 0 <= i < data.height() ==> binnable(#[trigger] data.entries(i), cuts),
{
    columns_are_counted(data);
    assert forall|i: int| 0 <= i < data.height() implies binnable(
        #[trigger] data.entries(i),
        cuts,
    ) by {
        let entries = data.entries(i);
        assert forall|k: int|
            0 <= k < entries.len() && cuts.categorical(
                (#[trigger] entries[k]).index as int,
            ) implies !entries[k].value.nan() && !cuts.cuts_of(
            entries[k].index as int,
        )[0].nan() by {
            assert(data.readable_row(i));
            data.entry_columns_exist(i, k);
            let f = entries[k].index as int;
            let vals = column_values(data, f);
            entries_stand_in_columns(data, i, k, data.height());
            let column = data.column_prefix(f, data.height());
            let j = choose|j: int|
                0 <= j < column.len() && #[trigger] column[j].1 == entries[k].value;
            assert(vals[j] == entries[k].value);
            assert(cuts.categorical(f));
            assert(data.types()[f] == FeatureType::Categorical);
            assert(cuts.cuts_of(f) == category_cuts(vals));
            first_category_is_a_value(vals);
        }
    }
}

proof fn first_category_is_a_value(vals: Seq<Single>)
    requires
        0 < vals.len() <= usize::MAX,
        sortable(vals),
        forall|i: int| 0 <= i < vals.len() ==> !(#[trigger] vals[i]).nan(),
    ensures
        category_cuts(vals).len() > 0,
        !category_cuts(vals)[0].nan(),
{
    sorted_values_are_sorted(vals);
    let sorted = sorted_values(vals);
    first_of_run(sorted, vals.len() as int);
    assert(vals.contains(sorted[0]));
}

proof fn first_of_run(sorted: Seq<Single>, n: int)
    requires
        1 <= n <= sorted.len(),
    ensures
        distinct_run(sorted, n).len() > 0,
        distinct_run(sorted, n)[0] == sorted[0],
    decreases n,
{
    reveal_with_fuel(distinct_run, 2);
    if n > 1 {
        first_of_run(sorted, n - 1);
    }
}

/// Prepare tree building for a configuration and a dataset. Exact search does
/// not grow trees by loss.
pub fn prepare_builder<F: Fn(Op, u64, u64) -> u64>(
    params: &TrainingParams,
    data: &DMatrix,
    calc: &Calc<F>,
) -> (r: Result<Prepared, SequoiaError>)
    requires
        growable(data),
        bins_fit(*params, data, calc),
        1 <= params.max_bin,
    ensures
        match r {
            Ok(p) => p.fits(*params, data, calc) && !exact_by_loss(*params),
            Err(e) => exact_by_loss(*params) && (
            e matches SequoiaError::InvalidParameter { name, reason } && name@ == "grow_policy"@
                && reason@ == "`lossguide` growth requires `tree_method=hist`"@),
        },
{
    match params.tree_method {
        TreeMethod::Exact => {
            if params.grow_policy == GrowPolicy::LossGuide {
                return Err(
                    SequoiaError::invalid_param(
                        "grow_policy",
                        "`lossguide` growth requires `tree_method=hist`".to_owned(),
                    ),
                );
            }
            proof {
                assert forall|f: int| 0 <= f < data.width() implies sortable(
                    values_of(#[trigger] data.column_prefix(f, data.height())),
                ) by {
                    assert(sortable(column_values(data, f)));
                }
            }
            Ok(Prepared::Exact(SortedColumns::from_dmatrix(data)))
        },
        TreeMethod::Approx => Ok(Prepared::Approx),
        TreeMethod::Auto | TreeMethod::Hist => {
            let cuts = HistCuts::from_dmatrix(data, params.max_bin, calc);
            proof {
                rows_are_binnable(data, &cuts, params.max_bin as int, None, calc);
            }
            Ok(Prepared::Hist(GHistIndex::from_dmatrix(data, cuts)))
        },
    }
}

/// Whether exact search is asked to grow trees by loss.
pub open spec fn exact_by_loss(params: TrainingParams) -> bool {
    params.tree_method == TreeMethod::Exact && params.grow_policy == GrowPolicy::LossGuide
}

} // verus!
