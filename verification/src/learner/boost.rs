//! One boosting round: the trees that it fits.

use vstd::prelude::*;

use crate::arith::{Calc, Op};
use crate::config::{BoosterKind, TrainingParams};
use crate::data::dmatrix::DMatrix;
use crate::layout::{entry_place, rows_fit_within};
use crate::learner::margin::{margins_of, margins_of_a_prefix, walkable};
use crate::learner::prepare::{bins_fit, growable, Prepared};
use crate::learner::sample::{
    after_drops, after_features, after_rows, dart_seed, drop_count, make_column_sampler,
    round_drops, round_rows, round_seed, sample_rows, tree_sampling,
};
use crate::number::{Single, Wide, ONE_S};
use crate::objective::base::Objective;
use crate::objective::pair::GradPair;
use crate::random::Random;
use crate::tree::builder::exact::features_exist;
use crate::tree::laws::grown_trees_are_sound;
use crate::tree::regtree::{Node, RegTree};
use crate::tree::sampler::Sampling;

verus! {

/// The boundaries of a dataset's ranking groups, where it has any.
pub open spec fn data_groups(data: &DMatrix) -> Option<Seq<usize>> {
    match data.group_info() {
        Some(g) => Some(g.group_ptr@),
        None => None,
    }
}

/// The labels of a dataset; none where it has none.
pub open spec fn labels_or_none(data: &DMatrix) -> Seq<Single> {
    match data.label_list() {
        Some(l) => l,
        None => Seq::empty(),
    }
}

/// The gradients of a dataset at the given margins.
pub open spec fn gradients_at<F: Fn(Op, u64, u64) -> u64, O: Objective<F>>(
    o: &O,
    data: &DMatrix,
    margins: Seq<Single>,
    calc: &Calc<F>,
) -> Seq<GradPair> {
    o.gradients(margins, labels_or_none(data), data.weight_list(), data_groups(data), calc)
}

/// The gradients of one of `k` outputs.
pub open spec fn output_slice(gp: Seq<GradPair>, k: int, out: int, n: int) -> Seq<GradPair> {
    Seq::new(n as nat, |r: int| gp[r * k + out])
}

/// The nodes of a tree whose leaf weights are multiplied.
pub open spec fn scaled_nodes<F: Fn(Op, u64, u64) -> u64>(
    nodes: Seq<Node>,
    factor: Single,
    calc: &Calc<F>,
) -> Seq<Node> {
    Seq::new(
        nodes.len(),
        |i: int|
            if nodes[i].leafy() {
                Node { leaf_value: calc.times_s(nodes[i].leaf_value, factor), ..nodes[i] }
            } else {
                nodes[i]
            },
    )
}

/// Whether a tree is another one with its leaf weights multiplied.
pub open spec fn is_scaled<F: Fn(Op, u64, u64) -> u64>(
    tree: &RegTree,
    raw: &RegTree,
    factor: Single,
    calc: &Calc<F>,
) -> bool {
    &&& tree.node_list() == scaled_nodes(raw.node_list(), factor, calc)
    &&& tree.category_list() == raw.category_list()
}

/// Whether a tree is one that may be fit to one of `k` outputs: grown from the
/// output's gradients, with leaf weights shrunk by the learning rate.
pub open spec fn is_fit<F: Fn(Op, u64, u64) -> u64>(
    prepared: &Prepared,
    params: TrainingParams,
    data: &DMatrix,
    gp: Seq<GradPair>,
    k: int,
    out: int,
    rows: Seq<u32>,
    sampling: Sampling,
    tree: &RegTree,
    calc: &Calc<F>,
) -> bool {
    exists|raw: RegTree|
        #![trigger is_scaled(tree, &raw, calc.narrowed(params.eta), calc)]
        is_scaled(tree, &raw, calc.narrowed(params.eta), calc) && prepared.may_grow(
            params,
            data,
            output_slice(gp, k, out, data.height()),
            rows,
            sampling,
            &raw,
            calc,
        )
}

/// Whether rounds drop trees.
pub open spec fn drops_trees(params: TrainingParams) -> bool {
    params.booster == BoosterKind::Dart
}

/// The seed of round `r`.
pub open spec fn seed_of(params: TrainingParams, r: int) -> u64 {
    if drops_trees(params) {
        dart_seed(params.seed, r as u64)
    } else {
        round_seed(params.seed, r as u64)
    }
}

/// The trees that round `r` leaves out, of those of the rounds before.
pub open spec fn drops_in<F: Fn(Op, u64, u64) -> u64>(
    params: TrainingParams,
    k: int,
    r: int,
    calc: &Calc<F>,
) -> Seq<bool> {
    if drops_trees(params) {
        round_drops(params, seed_of(params, r), r * k, calc)
    } else {
        Seq::empty()
    }
}

/// The requests that round `r` has made before it draws rows.
pub open spec fn requests_in<F: Fn(Op, u64, u64) -> u64>(
    params: TrainingParams,
    k: int,
    r: int,
    calc: &Calc<F>,
) -> Seq<int> {
    if drops_trees(params) {
        after_drops(params, seed_of(params, r), r * k, calc)
    } else {
        Seq::empty()
    }
}

/// The requests after the features of `n` trees were drawn.
pub open spec fn tree_requests(requests: Seq<int>, colsample: Wide, width: int, n: int) -> Seq<int>
    decreases n,
{
    if n <= 0 {
        requests
    } else {
        after_features(tree_requests(requests, colsample, width, n - 1), colsample, width)
    }
}

/// The rows that round `r` is fit on.
pub open spec fn rows_in<F: Fn(Op, u64, u64) -> u64>(
    params: TrainingParams,
    n: int,
    k: int,
    r: int,
    calc: &Calc<F>,
) -> Seq<u32> {
    round_rows(
        seed_of(params, r),
        requests_in(params, k, r, calc),
        params.subsample,
        n,
        calc,
    )
}

/// The column sampler of the tree that round `r` fits to output `out`.
pub open spec fn sampling_in<F: Fn(Op, u64, u64) -> u64>(
    params: TrainingParams,
    n: int,
    width: int,
    k: int,
    r: int,
    out: int,
    calc: &Calc<F>,
) -> Sampling {
    let seed = seed_of(params, r);
    let drawn = after_rows(seed, requests_in(params, k, r, calc), params.subsample, n, calc);
    tree_sampling(
        params,
        seed,
        tree_requests(drawn, params.colsample_bytree, width, out),
        width,
        r as u64,
        out as u64,
        calc,
    )
}

/// The weight of the trees of a round that drops `dropped` trees.
pub open spec fn new_weight<F: Fn(Op, u64, u64) -> u64>(dropped: int, calc: &Calc<F>) -> Single {
    let one = Single { bits: ONE_S };
    calc.over_s(one, calc.plus_s(calc.of_s(dropped), one))
}

/// What the weights of dropped trees are multiplied by.
pub open spec fn drop_factor<F: Fn(Op, u64, u64) -> u64>(dropped: int, calc: &Calc<F>) -> Single {
    calc.over_s(calc.of_s(dropped), calc.plus_s(calc.of_s(dropped), Single { bits: ONE_S }))
}

/// The weights of trees after those of dropped ones are multiplied.
pub open spec fn rescaled<F: Fn(Op, u64, u64) -> u64>(
    weights: Seq<Single>,
    drops: Seq<bool>,
    factor: Single,
    calc: &Calc<F>,
) -> Seq<Single> {
    Seq::new(
        weights.len(),
        |i: int|
            if i < drops.len() && drops[i] {
                calc.times_s(weights[i], factor)
            } else {
                weights[i]
            },
    )
}

/// The weights of all trees after `rounds` rounds.
pub open spec fn weights_after<F: Fn(Op, u64, u64) -> u64>(
    params: TrainingParams,
    k: int,
    rounds: int,
    calc: &Calc<F>,
) -> Seq<Single>
    decreases rounds,
{
    if rounds <= 0 {
        Seq::empty()
    } else {
        let before = weights_after(params, k, rounds - 1, calc);
        let drops = drops_in(params, k, rounds - 1, calc);
        let dropped = drop_count(drops, drops.len() as int);
        if drops_trees(params) {
            rescaled(before, drops, drop_factor(dropped, calc), calc) + Seq::new(
                k as nat,
                |i: int| new_weight(dropped, calc),
            )
        } else {
            before + Seq::new(k as nat, |i: int| Single { bits: ONE_S })
        }
    }
}

/// The margins that round `r` takes its gradients at: those of the rounds
/// before, less the trees that it leaves out.
pub open spec fn margins_in<F: Fn(Op, u64, u64) -> u64>(
    params: TrainingParams,
    data: &DMatrix,
    base: Single,
    trees: Seq<RegTree>,
    k: int,
    r: int,
    calc: &Calc<F>,
) -> Seq<Single> {
    margins_of(
        trees,
        weights_after(params, k, r, calc),
        drops_in(params, k, r, calc),
        data,
        base,
        k,
        r * k,
        calc,
    )
}

/// Whether the tree of round `r` and output `out` was fit to the gradients at
/// the margins of the rounds before.
pub open spec fn fitted<F: Fn(Op, u64, u64) -> u64, O: Objective<F>>(
    params: TrainingParams,
    data: &DMatrix,
    prepared: &Prepared,
    o: &O,
    base: Single,
    trees: Seq<RegTree>,
    k: int,
    r: int,
    out: int,
    calc: &Calc<F>,
) -> bool {
    is_fit(
        prepared,
        params,
        data,
        gradients_at(o, data, margins_in(params, data, base, trees, k, r, calc), calc),
        k,
        out,
        rows_in(params, data.height(), k, r, calc),
        sampling_in(params, data.height(), data.width(), k, r, out, calc),
        &trees[r * k + out],
        calc,
    )
}

/// Whether trees came from the given number of rounds.
pub open spec fn boosted<F: Fn(Op, u64, u64) -> u64, O: Objective<F>>(
    params: TrainingParams,
    data: &DMatrix,
    prepared: &Prepared,
    o: &O,
    base: Single,
    trees: Seq<RegTree>,
    k: int,
    rounds: int,
    calc: &Calc<F>,
) -> bool {
    &&& trees.len() == rounds * k
    &&& forall|r: int, out: int|
        0 <= r < rounds && 0 <= out < k ==> #[trigger] fitted(
            params,
            data,
            prepared,
            o,
            base,
            trees,
            k,
            r,
            out,
            calc,
        )
}

/// There is a weight for every tree.
pub proof fn weights_are_counted<F: Fn(Op, u64, u64) -> u64>(
    params: TrainingParams,
    k: int,
    rounds: int,
    calc: &Calc<F>,
)
    requires
        0 <= k,
        0 <= rounds,
    ensures
        weights_after(params, k, rounds, calc).len() == rounds * k,
    decreases rounds,
{
    if rounds > 0 {
        weights_are_counted(params, k, rounds - 1, calc);
        assert((rounds - 1) * k + k == rounds * k) by (nonlinear_arith);
    } else {
        assert(0 * k == 0) by (nonlinear_arith);
    }
}

/// Trees of earlier rounds stay fit when a round adds more.
pub proof fn rounds_keep_their_trees<F: Fn(Op, u64, u64) -> u64, O: Objective<F>>(
    params: TrainingParams,
    data: &DMatrix,
    prepared: &Prepared,
    o: &O,
    base: Single,
    trees: Seq<RegTree>,
    more: Seq<RegTree>,
    k: int,
    rounds: int,
    calc: &Calc<F>,
)
    requires
        boosted(params, data, prepared, o, base, trees, k, rounds, calc),
        0 < k,
        0 <= rounds,
        trees.len() <= more.len(),
        forall|t: int| 0 <= t < trees.len() ==> #[trigger] trees[t] == more[t],
    ensures
        forall|r: int, out: int|
            0 <= r < rounds && 0 <= out < k ==> #[trigger] fitted(
                params,
                data,
                prepared,
                o,
                base,
                more,
                k,
                r,
                out,
                calc,
            ),
{
    assert forall|r: int, out: int| 0 <= r < rounds && 0 <= out < k implies #[trigger] fitted(
        params,
        data,
        prepared,
        o,
        base,
        more,
        k,
        r,
        out,
        calc,
    ) by {
        assert(fitted(params, data, prepared, o, base, trees, k, r, out, calc));
        entry_place(rounds, k, r, out);
        rows_fit_within(r, rounds, k);
        weights_are_counted(params, k, r, calc);
        let w = weights_after(params, k, r, calc);
        margins_of_a_prefix(
            trees,
            w,
            more,
            w,
            drops_in(params, k, r, calc),
            data,
            base,
            k,
            r * k,
            calc,
        );
        assert(trees[r * k + out] == more[r * k + out]);
    }
}

/// The gradients of one of several outputs.
fn gather(gpair: &Vec<GradPair>, n: usize, n_out: usize, out: usize) -> (r: Vec<GradPair>)
    requires
        out < n_out,
        gpair.len() == n * n_out,
    ensures
        r@ == output_slice(gpair@, n_out as int, out as int, n as int),
{
    let mut list: Vec<GradPair> = Vec::new();
    let mut row: usize = 0;
    while row < n
        invariant
            out < n_out,
            gpair.len() == n * n_out,
            row <= n,
            list.len() == row,
            forall|i: int| 0 <= i < row ==> #[trigger] list[i] == gpair[i * n_out + out],
        decreases n - row,
    {
        proof {
            entry_place(n as int, n_out as int, row as int, out as int);
        }
        list.push(gpair[row * n_out + out]);
        row = row + 1;
    }
    assert(list@ =~= output_slice(gpair@, n_out as int, out as int, n as int));
    list
}

/// Multiply the leaf weights of a tree.
pub fn shrink<F: Fn(Op, u64, u64) -> u64>(tree: &mut RegTree, factor: Single, calc: &Calc<F>)
    ensures
        is_scaled(final(tree), old(tree), factor, calc),
{
    let scaled = |v: Single| -> (r: Single)
        ensures
            r == calc.times_s(v, factor),
        { calc.mul_s(v, factor) };
    tree.scale_leaves(scaled);
    assert(tree.node_list() =~= scaled_nodes(old(tree).node_list(), factor, calc));
}

/// A tree can be walked after its leaf weights are multiplied.
pub proof fn scaling_keeps_walks<F: Fn(Op, u64, u64) -> u64>(
    tree: &RegTree,
    raw: &RegTree,
    factor: Single,
    width: int,
    calc: &Calc<F>,
)
    requires
        is_scaled(tree, raw, factor, calc),
        raw.grown(),
        features_exist(raw.node_list(), width),
    ensures
        tree.grown(),
        walkable(tree, width),
{
    let a = raw.node_list();
    let b = tree.node_list();
    assert forall|i: int| 0 <= i < b.len() implies (#[trigger] b[i]).leafy()
        == a[i].leafy() by {
    }
    assert(crate::tree::regtree::ordered(b, tree.category_list())) by {
        assert forall|i: int| 0 <= i < b.len() && !(#[trigger] b[i]).leafy() implies b[i]
            == a[i] by {
        }
    }
    grown_trees_are_sound(b, tree.category_list());
    assert forall|i: int| 0 <= i < b.len() && !(#[trigger] b[i]).leafy() implies b[i].split_feature
        < width by {
        assert(b[i] == a[i]);
    }
}

/// Fit one tree per output to the gradients at the given margins.
pub fn fit_round<F: Fn(Op, u64, u64) -> u64 + Sync, O: Objective<F>>(
    params: &TrainingParams,
    data: &DMatrix,
    prepared: &Prepared,
    objective: &O,
    labels: &[Single],
    margin: &Vec<Single>,
    rng: &mut Random,
    round: usize,
    n_out: usize,
    gpair: &mut Vec<GradPair>,
    calc: &Calc<F>,
) -> (r: Vec<RegTree>)
    requires
        growable(data),
        bins_fit(*params, data, calc),
        prepared.fits(*params, data, calc),
        1 <= params.max_bin,
        objective.usable(),
        objective.outputs() == n_out,
        1 <= n_out,
        data.label_list() == Some(labels@),
        margin.len() == data.height() * n_out,
        old(gpair).len() == margin.len(),
        old(rng).seed() == seed_of(*params, round as int),
        old(rng).requests() == requests_in(*params, n_out as int, round as int, calc),
    ensures
        final(gpair).len() == old(gpair).len(),
        r.len() == n_out,
        forall|out: int|
            0 <= out < n_out ==> is_fit(
                prepared,
                *params,
                data,
                gradients_at(objective, data, margin@, calc),
                n_out as int,
                out,
                rows_in(*params, data.height(), n_out as int, round as int, calc),
                sampling_in(
                    *params,
                    data.height(),
                    data.width(),
                    n_out as int,
                    round as int,
                    out,
                    calc,
                ),
                #[trigger] &r[out],
                calc,
            ),
        forall|out: int| 0 <= out < n_out ==> walkable(#[trigger] &r[out], data.width()),
        forall|out: int| 0 <= out < n_out ==> (#[trigger] r[out]).grown(),
{
    proof {
        data.shape();
    }
    let n: usize = data.n_rows();
    let width: usize = data.n_cols();
    let ghost gp = gradients_at(objective, data, margin@, calc);
    objective.gradient_grouped(
        margin.as_slice(),
        labels,
        data.weights(),
        data.group(),
        gpair,
        calc,
    );
    assert(gpair@ == gp);
    let ghost seed = seed_of(*params, round as int);
    let rows = sample_rows(n, params.subsample, rng, calc);
    let ghost drawn = rng.requests();
    let eta = calc.narrow(params.eta);
    let mut trees: Vec<RegTree> = Vec::new();
    let mut out: usize = 0;
    assert(rng.requests() == tree_requests(drawn, params.colsample_bytree, width as int, 0));
    while out < n_out
        invariant
            growable(data),
            bins_fit(*params, data, calc),
            prepared.fits(*params, data, calc),
            1 <= params.max_bin,
            n == data.height(),
            width == data.width(),
            gpair@ == gp,
            gpair.len() == n * n_out,
            eta == calc.narrowed(params.eta),
            seed == seed_of(*params, round as int),
            rng.seed() == seed,
            drawn == after_rows(
                seed,
                requests_in(*params, n_out as int, round as int, calc),
                params.subsample,
                n as int,
                calc,
            ),
            rng.requests() == tree_requests(
                drawn,
                params.colsample_bytree,
                width as int,
                out as int,
            ),
            rows@ == rows_in(*params, n as int, n_out as int, round as int, calc),
            forall|i: int| 0 <= i < rows.len() ==> #[trigger] rows[i] < n,
            out <= n_out,
            trees.len() == out,
            forall|j: int|
                0 <= j < out ==> is_fit(
                    prepared,
                    *params,
                    data,
                    gp,
                    n_out as int,
                    j,
                    rows@,
                    sampling_in(
                        *params,
                        n as int,
                        width as int,
                        n_out as int,
                        round as int,
                        j,
                        calc,
                    ),
                    #[trigger] &trees[j],
                    calc,
                ),
            forall|j: int| 0 <= j < out ==> walkable(#[trigger] &trees[j], data.width()),
            forall|j: int| 0 <= j < out ==> (#[trigger] trees[j]).grown(),
        decreases n_out - out,
    {
        proof {
            data.shape();
        }
        let mut sampler = make_column_sampler(
            width,
            params,
            rng,
            round as u64,
            out as u64,
            calc,
        );
        let ghost sampling = sampler@;
        let mut tree = if n_out == 1 {
            assert(gpair@ =~= output_slice(gp, 1, 0, n as int));
            prepared.build_tree(params, data, gpair.as_slice(), rows.as_slice(), &mut sampler, calc)
        } else {
            let slice = gather(gpair, n, n_out, out);
            prepared.build_tree(params, data, slice.as_slice(), rows.as_slice(), &mut sampler, calc)
        };
        let ghost raw = tree;
        shrink(&mut tree, eta, calc);
        proof {
            scaling_keeps_walks(&tree, &raw, eta, data.width(), calc);
            assert(prepared.may_grow(
                *params,
                data,
                output_slice(gp, n_out as int, out as int, n as int),
                rows@,
                sampling,
                &raw,
                calc,
            ));
            assert(is_fit(
                prepared,
                *params,
                data,
                gp,
                n_out as int,
                out as int,
                rows@,
                sampling,
                &tree,
                calc,
            ));
        }
        trees.push(tree);
        out = out + 1;
    }
    trees
}

} // verus!
