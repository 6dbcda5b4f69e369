//! The trained model and its predictions.

use vstd::prelude::*;

use crate::arith::{Calc, Op};
use crate::data::dmatrix::DMatrix;
use crate::error::SequoiaError;
use crate::layout::{entry_place, place_entry, rows_fit_within};
use crate::learner::margin::{add_tree, init_margin, margins_of, start_margins, walkable};
use crate::metric::mean::{top, top_class};
use crate::number::{Single, Wide, HALF_S, ONE, ONE_S};
use crate::objective::create::{outputs_named, report, reported, softmax_has_its_classes};
use crate::text::same_text;
use crate::tree::builder::exact::features_exist;
use crate::tree::laws::grown_trees_are_sound;
use crate::tree::regtree::{Node, RegTree};

verus! {

/// Whether every split uses one of `width` features.
fn splits_exist(nodes: &[Node], width: usize) -> (r: bool)
    ensures
        r == features_exist(nodes@, width as int),
{
    let mut i: usize = 0;
    while i < nodes.len()
        invariant
            i <= nodes.len(),
            forall|k: int|
                0 <= k < i && !(#[trigger] nodes@[k]).leafy() ==> nodes@[k].split_feature < width,
        decreases nodes.len() - i,
    {
        let node = nodes[i];
        assert(nodes@[i as int] == node);
        if !node.is_leaf() && node.split_feature as usize >= width {
            return false;
        }
        i = i + 1;
    }
    true
}

/// A linear model: a weight per feature and output, and a bias per output.
#[derive(Clone, Debug)]
pub struct LinearModel {
    weights: Vec<Single>,
    bias: Vec<Single>,
}

impl LinearModel {
    /// The weights, feature after feature with one entry per output.
    pub closed spec fn coefficients(&self) -> Seq<Single> {
        self.weights@
    }

    /// The bias of every output.
    pub closed spec fn biases(&self) -> Seq<Single> {
        self.bias@
    }

    /// A linear model of the given weights and biases.
    pub fn new(weights: Vec<Single>, bias: Vec<Single>) -> (r: Self)
        ensures
            r.coefficients() == weights@,
            r.biases() == bias@,
    {
        LinearModel { weights, bias }
    }

    /// The weights.
    pub fn weights(&self) -> (r: &[Single])
        ensures
            r@ == self.coefficients(),
    {
        self.weights.as_slice()
    }

    /// The biases.
    pub fn bias(&self) -> (r: &[Single])
        ensures
            r@ == self.biases(),
    {
        self.bias.as_slice()
    }
}

/// What the first `n` features of a row add to a number.
pub open spec fn dot<F: Fn(Op, u64, u64) -> u64>(
    coefficients: Seq<Single>,
    data: &DMatrix,
    row: int,
    out: int,
    k: int,
    from: Single,
    n: int,
    calc: &Calc<F>,
) -> Single
    decreases n,
{
    if n <= 0 {
        from
    } else {
        let rest = dot(coefficients, data, row, out, k, from, n - 1, calc);
        match data.cell(row, n - 1) {
            Some(x) => calc.plus_s(rest, calc.times_s(x, coefficients[(n - 1) * k + out])),
            None => rest,
        }
    }
}

/// The margins that weights and biases give over `width` features.
pub open spec fn weighted_margins<F: Fn(Op, u64, u64) -> u64>(
    coefficients: Seq<Single>,
    biases: Seq<Single>,
    data: &DMatrix,
    base: Single,
    k: int,
    width: int,
    calc: &Calc<F>,
) -> Seq<Single> {
    let start = start_margins(data, base, k);
    Seq::new(
        start.len(),
        |j: int|
            dot(
                coefficients,
                data,
                j / k,
                j % k,
                k,
                calc.plus_s(start[j], biases[j % k]),
                width,
                calc,
            ),
    )
}

/// The margins of a linear model over `width` features.
pub open spec fn linear_margins<F: Fn(Op, u64, u64) -> u64>(
    linear: &LinearModel,
    data: &DMatrix,
    base: Single,
    k: int,
    width: int,
    calc: &Calc<F>,
) -> Seq<Single> {
    weighted_margins(linear.coefficients(), linear.biases(), data, base, k, width, calc)
}

/// What a feature's splits are scored by.
#[derive(Clone, Copy, Debug, PartialEq, Eq, Structural)]
pub enum ImportanceType {
    /// Their number.
    Weight,
    /// Their average loss reduction.
    Gain,
    /// Their average sum of Hessians.
    Cover,
    /// Their total loss reduction.
    TotalGain,
    /// Their total sum of Hessians.
    TotalCover,
}

/// The splits of a feature: whether there are any, their number, their total
/// loss reduction and their total sum of Hessians.
pub struct Splits {
    /// Whether there are any.
    pub any: bool,
    /// Their number.
    pub count: Wide,
    /// Their total loss reduction.
    pub gain: Wide,
    /// Their total sum of Hessians.
    pub cover: Wide,
}

/// The splits of a feature among the first `n` nodes, on top of those counted
/// before.
pub open spec fn splits_in_nodes<F: Fn(Op, u64, u64) -> u64>(
    before: Splits,
    nodes: Seq<Node>,
    f: u32,
    n: int,
    calc: &Calc<F>,
) -> Splits
    decreases n,
{
    if n <= 0 {
        before
    } else {
        let s = splits_in_nodes(before, nodes, f, n - 1, calc);
        let node = nodes[n - 1];
        if !node.leafy() && node.split_feature == f {
            Splits {
                any: true,
                count: calc.plus(s.count, Wide { bits: ONE }),
                gain: calc.plus(s.gain, calc.widened(node.split_gain)),
                cover: calc.plus(s.cover, calc.widened(node.sum_hess)),
            }
        } else {
            s
        }
    }
}

/// The splits of a feature among the first `n` trees.
pub open spec fn splits_in_trees<F: Fn(Op, u64, u64) -> u64>(
    trees: Seq<RegTree>,
    f: u32,
    n: int,
    calc: &Calc<F>,
) -> Splits
    decreases n,
{
    if n <= 0 {
        Splits {
            any: false,
            count: Wide { bits: 0 },
            gain: Wide { bits: 0 },
            cover: Wide { bits: 0 },
        }
    } else {
        let nodes = trees[n - 1].node_list();
        splits_in_nodes(
            splits_in_trees(trees, f, n - 1, calc),
            nodes,
            f,
            nodes.len() as int,
            calc,
        )
    }
}

/// The score of a feature's splits.
pub open spec fn importance_of<F: Fn(Op, u64, u64) -> u64>(
    s: Splits,
    kind: ImportanceType,
    calc: &Calc<F>,
) -> Wide {
    match kind {
        ImportanceType::Weight => s.count,
        ImportanceType::Gain => calc.over(s.gain, s.count),
        ImportanceType::Cover => calc.over(s.cover, s.count),
        ImportanceType::TotalGain => s.gain,
        ImportanceType::TotalCover => s.cover,
    }
}

/// The scores of those of the first `n` features that any tree splits on.
pub open spec fn importances<F: Fn(Op, u64, u64) -> u64>(
    trees: Seq<RegTree>,
    kind: ImportanceType,
    n: int,
    calc: &Calc<F>,
) -> Seq<(u32, Wide)>
    decreases n,
{
    if n <= 0 {
        Seq::empty()
    } else {
        let rest = importances(trees, kind, n - 1, calc);
        let s = splits_in_trees(trees, (n - 1) as u32, trees.len() as int, calc);
        if s.any { rest.push(((n - 1) as u32, importance_of(s, kind, calc))) } else { rest }
    }
}

/// A trained model: trees with a weight each, or a linear model, on top of a
/// base score in margin space.
#[derive(Debug)]
pub struct BoostedModel {
    trees: Vec<RegTree>,
    tree_weights: Vec<Single>,
    base_score: Single,
    objective: String,
    num_class: usize,
    n_features: usize,
    best_iteration: Option<usize>,
    linear: Option<LinearModel>,
}

/// The leaf that every row reaches in every tree, row after row.
pub open spec fn leaves_of(model: &BoostedModel, data: &DMatrix) -> Seq<usize> {
    let k = model.tree_list().len() as int;
    Seq::new(
        (data.height() * k) as nat,
        |j: int|
            model.tree_list()[j % k].leaf_of(|f: u32| data.cell(j / k, f as int)) as usize,
    )
}

impl BoostedModel {
    /// The trees.
    pub closed spec fn tree_list(&self) -> Seq<RegTree> {
        self.trees@
    }

    /// The weight of every tree.
    pub closed spec fn weight_list(&self) -> Seq<Single> {
        self.tree_weights@
    }

    /// The base score in margin space.
    pub closed spec fn base(&self) -> Single {
        self.base_score
    }

    /// The name of the objective.
    pub closed spec fn objective_name(&self) -> Seq<char> {
        self.objective@
    }

    /// The number of classes.
    pub closed spec fn classes(&self) -> usize {
        self.num_class
    }

    /// The number of features.
    pub closed spec fn width(&self) -> int {
        self.n_features as int
    }

    /// The best round, if training stopped early.
    pub closed spec fn best(&self) -> Option<usize> {
        self.best_iteration
    }

    /// The linear model, where there is one.
    pub closed spec fn linear_part(&self) -> Option<LinearModel> {
        self.linear
    }

    /// The number of outputs per instance.
    pub open spec fn outputs(&self) -> int {
        outputs_named(self.objective_name(), self.classes())
    }

    /// Every tree has a weight and can be walked, and a linear model has a
    /// weight per feature and output.
    pub open spec fn well_formed(&self) -> bool {
        &&& self.weight_list().len() == self.tree_list().len()
        &&& forall|t: int|
            0 <= t < self.tree_list().len() ==> walkable(
                #[trigger] &self.tree_list()[t],
                self.width(),
            )
        &&& self.linear_part() matches Some(l) ==> {
            &&& l.biases().len() == self.outputs()
            &&& l.coefficients().len() == self.width() * self.outputs()
        }
    }

    /// Whether the model can be applied to a dataset.
    pub open spec fn applies_to(&self, data: &DMatrix) -> bool {
        &&& data.well_formed()
        &&& data.readable()
        &&& self.width() <= data.width()
        &&& data.height() * self.outputs() <= usize::MAX
        &&& self.linear_part() is Some ==> self.width() <= u32::MAX
    }

    /// Whether a dataset has the features that the model reads: those that its
    /// trees split on, and all that a linear part weighs.
    pub open spec fn reads(&self, data: &DMatrix) -> bool {
        &&& data.well_formed()
        &&& data.readable()
        &&& forall|t: int|
            0 <= t < self.tree_list().len() ==> features_exist(
                (#[trigger] self.tree_list()[t]).node_list(),
                data.width(),
            )
        &&& self.linear_part() is Some ==> self.width() <= data.width() && self.width() <= u32::MAX
    }

    /// Whether every tree has a weight, is laid out with parents before their
    /// children and splits by features that exist, and a linear model has a
    /// weight per feature and output.
    pub open spec fn laid_out(&self) -> bool {
        &&& self.weight_list().len() == self.tree_list().len()
        &&& forall|t: int|
            #![trigger self.tree_list()[t]]
            0 <= t < self.tree_list().len() ==> self.tree_list()[t].grown() && features_exist(
                self.tree_list()[t].node_list(),
                self.width(),
            )
        &&& self.linear_part() matches Some(l) ==> {
            &&& l.biases().len() == self.outputs()
            &&& l.coefficients().len() == self.width() * self.outputs()
        }
    }

    /// Whether the model is laid out as training lays it out; it can then be
    /// applied.
    pub fn is_laid_out(&self) -> (r: bool)
        ensures
            r == self.laid_out(),
            r ==> self.well_formed(),
    {
        if self.tree_weights.len() != self.trees.len() {
            return false;
        }
        let mut t: usize = 0;
        while t < self.trees.len()
            invariant
                t <= self.trees.len(),
                forall|k: int|
                    #![trigger self.tree_list()[k]]
                    0 <= k < t ==> self.tree_list()[k].grown() && features_exist(
                        self.tree_list()[k].node_list(),
                        self.width(),
                    ),
            decreases self.trees.len() - t,
        {
            let tree = &self.trees[t];
            assert(self.tree_list()[t as int] == *tree);
            if !tree.is_grown() || !splits_exist(tree.nodes(), self.n_features) {
                return false;
            }
            t = t + 1;
        }
        proof {
            assert forall|k: int| 0 <= k < self.tree_list().len() implies walkable(
                #[trigger] &self.tree_list()[k],
                self.width(),
            ) by {
                assert(self.tree_list()[k].grown());
                grown_trees_are_sound(
                    self.tree_list()[k].node_list(),
                    self.tree_list()[k].category_list(),
                );
            }
        }
        match &self.linear {
            Some(l) => {
                let k: usize = self.n_outputs();
                let all: usize = l.weights.len();
                if l.bias.len() != k {
                    return false;
                }
                match self.n_features.checked_mul(k) {
                    Some(product) => all == product,
                    None => false,
                }
            },
            None => true,
        }
    }

    /// Features and outputs can be counted.
    pub proof fn shape(&self)
        ensures
            0 <= self.width() <= usize::MAX,
            1 <= self.outputs() <= usize::MAX,
    {
    }

    /// Models of walkable trees that are laid out as growth lays them out are
    /// laid out.
    pub(crate) proof fn grown_models_are_laid_out(&self)
        requires
            self.well_formed(),
            forall|t: int|
                0 <= t < self.tree_list().len() ==> (#[trigger] self.tree_list()[t]).grown(),
        ensures
            self.laid_out(),
    {
        assert forall|t: int|
            #![trigger self.tree_list()[t]]
            0 <= t < self.tree_list().len() implies self.tree_list()[t].grown() && features_exist(
            self.tree_list()[t].node_list(),
            self.width(),
        ) by {
            assert(walkable(&self.tree_list()[t], self.width()));
        }
    }

    /// A model without trees.
    pub fn new(base_score: Single, objective: String, num_class: usize, n_features: usize) -> (r:
        Self)
        ensures
            r.well_formed(),
            r.tree_list() == Seq::<RegTree>::empty(),
            r.weight_list() == Seq::<Single>::empty(),
            r.base() == base_score,
            r.objective_name() == objective@,
            r.classes() == num_class,
            r.width() == n_features,
            r.best() is None,
            r.linear_part() is None,
    {
        BoostedModel {
            trees: Vec::new(),
            tree_weights: Vec::new(),
            base_score,
            objective,
            num_class,
            n_features,
            best_iteration: None,
            linear: None,
        }
    }

    /// A model of the given trees, each of weight one.
    pub fn from_parts(
        trees: Vec<RegTree>,
        base_score: Single,
        objective: String,
        num_class: usize,
        n_features: usize,
    ) -> (r: Self)
        ensures
            r.tree_list() == trees@,
            r.weight_list() == Seq::new(trees@.len(), |t: int| Single { bits: ONE_S }),
            r.base() == base_score,
            r.objective_name() == objective@,
            r.classes() == num_class,
            r.width() == n_features,
            r.best() is None,
            r.linear_part() is None,
    {
        let tree_weights = vec![Single { bits: ONE_S }; trees.len()];
        assert(tree_weights@ =~= Seq::new(trees@.len(), |t: int| Single { bits: ONE_S }));
        BoostedModel {
            trees,
            tree_weights,
            base_score,
            objective,
            num_class,
            n_features,
            best_iteration: None,
            linear: None,
        }
    }

    /// A model of all its parts.
    pub fn assembled(
        trees: Vec<RegTree>,
        tree_weights: Vec<Single>,
        base_score: Single,
        objective: String,
        num_class: usize,
        n_features: usize,
        best_iteration: Option<usize>,
        linear: Option<LinearModel>,
    ) -> (r: Self)
        ensures
            r.tree_list() == trees@,
            r.weight_list() == tree_weights@,
            r.base() == base_score,
            r.objective_name() == objective@,
            r.classes() == num_class,
            r.width() == n_features,
            r.best() == best_iteration,
            r.linear_part() == linear,
    {
        BoostedModel {
            trees,
            tree_weights,
            base_score,
            objective,
            num_class,
            n_features,
            best_iteration,
            linear,
        }
    }

    /// The model with a linear part.
    pub fn with_linear(self, linear: LinearModel) -> (r: Self)
        requires
            self.well_formed(),
            linear.biases().len() == self.outputs(),
            linear.coefficients().len() == self.width() * self.outputs(),
        ensures
            r.well_formed(),
            r.tree_list() == self.tree_list(),
            r.weight_list() == self.weight_list(),
            r.base() == self.base(),
            r.objective_name() == self.objective_name(),
            r.classes() == self.classes(),
            r.width() == self.width(),
            r.best() == self.best(),
            r.linear_part() == Some(linear),
    {
        let mut out = self;
        out.linear = Some(linear);
        out
    }

    /// The number of features.
    pub fn n_features(&self) -> (r: usize)
        ensures
            r == self.width(),
    {
        self.n_features
    }

    /// The number of classes.
    pub fn num_class(&self) -> (r: usize)
        ensures
            r == self.classes(),
    {
        self.num_class
    }

    /// The name of the objective.
    pub fn objective(&self) -> (r: &str)
        ensures
            r@ == self.objective_name(),
    {
        self.objective.as_str()
    }

    /// The base score in margin space.
    pub fn base_score(&self) -> (r: Single)
        ensures
            r == self.base(),
    {
        self.base_score
    }

    /// The trees.
    pub fn trees(&self) -> (r: &[RegTree])
        ensures
            r@ == self.tree_list(),
    {
        self.trees.as_slice()
    }

    /// The weight of every tree.
    pub fn tree_weights(&self) -> (r: &[Single])
        ensures
            r@ == self.weight_list(),
    {
        self.tree_weights.as_slice()
    }

    /// The number of trees.
    pub fn num_trees(&self) -> (r: usize)
        ensures
            r == self.tree_list().len(),
    {
        self.trees.len()
    }

    /// The number of outputs per instance.
    pub fn n_outputs(&self) -> (r: usize)
        ensures
            r == self.outputs(),
            r >= 1,
    {
        output_count(self.objective.as_str(), self.num_class)
    }

    /// The number of rounds that the trees came from.
    pub fn num_boost_rounds(&self) -> (r: usize)
        ensures
            r == self.tree_list().len() as int / self.outputs(),
    {
        self.trees.len() / self.n_outputs()
    }

    /// The best round, if training stopped early.
    pub fn best_iteration(&self) -> (r: Option<usize>)
        ensures
            r == self.best(),
    {
        self.best_iteration
    }

    /// The linear part, where there is one.
    pub fn linear(&self) -> (r: Option<&LinearModel>)
        ensures
            r == (match self.linear_part() {
                Some(l) => Some(&l),
                None => None,
            }),
    {
        self.linear.as_ref()
    }

    /// Note the best round.
    pub fn set_best_iteration(&mut self, best: Option<usize>)
        ensures
            final(self).best() == best,
            final(self).tree_list() == old(self).tree_list(),
            final(self).weight_list() == old(self).weight_list(),
            final(self).base() == old(self).base(),
            final(self).objective_name() == old(self).objective_name(),
            final(self).classes() == old(self).classes(),
            final(self).width() == old(self).width(),
            final(self).linear_part() == old(self).linear_part(),
    {
        self.best_iteration = best;
    }

    /// Append a tree of weight one.
    pub fn push_tree(&mut self, tree: RegTree)
        ensures
            final(self).tree_list() == old(self).tree_list().push(tree),
            final(self).weight_list() == old(self).weight_list().push(Single { bits: ONE_S }),
            final(self).base() == old(self).base(),
            final(self).objective_name() == old(self).objective_name(),
            final(self).classes() == old(self).classes(),
            final(self).width() == old(self).width(),
            final(self).best() == old(self).best(),
            final(self).linear_part() == old(self).linear_part(),
    {
        self.push_tree_weighted(tree, Single { bits: ONE_S });
    }

    /// Append a tree of the given weight.
    pub fn push_tree_weighted(&mut self, tree: RegTree, weight: Single)
        ensures
            final(self).tree_list() == old(self).tree_list().push(tree),
            final(self).weight_list() == old(self).weight_list().push(weight),
            final(self).base() == old(self).base(),
            final(self).objective_name() == old(self).objective_name(),
            final(self).classes() == old(self).classes(),
            final(self).width() == old(self).width(),
            final(self).best() == old(self).best(),
            final(self).linear_part() == old(self).linear_part(),
    {
        self.trees.push(tree);
        self.tree_weights.push(weight);
    }

    /// Multiply the weight of a tree.
    pub fn scale_tree_weight<F: Fn(Op, u64, u64) -> u64>(
        &mut self,
        i: usize,
        factor: Single,
        calc: &Calc<F>,
    )
        requires
            i < old(self).weight_list().len(),
        ensures
            final(self).weight_list() == old(self).weight_list().update(
                i as int,
                calc.times_s(old(self).weight_list()[i as int], factor),
            ),
            final(self).tree_list() == old(self).tree_list(),
            final(self).base() == old(self).base(),
            final(self).objective_name() == old(self).objective_name(),
            final(self).classes() == old(self).classes(),
            final(self).width() == old(self).width(),
            final(self).best() == old(self).best(),
            final(self).linear_part() == old(self).linear_part(),
    {
        let w = self.tree_weights[i];
        self.tree_weights.set(i, calc.mul_s(w, factor));
    }

    /// The margins of the first `n` trees, less those left out.
    fn sum_trees<F: Fn(Op, u64, u64) -> u64>(
        &self,
        data: &DMatrix,
        dropped: &[bool],
        n: usize,
        calc: &Calc<F>,
    ) -> (r: Vec<Single>)
        requires
            self.well_formed(),
            self.applies_to(data),
            n <= self.tree_list().len(),
        ensures
            r@ == margins_of(
                self.tree_list(),
                self.weight_list(),
                dropped@,
                data,
                self.base(),
                self.outputs(),
                n as int,
                calc,
            ),
            r.len() == data.height() * self.outputs(),
    {
        let k: usize = self.n_outputs();
        proof {
            data.shape();
            rows_fit_within(0, data.height(), k as int);
        }
        let mut m = init_margin(data, self.base_score, k);
        let mut t: usize = 0;
        while t < n
            invariant
                self.well_formed(),
                self.applies_to(data),
                n <= self.tree_list().len(),
                k == self.outputs(),
                k >= 1,
                t <= n,
                m@ == margins_of(
                    self.tree_list(),
                    self.weight_list(),
                    dropped@,
                    data,
                    self.base(),
                    k as int,
                    t as int,
                    calc,
                ),
                m.len() == data.height() * k,
            decreases n - t,
        {
            if !(t < dropped.len() && dropped[t]) {
                assert(walkable(&self.tree_list()[t as int], self.width()));
                assert(features_exist(self.tree_list()[t as int].node_list(), data.width()));
                add_tree(&mut m, &self.trees[t], self.tree_weights[t], data, t % k, k, calc);
            }
            t = t + 1;
        }
        m
    }

    /// The margins of the trees that are not left out.
    pub fn predict_margin_dropout<F: Fn(Op, u64, u64) -> u64>(
        &self,
        data: &DMatrix,
        dropped: &[bool],
        calc: &Calc<F>,
    ) -> (r: Vec<Single>)
        requires
            self.well_formed(),
            self.applies_to(data),
        ensures
            r@ == margins_of(
                self.tree_list(),
                self.weight_list(),
                dropped@,
                data,
                self.base(),
                self.outputs(),
                self.tree_list().len() as int,
                calc,
            ),
            r.len() == data.height() * self.outputs(),
    {
        self.sum_trees(data, dropped, self.trees.len(), calc)
    }

    /// The number of trees of the first `rounds` rounds; all for zero.
    pub open spec fn trees_within(&self, rounds: int) -> int {
        let n = self.tree_list().len() as int;
        if rounds == 0 || rounds * self.outputs() > n { n } else { rounds * self.outputs() }
    }

    /// The margins of the first `rounds` rounds; of all for zero.
    pub open spec fn margins<F: Fn(Op, u64, u64) -> u64>(
        &self,
        data: &DMatrix,
        rounds: int,
        calc: &Calc<F>,
    ) -> Seq<Single> {
        match self.linear_part() {
            Some(l) => linear_margins(
                &l,
                data,
                self.base(),
                self.outputs(),
                self.width(),
                calc,
            ),
            None => margins_of(
                self.tree_list(),
                self.weight_list(),
                Seq::empty(),
                data,
                self.base(),
                self.outputs(),
                self.trees_within(rounds),
                calc,
            ),
        }
    }

    /// The margins of the first `rounds` rounds; of all for zero.
    pub fn predict_margin_limited<F: Fn(Op, u64, u64) -> u64>(
        &self,
        data: &DMatrix,
        rounds: usize,
        calc: &Calc<F>,
    ) -> (r: Vec<Single>)
        requires
            self.well_formed(),
            self.applies_to(data),
        ensures
            r@ == self.margins(data, rounds as int, calc),
            r.len() == data.height() * self.outputs(),
    {
        match &self.linear {
            Some(l) => self.sum_features(l, data, calc),
            None => {
                let k: usize = self.n_outputs();
                let all: usize = self.trees.len();
                let n: usize = if rounds == 0 || rounds > all / k {
                    proof {
                        assert(rounds > all as int / (k as int) ==> rounds * k > all)
                            by (nonlinear_arith)
                            requires
                                k >= 1,
                                rounds >= 0,
                                all >= 0,
                        ;
                    }
                    all
                } else {
                    proof {
                        assert(rounds * k <= all) by (nonlinear_arith)
                            requires
                                k >= 1,
                                0 <= rounds <= all as int / (k as int),
                                all >= 0,
                        ;
                    }
                    rounds * k
                };
                let none: Vec<bool> = Vec::new();
                assert(none@ =~= Seq::<bool>::empty());
                self.sum_trees(data, none.as_slice(), n, calc)
            },
        }
    }

    /// The margins of all rounds.
    pub fn predict_margin<F: Fn(Op, u64, u64) -> u64>(&self, data: &DMatrix, calc: &Calc<F>) -> (r:
        Vec<Single>)
        requires
            self.well_formed(),
            self.applies_to(data),
        ensures
            r@ == self.margins(data, 0, calc),
            r.len() == data.height() * self.outputs(),
    {
        self.predict_margin_limited(data, 0, calc)
    }

    /// The margins of a linear model.
    fn sum_features<F: Fn(Op, u64, u64) -> u64>(
        &self,
        l: &LinearModel,
        data: &DMatrix,
        calc: &Calc<F>,
    ) -> (r: Vec<Single>)
        requires
            self.well_formed(),
            self.applies_to(data),
            self.linear_part() == Some(*l),
        ensures
            r@ == linear_margins(l, data, self.base(), self.outputs(), self.width(), calc),
            r.len() == data.height() * self.outputs(),
    {
        let k: usize = self.n_outputs();
        let n: usize = data.n_rows();
        let width: usize = self.n_features;
        proof {
            data.shape();
            rows_fit_within(0, data.height(), k as int);
        }
        let start = init_margin(data, self.base_score, k);
        let mut out: Vec<Single> = Vec::new();
        let mut j: usize = 0;
        while j < start.len()
            invariant
                data.well_formed(),
                data.readable(),
                k >= 1,
                n == data.height(),
                width == self.width(),
                width <= data.width(),
                width <= u32::MAX,
                start@ == start_margins(data, self.base(), k as int),
                start.len() == n * k,
                l.biases().len() == k,
                l.weights.len() == width * k,
                j <= start.len(),
                out.len() == j,
                forall|i: int|
                    0 <= i < j ==> #[trigger] out[i] == linear_margins(
                        l,
                        data,
                        self.base(),
                        k as int,
                        width as int,
                        calc,
                    )[i],
            decreases start.len() - j,
        {
            proof {
                place_entry(n as int, k as int, j as int);
            }
            let row: usize = j / k;
            let c: usize = j % k;
            let from = calc.add_s(start[j], l.bias[c]);
            let mut acc = from;
            let mut f: usize = 0;
            assert(data.readable_row(row as int));
            while f < width
                invariant
                    data.well_formed(),
                    data.readable_row(row as int),
                    row < data.height(),
                    c < k,
                    width <= data.width(),
                    width <= u32::MAX,
                    l.weights.len() == width * k,
                    f <= width,
                    acc == dot(
                        l.coefficients(),
                        data,
                        row as int,
                        c as int,
                        k as int,
                        from,
                        f as int,
                        calc,
                    ),
                decreases width - f,
            {
                proof {
                    entry_place(width as int, k as int, f as int, c as int);
                }
                if let Some(x) = data.get(row, f) {
                    acc = calc.add_s(acc, calc.mul_s(x, l.weights[f * k + c]));
                }
                f = f + 1;
            }
            out.push(acc);
            j = j + 1;
        }
        assert(out@ =~= linear_margins(
            l,
            data,
            self.base(),
            self.outputs(),
            self.width(),
            calc,
        ));
        out
    }

    /// Whether the class itself is predicted rather than what the objective
    /// makes of the margins.
    pub open spec fn reports_classes(&self) -> bool {
        self.objective_name() == "multi:softmax"@ && self.classes() >= 2
    }

    /// The reported predictions: under `multi:softmax` the class with the
    /// greatest margin, one number per row, else what the objective makes of
    /// the margins.
    pub open spec fn predictions<F: Fn(Op, u64, u64) -> u64>(
        &self,
        data: &DMatrix,
        calc: &Calc<F>,
    ) -> Seq<Single> {
        let k = self.outputs();
        let m = self.margins(data, 0, calc);
        if self.reports_classes() {
            Seq::new(
                data.height() as nat,
                |i: int| calc.narrowed(calc.of(top_class(m, i * k, k))),
            )
        } else {
            reported(self.objective_name(), self.classes(), m, calc)
        }
    }

    /// The reported predictions: under `multi:softmax` the class of every row,
    /// else what the objective makes of the margins. A dataset with fewer
    /// features than the model is refused.
    pub fn predict<F: Fn(Op, u64, u64) -> u64>(&self, data: &DMatrix, calc: &Calc<F>) -> (r: Result<
        Vec<Single>,
        SequoiaError,
    >)
        requires
            self.well_formed(),
            data.well_formed(),
            data.readable(),
            data.height() * self.outputs() <= usize::MAX,
            self.linear_part() is Some ==> self.width() <= u32::MAX,
        ensures
            match r {
                Ok(p) => {
                    &&& self.width() <= data.width()
                    &&& p@ == self.predictions(data, calc)
                    &&& p.len() == if self.reports_classes() {
                        data.height()
                    } else {
                        data.height() * self.outputs()
                    }
                },
                Err(e) => self.width() > data.width() && e == too_few_features(self, data),
            },
    {
        if data.n_cols() < self.n_features {
            return Err(
                SequoiaError::DimensionMismatch {
                    what: "features",
                    expected: self.n_features,
                    got: data.n_cols(),
                },
            );
        }
        let mut m = self.predict_margin(data, calc);
        if self.num_class < 2 || !same_text(self.objective.as_str(), "multi:softmax") {
            report(self.objective.as_str(), self.num_class, &mut m, calc);
            return Ok(m);
        }
        let k: usize = self.n_outputs();
        let n: usize = data.n_rows();
        let mut out: Vec<Single> = Vec::new();
        let mut row: usize = 0;
        while row < n
            invariant
                self.reports_classes(),
                k == self.outputs(),
                k >= 1,
                n == data.height(),
                m.len() == n * k,
                m@ == self.margins(data, 0, calc),
                row <= n,
                out.len() == row,
                forall|i: int|
                    0 <= i < row ==> #[trigger] out[i] == self.predictions(data, calc)[i],
            decreases n - row,
        {
            proof {
                entry_place(n as int, k as int, row as int, k - 1);
            }
            let c: usize = top(m.as_slice(), row * k, k);
            out.push(calc.narrow(calc.of_usize(c)));
            row = row + 1;
        }
        assert(out@ =~= self.predictions(data, calc));
        Ok(out)
    }

    /// The leaf that every row reaches in every tree, row after row. A dataset
    /// with fewer features than the model is refused.
    pub fn predict_leaf(&self, data: &DMatrix) -> (r: Result<Vec<usize>, SequoiaError>)
        requires
            self.well_formed(),
            data.well_formed(),
            data.readable(),
            data.height() * self.tree_list().len() <= usize::MAX,
        ensures
            match r {
                Ok(leaves) => {
                    &&& self.width() <= data.width()
                    &&& leaves@ == leaves_of(self, data)
                },
                Err(e) => self.width() > data.width() && e == too_few_features(self, data),
            },
    {
        if data.n_cols() < self.n_features {
            return Err(
                SequoiaError::DimensionMismatch {
                    what: "features",
                    expected: self.n_features,
                    got: data.n_cols(),
                },
            );
        }
        let n: usize = data.n_rows();
        let k: usize = self.trees.len();
        let mut out: Vec<usize> = Vec::new();
        let mut row: usize = 0;
        proof {
            assert(0 * k == 0) by (nonlinear_arith);
        }
        while row < n
            invariant
                self.well_formed(),
                data.well_formed(),
                data.readable(),
                self.width() <= data.width(),
                n == data.height(),
                k == self.trees.len(),
                n * k <= usize::MAX,
                row <= n,
                out.len() == row * k,
                forall|j: int|
                    0 <= j < out.len() ==> #[trigger] out[j] == leaves_of(self, data)[j],
            decreases n - row,
        {
            let ghost from = out.len();
            let mut t: usize = 0;
            while t < k
                invariant
                    self.well_formed(),
                    data.well_formed(),
                    data.readable(),
                    self.width() <= data.width(),
                    n == data.height(),
                    k == self.trees.len(),
                    row < n,
                    from == row * k,
                    t <= k,
                    out.len() == from + t,
                    forall|j: int|
                        0 <= j < out.len() ==> #[trigger] out[j] == leaves_of(self, data)[j],
                decreases k - t,
            {
                proof {
                    entry_place(n as int, k as int, row as int, t as int);
                    assert(walkable(&self.tree_list()[t as int], self.width()));
                }
                let leaf: usize = self.trees[t].leaf_of_row(data, row);
                out.push(leaf);
                t = t + 1;
            }
            proof {
                assert((row + 1) * k == row * k + k) by (nonlinear_arith);
            }
            row = row + 1;
        }
        assert(out@ =~= leaves_of(self, data));
        Ok(out)
    }

    /// The predicted classes: of several outputs the one with the greatest
    /// margin, else whether the prediction exceeds one half.
    pub fn predict_class<F: Fn(Op, u64, u64) -> u64>(
        &self,
        data: &DMatrix,
        calc: &Calc<F>,
    ) -> (r: Result<Vec<u32>, SequoiaError>)
        requires
            self.well_formed(),
            data.well_formed(),
            data.readable(),
            data.height() * self.outputs() <= usize::MAX,
            self.outputs() <= u32::MAX,
            self.linear_part() is Some ==> self.width() <= u32::MAX,
        ensures
            match r {
                Ok(c) => self.width() <= data.width() && c@ == classes_of(self, data, calc),
                Err(e) => self.width() > data.width() && e == too_few_features(self, data),
            },
    {
        let preds = match self.predict(data, calc) {
            Ok(p) => p,
            Err(e) => {
                return Err(e);
            },
        };
        let k: usize = self.n_outputs();
        let n: usize = data.n_rows();
        let mut out: Vec<u32> = Vec::new();
        let mut row: usize = 0;
        if k > 1 {
            let m = self.predict_margin(data, calc);
            while row < n
                invariant
                    k > 1,
                    k == self.outputs(),
                    k <= u32::MAX,
                    n == data.height(),
                    m.len() == n * k,
                    m@ == self.margins(data, 0, calc),
                    row <= n,
                    out.len() == row,
                    forall|i: int|
                        0 <= i < row ==> #[trigger] out[i] == classes_of(self, data, calc)[i],
                decreases n - row,
            {
                proof {
                    entry_place(n as int, k as int, row as int, k - 1);
                }
                let c: usize = top(m.as_slice(), row * k, k);
                out.push(c as u32);
                row = row + 1;
            }
        } else {
            let half = Single { bits: HALF_S };
            proof {
                softmax_has_its_classes(self.num_class);
            }
            while row < n
                invariant
                    k == 1,
                    k == self.outputs(),
                    n == data.height(),
                    half == (Single { bits: HALF_S }),
                    preds.len() == n * k,
                    preds@ == reported(
                        self.objective_name(),
                        self.classes(),
                        self.margins(data, 0, calc),
                        calc,
                    ),
                    row <= n,
                    out.len() == row,
                    forall|i: int|
                        0 <= i < row ==> #[trigger] out[i] == classes_of(self, data, calc)[i],
                decreases n - row,
            {
                out.push(
                    if half.is_lt(preds[row]) {
                        1
                    } else {
                        0
                    },
                );
                row = row + 1;
            }
        }
        assert(out@ =~= classes_of(self, data, calc));
        Ok(out)
    }

    /// The scores of the features that any tree splits on.
    pub fn feature_importance<F: Fn(Op, u64, u64) -> u64>(
        &self,
        kind: ImportanceType,
        calc: &Calc<F>,
    ) -> (r: Vec<(u32, Wide)>)
        requires
            self.width() <= u32::MAX,
        ensures
            r@ == importances(self.tree_list(), kind, self.width(), calc),
    {
        let n: usize = self.n_features;
        let mut out: Vec<(u32, Wide)> = Vec::new();
        let mut f: usize = 0;
        while f < n
            invariant
                n == self.width(),
                n <= u32::MAX,
                f <= n,
                out@ == importances(self.tree_list(), kind, f as int, calc),
            decreases n - f,
        {
            let s = self.splits_of(f as u32, calc);
            if s.any {
                let score = match kind {
                    ImportanceType::Weight => s.count,
                    ImportanceType::Gain => calc.div(s.gain, s.count),
                    ImportanceType::Cover => calc.div(s.cover, s.count),
                    ImportanceType::TotalGain => s.gain,
                    ImportanceType::TotalCover => s.cover,
                };
                out.push((f as u32, score));
            }
            f = f + 1;
        }
        out
    }

    fn splits_of<F: Fn(Op, u64, u64) -> u64>(&self, f: u32, calc: &Calc<F>) -> (r: Splits)
        ensures
            r == splits_in_trees(self.tree_list(), f, self.tree_list().len() as int, calc),
    {
        let mut s = Splits {
            any: false,
            count: Wide::zero(),
            gain: Wide::zero(),
            cover: Wide::zero(),
        };
        let mut t: usize = 0;
        while t < self.trees.len()
            invariant
                t <= self.trees.len(),
                s == splits_in_trees(self.tree_list(), f, t as int, calc),
            decreases self.trees.len() - t,
        {
            let nodes = self.trees[t].nodes();
            let ghost before = s;
            let mut i: usize = 0;
            while i < nodes.len()
                invariant
                    i <= nodes.len(),
                    s == splits_in_nodes(before, nodes@, f, i as int, calc),
                decreases nodes.len() - i,
            {
                let node = &nodes[i];
                if !node.is_leaf() && node.split_feature == f {
                    s = Splits {
                        any: true,
                        count: calc.add(s.count, Wide { bits: ONE }),
                        gain: calc.add(s.gain, calc.widen(node.split_gain)),
                        cover: calc.add(s.cover, calc.widen(node.sum_hess)),
                    };
                }
                i = i + 1;
            }
            t = t + 1;
        }
        s
    }
}

/// The error for a dataset with fewer features than the model.
pub open spec fn too_few_features(model: &BoostedModel, data: &DMatrix) -> SequoiaError {
    SequoiaError::DimensionMismatch {
        what: "features",
        expected: model.width() as usize,
        got: data.width() as usize,
    }
}

/// The predicted class of every row.
pub open spec fn classes_of<F: Fn(Op, u64, u64) -> u64>(
    model: &BoostedModel,
    data: &DMatrix,
    calc: &Calc<F>,
) -> Seq<u32> {
    let k = model.outputs();
    let m = model.margins(data, 0, calc);
    let p = reported(model.objective_name(), model.classes(), m, calc);
    Seq::new(
        data.height() as nat,
        |i: int|
            if k > 1 {
                top_class(m, i * k, k) as u32
            } else if (Single { bits: HALF_S }).lt(p[i]) {
                1
            } else {
                0
            },
    )
}

/// The number of outputs per instance under an objective's name.
pub fn output_count(name: &str, num_class: usize) -> (r: usize)
    ensures
        r == outputs_named(name@, num_class),
        r >= 1,
{
    let classes: usize = if num_class < 2 { 1 } else { num_class };
    let known = same_text(name, "reg:squarederror") || same_text(name, "reg:linear") || same_text(
        name,
        "reg:pseudohubererror",
    ) || same_text(name, "binary:logistic") || same_text(name, "reg:logistic");
    if known {
        return 1;
    }
    if same_text(name, "multi:softmax") || same_text(name, "multi:softprob") {
        return classes;
    }
    let known = same_text(name, "count:poisson") || same_text(name, "reg:gamma") || same_text(
        name,
        "reg:tweedie",
    ) || same_text(name, "rank:pairwise") || same_text(name, "rank:ndcg") || same_text(
        name,
        "rank:map",
    );
    if known {
        1
    } else {
        classes
    }
}

} // verus!
