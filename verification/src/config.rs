//! Training configuration.

use vstd::prelude::*;

use crate::error::SequoiaError;
use crate::number::{Wide, ONE};

verus! {

/// The direction in which a prediction may depend on a feature.
#[derive(Clone, Copy, Debug, PartialEq, Eq, Structural)]
pub enum Monotone {
    /// Any.
    Unconstrained,
    /// The prediction never falls when the feature rises.
    Increasing,
    /// The prediction never rises when the feature rises.
    Decreasing,
}

/// Which node is split next.
#[derive(Clone, Copy, Debug, PartialEq, Eq, Structural)]
pub enum GrowPolicy {
    /// Level by level.
    DepthWise,
    /// The node with the greatest loss reduction first.
    LossGuide,
}

/// How splits are found.
#[derive(Clone, Copy, Debug, PartialEq, Eq, Structural)]
pub enum TreeMethod {
    /// Chosen by the library.
    Auto,
    /// Every boundary between two values.
    Exact,
    /// Boundaries between bins, with the bins chosen anew in each round.
    Approx,
    /// Boundaries between bins.
    Hist,
}

/// What a round adds to the model.
#[derive(Clone, Copy, Debug, PartialEq, Eq, Structural)]
pub enum BoosterKind {
    /// Trees.
    GbTree,
    /// A linear model.
    GbLinear,
    /// Trees, with earlier trees dropped at random.
    Dart,
}

/// The parameters of training.
#[derive(Clone, Debug)]
pub struct TrainingParams {
    /// Objective name.
    pub objective: String,
    /// Number of classes of a multiclass objective.
    pub num_class: usize,
    /// What a round adds to the model.
    pub booster: BoosterKind,
    /// How splits are found.
    pub tree_method: TreeMethod,
    /// Which node is split next.
    pub grow_policy: GrowPolicy,
    /// Greatest depth of a tree; zero for no limit.
    pub max_depth: usize,
    /// Greatest number of leaves of a tree grown by loss; zero for no limit.
    pub max_leaves: usize,
    /// Greatest number of bins per feature.
    pub max_bin: usize,
    /// Learning rate.
    pub eta: Wide,
    /// Loss reduction that a split must exceed.
    pub gamma: Wide,
    /// L2 regularization.
    pub lambda: Wide,
    /// L1 regularization.
    pub alpha: Wide,
    /// Least sum of Hessians in a child.
    pub min_child_weight: Wide,
    /// Greatest leaf weight; zero for no limit.
    pub max_delta_step: Wide,
    /// Share of rows per tree.
    pub subsample: Wide,
    /// Share of features per tree.
    pub colsample_bytree: Wide,
    /// Share of a tree's features per level.
    pub colsample_bylevel: Wide,
    /// Share of a level's features per node.
    pub colsample_bynode: Wide,
    /// Weight of positive instances.
    pub scale_pos_weight: Wide,
    /// Prediction to start from, if given.
    pub base_score: Option<Wide>,
    /// Metrics to report; none for the objective's own.
    pub eval_metric: Vec<String>,
    /// Direction per feature; none for no constraints.
    pub monotone_constraints: Vec<Monotone>,
    /// Groups of features that may interact; none for no constraints.
    pub interaction_constraints: Vec<Vec<u32>>,
    /// Seed of all sampling.
    pub seed: u64,
    /// Chance that a tree is dropped in a round.
    pub rate_drop: Wide,
    /// Chance that a round drops no tree.
    pub skip_drop: Wide,
}

/// The bit pattern of the learning rate where none is given, `0.3`.
pub const DEFAULT_ETA: u64 = 0x3fd3_3333_3333_3333;

/// Whether parameters are those that hold where nothing is set.
pub open spec fn is_default(p: TrainingParams) -> bool {
    let zero = Wide { bits: 0 };
    let one = Wide { bits: ONE };
    &&& p.objective@ == "reg:squarederror"@
    &&& p.num_class == 0
    &&& p.booster == BoosterKind::GbTree
    &&& p.tree_method == TreeMethod::Auto
    &&& p.grow_policy == GrowPolicy::DepthWise
    &&& p.max_depth == 6
    &&& p.max_leaves == 0
    &&& p.max_bin == 256
    &&& p.eta == (Wide { bits: DEFAULT_ETA })
    &&& p.gamma == zero
    &&& p.lambda == one
    &&& p.alpha == zero
    &&& p.min_child_weight == one
    &&& p.max_delta_step == zero
    &&& p.subsample == one
    &&& p.colsample_bytree == one
    &&& p.colsample_bylevel == one
    &&& p.colsample_bynode == one
    &&& p.scale_pos_weight == one
    &&& p.base_score is None
    &&& p.eval_metric@ == Seq::<String>::empty()
    &&& p.monotone_constraints@ == Seq::<Monotone>::empty()
    &&& p.interaction_constraints@ == Seq::<Vec<u32>>::empty()
    &&& p.seed == 0
    &&& p.rate_drop == zero
    &&& p.skip_drop == zero
}

impl Default for TrainingParams {
    fn default() -> (r: Self)
        ensures
            is_default(r),
    {
        let zero = Wide::zero();
        let one = Wide { bits: ONE };
        TrainingParams {
            objective: "reg:squarederror".to_owned(),
            num_class: 0,
            booster: BoosterKind::GbTree,
            tree_method: TreeMethod::Auto,
            grow_policy: GrowPolicy::DepthWise,
            max_depth: 6,
            max_leaves: 0,
            max_bin: 256,
            eta: Wide { bits: DEFAULT_ETA },
            gamma: zero,
            lambda: one,
            alpha: zero,
            min_child_weight: one,
            max_delta_step: zero,
            subsample: one,
            colsample_bytree: one,
            colsample_bylevel: one,
            colsample_bynode: one,
            scale_pos_weight: one,
            base_score: None,
            eval_metric: Vec::new(),
            monotone_constraints: Vec::new(),
            interaction_constraints: Vec::new(),
            seed: 0,
            rate_drop: zero,
            skip_drop: zero,
        }
    }
}

/// Whether a number is above zero.
pub open spec fn above_zero(x: Wide) -> bool {
    (Wide { bits: 0 }).lt(x)
}

/// Whether a number is not below zero.
pub open spec fn from_zero(x: Wide) -> bool {
    (Wide { bits: 0 }).le(x)
}

/// Whether a number is a share that takes something.
pub open spec fn share(x: Wide) -> bool {
    above_zero(x) && x.le(Wide { bits: ONE })
}

/// Whether a number is a chance.
pub open spec fn chance(x: Wide) -> bool {
    from_zero(x) && x.le(Wide { bits: ONE })
}

/// The first parameter outside its range, and why.
pub open spec fn complaint(p: TrainingParams) -> Option<(Seq<char>, Seq<char>)> {
    if !above_zero(p.eta) {
        Some(("eta"@, "must be > 0"@))
    } else if !from_zero(p.gamma) {
        Some(("gamma"@, "must be >= 0"@))
    } else if !from_zero(p.lambda) {
        Some(("lambda"@, "must be >= 0"@))
    } else if !from_zero(p.alpha) {
        Some(("alpha"@, "must be >= 0"@))
    } else if !from_zero(p.min_child_weight) {
        Some(("min_child_weight"@, "must be >= 0"@))
    } else if !from_zero(p.max_delta_step) {
        Some(("max_delta_step"@, "must be >= 0"@))
    } else if !share(p.subsample) {
        Some(("subsample"@, "must be in (0, 1]"@))
    } else if !share(p.colsample_bytree) {
        Some(("colsample_bytree"@, "must be in (0, 1]"@))
    } else if !share(p.colsample_bylevel) {
        Some(("colsample_bylevel"@, "must be in (0, 1]"@))
    } else if !share(p.colsample_bynode) {
        Some(("colsample_bynode"@, "must be in (0, 1]"@))
    } else if !chance(p.rate_drop) {
        Some(("rate_drop"@, "must be in [0, 1]"@))
    } else if !chance(p.skip_drop) {
        Some(("skip_drop"@, "must be in [0, 1]"@))
    } else if p.max_bin < 2 {
        Some(("max_bin"@, "must be >= 2"@))
    } else {
        None
    }
}

impl TrainingParams {
    /// A builder that starts from the defaults.
    pub fn builder() -> (r: TrainingParamsBuilder)
        ensures
            is_default(r.chosen()),
    {
        TrainingParamsBuilder { params: TrainingParams::default() }
    }

    /// Whether every parameter lies within its range; the first that does not
    /// is named.
    pub fn validate(&self) -> (r: Result<(), SequoiaError>)
        ensures
            match r {
                Ok(_) => complaint(*self) is None,
                Err(e) => {
                    &&& complaint(*self) matches Some((n, why))
                    &&& e matches SequoiaError::InvalidParameter { name, reason }
                    &&& name@ == n
                    &&& reason@ == why
                },
            },
    {
        let zero = Wide::zero();
        let one = Wide { bits: ONE };
        if !zero.is_lt(self.eta) {
            return Err(SequoiaError::invalid_param("eta", "must be > 0".to_owned()));
        }
        if !zero.is_le(self.gamma) {
            return Err(SequoiaError::invalid_param("gamma", "must be >= 0".to_owned()));
        }
        if !zero.is_le(self.lambda) {
            return Err(SequoiaError::invalid_param("lambda", "must be >= 0".to_owned()));
        }
        if !zero.is_le(self.alpha) {
            return Err(SequoiaError::invalid_param("alpha", "must be >= 0".to_owned()));
        }
        if !zero.is_le(self.min_child_weight) {
            return Err(SequoiaError::invalid_param("min_child_weight", "must be >= 0".to_owned()));
        }
        if !zero.is_le(self.max_delta_step) {
            return Err(SequoiaError::invalid_param("max_delta_step", "must be >= 0".to_owned()));
        }
        if !(zero.is_lt(self.subsample) && self.subsample.is_le(one)) {
            return Err(SequoiaError::invalid_param("subsample", "must be in (0, 1]".to_owned()));
        }
        if !(zero.is_lt(self.colsample_bytree) && self.colsample_bytree.is_le(one)) {
            return Err(SequoiaError::invalid_param("colsample_bytree", "must be in (0, 1]".to_owned()));
        }
        if !(zero.is_lt(self.colsample_bylevel) && self.colsample_bylevel.is_le(one)) {
            return Err(SequoiaError::invalid_param("colsample_bylevel", "must be in (0, 1]".to_owned()));
        }
        if !(zero.is_lt(self.colsample_bynode) && self.colsample_bynode.is_le(one)) {
            return Err(SequoiaError::invalid_param("colsample_bynode", "must be in (0, 1]".to_owned()));
        }
        if !(zero.is_le(self.rate_drop) && self.rate_drop.is_le(one)) {
            return Err(SequoiaError::invalid_param("rate_drop", "must be in [0, 1]".to_owned()));
        }
        if !(zero.is_le(self.skip_drop) && self.skip_drop.is_le(one)) {
            return Err(SequoiaError::invalid_param("skip_drop", "must be in [0, 1]".to_owned()));
        }
        if self.max_bin < 2 {
            return Err(SequoiaError::invalid_param("max_bin", "must be >= 2".to_owned()));
        }
        Ok(())
    }
}

/// Builds training parameters one by one.
#[derive(Clone, Debug)]
pub struct TrainingParamsBuilder {
    params: TrainingParams,
}

impl TrainingParamsBuilder {
    /// What was chosen so far.
    pub closed spec fn chosen(&self) -> TrainingParams {
        self.params
    }

    /// Set the objective's name.
    pub fn objective(self, name: &str) -> (r: Self)
        ensures
            r.chosen().objective@ == name@,
            r.chosen() == (TrainingParams { objective: r.chosen().objective, ..self.chosen() }),
    {
        let mut params = self.params;
        params.objective = name.to_owned();
        TrainingParamsBuilder { params }
    }

    /// Set the number of classes.
    pub fn num_class(self, num_class: usize) -> (r: Self)
        ensures
            r.chosen() == (TrainingParams { num_class, ..self.chosen() }),
    {
        let mut params = self.params;
        params.num_class = num_class;
        TrainingParamsBuilder { params }
    }

    /// Set what a round adds.
    pub fn booster(self, booster: BoosterKind) -> (r: Self)
        ensures
            r.chosen() == (TrainingParams { booster, ..self.chosen() }),
    {
        let mut params = self.params;
        params.booster = booster;
        TrainingParamsBuilder { params }
    }

    /// Set how splits are found.
    pub fn tree_method(self, tree_method: TreeMethod) -> (r: Self)
        ensures
            r.chosen() == (TrainingParams { tree_method, ..self.chosen() }),
    {
        let mut params = self.params;
        params.tree_method = tree_method;
        TrainingParamsBuilder { params }
    }

    /// Set which node is split next.
    pub fn grow_policy(self, grow_policy: GrowPolicy) -> (r: Self)
        ensures
            r.chosen() == (TrainingParams { grow_policy, ..self.chosen() }),
    {
        let mut params = self.params;
        params.grow_policy = grow_policy;
        TrainingParamsBuilder { params }
    }

    /// Set the greatest depth.
    pub fn max_depth(self, max_depth: usize) -> (r: Self)
        ensures
            r.chosen() == (TrainingParams { max_depth, ..self.chosen() }),
    {
        let mut params = self.params;
        params.max_depth = max_depth;
        TrainingParamsBuilder { params }
    }

    /// Set the greatest number of leaves.
    pub fn max_leaves(self, max_leaves: usize) -> (r: Self)
        ensures
            r.chosen() == (TrainingParams { max_leaves, ..self.chosen() }),
    {
        let mut params = self.params;
        params.max_leaves = max_leaves;
        TrainingParamsBuilder { params }
    }

    /// Set the greatest number of bins.
    pub fn max_bin(self, max_bin: usize) -> (r: Self)
        ensures
            r.chosen() == (TrainingParams { max_bin, ..self.chosen() }),
    {
        let mut params = self.params;
        params.max_bin = max_bin;
        TrainingParamsBuilder { params }
    }

    /// Set the learning rate.
    pub fn eta(self, eta: Wide) -> (r: Self)
        ensures
            r.chosen() == (TrainingParams { eta, ..self.chosen() }),
    {
        let mut params = self.params;
        params.eta = eta;
        TrainingParamsBuilder { params }
    }

    /// Set the loss reduction that a split must exceed.
    pub fn gamma(self, gamma: Wide) -> (r: Self)
        ensures
            r.chosen() == (TrainingParams { gamma, ..self.chosen() }),
    {
        let mut params = self.params;
        params.gamma = gamma;
        TrainingParamsBuilder { params }
    }

    /// Set the L2 regularization.
    pub fn lambda(self, lambda: Wide) -> (r: Self)
        ensures
            r.chosen() == (TrainingParams { lambda, ..self.chosen() }),
    {
        let mut params = self.params;
        params.lambda = lambda;
        TrainingParamsBuilder { params }
    }

    /// Set the L1 regularization.
    pub fn alpha(self, alpha: Wide) -> (r: Self)
        ensures
            r.chosen() == (TrainingParams { alpha, ..self.chosen() }),
    {
        let mut params = self.params;
        params.alpha = alpha;
        TrainingParamsBuilder { params }
    }

    /// Set the least sum of Hessians in a child.
    pub fn min_child_weight(self, min_child_weight: Wide) -> (r: Self)
        ensures
            r.chosen() == (TrainingParams { min_child_weight, ..self.chosen() }),
    {
        let mut params = self.params;
        params.min_child_weight = min_child_weight;
        TrainingParamsBuilder { params }
    }

    /// Set the greatest leaf weight.
    pub fn max_delta_step(self, max_delta_step: Wide) -> (r: Self)
        ensures
            r.chosen() == (TrainingParams { max_delta_step, ..self.chosen() }),
    {
        let mut params = self.params;
        params.max_delta_step = max_delta_step;
        TrainingParamsBuilder { params }
    }

    /// Set the share of rows per tree.
    pub fn subsample(self, subsample: Wide) -> (r: Self)
        ensures
            r.chosen() == (TrainingParams { subsample, ..self.chosen() }),
    {
        let mut params = self.params;
        params.subsample = subsample;
        TrainingParamsBuilder { params }
    }

    /// Set the share of features per tree.
    pub fn colsample_bytree(self, colsample_bytree: Wide) -> (r: Self)
        ensures
            r.chosen() == (TrainingParams { colsample_bytree, ..self.chosen() }),
    {
        let mut params = self.params;
        params.colsample_bytree = colsample_bytree;
        TrainingParamsBuilder { params }
    }

    /// Set the share of a tree's features per level.
    pub fn colsample_bylevel(self, colsample_bylevel: Wide) -> (r: Self)
        ensures
            r.chosen() == (TrainingParams { colsample_bylevel, ..self.chosen() }),
    {
        let mut params = self.params;
        params.colsample_bylevel = colsample_bylevel;
        TrainingParamsBuilder { params }
    }

    /// Set the share of a level's features per node.
    pub fn colsample_bynode(self, colsample_bynode: Wide) -> (r: Self)
        ensures
            r.chosen() == (TrainingParams { colsample_bynode, ..self.chosen() }),
    {
        let mut params = self.params;
        params.colsample_bynode = colsample_bynode;
        TrainingParamsBuilder { params }
    }

    /// Set the weight of positive instances.
    pub fn scale_pos_weight(self, scale_pos_weight: Wide) -> (r: Self)
        ensures
            r.chosen() == (TrainingParams { scale_pos_weight, ..self.chosen() }),
    {
        let mut params = self.params;
        params.scale_pos_weight = scale_pos_weight;
        TrainingParamsBuilder { params }
    }

    /// Set the metrics to report.
    pub fn eval_metric(self, eval_metric: Vec<String>) -> (r: Self)
        ensures
            r.chosen() == (TrainingParams { eval_metric, ..self.chosen() }),
    {
        let mut params = self.params;
        params.eval_metric = eval_metric;
        TrainingParamsBuilder { params }
    }

    /// Set the direction per feature.
    pub fn monotone_constraints(self, monotone_constraints: Vec<Monotone>) -> (r: Self)
        ensures
            r.chosen() == (TrainingParams { monotone_constraints, ..self.chosen() }),
    {
        let mut params = self.params;
        params.monotone_constraints = monotone_constraints;
        TrainingParamsBuilder { params }
    }

    /// Set the groups of features that may interact.
    pub fn interaction_constraints(self, interaction_constraints: Vec<Vec<u32>>) -> (r: Self)
        ensures
            r.chosen() == (TrainingParams { interaction_constraints, ..self.chosen() }),
    {
        let mut params = self.params;
        params.interaction_constraints = interaction_constraints;
        TrainingParamsBuilder { params }
    }

    /// Set the seed of all sampling.
    pub fn seed(self, seed: u64) -> (r: Self)
        ensures
            r.chosen() == (TrainingParams { seed, ..self.chosen() }),
    {
        let mut params = self.params;
        params.seed = seed;
        TrainingParamsBuilder { params }
    }

    /// Set the chance that a tree is dropped.
    pub fn rate_drop(self, rate_drop: Wide) -> (r: Self)
        ensures
            r.chosen() == (TrainingParams { rate_drop, ..self.chosen() }),
    {
        let mut params = self.params;
        params.rate_drop = rate_drop;
        TrainingParamsBuilder { params }
    }

    /// Set the chance that a round drops no tree.
    pub fn skip_drop(self, skip_drop: Wide) -> (r: Self)
        ensures
            r.chosen() == (TrainingParams { skip_drop, ..self.chosen() }),
    {
        let mut params = self.params;
        params.skip_drop = skip_drop;
        TrainingParamsBuilder { params }
    }

    /// Set the prediction to start from.
    pub fn base_score(self, base_score: Wide) -> (r: Self)
        ensures
            r.chosen() == (TrainingParams { base_score: Some(base_score), ..self.chosen() }),
    {
        let mut params = self.params;
        params.base_score = Some(base_score);
        TrainingParamsBuilder { params }
    }

    /// The parameters, whether or not they lie within their ranges.
    pub fn build_unchecked(self) -> (r: TrainingParams)
        ensures
            r == self.chosen(),
    {
        self.params
    }

    /// The parameters, if they lie within their ranges.
    pub fn build(self) -> (r: Result<TrainingParams, SequoiaError>)
        ensures
            match r {
                Ok(p) => p == self.chosen() && complaint(p) is None,
                Err(e) => {
                    &&& complaint(self.chosen()) matches Some((n, why))
                    &&& e matches SequoiaError::InvalidParameter { name, reason }
                    &&& name@ == n
                    &&& reason@ == why
                },
            },
    {
        match self.params.validate() {
            Ok(_) => Ok(self.params),
            Err(e) => Err(e),
        }
    }
}

} // verus!
