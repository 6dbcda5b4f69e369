//! Gradient boosting: datasets, binning, trees and the rules that grow them,
//! the training loop, and the models that come of it.
//!
//! Numbers are held as the bit patterns of IEEE 754 values. Everything that
//! depends only on those patterns (order, classes of values, conversions to
//! integers) is worked out here; arithmetic is a function that the caller
//! supplies, and every result is stated over it.

pub mod arith;
pub mod booster;
pub mod config;
pub mod config_laws;
pub mod data;
pub mod error;
pub mod exact;
pub mod exponential;
pub mod layout;
pub mod learner;
pub mod metric;
pub mod model;
pub mod number;
pub mod objective;
pub mod random;
pub mod sort;
pub mod text;
pub mod tree;

pub use config::{
    BoosterKind, GrowPolicy, Monotone, TrainingParams, TrainingParamsBuilder, TreeMethod,
};
pub use data::{DMatrix, FeatureType};
pub use error::SequoiaError;
pub use learner::{
    cv, train, train_with_custom_metric, train_with_eval, train_with_objective, BoostedModel,
    CvResult, ImportanceType, TrainResult,
};
pub use metric::{CustomMetric, Metric};
pub use objective::{CustomObjective, GradPair, Objective};
pub use tree::{Node, RegTree};
