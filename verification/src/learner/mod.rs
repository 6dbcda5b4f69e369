//! Boosting: the training loop, the trained model, prediction.

pub mod additivity;
pub mod alike;
pub mod alike_hist;
pub mod boost;
pub mod contribs;
pub mod covers;
pub mod cv;
pub mod ensemble_laws;
pub mod exactness;
pub mod flows;
pub mod fold_laws;
pub mod folds;
pub mod interaction;
pub mod interaction_laws;
pub mod laws;
pub mod linear_laws;
pub mod margin;
pub mod model;
pub mod monotone;
pub mod naming_laws;
pub mod orderings;
pub mod prepare;
pub mod sample;
pub mod sample_laws;
pub mod shap;
pub mod shap_laws;
pub mod symmetry;
pub mod train;
pub mod trainable;
pub mod watch;
pub mod worth;

pub use cv::{cv, CvResult};
pub use model::{BoostedModel, ImportanceType};
pub use train::{
    train, train_with_custom_metric, train_with_eval, train_with_objective, TrainResult,
};
pub use watch::{EvalSet, RoundEval};
