//! Learning objectives: gradients, prediction transforms and base scores.
//!
//! Boosting works in margin space, where scores add up; an objective's
//! transform maps margins to the reported prediction.

pub mod base;
pub mod classification;
pub mod count;
pub mod create;
pub mod custom;
pub mod laws;
pub mod loss_laws;
pub mod multiclass;
pub mod pair;
pub mod probability_laws;
pub mod pull_laws;
pub mod rank_laws;
pub mod precision_laws;
pub mod ranking;
pub mod regression;

pub use base::{Objective, ObjectiveInfo};
pub use classification::LogisticObjective;
pub use count::{GammaObjective, PoissonObjective, TweedieObjective};
pub use create::{create_objective, AnyObjective};
pub use custom::CustomObjective;
pub use multiclass::SoftmaxObjective;
pub use pair::GradPair;
pub use ranking::LambdaMartObjective;
pub use regression::{PseudoHuberObjective, SquaredErrorObjective};
