//! Evaluation metrics, used for reporting and early stopping.
//!
//! Metrics see predictions after the objective's transform, so those for
//! classification see probabilities.

pub mod auc;
pub mod aucpr;
pub mod base;
pub mod create;
pub mod custom;
pub mod laws;
pub mod loss_laws;
pub mod area_laws;
pub mod mean;
pub mod order_laws;
pub mod rank;

pub use auc::Auc;
pub use aucpr::AucPr;
pub use base::{Metric, MetricInfo};
pub use create::{create_metric, create_metrics, AnyMetric};
pub use custom::CustomMetric;
pub use mean::{
    ErrorRate, GammaNLogLik, LogLoss, MError, MLogLoss, Mae, PoissonNLogLik, Rmse, TweedieNLogLik,
};
pub use rank::{AveragePrecision, Ndcg};
