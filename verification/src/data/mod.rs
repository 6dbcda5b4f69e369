//! Dataset containers and metadata.

pub mod meta;
pub mod dmatrix;
pub mod laws;
pub mod loader_laws;
pub mod loaders;
pub mod quantile;
pub mod quantile_laws;
pub mod ghist;

pub use dmatrix::{CscView, DMatrix, Entry};
pub use ghist::GHistIndex;
pub use loaders::{read_csv, read_libsvm, CsvOptions};
pub use meta::{FeatureType, GroupInfo};
pub use quantile::HistCuts;
