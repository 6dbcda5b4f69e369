//! Models as documents that other tools read and write.

pub mod json;
pub mod laws;
pub mod link_laws;
pub mod native;
pub mod native_json;
pub mod native_laws;
pub mod text_laws;
pub mod xgboost_json;

pub use xgboost_json::{export_xgboost_json, import_xgboost_json};
