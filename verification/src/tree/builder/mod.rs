//! Tree construction.

pub mod covers;
pub mod exact;
pub mod exact_covers;
pub mod exact_sums;
pub mod growth;
pub mod hist;
pub mod hist_covers;
pub mod hist_laws;
pub mod hist_sums;
pub mod interaction_growth;
pub mod laws;
pub mod monotone;
pub mod monotone_growth;
pub mod pick_laws;
pub mod search_laws;
pub mod sums;
pub mod worth;

pub use exact::{ExactTreeBuilder, SortedColumns};
pub use hist::HistTreeBuilder;
pub use crate::tree::sampler::{all_features, all_rows};
