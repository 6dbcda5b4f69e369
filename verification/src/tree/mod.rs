//! Decision trees and their construction.

pub mod regtree;
pub mod laws;
pub mod optimum;
pub mod gain_laws;
pub mod constraints;
pub mod gain;
pub mod sampler;
pub mod builder;
pub mod hist;
pub mod interaction;

pub use gain::{calc_gain, calc_weight, GradStats, RegParams};
pub use regtree::{Node, RegTree};
