//! Boosters other than trees.

pub mod descent_laws;
pub mod margin_laws;
pub mod gblinear;
pub mod laws;
