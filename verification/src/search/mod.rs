//! Selecting and ranking candidates.
pub mod topk;
pub mod topk_laws;

pub use crate::format::catalog::Metric;
