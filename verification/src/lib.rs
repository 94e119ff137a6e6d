//! Training core for recursive model indexes: a sorted training-data
//! container, an error-bounded piecewise-linear model with exact rational
//! arithmetic, a layer-by-layer trainer, a Pareto-frontier optimizer over
//! training configurations, and the metadata types of a trained index.
use vstd::prelude::*;

pub mod data;
pub mod rat;
pub mod pla;
pub mod laws;
pub mod models;
pub mod train;
pub mod optimizer;
pub mod manifest;

verus! {

} // verus!
