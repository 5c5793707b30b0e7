//! Aggregation of hyperparameter-optimization records into best-so-far
//! curves and parameter-importance rankings.

pub mod convert;
pub mod curve;
pub mod importance;
pub mod io;
pub mod keys;
pub mod plot;
pub mod record;
pub mod series;
pub mod subsets;
pub mod utils;
