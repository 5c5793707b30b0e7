//! What the analyses share.

use vstd::prelude::*;

pub use crate::keys::build_id_mapping;

verus! {

/// A mean with its standard deviation.
#[derive(Clone, Copy, Debug)]
pub struct MeanAndStddev<T> {
    pub mean: T,
    pub stddev: T,
}

} // verus!
