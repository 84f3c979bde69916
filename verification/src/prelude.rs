//! The items that most uses of the library need.

use vstd::prelude::*;

pub use crate::cluster::{Ball, Cluster};
pub use crate::codec::CompressibleDataset;
pub use crate::dataset::Dataset;
pub use crate::metric::{Codec, Metric};
pub use crate::search::Algorithm;

verus! {

/// The index of an instance in a dataset.
pub type Index = usize;

/// A list of indices of instances.
pub type Indices = Vec<Index>;

} // verus!
