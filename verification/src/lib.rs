//! Similarity search over metric spaces: a partition tree of clusters, range and
//! nearest-neighbour search that prune with the triangle inequality, and a compressed
//! form of tree and dataset that is searched without being unpacked.

pub mod best;
pub mod cluster;
pub mod codec;
pub mod codec_data;
pub mod counting;
pub mod dataset;
pub mod error;
pub mod fn_codec;
pub mod fn_metric;
pub mod group;
pub mod hamming;
pub mod hamming_codec;
pub mod knn;
pub mod metric;
pub mod partition;
pub mod prelude;
pub mod rnn;
pub mod row_major;
pub mod sampling;
pub mod search;
pub mod squishy;
pub mod validate;

pub use crate::cluster::{Ball, Cluster};
pub use crate::codec::CompressibleDataset;
pub use crate::codec_data::CodecData;
pub use crate::counting::CountingMetric;
pub use crate::dataset::Dataset;
pub use crate::error::{ClamError, ErrorKind};
pub use crate::fn_codec::FnCodec;
pub use crate::fn_metric::{FnMetric, Properties};
pub use crate::group::Group;
pub use crate::hamming::Hamming;
pub use crate::metric::{Codec, Metric};
pub use crate::row_major::RowMajor;
pub use crate::search::Algorithm;
pub use crate::squishy::SquishyBall;
