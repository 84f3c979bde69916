//! Compression and decompression for datasets.

use vstd::prelude::*;
use crate::codec_data::CodecData;
use crate::dataset::Dataset;
use crate::error::ClamError;
use crate::metric::Codec;
use crate::row_major::RowMajor;

verus! {

/// A dataset that also allows for compression and decompression.
///
/// Instances in a `CompressibleDataset` can be encoded in terms of each other to produce
/// compressed encodings represented as bytes. Those bytes can also be used to decode an
/// encoded instance by using the reference.
pub trait CompressibleDataset<T, M: Codec<T>>: Dataset<T, M> {
    /// Gets a reference as a regular dataset.
    fn as_dataset(&self) -> (d: &Self)
        ensures
            d == self,
    {
        self
    }

    /// Encodes the instance at index `y` in terms of the instance at index `x`.
    fn encode(&self, x: usize, y: usize) -> (r: Result<Vec<u8>, ClamError>)
        requires
            self.wf(),
            x < self.instances().len(),
            y < self.instances().len(),
        ensures
            match r {
                Ok(bytes) => {
                    &&& self.spec_metric().encodable(
                        self.instances()[x as int],
                        self.instances()[y as int],
                    )
                    &&& bytes@ == self.spec_metric().encoded(
                        self.instances()[x as int],
                        self.instances()[y as int],
                    )
                },
                Err(e) => {
                    &&& !self.spec_metric().encodable(
                        self.instances()[x as int],
                        self.instances()[y as int],
                    )
                    &&& e == ClamError::NotEncodable
                },
            },
    {
        proof {
            self.lemma_metric_valid();
        }
        let reference: Vec<T> = self.instance(x);
        let target: Vec<T> = self.instance(y);
        self.metric().encode(&reference, &target)
    }

    /// Decodes an instance from the encoded bytes and the reference at index `x`.
    fn decode(&self, x: usize, y: &Vec<u8>) -> (r: Result<Vec<T>, ClamError>)
        requires
            self.wf(),
            x < self.instances().len(),
        ensures
            match r {
                Ok(v) => self.spec_metric().decoded(self.instances()[x as int], y@) == Some(v@),
                Err(e) => {
                    &&& self.spec_metric().decoded(self.instances()[x as int], y@) is None
                    &&& e == ClamError::CorruptEncoding
                },
            },
    {
        proof {
            self.lemma_metric_valid();
        }
        let reference: Vec<T> = self.instance(x);
        self.metric().decode(&reference, y)
    }
}

impl<T: Copy, M: Codec<T>> CompressibleDataset<T, M> for RowMajor<T, M> {

}

impl<T: Copy, M: Codec<T>> CompressibleDataset<T, M> for CodecData<T, M> {

}

/// What a dataset encodes, it decodes: for any two instances of which the second can be
/// encoded against the first, decoding the encoding against the first gives the second.
pub proof fn lemma_dataset_round_trip<T, M: Codec<T>, D: CompressibleDataset<T, M>>(
    data: D,
    x: int,
    y: int,
)
    requires
        data.wf(),
        0 <= x < data.instances().len(),
        0 <= y < data.instances().len(),
        data.spec_metric().encodable(data.instances()[x], data.instances()[y]),
    ensures
        data.spec_metric().decoded(
            data.instances()[x],
            data.spec_metric().encoded(data.instances()[x], data.instances()[y]),
        ) == Some(data.instances()[y]),
{
    data.lemma_metric_valid();
    data.spec_metric().law_round_trip(data.instances()[x], data.instances()[y]);
}

} // verus!
