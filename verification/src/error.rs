//! The ways in which building, compressing and checking can fail.

use vstd::prelude::*;

verus! {

/// The kind of a failure, which decides what a caller can do about it.
#[derive(Clone, Copy, Debug, PartialEq, Eq, Structural)]
pub enum ErrorKind {
    /// The inputs cannot be built from. Not worth retrying.
    Construction,
    /// Reading or writing failed. May be retried, or the value rebuilt.
    Persistence,
    /// Encoded data could not be turned back into an instance. Not worth retrying.
    Codec,
    /// Searching the compressed form gave other hits than searching the plain form.
    Mismatch,
}

/// A failure of one of the library's operations.
#[derive(Clone, Copy, Debug, PartialEq, Eq, Structural)]
pub enum ClamError {
    /// A cluster was asked for over no indices.
    EmptyIndices,
    /// An index does not belong to the dataset.
    IndexOutOfBounds,
    /// An index occurs twice among the indices of a cluster.
    DuplicateIndex,
    /// The instances of a dataset do not all have the same length.
    RaggedData,
    /// A cluster was asked for at a depth that leaves no room for the levels below it.
    TooDeep,
    /// Stored data could not be read or written.
    Persistence,
    /// An instance cannot be encoded against the reference.
    NotEncodable,
    /// Encoded bytes do not describe an instance.
    CorruptEncoding,
    /// Two searches that should agree gave different hits.
    HitsDiffer,
}

impl ClamError {
    /// The kind of this failure.
    pub open spec fn spec_kind(self) -> ErrorKind {
        match self {
            ClamError::EmptyIndices => ErrorKind::Construction,
            ClamError::IndexOutOfBounds => ErrorKind::Construction,
            ClamError::DuplicateIndex => ErrorKind::Construction,
            ClamError::RaggedData => ErrorKind::Construction,
            ClamError::TooDeep => ErrorKind::Construction,
            ClamError::Persistence => ErrorKind::Persistence,
            ClamError::NotEncodable => ErrorKind::Codec,
            ClamError::CorruptEncoding => ErrorKind::Codec,
            ClamError::HitsDiffer => ErrorKind::Mismatch,
        }
    }

    /// Returns the kind of this failure.
    pub fn kind(&self) -> (k: ErrorKind)
        ensures
            k == self.spec_kind(),
    {
        match self {
            ClamError::EmptyIndices => ErrorKind::Construction,
            ClamError::IndexOutOfBounds => ErrorKind::Construction,
            ClamError::DuplicateIndex => ErrorKind::Construction,
            ClamError::RaggedData => ErrorKind::Construction,
            ClamError::TooDeep => ErrorKind::Construction,
            ClamError::Persistence => ErrorKind::Persistence,
            ClamError::NotEncodable => ErrorKind::Codec,
            ClamError::CorruptEncoding => ErrorKind::Codec,
            ClamError::HitsDiffer => ErrorKind::Mismatch,
        }
    }

    /// Says whether trying again can help: only a failure to read or write may pass.
    pub fn is_retryable(&self) -> (b: bool)
        ensures
            b == (self.spec_kind() == ErrorKind::Persistence),
    {
        match self {
            ClamError::Persistence => true,
            _ => false,
        }
    }

    /// The failure in words.
    pub open spec fn spec_message(self) -> Seq<char> {
        match self {
            ClamError::EmptyIndices => "a cluster needs at least one index"@,
            ClamError::IndexOutOfBounds => "an index is outside the dataset"@,
            ClamError::DuplicateIndex => "an index occurs twice"@,
            ClamError::RaggedData => "the instances differ in length"@,
            ClamError::TooDeep => "the depth leaves no room for the levels below"@,
            ClamError::Persistence => "stored data could not be read or written"@,
            ClamError::NotEncodable => "an instance cannot be encoded against its reference"@,
            ClamError::CorruptEncoding => "encoded bytes do not describe an instance"@,
            ClamError::HitsDiffer => "compressed and uncompressed search disagree"@,
        }
    }

    /// Describes the failure in words.
    pub fn message(&self) -> (s: String)
        ensures
            s@ == self.spec_message(),
    {
        match self {
            ClamError::EmptyIndices => "a cluster needs at least one index".to_string(),
            ClamError::IndexOutOfBounds => "an index is outside the dataset".to_string(),
            ClamError::DuplicateIndex => "an index occurs twice".to_string(),
            ClamError::RaggedData => "the instances differ in length".to_string(),
            ClamError::TooDeep => "the depth leaves no room for the levels below".to_string(),
            ClamError::Persistence => "stored data could not be read or written".to_string(),
            ClamError::NotEncodable => "an instance cannot be encoded against its reference".to_string(),
            ClamError::CorruptEncoding => "encoded bytes do not describe an instance".to_string(),
            ClamError::HitsDiffer => "compressed and uncompressed search disagree".to_string(),
        }
    }
}

} // verus!
