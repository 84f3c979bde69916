use clam::{ClamError, ErrorKind};

#[test]
fn every_error_has_its_kind() {
    assert_eq!(ClamError::EmptyIndices.kind(), ErrorKind::Construction);
    assert_eq!(ClamError::IndexOutOfBounds.kind(), ErrorKind::Construction);
    assert_eq!(ClamError::DuplicateIndex.kind(), ErrorKind::Construction);
    assert_eq!(ClamError::RaggedData.kind(), ErrorKind::Construction);
    assert_eq!(ClamError::TooDeep.kind(), ErrorKind::Construction);
    assert_eq!(ClamError::Persistence.kind(), ErrorKind::Persistence);
    assert_eq!(ClamError::NotEncodable.kind(), ErrorKind::Codec);
    assert_eq!(ClamError::CorruptEncoding.kind(), ErrorKind::Codec);
    assert_eq!(ClamError::HitsDiffer.kind(), ErrorKind::Mismatch);
}

#[test]
fn only_persistence_is_worth_retrying() {
    let all = [
        ClamError::EmptyIndices,
        ClamError::IndexOutOfBounds,
        ClamError::DuplicateIndex,
        ClamError::RaggedData,
        ClamError::TooDeep,
        ClamError::Persistence,
        ClamError::NotEncodable,
        ClamError::CorruptEncoding,
        ClamError::HitsDiffer,
    ];
    for e in all.iter() {
        assert_eq!(e.is_retryable(), *e == ClamError::Persistence);
        assert!(e.message().len() > 0);
    }
    assert_eq!(ClamError::EmptyIndices.message(), "a cluster needs at least one index");
    assert_eq!(ClamError::HitsDiffer.message(), "compressed and uncompressed search disagree");
}
