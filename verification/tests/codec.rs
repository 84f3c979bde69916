use clam::{ClamError, Codec, CompressibleDataset, Dataset, Hamming, Metric, RowMajor};

#[test]
fn test_codec() {
    let data: Vec<Vec<u8>> = vec![vec![0, 0, 0], vec![1, 1, 1], vec![2, 2, 2], vec![3, 3, 3]];
    let dataset: RowMajor<u8, Hamming> = RowMajor::new(data, Hamming::new(), false).unwrap();

    let encoded = dataset.encode(0, 1).unwrap();
    let decoded = dataset.decode(0, &encoded).unwrap();

    assert_eq!(dataset.instance(1), decoded);
}

#[test]
fn encoding_lists_the_differences() {
    let metric = Hamming::new();
    let reference: Vec<u8> = vec![7, 7, 7, 7];
    let target: Vec<u8> = vec![7, 9, 7, 1];
    let bytes = metric.encode(&reference, &target).unwrap();
    assert_eq!(bytes, vec![1, 0, 0, 0, 0, 0, 0, 0, 9, 3, 0, 0, 0, 0, 0, 0, 0, 1]);
    assert_eq!(metric.decode(&reference, &bytes).unwrap(), target);
}

#[test]
fn encoding_an_instance_against_itself_is_empty() {
    let metric = Hamming::new();
    let x: Vec<u8> = vec![4, 5, 6];
    let bytes = metric.encode(&x, &x).unwrap();
    assert_eq!(bytes.len(), 0);
    assert_eq!(metric.decode(&x, &bytes).unwrap(), x);
}

#[test]
fn round_trip_over_all_pairs() {
    let metric = Hamming::new();
    let mut rows: Vec<Vec<u8>> = Vec::new();
    for i in 0..40u32 {
        rows.push(vec![(i % 7) as u8, (i % 3) as u8, (i / 5) as u8, 200, (i * 13 % 251) as u8]);
    }
    for r in rows.iter() {
        for t in rows.iter() {
            let bytes = metric.encode(r, t).unwrap();
            assert_eq!(&metric.decode(r, &bytes).unwrap(), t);
            assert_eq!(bytes.len() as u64, 9 * Hamming::new().distance(r, t));
        }
    }
}

#[test]
fn instances_of_different_length_are_not_encodable() {
    let metric = Hamming::new();
    let reference: Vec<u8> = vec![1, 2, 3];
    let target: Vec<u8> = vec![1, 2];
    assert_eq!(metric.encode(&reference, &target).err(), Some(ClamError::NotEncodable));
}

#[test]
fn corrupt_bytes_are_refused() {
    let metric = Hamming::new();
    let reference: Vec<u8> = vec![1, 2, 3];
    let partial: Vec<u8> = vec![0, 0, 0, 0];
    assert_eq!(metric.decode(&reference, &partial).err(), Some(ClamError::CorruptEncoding));
    let outside: Vec<u8> = vec![3, 0, 0, 0, 0, 0, 0, 0, 9];
    assert_eq!(metric.decode(&reference, &outside).err(), Some(ClamError::CorruptEncoding));
    let far: Vec<u8> = vec![0, 0, 0, 0, 0, 0, 0, 1, 9];
    assert_eq!(metric.decode(&reference, &far).err(), Some(ClamError::CorruptEncoding));
    let last: Vec<u8> = vec![2, 0, 0, 0, 0, 0, 0, 0, 9];
    assert_eq!(metric.decode(&reference, &last).unwrap(), vec![1, 2, 9]);
}

#[test]
fn hamming_distance_counts_differences() {
    let metric = Hamming::new();
    let a: Vec<u8> = vec![1, 2, 3, 4];
    let b: Vec<u8> = vec![1, 0, 3, 0];
    assert_eq!(metric.distance(&a, &b), 2);
    assert_eq!(metric.distance(&b, &a), 2);
    assert_eq!(metric.distance(&a, &a), 0);
    let short: Vec<u8> = vec![1, 0];
    assert_eq!(metric.distance(&a, &short), 3);
    assert_eq!(metric.distance(&short, &a), 3);
    let none: Vec<u8> = vec![];
    assert_eq!(metric.distance(&none, &a), 4);
    assert_eq!(metric.distance(&none, &none), 0);
}

#[test]
fn hamming_declares_what_it_obeys() {
    let metric = Hamming::new();
    assert_eq!(<Hamming as Metric<u8>>::name(&metric), "hamming");
    assert!(<Hamming as Metric<u8>>::has_identity(&metric));
    assert!(<Hamming as Metric<u8>>::has_non_negativity(&metric));
    assert!(<Hamming as Metric<u8>>::has_symmetry(&metric));
    assert!(<Hamming as Metric<u8>>::obeys_triangle_inequality(&metric));
    assert!(!<Hamming as Metric<u8>>::is_expensive(&metric));
}

#[test]
fn hamming_obeys_the_laws_on_samples() {
    let metric = Hamming::new();
    let mut rows: Vec<Vec<u8>> = Vec::new();
    for i in 0..12u32 {
        let len = (i % 5) as usize;
        let mut row: Vec<u8> = Vec::new();
        for j in 0..len {
            row.push(((i + j as u32) % 3) as u8);
        }
        rows.push(row);
    }
    for x in rows.iter() {
        assert_eq!(metric.distance(x, x), 0);
        for y in rows.iter() {
            assert_eq!(metric.distance(x, y), metric.distance(y, x));
            for z in rows.iter() {
                assert!(metric.distance(x, z) <= metric.distance(x, y) + metric.distance(y, z));
            }
        }
    }
}
