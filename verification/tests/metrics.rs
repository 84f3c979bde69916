use clam::partition::build_tree;
use clam::squishy::from_ball_tree;
use clam::group::verify_hits;
use clam::{Algorithm, ClamError, Codec, Dataset, FnCodec, FnMetric, Group, Metric, Properties, RowMajor};

type Distance = fn(&Vec<u8>, &Vec<u8>) -> u64;
type Encoder = fn(&Vec<u8>, &Vec<u8>) -> Option<Vec<u8>>;
type Decoder = fn(&Vec<u8>, &Vec<u8>) -> Option<Vec<u8>>;

fn levenshtein(a: &Vec<u8>, b: &Vec<u8>) -> u64 {
    let mut row: Vec<u64> = (0..=b.len() as u64).collect();
    for i in 0..a.len() {
        let mut previous = row[0];
        row[0] = i as u64 + 1;
        for j in 0..b.len() {
            let kept = row[j + 1];
            let change = previous + if a[i] == b[j] { 0 } else { 1 };
            row[j + 1] = change.min(row[j] + 1).min(kept + 1);
            previous = kept;
        }
    }
    row[b.len()]
}

fn common_ends(reference: &Vec<u8>, target: &Vec<u8>) -> (usize, usize) {
    let limit = reference.len().min(target.len());
    let mut front = 0;
    while front < limit && reference[front] == target[front] {
        front += 1;
    }
    let mut back = 0;
    while back < limit - front
        && reference[reference.len() - 1 - back] == target[target.len() - 1 - back]
    {
        back += 1;
    }
    (front, back)
}

fn encode_ends(reference: &Vec<u8>, target: &Vec<u8>) -> Option<Vec<u8>> {
    if reference.len() > 255 || target.len() > 255 {
        return None;
    }
    let (front, back) = common_ends(reference, target);
    let mut bytes = vec![front as u8, back as u8];
    bytes.extend_from_slice(&target[front..target.len() - back]);
    Some(bytes)
}

fn decode_ends(reference: &Vec<u8>, bytes: &Vec<u8>) -> Option<Vec<u8>> {
    if bytes.len() < 2 {
        return None;
    }
    let front = bytes[0] as usize;
    let back = bytes[1] as usize;
    if front + back > reference.len() {
        return None;
    }
    let mut target: Vec<u8> = reference[..front].to_vec();
    target.extend_from_slice(&bytes[2..]);
    target.extend_from_slice(&reference[reference.len() - back..]);
    Some(target)
}

fn edit_distance() -> FnMetric<u8, Distance> {
    let properties = Properties {
        identity: true,
        non_negativity: true,
        symmetry: true,
        triangle_inequality: true,
        expensive: true,
    };
    FnMetric::new(levenshtein as Distance, "levenshtein".to_string(), properties)
}

fn edit_codec() -> FnCodec<u8, Distance, Encoder, Decoder> {
    FnCodec::new(edit_distance(), encode_ends as Encoder, decode_ends as Decoder)
}

fn words(n: usize) -> Vec<Vec<u8>> {
    let alphabet: [u8; 4] = [b'A', b'C', b'G', b'T'];
    let mut state: u32 = 2024;
    let mut next = move || {
        state = state.wrapping_mul(1664525).wrapping_add(1013904223);
        (state >> 16) as usize
    };
    let mut base: Vec<u8> = Vec::new();
    for _ in 0..30 {
        base.push(alphabet[next() % 4]);
    }
    let mut all: Vec<Vec<u8>> = Vec::new();
    for i in 0..n {
        let mut word = base.clone();
        for _ in 0..(i % 6) {
            let at = next() % 30;
            if next() % 2 == 0 {
                word[at] = alphabet[next() % 4];
            } else {
                word.remove(at);
                word.push(alphabet[next() % 4]);
            }
        }
        all.push(word);
    }
    all
}

#[test]
fn a_function_makes_a_metric() {
    let metric = edit_distance();
    let kitten: Vec<u8> = b"kitten".to_vec();
    let sitting: Vec<u8> = b"sitting".to_vec();
    assert_eq!(metric.distance(&kitten, &sitting), 3);
    assert_eq!(metric.distance(&sitting, &kitten), 3);
    assert_eq!(metric.distance(&kitten, &kitten), 0);
    assert_eq!(metric.distance(&kitten, &Vec::new()), 6);
    assert_eq!(metric.name(), "levenshtein");
    assert!(metric.has_identity());
    assert!(metric.has_non_negativity());
    assert!(metric.has_symmetry());
    assert!(metric.obeys_triangle_inequality());
    assert!(metric.is_expensive());
}

#[test]
fn what_a_metric_declares_is_what_it_was_given() {
    let zero: Distance = |_a, _b| 0;
    let properties = Properties {
        identity: true,
        non_negativity: false,
        symmetry: true,
        triangle_inequality: false,
        expensive: false,
    };
    let metric: FnMetric<u8, Distance> = FnMetric::new(zero, "zero".to_string(), properties);
    assert!(metric.has_identity());
    assert!(!metric.has_non_negativity());
    assert!(metric.has_symmetry());
    assert!(!metric.obeys_triangle_inequality());
    assert!(!metric.is_expensive());
    assert_eq!(metric.name(), "zero");
}

#[test]
fn functions_encode_and_decode() {
    let codec = edit_codec();
    let reference: Vec<u8> = b"ACGTACGTAC".to_vec();
    let target: Vec<u8> = b"ACGTTTGTAC".to_vec();
    let bytes = codec.encode(&reference, &target).unwrap();
    assert_eq!(bytes, vec![4, 4, b'T', b'T']);
    assert_eq!(codec.decode(&reference, &bytes).unwrap(), target);
    assert_eq!(codec.decode(&reference, &vec![1]).err(), Some(ClamError::CorruptEncoding));
    assert_eq!(codec.decode(&reference, &vec![9, 9]).err(), Some(ClamError::CorruptEncoding));
    let long: Vec<u8> = vec![1; 300];
    assert_eq!(codec.encode(&long, &long).err(), Some(ClamError::NotEncodable));
    assert_eq!(codec.distance(&reference, &target), 2);
    assert_eq!(codec.name(), "levenshtein");
    for r in words(20).iter() {
        for t in words(20).iter() {
            let bytes = codec.encode(r, t).unwrap();
            assert_eq!(&codec.decode(r, &bytes).unwrap(), t);
        }
    }
}

#[test]
fn search_agrees_under_an_edit_distance() {
    let rows = words(100);
    let mut data = RowMajor::new(rows.clone(), edit_codec(), true).unwrap();
    let ball = build_tree(&mut data, Some(42)).unwrap();
    let (squishy, codec) = from_ball_tree(&ball, &data, edit_codec()).unwrap();
    for i in 0..100 {
        assert_eq!(codec.instance(i), rows[i]);
    }
    let queries: Vec<Vec<u8>> = words(108).split_off(100);
    let mut algorithms: Vec<Algorithm> = Vec::new();
    for radius in [5u64, 10, 100] {
        algorithms.push(Algorithm::RnnClustered(radius));
    }
    for k in [1usize, 10, 100] {
        algorithms.push(Algorithm::KnnRepeatedRnn(k, 2));
        algorithms.push(Algorithm::KnnBreadthFirst(k));
        algorithms.push(Algorithm::KnnDepthFirst(k));
    }
    for algorithm in algorithms.iter() {
        let plain = algorithm.batch_search(&data, &ball, &queries);
        let squished = algorithm.batch_search(&codec, &squishy, &queries);
        assert_eq!(verify_hits(&plain, &squished), Ok(()));
        for (i, query) in queries.iter().enumerate() {
            let mut expected: Vec<(usize, u64)> =
                (0..100).map(|j| (j, levenshtein(query, &rows[j]))).collect();
            expected.sort_by(|a, b| (a.1, a.0).cmp(&(b.1, b.0)));
            let mut found = plain[i].clone();
            found.sort_by(|a, b| (a.1, a.0).cmp(&(b.1, b.0)));
            match algorithm {
                Algorithm::RnnClustered(radius) => {
                    expected.retain(|h| h.1 <= *radius);
                }
                Algorithm::KnnDepthFirst(k) | Algorithm::KnnBreadthFirst(k) | Algorithm::KnnRepeatedRnn(k, _) => {
                    expected.truncate(*k);
                    assert_eq!(plain[i], expected);
                }
            }
            assert_eq!(found, expected);
        }
    }
}

#[test]
fn a_group_under_an_edit_distance() {
    let data = RowMajor::new(words(50), edit_codec(), false).unwrap();
    let queries: Vec<(String, Vec<u8>)> =
        words(53).split_off(50).into_iter().enumerate().map(|(i, q)| (format!("q{i}"), q)).collect();
    let group = Group::new(data, edit_codec(), queries).ok().unwrap();
    assert_eq!(group.bench_compressive_search(3), Ok(3));
    assert!(group.ball.all_singletons());
}
