use clam::{Dataset, FnMetric, Hamming, Properties, RowMajor};

fn euclidean(a: &Vec<f64>, b: &Vec<f64>) -> u64 {
    let sum: f64 = a.iter().zip(b.iter()).map(|(x, y)| (x - y) * (x - y)).sum();
    sum.sqrt().round() as u64
}

fn euclidean_metric() -> FnMetric<f64, fn(&Vec<f64>, &Vec<f64>) -> u64> {
    let properties = Properties {
        identity: true,
        non_negativity: true,
        symmetry: true,
        triangle_inequality: false,
        expensive: false,
    };
    FnMetric::new(euclidean as fn(&Vec<f64>, &Vec<f64>) -> u64, "euclidean".to_string(), properties)
}

#[test]
fn test_dataset() {
    let data: Vec<Vec<f64>> = vec![vec![1., 2., 3.], vec![3., 3., 1.]];
    let row_0: Vec<f64> = vec![1., 2., 3.];
    let mut dataset = RowMajor::new(data, euclidean_metric(), false).unwrap();
    assert_eq!(dataset.ninstances(), 2);
    assert_eq!(dataset.instance(0), row_0);

    assert_eq!(dataset.distance(0, 0), 0);
    assert_eq!(dataset.distance(0, 1), 3);
    assert_eq!(dataset.distance(1, 0), 3);
    assert_eq!(dataset.distance(1, 1), 0);
}

#[test]
fn test_choose_unique() {
    let data: Vec<Vec<f64>> = vec![vec![1., 2., 3.], vec![3., 2., 1.]];
    let dataset = RowMajor::new(data, euclidean_metric(), false).unwrap();
    assert_eq!(dataset.choose_unique(vec![0], 1), [0]);
    assert_eq!(dataset.choose_unique(vec![0], 5), [0]);
    assert_eq!(dataset.choose_unique(vec![0, 1], 1).len(), 1);
}

#[test]
fn rows_of_different_length_are_refused() {
    let data: Vec<Vec<u8>> = vec![vec![1, 2, 3], vec![1, 2]];
    let made: Result<RowMajor<u8, Hamming>, clam::ClamError> = RowMajor::new(data, Hamming::new(), true);
    assert_eq!(made.err(), Some(clam::ClamError::RaggedData));
    let none: Vec<Vec<u8>> = Vec::new();
    let empty: RowMajor<u8, Hamming> = RowMajor::new(none, Hamming::new(), true).unwrap();
    assert_eq!(empty.ninstances(), 0);
    assert_eq!(empty.shape(), vec![0, 0]);
}

#[test]
fn cached_distances_are_the_computed_ones() {
    let rows: Vec<Vec<u8>> = vec![vec![0, 0, 0, 0], vec![0, 1, 0, 1], vec![1, 1, 1, 1], vec![0, 0, 0, 1]];
    let mut cached = RowMajor::new(rows.clone(), Hamming::new(), true).unwrap();
    let mut plain = RowMajor::new(rows, Hamming::new(), false).unwrap();
    assert!(cached.uses_cache());
    assert!(!plain.uses_cache());
    assert_eq!(cached.cache_size(), Some(0));
    for round in 0..3 {
        for i in 0..4 {
            for j in 0..4 {
                let d = plain.distance(i, j);
                assert_eq!(cached.distance(i, j), d);
                assert_eq!(cached.distance(j, i), d);
            }
        }
        assert_eq!(cached.cache_size(), Some(6));
        assert_eq!(plain.cache_size(), Some(0));
        if round == 1 {
            cached.clear_cache();
            assert_eq!(cached.cache_size(), Some(0));
        }
    }
    assert_eq!(cached.distance(0, 2), 4);
    assert_eq!(cached.distance(1, 3), 1);
}

#[test]
fn shape_and_indices() {
    let rows: Vec<Vec<u8>> = vec![vec![0, 0, 0], vec![0, 1, 0], vec![1, 1, 1], vec![0, 0, 1]];
    let mut dataset = RowMajor::new(rows, Hamming::new(), true).unwrap();
    assert_eq!(dataset.shape(), vec![4, 3]);
    assert_eq!(dataset.indices(), vec![0, 1, 2, 3]);
    assert_eq!(dataset.row(2), &vec![1, 1, 1]);
    assert_eq!(dataset.query_distance(&vec![1, 1, 0], 2), 1);
    assert_eq!(dataset.distances_from(0, &vec![3, 2, 0]), vec![1, 3, 0]);
    assert_eq!(dataset.distances_among(&vec![0, 1], &vec![2, 3]), vec![vec![3, 1], vec![2, 2]]);
    assert_eq!(
        dataset.pairwise_distances(&vec![0, 1, 2]),
        vec![vec![0, 1, 3], vec![1, 0, 2], vec![3, 2, 0]]
    );
    assert!(<Hamming as clam::Metric<u8>>::has_symmetry(dataset.metric()));
}

#[test]
fn choose_unique_stays_within_bounds() {
    let rows: Vec<Vec<u8>> = vec![vec![0]; 50];
    let dataset = RowMajor::new(rows, Hamming::new(), false).unwrap();
    let candidates: Vec<usize> = vec![4, 8, 15, 16, 23, 42];
    for n in [0usize, 1, 3, 6, 7, 100] {
        for _ in 0..20 {
            let chosen = dataset.choose_unique(candidates.clone(), n);
            assert_eq!(chosen.len(), n.min(candidates.len()));
            for x in chosen.iter() {
                assert!(candidates.contains(x));
            }
            let mut sorted = chosen.clone();
            sorted.sort();
            sorted.dedup();
            assert_eq!(sorted.len(), chosen.len());
        }
    }
    let repeated: Vec<usize> = vec![5, 5, 5, 9];
    for _ in 0..20 {
        let chosen = dataset.choose_unique(repeated.clone(), 3);
        assert!(chosen.len() >= 1 && chosen.len() <= 2);
        let mut sorted = chosen.clone();
        sorted.sort();
        sorted.dedup();
        assert_eq!(sorted.len(), chosen.len());
    }
    assert_eq!(dataset.choose_unique(Vec::new(), 3).len(), 0);
}

#[test]
fn choose_unique_is_random() {
    let rows: Vec<Vec<u8>> = vec![vec![0]; 50];
    let dataset = RowMajor::new(rows, Hamming::new(), false).unwrap();
    let candidates: Vec<usize> = (0..50).collect();
    let mut different = false;
    let first = dataset.choose_unique(candidates.clone(), 10);
    for _ in 0..50 {
        if dataset.choose_unique(candidates.clone(), 10) != first {
            different = true;
        }
    }
    assert!(different);
    assert_ne!(first, candidates[..10].to_vec());
}
