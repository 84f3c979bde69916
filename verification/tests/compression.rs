use clam::cluster::Ball;
use clam::codec_data::Entry;
use clam::group::{plan, same_hits, verify_hits};
use clam::partition::build_tree;
use clam::squishy::from_ball_tree;
use clam::{Algorithm, ClamError, CodecData, Dataset, Group, Hamming, RowMajor, SquishyBall};

fn strings(n: usize) -> Vec<Vec<u8>> {
    let alphabet: [u8; 4] = [b'A', b'C', b'G', b'T'];
    let mut rows: Vec<Vec<u8>> = Vec::new();
    let mut state: u32 = 12345;
    let mut base: Vec<u8> = Vec::new();
    for _ in 0..24 {
        state = state.wrapping_mul(1103515245).wrapping_add(12345);
        base.push(alphabet[((state >> 16) % 4) as usize]);
    }
    for i in 0..n {
        let mut row = base.clone();
        let changes = i % 9;
        for _ in 0..changes {
            state = state.wrapping_mul(1103515245).wrapping_add(12345);
            let at = ((state >> 16) % 24) as usize;
            state = state.wrapping_mul(1103515245).wrapping_add(12345);
            row[at] = alphabet[((state >> 16) % 4) as usize];
        }
        rows.push(row);
    }
    rows
}

fn same_tree(ball: &Ball, squishy: &SquishyBall, parent: Option<usize>) {
    assert_eq!(ball.indices(), squishy.indices());
    assert_eq!(ball.center(), squishy.center());
    assert_eq!(ball.radius(), squishy.radius());
    assert_eq!(ball.depth(), squishy.depth());
    assert_eq!(squishy.extra.reference, parent);
    match (ball.children(), squishy.children()) {
        (Some((bl, br)), Some((sl, sr))) => {
            same_tree(bl, sl, Some(ball.center()));
            same_tree(br, sr, Some(ball.center()));
        }
        (None, None) => {}
        _ => panic!("one tree has children where the other has none"),
    }
}

#[test]
fn compression_keeps_tree_and_instances() {
    let rows = strings(100);
    let mut data = RowMajor::new(rows.clone(), Hamming::new(), false).unwrap();
    let ball = build_tree(&mut data, Some(42)).unwrap();
    assert!(ball.all_singletons());
    assert_eq!(ball.leaves().len(), 100);
    let (squishy, codec) = from_ball_tree(&ball, &data, Hamming::new()).unwrap();
    same_tree(&ball, &squishy, None);
    assert_eq!(codec.ninstances(), 100);
    assert_eq!(codec.shape(), vec![100, 24]);
    for i in 0..100 {
        assert_eq!(codec.instance(i), rows[i]);
        assert_eq!(codec.instance(i), data.instance(i));
    }
    let mut codec = codec;
    for (i, j) in [(0usize, 1usize), (5, 5), (99, 3), (17, 64)] {
        assert_eq!(codec.distance(i, j), data.distance(i, j));
        assert_eq!(codec.distance(j, i), data.distance(i, j));
    }
    let raw = codec.entries().iter().filter(|e| matches!(e, Entry::Raw(_))).count();
    assert_eq!(raw, 1);
    let mut expected: u64 = 0;
    for entry in codec.entries().iter() {
        if let Entry::Diff { reference, bytes } = entry {
            assert!(*reference < 100);
            assert_eq!(bytes.len() % 9, 0);
            expected += bytes.len() as u64 + 8;
        }
    }
    assert_eq!(codec.encoded_size(), expected);
}

fn has_center_over(ball: &Ball, center: usize, x: usize) -> bool {
    if ball.center() == center && ball.indices().contains(&x) {
        return true;
    }
    match ball.children() {
        Some((l, r)) => has_center_over(l, center, x) || has_center_over(r, center, x),
        None => false,
    }
}

#[test]
fn every_reference_is_the_center_of_a_cluster_of_the_instance() {
    let rows = strings(70);
    let mut data = RowMajor::new(rows, Hamming::new(), false).unwrap();
    let indices: Vec<usize> = (0..70).filter(|i| i % 7 != 3).collect();
    let ball = Ball::new(&mut data, indices.clone(), 0, Some(11)).unwrap();
    let ball = ball.partition(&mut data, &|c: &Ball| c.cardinality() > 3, Some(11));
    let (_squishy, codec) = from_ball_tree(&ball, &data, Hamming::new()).unwrap();
    let mut encoded = 0;
    for (i, entry) in codec.entries().iter().enumerate() {
        match entry {
            Entry::Raw(_) => assert!(i == ball.center() || !indices.contains(&i)),
            Entry::Diff { reference, bytes } => {
                encoded += 1;
                assert!(indices.contains(&i));
                assert!(i != ball.center());
                assert!(has_center_over(&ball, *reference, i));
                let expected =
                    clam::Codec::encode(&Hamming::new(), &data.instance(*reference), &data.instance(i)).unwrap();
                assert_eq!(bytes, &expected);
            }
        }
    }
    assert_eq!(encoded, indices.len() - 1);
}

#[test]
fn long_instances_that_differ_little_take_less_room() {
    let mut rows: Vec<Vec<u8>> = Vec::new();
    for i in 0..32usize {
        let mut row: Vec<u8> = vec![9; 400];
        row[i] = 1;
        row[399 - i] = 2;
        rows.push(row);
    }
    let mut data = RowMajor::new(rows.clone(), Hamming::new(), false).unwrap();
    let ball = build_tree(&mut data, Some(5)).unwrap();
    let (_squishy, codec) = from_ball_tree(&ball, &data, Hamming::new()).unwrap();
    assert!(codec.encoded_size() + 400 < 32 * 400 / 4);
    for i in 0..32 {
        assert_eq!(codec.instance(i), rows[i]);
    }
}

#[test]
fn instances_outside_the_tree_are_kept() {
    let rows = strings(20);
    let mut data = RowMajor::new(rows.clone(), Hamming::new(), false).unwrap();
    let ball = Ball::new(&mut data, vec![3, 7, 11, 15, 19], 0, Some(1)).unwrap();
    let ball = ball.partition(&mut data, &|_c: &Ball| true, Some(1));
    let (squishy, codec) = from_ball_tree(&ball, &data, Hamming::new()).unwrap();
    same_tree(&ball, &squishy, None);
    for i in 0..20 {
        assert_eq!(codec.instance(i), rows[i]);
    }
    let raw = codec.entries().iter().filter(|e| matches!(e, Entry::Raw(_))).count();
    assert_eq!(raw, 16);
}

#[test]
fn search_over_the_compressed_form_gives_the_same_hits() {
    let rows = strings(100);
    let mut data = RowMajor::new(rows.clone(), Hamming::new(), true).unwrap();
    let ball = build_tree(&mut data, Some(42)).unwrap();
    let (squishy, codec) = from_ball_tree(&ball, &data, Hamming::new()).unwrap();
    let mut queries: Vec<Vec<u8>> = strings(110).split_off(100);
    queries.push(rows[0].clone());
    queries.push(vec![b'A'; 24]);
    let mut algorithms: Vec<Algorithm> = Vec::new();
    for radius in [0u64, 5, 10, 100] {
        algorithms.push(Algorithm::RnnClustered(radius));
    }
    for k in [1usize, 10, 100] {
        algorithms.push(Algorithm::KnnRepeatedRnn(k, 2));
        algorithms.push(Algorithm::KnnBreadthFirst(k));
        algorithms.push(Algorithm::KnnDepthFirst(k));
    }
    for algorithm in algorithms.iter() {
        let plain = algorithm.batch_search(&data, &ball, &queries);
        let squished = algorithm.batch_search(&codec, &squishy, &queries);
        assert_eq!(plain.len(), queries.len());
        assert_eq!(verify_hits(&plain, &squished), Ok(()));
        for (i, query) in queries.iter().enumerate() {
            let mut a = plain[i].clone();
            let mut b = squished[i].clone();
            a.sort();
            b.sort();
            assert_eq!(a, b);
            assert_eq!(algorithm.search(&data, &ball, query).len(), plain[i].len());
        }
    }
}

#[test]
fn the_three_nearest_neighbour_searches_agree() {
    let rows = strings(64);
    let mut data = RowMajor::new(rows, Hamming::new(), false).unwrap();
    let ball = build_tree(&mut data, Some(3)).unwrap();
    let query: Vec<u8> = vec![b'G'; 24];
    for k in [1usize, 2, 5, 64, 70] {
        let depth = Algorithm::KnnDepthFirst(k).search(&data, &ball, &query);
        let breadth = Algorithm::KnnBreadthFirst(k).search(&data, &ball, &query);
        let repeated = Algorithm::KnnRepeatedRnn(k, 3).search(&data, &ball, &query);
        assert_eq!(depth.len(), k.min(64));
        assert_eq!(depth, breadth);
        assert_eq!(depth, repeated);
    }
}

#[test]
fn hits_that_differ_are_reported() {
    let a: Vec<Vec<(usize, u64)>> = vec![vec![(0, 0), (1, 2)], vec![]];
    let same: Vec<Vec<(usize, u64)>> = vec![vec![(1, 2), (0, 0)], vec![]];
    let other_distance: Vec<Vec<(usize, u64)>> = vec![vec![(1, 3), (0, 0)], vec![]];
    let fewer: Vec<Vec<(usize, u64)>> = vec![vec![(0, 0)], vec![]];
    let shorter: Vec<Vec<(usize, u64)>> = vec![vec![(0, 0), (1, 2)]];
    assert_eq!(verify_hits(&a, &same), Ok(()));
    assert_eq!(verify_hits(&a, &other_distance), Err(ClamError::HitsDiffer));
    assert_eq!(verify_hits(&a, &fewer), Err(ClamError::HitsDiffer));
    assert_eq!(verify_hits(&fewer, &a), Err(ClamError::HitsDiffer));
    assert_eq!(verify_hits(&a, &shorter), Err(ClamError::HitsDiffer));
    assert!(same_hits(&a[0], &same[0]));
    assert!(!same_hits(&a[0], &fewer[0]));
}

#[test]
fn the_plan_lists_the_compared_searches() {
    let algorithms = plan();
    assert_eq!(algorithms.len(), 12);
    assert_eq!(algorithms[0], Algorithm::RnnClustered(5));
    assert_eq!(algorithms[2], Algorithm::RnnClustered(100));
    assert_eq!(algorithms[3], Algorithm::KnnRepeatedRnn(1, 2));
    assert_eq!(algorithms[4], Algorithm::KnnBreadthFirst(1));
    assert_eq!(algorithms[5], Algorithm::KnnDepthFirst(1));
    assert_eq!(algorithms[11], Algorithm::KnnDepthFirst(100));
}

#[test]
fn a_group_compares_both_forms() {
    let rows = strings(60);
    let data = RowMajor::new(rows, Hamming::new(), false).unwrap();
    let queries: Vec<(String, Vec<u8>)> = strings(66)
        .split_off(60)
        .into_iter()
        .enumerate()
        .map(|(i, q)| (format!("query-{i}"), q))
        .collect();
    let group = Group::new(data, Hamming::new(), queries.clone()).unwrap();
    assert_eq!(group.query_ids, vec!["query-0", "query-1", "query-2", "query-3", "query-4", "query-5"]);
    assert_eq!(group.queries[4], queries[4].1);
    assert!(group.ball.all_singletons());
    assert_eq!(group.ball.cardinality(), 60);
    assert_eq!(group.bench_compressive_search(4), Ok(4));
    assert_eq!(group.bench_compressive_search(1000), Ok(6));
    let hits = group.bench_search(3, &Algorithm::KnnDepthFirst(5)).unwrap();
    assert_eq!(hits.len(), 3);
    assert_eq!(hits[0].len(), 5);
    assert_eq!(group.search_compressed(&Algorithm::KnnDepthFirst(5), 3), hits);
    assert_eq!(group.search_uncompressed(&Algorithm::KnnDepthFirst(5), 3), hits);
}

#[test]
fn an_empty_dataset_has_no_group() {
    let rows: Vec<Vec<u8>> = Vec::new();
    let data = RowMajor::new(rows, Hamming::new(), false).unwrap();
    let queries: Vec<(String, Vec<u8>)> = Vec::new();
    assert_eq!(Group::new(data, Hamming::new(), queries).err(), Some(ClamError::EmptyIndices));
}

#[test]
fn entries_read_back_are_checked() {
    let rows = strings(30);
    let mut data = RowMajor::new(rows.clone(), Hamming::new(), false).unwrap();
    let ball = build_tree(&mut data, Some(42)).unwrap();
    let (_squishy, codec) = from_ball_tree(&ball, &data, Hamming::new()).unwrap();
    let root = ball.center();

    let first: Vec<u8> = rows[0].clone();
    let second = Hamming::new();
    let bytes = clam::Codec::encode(&second, &rows[0], &rows[1]).unwrap();
    let good: Vec<Entry<u8>> =
        vec![Entry::Raw(first.clone()), Entry::Diff { reference: 0, bytes: bytes.clone() }];
    let rebuilt: CodecData<u8, Hamming> = CodecData::from_entries(Hamming::new(), good).ok().unwrap();
    assert_eq!(rebuilt.instance(0), rows[0]);
    assert_eq!(rebuilt.instance(1), rows[1]);

    let forward: Vec<Entry<u8>> =
        vec![Entry::Diff { reference: 1, bytes: bytes.clone() }, Entry::Raw(first.clone())];
    let rebuilt: CodecData<u8, Hamming> = CodecData::from_entries(Hamming::new(), forward).ok().unwrap();
    assert_eq!(rebuilt.instance(0), rows[1]);
    assert_eq!(rebuilt.instance(1), rows[0]);
    let circle: Vec<Entry<u8>> = vec![
        Entry::Diff { reference: 1, bytes: Vec::new() },
        Entry::Diff { reference: 0, bytes: Vec::new() },
    ];
    assert_eq!(CodecData::from_entries(Hamming::new(), circle).err(), Some(ClamError::CorruptEncoding));
    let own: Vec<Entry<u8>> = vec![Entry::Diff { reference: 0, bytes: Vec::new() }];
    assert_eq!(CodecData::from_entries(Hamming::new(), own).err(), Some(ClamError::CorruptEncoding));
    let nowhere: Vec<Entry<u8>> =
        vec![Entry::Raw(first.clone()), Entry::Diff { reference: 2, bytes: Vec::new() }];
    assert_eq!(CodecData::from_entries(Hamming::new(), nowhere).err(), Some(ClamError::CorruptEncoding));
    let chain: Vec<Entry<u8>> = vec![
        Entry::Diff { reference: 1, bytes: Vec::new() },
        Entry::Diff { reference: 2, bytes: Vec::new() },
        Entry::Raw(first.clone()),
    ];
    let rebuilt: CodecData<u8, Hamming> = CodecData::from_entries(Hamming::new(), chain).ok().unwrap();
    assert_eq!(rebuilt.instance(0), rows[0]);
    let none: Vec<Entry<u8>> = Vec::new();
    let rebuilt: CodecData<u8, Hamming> = CodecData::from_entries(Hamming::new(), none).ok().unwrap();
    assert_eq!(rebuilt.ninstances(), 0);
    let broken: Vec<Entry<u8>> =
        vec![Entry::Raw(first.clone()), Entry::Diff { reference: 0, bytes: vec![1, 2, 3] }];
    assert_eq!(CodecData::from_entries(Hamming::new(), broken).err(), Some(ClamError::CorruptEncoding));
    let ragged: Vec<Entry<u8>> = vec![Entry::Raw(first), Entry::Raw(vec![1, 2])];
    assert_eq!(CodecData::from_entries(Hamming::new(), ragged).err(), Some(ClamError::CorruptEncoding));
    assert!(matches!(codec.entries()[root], Entry::Raw(_)));

    let stored: Vec<Entry<u8>> = codec
        .entries()
        .iter()
        .map(|e| match e {
            Entry::Raw(v) => Entry::Raw(v.clone()),
            Entry::Diff { reference, bytes } => Entry::Diff { reference: *reference, bytes: bytes.clone() },
        })
        .collect();
    let again: CodecData<u8, Hamming> = CodecData::from_entries(Hamming::new(), stored).ok().unwrap();
    for i in 0..30 {
        assert_eq!(again.instance(i), rows[i]);
    }
}
