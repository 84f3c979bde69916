use clam::cluster::Ball;
use clam::knn::{knn_breadth_first, knn_depth_first, knn_repeated_rnn};
use clam::rnn::rnn_clustered;
use clam::{ClamError, Dataset, Hamming, RowMajor};

fn four_points() -> RowMajor<u8, Hamming> {
    let data: Vec<Vec<u8>> = vec![vec![0, 0, 0], vec![1, 1, 1], vec![2, 2, 2], vec![3, 3, 3]];
    RowMajor::new(data, Hamming::new(), true).unwrap()
}

fn grid(n: usize) -> RowMajor<u8, Hamming> {
    let mut data: Vec<Vec<u8>> = Vec::new();
    for i in 0..n {
        let mut row: Vec<u8> = Vec::new();
        for bit in 0..8 {
            row.push(((i >> bit) & 1) as u8);
        }
        row.push((i % 3) as u8);
        row.push((i % 5) as u8);
        data.push(row);
    }
    RowMajor::new(data, Hamming::new(), false).unwrap()
}

fn sorted_hits(mut hits: Vec<(usize, u64)>) -> Vec<(usize, u64)> {
    hits.sort();
    hits
}

fn brute_force(data: &RowMajor<u8, Hamming>, query: &Vec<u8>) -> Vec<(usize, u64)> {
    let mut all: Vec<(usize, u64)> = Vec::new();
    for i in 0..data.ninstances() {
        all.push((i, data.query_distance(query, i)));
    }
    all.sort_by(|a, b| (a.1, a.0).cmp(&(b.1, b.0)));
    all
}

fn check_tree(ball: &Ball) {
    assert!(ball.cardinality() > 0);
    assert!(ball.indices().contains(&ball.center()));
    match ball.children() {
        Some((l, r)) => {
            assert_eq!(l.depth(), ball.depth() + 1);
            assert_eq!(r.depth(), ball.depth() + 1);
            assert!(l.cardinality() > 0);
            assert!(r.cardinality() > 0);
            let mut both: Vec<usize> = l.indices().clone();
            both.extend(r.indices().iter().copied());
            both.sort();
            let mut own: Vec<usize> = ball.indices().clone();
            own.sort();
            assert_eq!(both, own);
            check_tree(l);
            check_tree(r);
        }
        None => assert!(ball.is_leaf()),
    }
}

#[test]
fn one_split_of_four_points() {
    let mut data = four_points();
    let indices = data.indices();
    let root = Ball::new(&mut data, indices, 0, Some(42)).unwrap();
    let root = root.partition(&mut data, &|c: &Ball| c.depth() < 1, Some(42));
    let (l, r) = root.children().unwrap();
    assert!(l.is_leaf());
    assert!(r.is_leaf());
    assert!(l.cardinality() > 0);
    assert!(r.cardinality() > 0);
    let mut both: Vec<usize> = l.indices().clone();
    both.extend(r.indices().iter().copied());
    both.sort();
    assert_eq!(both, vec![0, 1, 2, 3]);

    let query: Vec<u8> = vec![0, 0, 0];
    assert_eq!(rnn_clustered(&data, &root, &query, 0), vec![(0, 0)]);
}

#[test]
fn new_refuses_bad_indices() {
    let mut data = four_points();
    assert_eq!(Ball::new(&mut data, vec![], 0, None).err(), Some(ClamError::EmptyIndices));
    assert_eq!(Ball::new(&mut data, vec![0, 4], 0, None).err(), Some(ClamError::IndexOutOfBounds));
    assert_eq!(Ball::new(&mut data, vec![1, 2, 1], 0, None).err(), Some(ClamError::DuplicateIndex));
    assert_eq!(Ball::new(&mut data, vec![1, 2], usize::MAX - 1, None).err(), Some(ClamError::TooDeep));
    assert_eq!(Ball::new(&mut data, vec![1, 9], usize::MAX, None).err(), Some(ClamError::TooDeep));
    assert!(Ball::new(&mut data, vec![1, 2], usize::MAX - 2, None).is_ok());
    let ball = Ball::new(&mut data, vec![3, 1], 2, None).unwrap();
    assert_eq!(ball.indices(), &vec![3, 1]);
    assert_eq!(ball.depth(), 2);
    assert_eq!(ball.radius(), 3);
    assert!(ball.is_leaf());
}

#[test]
fn singleton_has_radius_zero() {
    let mut data = four_points();
    let ball = Ball::new(&mut data, vec![2], 0, None).unwrap();
    assert_eq!(ball.center(), 2);
    assert_eq!(ball.radius(), 0);
    assert!(ball.is_singleton());
    let ball = ball.partition(&mut data, &|_c: &Ball| true, None);
    assert!(ball.is_leaf());
}

#[test]
fn full_tree_is_a_partition() {
    let mut data = grid(100);
    let indices = data.indices();
    let root = Ball::new(&mut data, indices, 0, Some(7)).unwrap();
    let root = root.partition(&mut data, &|_c: &Ball| true, Some(7));
    check_tree(&root);
    assert_eq!(root.cardinality(), 100);
}

#[test]
fn partition_further_keeps_what_was_built() {
    let mut data = grid(60);
    let indices = data.indices();
    let root = Ball::new(&mut data, indices, 0, Some(7)).unwrap();
    let root = root.partition(&mut data, &|c: &Ball| c.depth() < 2, Some(7));
    let (l, r) = root.children().unwrap();
    let left_before: Vec<usize> = l.indices().clone();
    let right_before: Vec<usize> = r.indices().clone();
    let root = root.partition_further(&mut data, &|c: &Ball| c.depth() < 5, Some(7));
    let (l, r) = root.children().unwrap();
    assert_eq!(l.indices(), &left_before);
    assert_eq!(r.indices(), &right_before);
    check_tree(&root);
}

#[test]
fn range_search_agrees_with_a_scan() {
    let mut data = grid(100);
    let indices = data.indices();
    let root = Ball::new(&mut data, indices, 0, Some(1)).unwrap();
    let root = root.partition(&mut data, &|_c: &Ball| true, Some(1));
    for q in [0usize, 17, 63, 99] {
        let query: Vec<u8> = data.instance(q);
        for radius in [0u64, 1, 2, 5, 10, 100] {
            let expected: Vec<(usize, u64)> =
                sorted_hits(brute_force(&data, &query).into_iter().filter(|h| h.1 <= radius).collect());
            assert_eq!(sorted_hits(rnn_clustered(&data, &root, &query, radius)), expected);
        }
    }
}

#[test]
fn nearest_neighbours_agree_with_a_scan() {
    let mut data = grid(100);
    let indices = data.indices();
    let root = Ball::new(&mut data, indices, 0, Some(1)).unwrap();
    let root = root.partition(&mut data, &|_c: &Ball| true, Some(1));
    let outside: Vec<u8> = vec![1, 0, 1, 0, 1, 0, 1, 0, 7, 7];
    let mut queries: Vec<Vec<u8>> = vec![outside];
    queries.push(data.instance(5));
    queries.push(data.instance(88));
    for query in queries.iter() {
        let all = brute_force(&data, query);
        for k in [0usize, 1, 3, 10, 99, 100, 101, 1000] {
            let expected: Vec<(usize, u64)> = all.iter().copied().take(k).collect();
            assert_eq!(knn_depth_first(&data, &root, query, k), expected);
            assert_eq!(knn_breadth_first(&data, &root, query, k), expected);
            assert_eq!(knn_repeated_rnn(&data, &root, query, k, 2), expected);
            assert_eq!(knn_repeated_rnn(&data, &root, query, k, 0), expected);
        }
    }
}
