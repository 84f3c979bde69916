use clam::cluster::{Ball, Cluster};
use clam::codec_data::Entry;
use clam::partition::{build_tree, max_recursion_depth};
use clam::squishy::{from_ball_tree, squish};
use clam::validate::{all_in_range, same_instances, shapes_match};
use clam::{ClamError, CodecData, Dataset, Group, Hamming, RowMajor};

fn rows(n: usize) -> Vec<Vec<u8>> {
    let mut all: Vec<Vec<u8>> = Vec::new();
    for i in 0..n {
        all.push(vec![(i % 4) as u8, (i % 5) as u8, (i % 7) as u8, (i / 8) as u8, 1, 2]);
    }
    all
}

fn built(n: usize) -> (RowMajor<u8, Hamming>, Ball) {
    let mut data = RowMajor::new(rows(n), Hamming::new(), false).unwrap();
    let ball = build_tree(&mut data, Some(9)).unwrap();
    (data, ball)
}

#[test]
fn a_built_tree_passes_the_check() {
    let (mut data, ball) = built(50);
    assert!(ball.check(&mut data));
    let partial = Ball::new(&mut data, vec![4, 9, 30, 2], 3, Some(1)).unwrap();
    assert!(partial.check(&mut data));
    let partial = partial.partition(&mut data, &|c: &Ball| c.depth() < 4, Some(1));
    assert!(partial.check(&mut data));
}

#[test]
fn a_tree_that_was_tampered_with_fails_the_check() {
    let (mut data, ball) = built(20);

    let mut wrong_radius = squish(&ball, None);
    wrong_radius.radius += 1;
    assert!(!wrong_radius.check(&mut data));

    let mut wrong_center = squish(&ball, None);
    wrong_center.center = 20;
    assert!(!wrong_center.check(&mut data));

    let mut lost_member = squish(&ball, None);
    if let Some(left) = lost_member.left.as_mut() {
        let gone = left.indices[0];
        left.indices.retain(|&i| i != gone);
        if left.indices.is_empty() {
            left.indices.push(gone);
            left.indices.push(gone);
        }
    }
    assert!(!lost_member.check(&mut data));

    let mut one_child = squish(&ball, None);
    one_child.right = None;
    assert!(!one_child.check(&mut data));

    let mut wrong_depth = squish(&ball, None);
    if let Some(left) = wrong_depth.left.as_mut() {
        left.depth = 5;
    }
    assert!(!wrong_depth.check(&mut data));

    let mut twice = squish(&ball, None);
    let first = twice.indices[0];
    twice.indices[1] = first;
    assert!(!twice.check(&mut data));

    let mut outside = squish(&ball, None);
    outside.indices[0] = 99;
    assert!(!outside.check(&mut data));

    let empty: Ball = Cluster {
        indices: Vec::new(),
        center: 0,
        radius: 0,
        depth: 0,
        left: None,
        right: None,
        extra: (),
    };
    assert!(!empty.check(&mut data));
}

#[test]
fn the_check_works_over_the_compressed_dataset() {
    let (data, ball) = built(30);
    let (squishy, mut codec) = from_ball_tree(&ball, &data, Hamming::new()).unwrap();
    assert!(squishy.check(&mut codec));
    assert!(ball.check(&mut codec));
}

#[test]
fn shapes_are_compared_cluster_by_cluster() {
    let (mut data, ball) = built(20);
    let squishy = squish(&ball, None);
    assert!(shapes_match(&ball, &squishy));
    assert!(shapes_match(&squishy, &ball));
    let mut other = squish(&ball, None);
    other.radius += 1;
    assert!(!shapes_match(&ball, &other));
    let mut pruned = squish(&ball, None);
    pruned.left = None;
    pruned.right = None;
    assert!(!shapes_match(&ball, &pruned));
    assert!(!shapes_match(&pruned, &ball));
    let root = Ball::new(&mut data, (0..20).collect(), 0, Some(9)).unwrap();
    assert!(shapes_match(&root, &root));
}

#[test]
fn instances_are_compared_one_by_one() {
    let (data, ball) = built(25);
    let (_squishy, codec) = from_ball_tree(&ball, &data, Hamming::new()).unwrap();
    assert!(same_instances(&data, &codec));
    assert!(same_instances(&codec, &data));
    let fewer = RowMajor::new(rows(24), Hamming::new(), false).unwrap();
    assert!(!same_instances(&data, &fewer));
    let mut changed = rows(25);
    changed[7][2] = 250;
    let changed = RowMajor::new(changed, Hamming::new(), false).unwrap();
    assert!(!same_instances(&changed, &codec));
    assert!(all_in_range(&vec![0, 24], 25));
    assert!(!all_in_range(&vec![0, 25], 25));
    assert!(all_in_range(&Vec::new(), 0));
}

#[test]
fn a_group_is_restored_from_what_was_stored() {
    let (data, ball) = built(40);
    let (squishy, codec) = from_ball_tree(&ball, &data, Hamming::new()).unwrap();
    let entries: Vec<Entry<u8>> = codec
        .entries()
        .iter()
        .map(|e| match e {
            Entry::Raw(v) => Entry::Raw(v.clone()),
            Entry::Diff { reference, bytes } => Entry::Diff { reference: *reference, bytes: bytes.clone() },
        })
        .collect();
    let queries: Vec<(String, Vec<u8>)> = vec![("q".to_string(), vec![0, 0, 0, 0, 1, 2])];
    let group = Group::restore(data, Hamming::new(), ball, entries, squishy, queries).ok().unwrap();
    assert_eq!(group.bench_compressive_search(1), Ok(1));
    assert_eq!(group.query_ids, vec!["q"]);
}

#[test]
fn what_does_not_fit_together_is_not_restored() {
    let (data, ball) = built(40);
    let (squishy, codec) = from_ball_tree(&ball, &data, Hamming::new()).unwrap();
    let copy = |codec: &CodecData<u8, Hamming>| -> Vec<Entry<u8>> {
        codec
            .entries()
            .iter()
            .map(|e| match e {
                Entry::Raw(v) => Entry::Raw(v.clone()),
                Entry::Diff { reference, bytes } => {
                    Entry::Diff { reference: *reference, bytes: bytes.clone() }
                }
            })
            .collect()
    };

    let mut other_rows = rows(40);
    other_rows[3][0] = 77;
    let other = RowMajor::new(other_rows, Hamming::new(), false).unwrap();
    let restored = Group::restore(other, Hamming::new(), squish_ball(&ball), copy(&codec), squish(&ball, None), Vec::new());
    assert_eq!(restored.err(), Some(ClamError::CorruptEncoding));

    let mut bad_tree = squish_ball(&ball);
    bad_tree.radius += 1;
    let same = RowMajor::new(rows(40), Hamming::new(), false).unwrap();
    let restored = Group::restore(same, Hamming::new(), bad_tree, copy(&codec), squish(&ball, None), Vec::new());
    assert_eq!(restored.err(), Some(ClamError::Persistence));

    let mut bad_squishy = squish(&ball, None);
    bad_squishy.center = (bad_squishy.center + 1) % 40;
    let same = RowMajor::new(rows(40), Hamming::new(), false).unwrap();
    let restored = Group::restore(same, Hamming::new(), squish_ball(&ball), copy(&codec), bad_squishy, Vec::new());
    assert_eq!(restored.err(), Some(ClamError::Persistence));
    assert!(shapes_match(&ball, &squishy));
}

fn squish_ball(ball: &Ball) -> Ball {
    let (left, right) = match ball.children() {
        Some((l, r)) => (Some(Box::new(squish_ball(l))), Some(Box::new(squish_ball(r)))),
        None => (None, None),
    };
    Cluster {
        indices: ball.indices().clone(),
        center: ball.center(),
        radius: ball.radius(),
        depth: ball.depth(),
        left,
        right,
        extra: (),
    }
}

#[test]
fn the_same_seed_gives_the_same_tree() {
    let (_data, first) = built(400);
    let (_data, second) = built(400);
    assert!(shapes_match(&first, &second));
    let mut data = RowMajor::new(rows(400), Hamming::new(), false).unwrap();
    let mut different = false;
    for seed in 10..30u64 {
        let other = build_tree(&mut data, Some(seed)).unwrap();
        assert!(other.check(&mut data));
        if !shapes_match(&first, &other) {
            different = true;
        }
    }
    assert!(different);
    let unseeded = build_tree(&mut data, None).unwrap();
    assert!(unseeded.check(&mut data));
    assert!(unseeded.all_singletons());
}

#[test]
fn a_tree_is_grown_in_steps() {
    assert_eq!(max_recursion_depth(), 128);
    let mut data = RowMajor::new(vec![vec![7u8; 3]; 300], Hamming::new(), false).unwrap();
    let ball = build_tree(&mut data, Some(2)).unwrap();
    assert!(ball.all_singletons());
    assert_eq!(ball.leaves().len(), 300);
    let deepest = ball.leaves().iter().map(|c| c.depth()).max().unwrap();
    assert!(deepest > 128);
    assert!(ball.check(&mut data));
}

#[test]
fn a_dataset_without_instances_has_no_tree() {
    let none: Vec<Vec<u8>> = Vec::new();
    let mut data = RowMajor::new(none, Hamming::new(), false).unwrap();
    assert_eq!(build_tree(&mut data, Some(1)).err(), Some(ClamError::EmptyIndices));
}
