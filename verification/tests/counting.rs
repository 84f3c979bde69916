use clam::{CountingMetric, Hamming};

#[test]
fn counting_toggle() {
    let mut metric = CountingMetric::new(Hamming::new());
    let a: Vec<u8> = vec![1, 2, 3];
    let b: Vec<u8> = vec![3, 2, 1];
    assert_eq!(metric.count(), 0);
    assert!(metric.is_counting());
    for _ in 0..7 {
        assert_eq!(metric.distance(&a, &b), 2);
    }
    assert_eq!(metric.count(), 7);
    assert_eq!(metric.reset_count(), 7);
    assert_eq!(metric.count(), 0);

    metric.distance(&a, &b);
    metric.disable_counting();
    assert!(!metric.is_counting());
    for _ in 0..5 {
        assert_eq!(metric.distance(&a, &b), 2);
    }
    assert_eq!(metric.count(), 1);
    metric.enable_counting();
    metric.distance(&a, &a);
    assert_eq!(metric.count(), 2);
}

#[test]
fn counting_many_at_once() {
    let mut metric = CountingMetric::new(Hamming::new());
    let a: Vec<u8> = vec![1, 2, 3];
    let others: Vec<Vec<u8>> = vec![vec![1, 2, 3], vec![0, 2, 3], vec![0, 0, 3], vec![0, 0, 0]];
    assert_eq!(metric.distances(&a, &others), vec![0, 1, 2, 3]);
    assert_eq!(metric.count(), 4);
    metric.increment();
    assert_eq!(metric.count(), 5);
    metric.disable_counting();
    assert_eq!(metric.distances(&a, &others), vec![0, 1, 2, 3]);
    assert_eq!(metric.count(), 5);
    assert_eq!(metric.reset_count(), 5);
    assert_eq!(metric.reset_count(), 0);
}
