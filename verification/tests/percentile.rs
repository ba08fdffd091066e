use redlib_ops::percentile::percentiles;

#[test]
fn percentiles_are_nearest_rank() {
    let samples: Vec<u64> = (1..=100).collect();
    let p = percentiles(&samples).unwrap();
    assert_eq!(p.p50, 50);
    assert_eq!(p.p99, 99);
    assert_eq!(p.max, 100);
    assert_eq!((p.p25, p.p75, p.p90, p.p95), (25, 75, 90, 95));
    assert_eq!(p.samples, 100);
}

#[test]
fn percentiles_of_nothing_are_null() {
    assert!(percentiles(&[]).is_none());
}

#[test]
fn the_order_of_the_samples_makes_no_difference() {
    let p = percentiles(&[7, 3, 9, 1, 5]).unwrap();
    assert_eq!((p.p25, p.p50, p.p75, p.p90, p.max), (3, 5, 7, 9, 9));
    assert_eq!(percentiles(&[9, 7, 5, 3, 1]), Some(p));
    assert_eq!(percentiles(&[1, 3, 5, 7, 9]), Some(p));
}

#[test]
fn one_sample_is_every_percentile() {
    let p = percentiles(&[42]).unwrap();
    assert_eq!((p.p25, p.p50, p.p75, p.p90, p.p95, p.p99, p.max), (42, 42, 42, 42, 42, 42, 42));
    assert_eq!(p.samples, 1);
}

#[test]
fn ranks_agree_with_the_rounded_up_fraction() {
    for n in 1..2_000u64 {
        let samples: Vec<u64> = (1..=n).rev().collect();
        let p = percentiles(&samples).unwrap();
        let rank = |q: f64| (q * n as f64).ceil() as u64;
        assert_eq!((p.p25, p.p50, p.p75), (rank(0.25), rank(0.50), rank(0.75)));
        assert_eq!((p.p90, p.p95, p.p99), (rank(0.90), rank(0.95), rank(0.99)));
        assert!(p.p25 <= p.p50 && p.p50 <= p.p75 && p.p75 <= p.p90 && p.p90 <= p.p95);
        assert!(p.p95 <= p.p99 && p.p99 <= p.max);
    }
}
