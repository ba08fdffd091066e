use redlib_ops::bucket::{Bucket, Observation, SAMPLES_PER_HOUR, WINDOW_HOURS};

fn observation(wire_bytes: Option<u64>, json_bytes: u64) -> Observation {
    Observation {
        endpoint: "/comments/:id".into(),
        path: "/comments/a".into(),
        status: 200,
        wire_bytes,
        json_bytes,
        duration_ms: 7,
        is_error: false,
    }
}

/// The reason for rotating reservoirs at all: yesterday's sizes must not
/// survive into today's percentiles.
#[test]
fn percentile_window_drops_hours_older_than_the_window() {
    let mut bucket = Bucket::default();
    let hour = 1_000_000u64;

    let old = Observation {
        endpoint: "/comments/:id".into(),
        path: "/comments/old".into(),
        status: 200,
        wire_bytes: Some(9_000_000),
        json_bytes: 9_000_000,
        duration_ms: 5,
        is_error: false,
    };
    let new = Observation { wire_bytes: Some(1_000), path: "/comments/new".into(), ..old.clone() };

    bucket.record(&old, hour);
    assert_eq!(bucket.window_samples(hour).0, vec![9_000_000]);

    // One hour later both are in the window.
    bucket.record(&new, hour + 1);
    let (mut wire, _) = bucket.window_samples(hour + 1);
    wire.sort_unstable();
    assert_eq!(wire, vec![1_000, 9_000_000]);

    // A full window on, the old hour has aged out but the newer one has not.
    let (wire, _) = bucket.window_samples(hour + WINDOW_HOURS as u64);
    assert_eq!(wire, vec![1_000]);

    // Beyond the window, nothing survives - while the lifetime counters do.
    assert!(bucket.window_samples(hour + WINDOW_HOURS as u64 + 1).0.is_empty());
    assert_eq!(bucket.requests, 2);
    assert_eq!(bucket.wire_bytes, 9_001_000);
}

/// A slot reused a full day later must be cleared, not appended to.
#[test]
fn lapped_hour_slot_is_reset_rather_than_appended() {
    let mut bucket = Bucket::default();
    let obs = Observation {
        endpoint: "/comments/:id".into(),
        path: "/comments/a".into(),
        status: 200,
        wire_bytes: Some(500),
        json_bytes: 500,
        duration_ms: 1,
        is_error: false,
    };

    let hour = 1_000_000u64;
    bucket.record(&obs, hour);
    // Same slot index, exactly one window later.
    bucket.record(&obs, hour + WINDOW_HOURS as u64);

    let (wire, _) = bucket.window_samples(hour + WINDOW_HOURS as u64);
    assert_eq!(wire, vec![500], "the lapped slot kept a stale sample");
}

#[test]
fn a_response_without_content_length_is_billed_by_its_decompressed_size() {
    let mut bucket = Bucket::default();
    bucket.record(&observation(None, 300), 50);
    bucket.record(&observation(Some(100), 800), 50);
    assert_eq!(bucket.wire_missing, 1);
    assert_eq!(bucket.wire_bytes, 400);
    assert_eq!(bucket.json_bytes, 1_100);
    let (wire, duration) = bucket.window_samples(50);
    assert_eq!(wire, vec![300, 100]);
    assert_eq!(duration, vec![7, 7]);
}

#[test]
fn statuses_and_errors_are_counted() {
    let mut bucket = Bucket::default();
    for (status, is_error) in [(200, false), (404, true), (200, false), (500, true)] {
        let obs = Observation { status, is_error, ..observation(Some(1), 1) };
        bucket.record(&obs, 3);
    }
    assert_eq!(bucket.errors, 2);
    assert_eq!(bucket.status.get(&200), Some(&2));
    assert_eq!(bucket.status.get(&404), Some(&1));
    assert_eq!(bucket.status.get(&500), Some(&1));
    assert_eq!(bucket.status.values().sum::<u64>(), bucket.requests);
}

#[test]
fn the_first_samples_of_an_hour_always_land() {
    let mut bucket = Bucket::default();
    for n in 0..SAMPLES_PER_HOUR as u64 {
        bucket.record(&observation(Some(n), n), 77);
    }
    let (wire, _) = bucket.window_samples(77);
    assert_eq!(wire, (0..SAMPLES_PER_HOUR as u64).collect::<Vec<_>>());
}

#[test]
fn a_full_reservoir_keeps_its_size_and_draws_its_places() {
    let mut bucket = Bucket::default();
    for n in 0..20_000u64 {
        bucket.record(&observation(Some(n), n), 77);
    }
    let (wire, duration) = bucket.window_samples(77);
    assert_eq!(wire.len(), SAMPLES_PER_HOUR);
    assert_eq!(duration.len(), SAMPLES_PER_HOUR);
    assert!(wire.iter().all(|n| *n < 20_000));
    // Later observations take the places of earlier ones, in many places.
    let replaced = wire.iter().enumerate().filter(|(i, n)| **n != *i as u64).count();
    assert!(replaced > SAMPLES_PER_HOUR / 2);
    let distinct: std::collections::HashSet<u64> = wire.iter().copied().collect();
    assert_eq!(distinct.len(), SAMPLES_PER_HOUR);
    assert_eq!(bucket.requests, 20_000);
}

#[test]
fn a_drawn_place_is_overwritten_and_one_beyond_the_reservoir_is_not() {
    let mut samples: Vec<u64> = Vec::new();
    Bucket::place(&mut samples, 400, 9);
    assert_eq!(samples, vec![9]);
    let mut full: Vec<u64> = vec![0; SAMPLES_PER_HOUR];
    Bucket::place(&mut full, 5, 1);
    assert_eq!(full[5], 1);
    assert_eq!(full.iter().sum::<u64>(), 1);
    let before = full.clone();
    Bucket::place(&mut full, SAMPLES_PER_HOUR as u64, 8);
    assert_eq!(full, before);
    Bucket::place(&mut full, u64::MAX, 8);
    assert_eq!(full, before);
}

#[test]
fn an_hour_slot_is_cleared_on_touch() {
    let mut bucket = Bucket::default();
    bucket.record(&observation(Some(1), 1), 10);
    assert_eq!(bucket.slot(10).seen, 1);
    let slot = bucket.slot(10 + WINDOW_HOURS as u64);
    assert_eq!((slot.stamp, slot.seen, slot.wire.len(), slot.duration.len()), (34, 0, 0, 0));
}

#[test]
fn hour_zero_is_not_sampled() {
    let mut bucket = Bucket::default();
    bucket.record(&observation(Some(1), 1), 0);
    assert!(bucket.window_samples(0).0.is_empty());
    assert_eq!(bucket.requests, 1);
}

#[test]
fn the_window_holds_the_hours_it_covers_over_a_long_run() {
    let mut bucket = Bucket::default();
    // Ten observations in every third hour of a fortnight.
    for n in 0..112u64 {
        for k in 0..10 {
            bucket.record(&observation(Some(n * 100 + k), 1), 5_000 + n * 3);
        }
        let hour = 5_000 + n * 3;
        let (mut wire, duration) = bucket.window_samples(hour);
        wire.sort_unstable();
        let oldest = n.saturating_sub(7);
        let expected: Vec<u64> =
            (oldest..=n).flat_map(|m| (0..10).map(move |k| m * 100 + k)).collect();
        assert_eq!(wire, expected);
        assert_eq!(duration.len(), wire.len());
    }
}
