use redlib_ops::telemetry::{
    enabled, init, metrics, normalize_upstream, note_cache_miss, note_json_call, record, record_at,
    snapshot, snapshot_at, MetricsReply, Observation, Telemetry,
};
use redlib_ops::traffic::MAX_TRACKED_PATHS;

const DAY: u64 = 86_400;

fn fetch(endpoint: &str, path: &str, wire_bytes: u64) -> Observation {
    Observation {
        endpoint: endpoint.into(),
        path: path.into(),
        status: 200,
        wire_bytes: Some(wire_bytes),
        json_bytes: wire_bytes * 2,
        duration_ms: 10,
        is_error: false,
    }
}

/// Feed a skewed mix of observations, and assert that the snapshot separates the
/// one fat endpoint from the many thin ones - which is the whole point of
/// reporting percentiles rather than a mean.
#[test]
fn snapshot_reports_bytes_and_duplication_by_endpoint() {
    let mut telemetry = init(Some("on"));
    assert!(telemetry.is_enabled(), "toggle must be read from the setting");

    // One heavy comment thread, fetched three times over (the dedup gap).
    for _ in 0..3 {
        record(
            &mut telemetry,
            Observation {
                endpoint: normalize_upstream("/comments/abc.json"),
                path: "/comments/abc".into(),
                status: 200,
                wire_bytes: Some(4_000_000),
                json_bytes: 32_000_000,
                duration_ms: 900,
                is_error: false,
            },
            None,
        );
    }
    // A spread of small subreddit lookups, each distinct.
    for n in 0..50u64 {
        record(
            &mut telemetry,
            Observation {
                endpoint: normalize_upstream("/r/rust/about.json"),
                path: format!("/r/sub{n}/about"),
                status: 200,
                wire_bytes: Some(2_000),
                json_bytes: 9_000,
                duration_ms: 40,
                is_error: false,
            },
            None,
        );
    }

    assert!(telemetry.can_report());
    let snap = snapshot(&telemetry);
    assert_eq!(snap.totals.upstream_requests, 53);
    assert_eq!(snap.totals.upstream_wire_bytes, 12_100_000);

    // Heaviest endpoint sorts first, and its percentiles are its own - not
    // diluted by the 50 small calls.
    let top = &snap.by_upstream_endpoint[0];
    assert_eq!(top.name, "/comments/:id");
    assert_eq!(top.requests, 3);
    assert_eq!(top.wire_bytes_percentiles.unwrap().p50, 4_000_000);
    assert_eq!(top.compression_ratio.part as f64 / top.compression_ratio.whole as f64, 8.0);

    let small = &snap.by_upstream_endpoint[1];
    assert_eq!(small.name, "/r/:sub/about");
    assert_eq!(small.wire_bytes_percentiles.unwrap().p99, 2_000);

    // Two of the three thread fetches were redundant.
    assert_eq!(snap.duplication.distinct_paths, 51);
    assert_eq!(snap.duplication.redundant_requests, 2);
    assert_eq!(snap.duplication.redundant_wire_bytes, 8_000_000);

    // Traffic lands in the rolling window, not just the totals.
    assert_eq!(snap.per_minute.iter().map(|m| m.requests).sum::<u64>(), 53);

    // Outside a request the traffic goes under one route.
    assert_eq!(snap.by_inbound_route.len(), 1);
    assert_eq!(snap.by_inbound_route[0].name, "-");
    assert_eq!(snap.by_inbound_route[0].requests, 53);
}

#[test]
fn cache_hit_rate_counts_hits_as_calls_minus_misses() {
    let mut telemetry = init(Some("on"));
    // Three calls, one of which reached Reddit.
    note_json_call(&mut telemetry, "/comments/abc.json");
    note_cache_miss(&mut telemetry, "/comments/abc.json");
    note_json_call(&mut telemetry, "/comments/abc.json");
    note_json_call(&mut telemetry, "/comments/abc.json");

    let snap = snapshot(&telemetry);
    assert_eq!(snap.response_cache.calls, 3);
    assert_eq!(snap.response_cache.misses, 1);
    assert_eq!(snap.response_cache.hits, 2);
    assert_eq!((snap.response_cache.hit_rate.part, snap.response_cache.hit_rate.whole), (2, 3));

    let bucket = &snap.by_upstream_endpoint[0];
    assert_eq!(bucket.cache_hits, 2);
    assert_eq!(bucket.cache_misses, 1);
    assert_eq!((bucket.cache_hit_rate.part, bucket.cache_hit_rate.whole), (2, 3));
}

#[test]
fn disabled_by_default_records_nothing() {
    assert!(!enabled(None));
    let mut telemetry = init(None);
    assert!(!telemetry.is_enabled());
    record(
        &mut telemetry,
        Observation {
            endpoint: "/comments/:id".into(),
            path: "/comments/abc".into(),
            status: 200,
            wire_bytes: Some(1_000),
            json_bytes: 1_000,
            duration_ms: 1,
            is_error: false,
        },
        None,
    );
    note_json_call(&mut telemetry, "/comments/abc");
    note_cache_miss(&mut telemetry, "/comments/abc");
    let snap = snapshot(&telemetry);
    assert_eq!(snap.totals.upstream_requests, 0);
    assert_eq!(snap.response_cache.calls, 0);
    assert!(snap.by_upstream_endpoint.is_empty());
}

#[test]
fn three_settings_turn_collection_on() {
    for on in ["on", "true", "1"] {
        assert!(enabled(Some(on)));
    }
    for off in ["", "off", "ON", "yes", "0", "true "] {
        assert!(!enabled(Some(off)));
    }
}

#[test]
fn metrics_answer_with_a_report_or_a_hint() {
    let off = metrics(&init(Some("off")));
    assert_eq!(off.status(), 503);
    match off {
        MetricsReply::Disabled { hint } => assert_eq!(hint, "set REDLIB_TELEMETRY=on"),
        MetricsReply::Report(_) => panic!("telemetry is off"),
    }
    let on = metrics(&init(Some("on")));
    assert_eq!(on.status(), 200);
    assert!(matches!(on, MetricsReply::Report(_)));
}

#[test]
fn an_empty_report_has_no_rows() {
    let snap = snapshot_at(&Telemetry::starting_at(true, 1_000), 2_000, 2_000, 2_500);
    assert!(snap.enabled);
    assert_eq!(snap.collecting_since.as_deref(), Some("1970-01-01T00:16:40Z"));
    assert_eq!(snap.percentile_window_hours, 24);
    assert_eq!(snap.uptime_seconds, 1_500);
    assert!(snap.per_minute.is_empty());
    assert!(snap.heaviest_paths.is_empty());
    assert_eq!(snap.response_cache.hit_rate.whole, 0);
}

#[test]
fn routes_are_told_apart() {
    let mut telemetry = Telemetry::starting_at(true, 0);
    let now = 20_000 * DAY;
    record_at(&mut telemetry, fetch("/search", "/search?q=a", 100), "/search", now, now);
    record_at(&mut telemetry, fetch("/r/:sub/about", "/r/a/about", 900), "/r/:sub", now, now);
    record_at(&mut telemetry, fetch("/r/:sub/about", "/r/b/about", 50), "/search", now, now);
    let snap = snapshot_at(&telemetry, now, now, now);
    let routes: Vec<(&str, u64, u64)> =
        snap.by_inbound_route.iter().map(|r| (r.name.as_str(), r.requests, r.wire_bytes)).collect();
    assert_eq!(routes, vec![("/r/:sub", 1, 900), ("/search", 2, 150)]);
    let endpoints: Vec<(&str, u64, u64)> =
        snap.by_upstream_endpoint.iter().map(|r| (r.name.as_str(), r.requests, r.wire_bytes)).collect();
    assert_eq!(endpoints, vec![("/r/:sub/about", 2, 950), ("/search", 1, 100)]);
    let share = snap.by_inbound_route[0].share_of_wire_bytes;
    assert_eq!((share.part, share.whole), (900, 1_050));
    assert_eq!(snap.by_inbound_route[1].mean_wire_bytes, 75);
    assert_eq!(snap.totals.upstream_json_bytes, 2_100);
}

#[test]
fn figures_of_a_report_add_up() {
    let mut telemetry = Telemetry::starting_at(true, 0);
    let now = 20_000 * DAY;
    for n in 0..200u64 {
        let mut obs = fetch(&format!("/x{}", n % 3), &format!("/p{}", n % 37), n * 11);
        obs.is_error = n % 5 == 0;
        record_at(&mut telemetry, obs, if n % 7 == 0 { "/r" } else { "-" }, now + n, now + n);
    }
    let snap = snapshot_at(&telemetry, now, now + 200, now);
    let d = snap.duplication;
    assert_eq!(
        snap.totals.upstream_requests,
        d.distinct_paths as u64 + d.redundant_requests + d.paths_untracked_over_cap
    );
    assert!(d.redundant_wire_bytes <= snap.totals.upstream_wire_bytes);
    assert_eq!(snap.totals.errors, 40);
    for rows in [&snap.by_upstream_endpoint, &snap.by_inbound_route] {
        assert_eq!(rows.iter().map(|r| r.requests).sum::<u64>(), snap.totals.upstream_requests);
        assert_eq!(rows.iter().map(|r| r.wire_bytes).sum::<u64>(), snap.totals.upstream_wire_bytes);
        assert_eq!(rows.iter().map(|r| r.json_bytes).sum::<u64>(), snap.totals.upstream_json_bytes);
        assert_eq!(rows.iter().map(|r| r.errors).sum::<u64>(), snap.totals.errors);
    }
    assert_eq!(snap.per_minute.iter().map(|m| m.requests).sum::<u64>(), 200);
}

#[test]
fn leaderboards_are_ordered_and_bounded() {
    let mut telemetry = Telemetry::starting_at(true, 0);
    let now = 20_000 * DAY;
    for n in 0..120u64 {
        record_at(&mut telemetry, fetch("/x", &format!("/p{n}"), 1_000 + n), "-", now, now);
    }
    // Ties keep the order in which the paths were first seen.
    for (path, times) in [("/p7", 2), ("/p3", 4), ("/p9", 2)] {
        for _ in 0..times {
            record_at(&mut telemetry, fetch("/x", path, 0), "-", now, now);
        }
    }
    let snap = snapshot_at(&telemetry, now, now, now);
    assert_eq!(snap.heaviest_paths.len(), 50);
    assert_eq!(snap.heaviest_paths[0].path, "/p119");
    assert_eq!(snap.heaviest_paths[49].path, "/p70");
    let repeated: Vec<(&str, u64)> =
        snap.most_refetched_paths.iter().map(|p| (p.path.as_str(), p.requests)).collect();
    assert_eq!(repeated, vec![("/p3", 5), ("/p7", 3), ("/p9", 3)]);
}

#[test]
fn redundant_bytes_are_those_behind_an_average_fetch() {
    let mut telemetry = Telemetry::starting_at(true, 0);
    let now = 20_000 * DAY;
    for bytes in [100, 101, 102] {
        record_at(&mut telemetry, fetch("/x", "/p", bytes), "-", now, now);
    }
    let snap = snapshot_at(&telemetry, now, now, now);
    assert_eq!(snap.duplication.redundant_requests, 2);
    assert_eq!(snap.duplication.redundant_wire_bytes, 303 - 101);
    assert_eq!(snap.duplication.redundant_share_of_bytes.whole, 303);
}

#[test]
fn minutes_come_in_chronological_order() {
    let mut telemetry = Telemetry::starting_at(true, 0);
    // The window straddles a lap of the ring and a change of the year.
    let start = 1_735_689_600 - 7_200;
    for n in [200u64, 3, 150, 90, 3, 121] {
        let at = start + n * 60;
        record_at(&mut telemetry, fetch("/x", "/p", 5), "-", at, at);
    }
    let end = start + 200 * 60;
    let snap = snapshot_at(&telemetry, end, end, end);
    let minutes: Vec<(Option<&str>, u64)> =
        snap.per_minute.iter().map(|m| (m.minute.as_deref(), m.requests)).collect();
    assert_eq!(
        minutes,
        vec![
            (Some("2024-12-31T22:03:00Z"), 2),
            (Some("2024-12-31T23:30:00Z"), 1),
            (Some("2025-01-01T00:01:00Z"), 1),
            (Some("2025-01-01T00:30:00Z"), 1),
            (Some("2025-01-01T01:20:00Z"), 1),
        ]
    );
}

#[test]
fn a_lapped_minute_is_reset() {
    let mut telemetry = Telemetry::starting_at(true, 0);
    let now = 20_000 * DAY + 120;
    record_at(&mut telemetry, fetch("/x", "/p", 5), "-", now, now);
    record_at(&mut telemetry, fetch("/x", "/p", 6), "-", now + DAY, now + DAY);
    let snap = snapshot_at(&telemetry, now + DAY, now + DAY, now);
    assert_eq!(snap.per_minute.len(), 1);
    assert_eq!((snap.per_minute[0].requests, snap.per_minute[0].wire_bytes), (1, 6));
    // A full window later the minute has aged out.
    let later = snapshot_at(&telemetry, now, now + 2 * DAY, now);
    assert!(later.per_minute.is_empty());
    let just_before = snapshot_at(&telemetry, now, now + 2 * DAY - 60, now);
    assert_eq!(just_before.per_minute.len(), 1);
}

#[test]
fn known_paths_keep_counting_past_the_cap() {
    let mut telemetry = Telemetry::starting_at(true, 0);
    let now = 20_000 * DAY;
    for n in 0..MAX_TRACKED_PATHS {
        record_at(&mut telemetry, fetch("/x", &format!("/p{n}"), 1), "-", now, now);
    }
    record_at(&mut telemetry, fetch("/x", "/new", 1), "-", now, now);
    record_at(&mut telemetry, fetch("/x", "/p0", 1), "-", now, now);
    record_at(&mut telemetry, fetch("/x", "/new", 1), "-", now, now);
    let snap = snapshot_at(&telemetry, now, now, now);
    assert_eq!(snap.duplication.distinct_paths, MAX_TRACKED_PATHS);
    assert_eq!(snap.duplication.paths_untracked_over_cap, 2);
    assert_eq!(snap.duplication.redundant_requests, 1);
    assert_eq!(snap.totals.upstream_requests, MAX_TRACKED_PATHS as u64 + 3);
    assert_eq!(snap.most_refetched_paths[0].path, "/p0");
}

#[test]
fn a_miss_without_a_call_counts_no_hit() {
    let mut telemetry = init(Some("1"));
    note_cache_miss(&mut telemetry, "/comments/a");
    let snap = snapshot(&telemetry);
    assert_eq!(snap.response_cache.hits, 0);
    assert_eq!(snap.by_upstream_endpoint[0].cache_hits, 0);
    assert_eq!(snap.by_upstream_endpoint[0].cache_misses, 1);
    assert_eq!(snap.by_upstream_endpoint[0].name, "/comments/:id");
}

#[test]
fn room_is_lacking_where_a_counter_would_overflow() {
    let mut telemetry = Telemetry::starting_at(true, 0);
    let mut huge = fetch("/x", "/p", 5);
    huge.json_bytes = 0;
    huge.wire_bytes = Some(u64::MAX);
    assert!(telemetry.has_room(&huge, &None));
    record_at(&mut telemetry, huge.clone(), "-", 60, 60);
    assert!(telemetry.can_report());
    let mut none = fetch("/x", "/p", 0);
    assert!(telemetry.has_room(&none, &None));
    none.wire_bytes = Some(1);
    assert!(!telemetry.has_room(&none, &None));
    // Another endpoint, route and path still have room, but the minute has not.
    none.endpoint = "/y".into();
    none.path = "/q".into();
    assert!(!telemetry.has_room(&none, &Some("/z".to_string())));
    assert!(telemetry.has_room_for_call("/x"));
    assert!(telemetry.has_room_for_miss("/x"));
    // Another minute has room; the totals are then beyond a report.
    record_at(&mut telemetry, none, "/z", 600, 600);
    assert!(!telemetry.can_report());
}

#[test]
fn the_minute_curve_stays_within_the_totals() {
    let mut telemetry = Telemetry::starting_at(true, 0);
    let start = 20_000 * DAY;
    for n in 0..30u64 {
        let at = start + n * 7 * 3_600;
        record_at(&mut telemetry, fetch("/x", "/p", 10), "-", at, at);
    }
    let end = start + 29 * 7 * 3_600;
    let snap = snapshot_at(&telemetry, end, end, end);
    assert_eq!(snap.totals.upstream_requests, 30);
    // Four of the fetches lie within the last day.
    assert_eq!(snap.per_minute.iter().map(|m| m.requests).sum::<u64>(), 4);
    assert_eq!(snap.per_minute.iter().map(|m| m.wire_bytes).sum::<u64>(), 40);
}

#[test]
fn misses_by_endpoint_add_up_to_all_misses() {
    let mut telemetry = init(Some("true"));
    for path in ["/r/a/hot", "/r/b/hot", "/search?q=x", "/comments/z"] {
        note_json_call(&mut telemetry, path);
        note_json_call(&mut telemetry, path);
        note_cache_miss(&mut telemetry, path);
    }
    let snap = snapshot(&telemetry);
    assert_eq!(snap.by_upstream_endpoint.len(), 3);
    let misses: u64 = snap.by_upstream_endpoint.iter().map(|r| r.cache_misses).sum();
    let hits: u64 = snap.by_upstream_endpoint.iter().map(|r| r.cache_hits).sum();
    assert_eq!((misses, hits), (4, 4));
    assert_eq!(snap.response_cache.misses, misses);
    assert_eq!(snap.response_cache.calls, hits + misses);
}

#[test]
fn status_counts_of_a_report_add_up_to_its_requests() {
    let mut telemetry = Telemetry::starting_at(true, 0);
    for n in 0..40u64 {
        let mut obs = fetch("/x", "/p", n);
        obs.status = if n % 4 == 0 { 429 } else { 200 };
        obs.wire_bytes = if n % 2 == 0 { None } else { Some(n) };
        record_at(&mut telemetry, obs, "/r", 90_000 + n, 90_000 + n);
    }
    let snap = snapshot_at(&telemetry, 90_100, 90_100, 90_100);
    let row = &snap.by_inbound_route[0];
    assert_eq!(row.status.get(&429), Some(&10));
    assert_eq!(row.status.get(&200), Some(&30));
    assert_eq!(row.responses_without_content_length, 20);
    assert_eq!(row.wire_bytes_percentiles.unwrap().samples, 40);
    let durations = row.duration_ms_percentiles.unwrap();
    assert_eq!((durations.p25, durations.p99, durations.max), (10, 10, 10));
}
