use redlib_ops::clock::{age, age_at, clamp, iso, now_secs};
use redlib_ops::health::{
    init, note_ratelimit, note_ratelimit_at, note_rollover_failure, note_rollover_failure_at,
    note_rollover_success, note_rollover_success_at, note_token_issued, note_token_issued_at,
    note_upstream, note_upstream_at, snapshot, snapshot_at, starting_at, Oauth, Readings,
};

fn oauth(remaining: u16, rolling_over: bool) -> Oauth {
    Oauth { backend: "mobile_spoof".to_string(), expires_in: 86_400, remaining, rolling_over }
}

fn at(now: u64) -> Readings {
    Readings { token: now, rollover: now, uptime: now, reset: now }
}

#[test]
fn timestamps_are_written_as_iso_8601() {
    assert_eq!(iso(0), None);
    assert_eq!(iso(1).as_deref(), Some("1970-01-01T00:00:01Z"));
    assert_eq!(iso(1_700_000_000).as_deref(), Some("2023-11-14T22:13:20Z"));
    assert_eq!(iso(951_827_696).as_deref(), Some("2000-02-29T12:34:56Z"));
    assert_eq!(iso(253_402_300_799).as_deref(), Some("9999-12-31T23:59:59Z"));
    assert_eq!(iso(253_402_300_800), None);
    assert_eq!(iso(u64::MAX).as_deref(), Some("1969-12-31T23:59:59Z"));
}

#[test]
fn texts_sort_as_the_seconds_do() {
    let mut before = String::new();
    for n in 0..2_000u64 {
        let text = iso(1 + n * 126_000_000).unwrap();
        assert!(before < text);
        assert_eq!(text.len(), 20);
        assert!(text.ends_with('Z'));
        before = text;
    }
}

#[test]
fn the_clock_does_not_run_backwards_from_zero() {
    assert_eq!(clamp(-1), 0);
    assert_eq!(clamp(i64::MIN), 0);
    assert_eq!(clamp(7), 7);
    assert!(now_secs() > 1_700_000_000);
}

#[test]
fn ages_are_none_for_what_never_happened() {
    assert_eq!(age_at(0, 500), None);
    assert_eq!(age_at(200, 500), Some(300));
    assert_eq!(age_at(600, 500), Some(0));
    assert_eq!(age(0), None);
    assert!(age(1).unwrap() > 1_700_000_000);
}

#[test]
fn a_fresh_instance_is_ok() {
    let health = starting_at(1_000);
    let report = snapshot_at(&health, &oauth(100, false), at(1_250));
    assert_eq!(report.status, "ok");
    assert!(report.reasons.is_empty());
    assert_eq!(report.uptime_seconds, 250);
    assert_eq!(report.oauth.backend, "mobile_spoof");
    assert_eq!(report.oauth.token_age_seconds, None);
    assert_eq!(report.oauth.token_expires_in_seconds, 86_400);
    assert_eq!(report.ratelimit.remaining, 100);
    assert_eq!(report.ratelimit.resets_in_seconds, None);
    assert_eq!(report.upstream.last_status, None);
    assert_eq!(report.upstream.last_error_message, None);
}

#[test]
fn every_reason_is_named_in_order() {
    let mut health = starting_at(1_000);
    note_token_issued_at(&mut health, 1_000);
    note_upstream_at(&mut health, 502, Some("bad gateway".to_string()), 1_100);
    let report = snapshot_at(&health, &oauth(10, true), at(100_000));
    assert_eq!(report.status, "degraded");
    assert_eq!(
        report.reasons,
        vec![
            "oauth_rollover_stuck",
            "oauth_token_expired",
            "last_upstream_request_failed",
            "ratelimit_exhausted"
        ]
    );
}

#[test]
fn the_rate_limit_degrades_at_its_bound() {
    let health = starting_at(1_000);
    assert_eq!(snapshot_at(&health, &oauth(11, false), at(1_000)).status, "ok");
    let report = snapshot_at(&health, &oauth(10, false), at(1_000));
    assert_eq!(report.reasons, vec!["ratelimit_exhausted"]);
}

#[test]
fn a_rollover_is_stuck_behind_its_allowance() {
    let mut health = starting_at(1_000);
    assert_eq!(snapshot_at(&health, &oauth(50, true), at(1_300)).status, "ok");
    assert_eq!(snapshot_at(&health, &oauth(50, true), at(1_301)).reasons, vec!["oauth_rollover_stuck"]);
    assert_eq!(snapshot_at(&health, &oauth(50, false), at(9_999)).status, "ok");
    // A failure dates it anew.
    note_rollover_failure_at(&mut health, 2_000);
    let report = snapshot_at(&health, &oauth(50, true), at(2_300));
    assert_eq!(report.status, "ok");
    assert_eq!(report.oauth.rollover_failures_total, 1);
    assert_eq!(report.oauth.last_rollover_failure.as_deref(), Some("1970-01-01T00:33:20Z"));
    assert_eq!(snapshot_at(&health, &oauth(50, true), at(2_301)).status, "degraded");
}

#[test]
fn a_token_expires_behind_its_lifetime() {
    let mut health = starting_at(1_000);
    note_rollover_success_at(&mut health, 5_000, 5_001);
    let report = snapshot_at(&health, &oauth(50, false), at(5_001 + 86_400));
    assert_eq!(report.status, "ok");
    assert_eq!(report.oauth.token_age_seconds, Some(86_400));
    assert_eq!(report.oauth.last_rollover_success.as_deref(), Some("1970-01-01T01:23:20Z"));
    let late = snapshot_at(&health, &oauth(50, false), at(5_002 + 86_400));
    assert_eq!(late.reasons, vec!["oauth_token_expired"]);
}

#[test]
fn a_failed_call_degrades_until_the_next_success() {
    let mut health = starting_at(1_000);
    note_upstream_at(&mut health, 200, None, 1_100);
    note_upstream_at(&mut health, 0, Some("timed out".to_string()), 1_100);
    let report = snapshot_at(&health, &oauth(50, false), at(1_200));
    assert_eq!(report.reasons, vec!["last_upstream_request_failed"]);
    assert_eq!(report.upstream.last_status, None);
    note_upstream_at(&mut health, 200, None, 1_100);
    assert_eq!(snapshot_at(&health, &oauth(50, false), at(1_200)).status, "ok");
    note_upstream_at(&mut health, 200, None, 1_101);
    let mended = snapshot_at(&health, &oauth(50, false), at(1_200));
    assert_eq!(mended.status, "ok");
    assert_eq!(mended.upstream.last_status, Some(200));
    assert_eq!(mended.upstream.last_error_message.as_deref(), Some("timed out"));
    assert_eq!((mended.upstream.requests_total, mended.upstream.errors_total), (4, 1));
    assert_eq!(mended.upstream.last_success.as_deref(), Some("1970-01-01T00:18:21Z"));
    assert_eq!(mended.upstream.last_error.as_deref(), Some("1970-01-01T00:18:20Z"));
}

#[test]
fn the_most_recent_call_decides_whatever_the_clock_reads() {
    let mut health = starting_at(1_000);
    note_upstream_at(&mut health, 503, Some("e".into()), 1_500);
    note_upstream_at(&mut health, 200, None, 1_500);
    assert!(snapshot_at(&health, &oauth(50, false), at(1_500)).reasons.is_empty());
    // The clock is set back between a failure and a success, and the other way.
    note_upstream_at(&mut health, 503, Some("e".into()), 1_600);
    note_upstream_at(&mut health, 200, None, 1_400);
    assert!(snapshot_at(&health, &oauth(50, false), at(1_600)).reasons.is_empty());
    note_upstream_at(&mut health, 503, Some("e".into()), 1_300);
    let report = snapshot_at(&health, &oauth(50, false), at(1_600));
    assert_eq!(report.reasons, vec!["last_upstream_request_failed"]);
}

#[test]
fn rate_limit_headers_are_kept_where_absent() {
    let mut health = starting_at(1_000);
    note_ratelimit_at(&mut health, Some(60), Some(40), 2_000);
    note_ratelimit_at(&mut health, None, None, 2_010);
    let report = snapshot_at(&health, &oauth(50, false), at(2_020));
    assert_eq!(report.ratelimit.resets_in_seconds, Some(40));
    assert_eq!(report.ratelimit.used, 40);
    assert_eq!(report.ratelimit.last_seen.as_deref(), Some("1970-01-01T00:33:30Z"));
    assert_eq!(snapshot_at(&health, &oauth(50, false), at(2_060)).ratelimit.resets_in_seconds, Some(0));
    assert_eq!(snapshot_at(&health, &oauth(50, false), at(2_061)).ratelimit.resets_in_seconds, None);
    note_ratelimit_at(&mut health, Some(u64::MAX), None, 2_020);
    assert_eq!(health.ratelimit_reset_at, u64::MAX);
}

#[test]
fn notes_are_dated_by_the_clock() {
    let before = now_secs();
    let mut health = init();
    note_token_issued(&mut health);
    note_rollover_success(&mut health);
    note_rollover_failure(&mut health);
    note_ratelimit(&mut health, Some(100), Some(3));
    note_upstream(&mut health, 200, None);
    note_upstream(&mut health, 500, Some("down".to_string()));
    let after = now_secs();
    for stamp in [
        health.started_at,
        health.token_issued_at,
        health.last_rollover_ok_at,
        health.last_rollover_fail_at,
        health.ratelimit_reset_at - 100,
        health.ratelimit_seen_at,
        health.upstream_ok_at,
        health.upstream_err_at,
    ] {
        assert!(before <= stamp && stamp <= after);
    }
    let report = snapshot(&health, &oauth(50, false));
    assert_eq!(report.reasons, vec!["last_upstream_request_failed"]);
    assert!(report.uptime_seconds < 60);
}

#[test]
fn counters_start_over_behind_their_largest_value() {
    let mut health = starting_at(1);
    health.upstream_requests = u64::MAX;
    note_upstream_at(&mut health, 200, None, 5);
    assert_eq!(health.upstream_requests, 0);
}
