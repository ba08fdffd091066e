//! Operational health of this instance: whether it is working, and not only
//! listening. Covers the OAuth token's age and backend, Reddit's own rate-limit
//! accounting as of the last upstream response, and whether the most recent
//! upstream call succeeded.

use vstd::prelude::*;

use crate::clock::{age_at, iso, now_secs};
use crate::counter::bump;

verus! {

/// Rate-limit headroom at or below which the instance is degraded. The client
/// spawns a roll-over under 10, so sitting at or below that means roll-over is
/// not keeping up.
pub const RATELIMIT_DEGRADED_BELOW: u16 = 10;

/// How long a roll-over may stay in flight before it counts as wedged. A healthy
/// one completes in seconds; the retry backoff holds the flag across a failure,
/// so a long-held flag means repeated failure.
pub const ROLLOVER_STUCK_AFTER_SECS: u64 = 300;

/// What was noted of the instance. A timestamp of zero means "never happened".
pub struct Health {
    pub started_at: u64,
    pub token_issued_at: u64,
    pub last_rollover_ok_at: u64,
    pub last_rollover_fail_at: u64,
    pub rollover_failures: u64,
    pub ratelimit_reset_at: u64,
    pub ratelimit_used: u16,
    pub ratelimit_seen_at: u64,
    pub upstream_last_status: u16,
    pub upstream_ok_at: u64,
    pub upstream_err_at: u64,
    /// Whether the most recent upstream request failed. The timestamps do not
    /// tell: two requests may end within one second, and a clock may be set back.
    pub upstream_last_failed: bool,
    pub upstream_requests: u64,
    pub upstream_errors: u64,
    pub upstream_last_error: Option<String>,
}

/// What the OAuth client says of itself at the time of a report.
pub struct Oauth {
    pub backend: String,
    pub expires_in: u64,
    /// Requests left before the rate limit.
    pub remaining: u16,
    pub rolling_over: bool,
}

/// The clock readings, in seconds, that a report takes: for the token's age, for
/// the age of a roll-over in flight, for the uptime, and for the reset of the
/// rate limit.
#[derive(Clone, Copy)]
pub struct Readings {
    pub token: u64,
    pub rollover: u64,
    pub uptime: u64,
    pub reset: u64,
}

impl Health {
    /// The state at the start: nothing has happened yet.
    pub open spec fn starts(self, now: u64) -> bool {
        self == (Health {
            started_at: now,
            token_issued_at: 0,
            last_rollover_ok_at: 0,
            last_rollover_fail_at: 0,
            rollover_failures: 0,
            ratelimit_reset_at: 0,
            ratelimit_used: 0,
            ratelimit_seen_at: 0,
            upstream_last_status: 0,
            upstream_ok_at: 0,
            upstream_err_at: 0,
            upstream_last_failed: false,
            upstream_requests: 0,
            upstream_errors: 0,
            upstream_last_error: None,
        })
    }

    /// After a fresh OAuth token came into use.
    pub open spec fn token_issued(self, now: u64) -> Health {
        Health { token_issued_at: now, ..self }
    }

    /// After a roll-over produced a new client, and with it a fresh token. The
    /// two clock readings are those for the roll-over and for the token.
    pub open spec fn rolled_over(self, now: u64, issued: u64) -> Health {
        Health { last_rollover_ok_at: now, token_issued_at: issued, ..self }
    }

    /// After a roll-over exhausted both backends and kept the old client.
    pub open spec fn rollover_failed(self, now: u64) -> Health {
        Health {
            last_rollover_fail_at: now,
            rollover_failures: crate::counter::next(self.rollover_failures),
            ..self
        }
    }

    /// After rate-limit headers were seen. A header that is absent leaves its
    /// value alone.
    pub open spec fn ratelimited(
        self,
        reset_in: Option<u64>,
        used: Option<u16>,
        now: u64,
    ) -> Health {
        Health {
            ratelimit_reset_at: match reset_in {
                Some(secs) => if now + secs > u64::MAX {
                    u64::MAX
                } else {
                    (now + secs) as u64
                },
                None => self.ratelimit_reset_at,
            },
            ratelimit_used: match used {
                Some(count) => count,
                None => self.ratelimit_used,
            },
            ratelimit_seen_at: now,
            ..self
        }
    }

    /// After an upstream request. The last error message outlives the error.
    pub open spec fn upstream(self, status: u16, error: Option<String>, now: u64) -> Health {
        let counted = Health {
            upstream_requests: crate::counter::next(self.upstream_requests),
            upstream_last_status: status,
            upstream_last_failed: error is Some,
            ..self
        };
        match error {
            Some(message) => Health {
                upstream_errors: crate::counter::next(self.upstream_errors),
                upstream_err_at: now,
                upstream_last_error: Some(message),
                ..counted
            },
            None => Health { upstream_ok_at: now, ..counted },
        }
    }

    /// Since when a roll-over in flight is dated: from the last failure, since
    /// the retry backoff holds the flag; with no failure yet, from the start.
    pub open spec fn rollover_since(self) -> u64 {
        if self.last_rollover_fail_at == 0 {
            self.started_at
        } else {
            self.last_rollover_fail_at
        }
    }

    /// Whether a roll-over has been in flight far longer than a healthy one
    /// takes.
    pub open spec fn rollover_stuck(self, oauth: Oauth, now: u64) -> bool {
        oauth.rolling_over && self.rollover_since() != 0 && crate::clock::elapsed(
            now,
            self.rollover_since(),
        ) > ROLLOVER_STUCK_AFTER_SECS
    }

    /// Whether the token has outlived its own expiry: the refresh daemon is not
    /// running, and requests will start failing once Reddit notices.
    pub open spec fn token_expired(self, oauth: Oauth, now: u64) -> bool {
        self.token_issued_at != 0 && crate::clock::elapsed(now, self.token_issued_at)
            > oauth.expires_in
    }

    /// Whether the most recent upstream call failed.
    pub open spec fn last_call_failed(self) -> bool {
        self.upstream_last_failed
    }

    /// Whether the instance is degraded.
    pub open spec fn degraded(self, oauth: Oauth, clock: Readings) -> bool {
        ||| self.rollover_stuck(oauth, clock.rollover)
        ||| self.token_expired(oauth, clock.token)
        ||| self.last_call_failed()
        ||| oauth.remaining <= RATELIMIT_DEGRADED_BELOW
    }

    /// What is wrong, by name.
    pub open spec fn reasons(self, oauth: Oauth, clock: Readings) -> Seq<Seq<char>> {
        when(self.rollover_stuck(oauth, clock.rollover), "oauth_rollover_stuck"@) + when(
            self.token_expired(oauth, clock.token),
            "oauth_token_expired"@,
        ) + when(self.last_call_failed(), "last_upstream_request_failed"@) + when(
            oauth.remaining <= RATELIMIT_DEGRADED_BELOW,
            "ratelimit_exhausted"@,
        )
    }
}

/// A name, if the condition holds.
pub open spec fn when(condition: bool, name: Seq<char>) -> Seq<Seq<char>> {
    if condition {
        seq![name]
    } else {
        Seq::empty()
    }
}

/// Stamps the start. Called during startup, so that uptime is measured from boot
/// rather than from the first health check.
pub fn init() -> (health: Health)
    ensures
        exists|now: u64| now <= crate::clock::LAST_SECOND && #[trigger] health.starts(now),
{
    let now: u64 = now_secs();
    let health: Health = starting_at(now);
    assert(health.starts(now));
    health
}

/// The state of an instance that started at `now`.
pub fn starting_at(now: u64) -> (health: Health)
    ensures
        health.starts(now),
{
    Health {
        started_at: now,
        token_issued_at: 0,
        last_rollover_ok_at: 0,
        last_rollover_fail_at: 0,
        rollover_failures: 0,
        ratelimit_reset_at: 0,
        ratelimit_used: 0,
        ratelimit_seen_at: 0,
        upstream_last_status: 0,
        upstream_ok_at: 0,
        upstream_err_at: 0,
        upstream_last_failed: false,
        upstream_requests: 0,
        upstream_errors: 0,
        upstream_last_error: None,
    }
}

/// Records that a fresh OAuth token is now in use.
pub fn note_token_issued(health: &mut Health)
    ensures
        exists|now: u64|
            now <= crate::clock::LAST_SECOND && *final(health) == #[trigger] old(
                health,
            ).token_issued(now),
{
    let now: u64 = now_secs();
    note_token_issued_at(health, now);
}

/// Records that a fresh OAuth token came into use at `now`.
pub fn note_token_issued_at(health: &mut Health, now: u64)
    ensures
        *final(health) == old(health).token_issued(now),
{
    health.token_issued_at = now;
}

/// Records a roll-over that produced a new client.
pub fn note_rollover_success(health: &mut Health)
    ensures
        exists|now: u64, issued: u64|
            now <= crate::clock::LAST_SECOND && issued <= crate::clock::LAST_SECOND
                && *final(health) == #[trigger] old(health).rolled_over(now, issued),
{
    let now: u64 = now_secs();
    let issued: u64 = now_secs();
    note_rollover_success_at(health, now, issued);
}

/// Records a roll-over that produced a new client at `now`, whose token is dated
/// `issued`.
pub fn note_rollover_success_at(health: &mut Health, now: u64, issued: u64)
    ensures
        *final(health) == old(health).rolled_over(now, issued),
{
    health.last_rollover_ok_at = now;
    note_token_issued_at(health, issued);
}

/// Records a roll-over that exhausted both backends and kept the old client.
pub fn note_rollover_failure(health: &mut Health)
    ensures
        exists|now: u64|
            now <= crate::clock::LAST_SECOND && *final(health) == #[trigger] old(
                health,
            ).rollover_failed(now),
{
    let now: u64 = now_secs();
    note_rollover_failure_at(health, now);
}

/// Records a roll-over that failed at `now`.
pub fn note_rollover_failure_at(health: &mut Health, now: u64)
    ensures
        *final(health) == old(health).rollover_failed(now),
{
    health.last_rollover_fail_at = now;
    health.rollover_failures = bump(health.rollover_failures);
}

/// Records Reddit's rate-limit headers from an upstream response, rounded to
/// whole seconds and requests.
pub fn note_ratelimit(health: &mut Health, reset_in: Option<u64>, used: Option<u16>)
    ensures
        exists|now: u64|
            now <= crate::clock::LAST_SECOND && *final(health) == #[trigger] old(
                health,
            ).ratelimited(reset_in, used, now),
{
    let now: u64 = now_secs();
    note_ratelimit_at(health, reset_in, used, now);
}

/// Records rate-limit headers that were seen at `now`.
pub fn note_ratelimit_at(health: &mut Health, reset_in: Option<u64>, used: Option<u16>, now: u64)
    ensures
        *final(health) == old(health).ratelimited(reset_in, used, now),
{
    if let Some(secs) = reset_in {
        health.ratelimit_reset_at = now.saturating_add(secs);
    }
    if let Some(count) = used {
        health.ratelimit_used = count;
    }
    health.ratelimit_seen_at = now;
}

/// Records the outcome of an upstream Reddit request.
pub fn note_upstream(health: &mut Health, status: u16, error: Option<String>)
    ensures
        exists|now: u64|
            now <= crate::clock::LAST_SECOND && *final(health) == #[trigger] old(
                health,
            ).upstream(status, error, now),
{
    let now: u64 = now_secs();
    note_upstream_at(health, status, error, now);
}

/// Records the outcome of an upstream Reddit request that ended at `now`.
pub fn note_upstream_at(health: &mut Health, status: u16, error: Option<String>, now: u64)
    ensures
        *final(health) == old(health).upstream(status, error, now),
{
    health.upstream_requests = bump(health.upstream_requests);
    health.upstream_last_status = status;
    health.upstream_last_failed = error.is_some();
    match error {
        Some(message) => {
            health.upstream_errors = bump(health.upstream_errors);
            health.upstream_err_at = now;
            health.upstream_last_error = Some(message);
        },
        None => {
            health.upstream_ok_at = now;
        },
    }
}

/// The OAuth part of a health report.
#[derive(Debug)]
pub struct OauthReport {
    pub backend: String,
    pub token_age_seconds: Option<u64>,
    pub token_expires_in_seconds: u64,
    pub rolling_over: bool,
    pub last_rollover_success: Option<String>,
    pub last_rollover_failure: Option<String>,
    pub rollover_failures_total: u64,
}

/// The rate-limit part of a health report.
#[derive(Debug)]
pub struct RatelimitReport {
    pub remaining: u16,
    pub used: u16,
    pub resets_in_seconds: Option<u64>,
    pub last_seen: Option<String>,
}

/// The upstream part of a health report.
#[derive(Debug)]
pub struct UpstreamReport {
    pub last_status: Option<u16>,
    pub last_success: Option<String>,
    pub last_error: Option<String>,
    pub last_error_message: Option<String>,
    pub requests_total: u64,
    pub errors_total: u64,
}

/// A health report.
#[derive(Debug)]
pub struct HealthReport {
    pub status: &'static str,
    pub reasons: Vec<&'static str>,
    pub uptime_seconds: u64,
    pub oauth: OauthReport,
    pub ratelimit: RatelimitReport,
    pub upstream: UpstreamReport,
}

/// Whether `report` reports the OAuth client.
pub open spec fn reports_oauth(
    report: OauthReport,
    health: Health,
    oauth: Oauth,
    clock: Readings,
) -> bool {
    &&& report.backend@ == oauth.backend@
    &&& report.token_age_seconds == crate::clock::age_from(health.token_issued_at, clock.token)
    &&& report.token_expires_in_seconds == oauth.expires_in
    &&& report.rolling_over == oauth.rolling_over
    &&& crate::clock::optional_text(report.last_rollover_success) == crate::clock::iso_text(
        health.last_rollover_ok_at,
    )
    &&& crate::clock::optional_text(report.last_rollover_failure) == crate::clock::iso_text(
        health.last_rollover_fail_at,
    )
    &&& report.rollover_failures_total == health.rollover_failures
}

/// Whether `report` reports the rate limit.
pub open spec fn reports_ratelimit(
    report: RatelimitReport,
    health: Health,
    oauth: Oauth,
    clock: Readings,
) -> bool {
    &&& report.remaining == oauth.remaining
    &&& report.used == health.ratelimit_used
    &&& report.resets_in_seconds == if health.ratelimit_reset_at == 0 || health.ratelimit_reset_at
        < clock.reset {
        None
    } else {
        Some((health.ratelimit_reset_at - clock.reset) as u64)
    }
    &&& crate::clock::optional_text(report.last_seen) == crate::clock::iso_text(
        health.ratelimit_seen_at,
    )
}

/// Whether `report` reports the upstream calls.
pub open spec fn reports_upstream(report: UpstreamReport, health: Health) -> bool {
    &&& report.last_status == if health.upstream_last_status == 0 {
        None
    } else {
        Some(health.upstream_last_status)
    }
    &&& crate::clock::optional_text(report.last_success) == crate::clock::iso_text(
        health.upstream_ok_at,
    )
    &&& crate::clock::optional_text(report.last_error) == crate::clock::iso_text(
        health.upstream_err_at,
    )
    &&& report.last_error_message == health.upstream_last_error
    &&& report.requests_total == health.upstream_requests
    &&& report.errors_total == health.upstream_errors
}

/// Whether `report` reports the instance.
pub open spec fn reports(
    report: HealthReport,
    health: Health,
    oauth: Oauth,
    clock: Readings,
) -> bool {
    &&& report.status@ == if health.degraded(oauth, clock) {
        "degraded"@
    } else {
        "ok"@
    }
    &&& report.reasons@.map_values(|reason: &'static str| reason@) == health.reasons(oauth, clock)
    &&& report.uptime_seconds == if health.started_at == 0 {
        0
    } else {
        crate::clock::elapsed(clock.uptime, health.started_at)
    }
    &&& reports_oauth(report.oauth, health, oauth, clock)
    &&& reports_ratelimit(report.ratelimit, health, oauth, clock)
    &&& reports_upstream(report.upstream, health)
}

/// The names of what is wrong.
fn name_reasons(stuck: bool, expired: bool, failed: bool, exhausted: bool) -> (reasons: Vec<
    &'static str,
>)
    ensures
        reasons@.map_values(|reason: &'static str| reason@) == when(stuck, "oauth_rollover_stuck"@)
            + when(expired, "oauth_token_expired"@) + when(failed, "last_upstream_request_failed"@)
            + when(exhausted, "ratelimit_exhausted"@),
{
    let mut reasons: Vec<&'static str> = Vec::new();
    if stuck {
        reasons.push("oauth_rollover_stuck");
    }
    if expired {
        reasons.push("oauth_token_expired");
    }
    if failed {
        reasons.push("last_upstream_request_failed");
    }
    if exhausted {
        reasons.push("ratelimit_exhausted");
    }
    assert(reasons@.map_values(|reason: &'static str| reason@) =~= when(
        stuck,
        "oauth_rollover_stuck"@,
    ) + when(expired, "oauth_token_expired"@) + when(failed, "last_upstream_request_failed"@)
        + when(exhausted, "ratelimit_exhausted"@));
    reasons
}

/// Reports the instance at the given clock readings.
pub fn snapshot_at(health: &Health, oauth: &Oauth, clock: Readings) -> (report: HealthReport)
    ensures
        reports(report, *health, *oauth, clock),
{
    let token_age: Option<u64> = age_at(health.token_issued_at, clock.token);
    let rollover_since: u64 = if health.last_rollover_fail_at == 0 {
        health.started_at
    } else {
        health.last_rollover_fail_at
    };
    let rollover_age: u64 = match age_at(rollover_since, clock.rollover) {
        Some(age) => age,
        None => 0,
    };
    let stuck: bool = oauth.rolling_over && rollover_age > ROLLOVER_STUCK_AFTER_SECS;
    let expired: bool = match token_age {
        Some(age) => age > oauth.expires_in,
        None => false,
    };
    let failed: bool = health.upstream_last_failed;
    let exhausted: bool = oauth.remaining <= RATELIMIT_DEGRADED_BELOW;
    let degraded: bool = stuck || expired || failed || exhausted;
    let reset_at: u64 = health.ratelimit_reset_at;
    HealthReport {
        status: if degraded {
            "degraded"
        } else {
            "ok"
        },
        reasons: name_reasons(stuck, expired, failed, exhausted),
        uptime_seconds: match age_at(health.started_at, clock.uptime) {
            Some(age) => age,
            None => 0,
        },
        oauth: OauthReport {
            backend: oauth.backend.clone(),
            token_age_seconds: token_age,
            token_expires_in_seconds: oauth.expires_in,
            rolling_over: oauth.rolling_over,
            last_rollover_success: iso(health.last_rollover_ok_at),
            last_rollover_failure: iso(health.last_rollover_fail_at),
            rollover_failures_total: health.rollover_failures,
        },
        ratelimit: RatelimitReport {
            remaining: oauth.remaining,
            used: health.ratelimit_used,
            resets_in_seconds: if reset_at > 0 {
                reset_at.checked_sub(clock.reset)
            } else {
                None
            },
            last_seen: iso(health.ratelimit_seen_at),
        },
        upstream: UpstreamReport {
            last_status: if health.upstream_last_status == 0 {
                None
            } else {
                Some(health.upstream_last_status)
            },
            last_success: iso(health.upstream_ok_at),
            last_error: iso(health.upstream_err_at),
            last_error_message: match &health.upstream_last_error {
                Some(message) => Some(message.clone()),
                None => None,
            },
            requests_total: health.upstream_requests,
            errors_total: health.upstream_errors,
        },
    }
}

/// Reports the instance, now.
pub fn snapshot(health: &Health, oauth: &Oauth) -> (report: HealthReport)
    ensures
        exists|clock: Readings|
            {
                &&& clock.token <= crate::clock::LAST_SECOND
                &&& clock.rollover <= crate::clock::LAST_SECOND
                &&& clock.uptime <= crate::clock::LAST_SECOND
                &&& clock.reset <= crate::clock::LAST_SECOND
                &&& #[trigger] reports(report, *health, *oauth, clock)
            },
{
    let token: u64 = now_secs();
    let rollover: u64 = now_secs();
    let uptime: u64 = now_secs();
    let reset: u64 = now_secs();
    snapshot_at(health, oauth, Readings { token, rollover, uptime, reset })
}

/// An instance is reported as degraded exactly when something is named as wrong.
pub proof fn lemma_degraded_has_reason(health: Health, oauth: Oauth, clock: Readings)
    ensures
        health.degraded(oauth, clock) <==> health.reasons(oauth, clock).len() > 0,
{
}

/// An instance that has just started, has headroom and is not rolling over is
/// well.
pub proof fn lemma_fresh_is_ok(health: Health, oauth: Oauth, clock: Readings, now: u64)
    requires
        health.starts(now),
        !oauth.rolling_over,
        oauth.remaining > RATELIMIT_DEGRADED_BELOW,
    ensures
        !health.degraded(oauth, clock),
        health.reasons(oauth, clock) == Seq::<Seq<char>>::empty(),
{
    assert(health.reasons(oauth, clock) =~= Seq::<Seq<char>>::empty());
}

/// A failed upstream call degrades the instance until the next one succeeds,
/// whatever the clock reads. The message of the failure stays.
pub proof fn lemma_failure_until_success(
    health: Health,
    status: u16,
    message: String,
    failed: u64,
    next_status: u16,
    succeeded: u64,
)
    ensures
        ({
            let broken = health.upstream(status, Some(message), failed);
            let mended = broken.upstream(next_status, None, succeeded);
            &&& broken.last_call_failed()
            &&& !mended.last_call_failed()
            &&& mended.upstream_last_error == Some(message)
        }),
{
}

/// No more errors than requests are counted, as long as the request counter has
/// not wrapped around.
pub proof fn lemma_errors_within_requests(
    health: Health,
    status: u16,
    error: Option<String>,
    now: u64,
)
    requires
        health.upstream_errors <= health.upstream_requests < u64::MAX,
    ensures
        ({
            let after = health.upstream(status, error, now);
            after.upstream_errors <= after.upstream_requests
        }),
{
}

/// A roll-over that produced a new client brings a fresh token: it is not expired
/// for as long as it is valid.
pub proof fn lemma_rollover_renews_token(
    health: Health,
    oauth: Oauth,
    now: u64,
    issued: u64,
    later: u64,
)
    requires
        later <= issued + oauth.expires_in,
    ensures
        !health.rolled_over(now, issued).token_expired(oauth, later),
{
}

/// A roll-over in flight counts as stuck only behind its allowance, dated anew by
/// each failure.
pub proof fn lemma_failure_redates_rollover(health: Health, oauth: Oauth, failed: u64, now: u64)
    requires
        failed > 0,
    ensures
        health.rollover_failed(failed).rollover_stuck(oauth, now) <==> oauth.rolling_over && now
            > failed + ROLLOVER_STUCK_AFTER_SECS,
{
}

/// The names of what is wrong, as a report has them.
pub open spec fn named(report: HealthReport) -> Seq<Seq<char>> {
    report.reasons@.map_values(|reason: &'static str| reason@)
}

/// The rank of a name among what can be wrong, from one on; zero for any other.
pub open spec fn rank(name: Seq<char>) -> int {
    if name == "oauth_rollover_stuck"@ {
        1
    } else if name == "oauth_token_expired"@ {
        2
    } else if name == "last_upstream_request_failed"@ {
        3
    } else if name == "ratelimit_exhausted"@ {
        4
    } else {
        0
    }
}

/// The names of what can be wrong differ.
proof fn lemma_reasons_differ()
    ensures
        rank("oauth_rollover_stuck"@) == 1,
        rank("oauth_token_expired"@) == 2,
        rank("last_upstream_request_failed"@) == 3,
        rank("ratelimit_exhausted"@) == 4,
{
    reveal_strlit("oauth_rollover_stuck");
    reveal_strlit("oauth_token_expired");
    reveal_strlit("last_upstream_request_failed");
    reveal_strlit("ratelimit_exhausted");
    assert("oauth_rollover_stuck"@.len() == 20 && "oauth_token_expired"@.len() == 19
        && "last_upstream_request_failed"@.len() == 28 && "ratelimit_exhausted"@.len() == 19);
    assert("oauth_token_expired"@[0] == 'o' && "ratelimit_exhausted"@[0] == 'r');
}

/// Joining names in front of others.
proof fn lemma_when(condition: bool, name: Seq<char>, others: Seq<Seq<char>>, other: Seq<char>)
    ensures
        (others + when(condition, name)).contains(other) <==> others.contains(other) || condition
            && other == name,
{
    let all = others + when(condition, name);
    if others.contains(other) {
        let i = choose|i: int| 0 <= i < others.len() && others[i] == other;
        assert(all[i] == other);
    }
    if condition && other == name {
        assert(all[others.len() as int] == other);
    }
    if all.contains(other) {
        let i = choose|i: int| 0 <= i < all.len() && all[i] == other;
        if i < others.len() {
            assert(others[i] == other);
        }
    }
}

/// Which names a report gives, and when: a token is expired exactly when its
/// reported age exceeds its reported life; the rate limit is exhausted exactly
/// when ten or fewer requests are left; a roll-over is stuck exactly when it is
/// in flight more than 300 seconds behind the last failure, or behind the start
/// where none failed; and the last request failed exactly when that was noted.
pub proof fn lemma_reasons_named(
    report: HealthReport,
    health: Health,
    oauth: Oauth,
    clock: Readings,
)
    requires
        reports(report, health, oauth, clock),
    ensures
        named(report).contains("oauth_token_expired"@) <==> (
        report.oauth.token_age_seconds matches Some(age) && age
            > report.oauth.token_expires_in_seconds),
        named(report).contains("ratelimit_exhausted"@) <==> report.ratelimit.remaining <= 10,
        named(report).contains("last_upstream_request_failed"@) <==> health.upstream_last_failed,
        named(report).contains("oauth_rollover_stuck"@) <==> report.oauth.rolling_over && {
            if health.last_rollover_fail_at > 0 {
                clock.rollover > health.last_rollover_fail_at + 300
            } else {
                health.started_at > 0 && clock.rollover > health.started_at + 300
            }
        },
        report.status@ == "degraded"@ <==> report.reasons@.len() > 0,
        report.status@ == "ok"@ <==> report.reasons@.len() == 0,
{
    lemma_reasons_differ();
    reveal_strlit("degraded");
    reveal_strlit("ok");
    assert("degraded"@.len() != "ok"@.len());
    let none = Seq::<Seq<char>>::empty();
    let stuck = health.rollover_stuck(oauth, clock.rollover);
    let expired = health.token_expired(oauth, clock.token);
    let failed = health.last_call_failed();
    let exhausted = oauth.remaining <= RATELIMIT_DEGRADED_BELOW;
    let one = when(stuck, "oauth_rollover_stuck"@);
    let two = one + when(expired, "oauth_token_expired"@);
    let three = two + when(failed, "last_upstream_request_failed"@);
    let all = three + when(exhausted, "ratelimit_exhausted"@);
    assert(named(report) == all);
    assert(none + one =~= one);
    assert forall|other: Seq<char>| #[trigger] all.contains(other) <==> {
        ||| stuck && other == "oauth_rollover_stuck"@
        ||| expired && other == "oauth_token_expired"@
        ||| failed && other == "last_upstream_request_failed"@
        ||| exhausted && other == "ratelimit_exhausted"@
    } by {
        lemma_when(stuck, "oauth_rollover_stuck"@, none, other);
        lemma_when(expired, "oauth_token_expired"@, one, other);
        lemma_when(failed, "last_upstream_request_failed"@, two, other);
        lemma_when(exhausted, "ratelimit_exhausted"@, three, other);
    }
}

/// A report names nothing but what can be wrong, each once, and in one order.
pub proof fn lemma_reasons_in_order(
    report: HealthReport,
    health: Health,
    oauth: Oauth,
    clock: Readings,
)
    requires
        reports(report, health, oauth, clock),
    ensures
        forall|i: int| 0 <= i < named(report).len() ==> rank(#[trigger] named(report)[i]) > 0,
        forall|i: int, j: int|
            #![trigger named(report)[i], named(report)[j]]
            0 <= i < j < named(report).len() ==> rank(named(report)[i]) < rank(named(report)[j]),
{
    lemma_reasons_differ();
    assert(named(report) == health.reasons(oauth, clock));
}

/// The view of an optional text in a report.
pub open spec fn shown(text: Option<String>) -> Option<Seq<char>> {
    match text {
        Some(t) => Some(t@),
        None => None,
    }
}

/// The text of a moment: nothing for one that never came, else its date and time.
pub open spec fn dated(secs: u64) -> Option<Seq<char>> {
    if secs == 0 {
        None
    } else {
        crate::clock::formatted_utc(
            secs as i64,
            "[year]-[month]-[day]T[hour]:[minute]:[second]Z"@,
        )
    }
}

/// What a report says of the OAuth client and of the instance's age: the age of
/// the token is the time since it was issued, and none where none was.
pub proof fn lemma_oauth_reported(
    report: HealthReport,
    health: Health,
    oauth: Oauth,
    clock: Readings,
)
    requires
        reports(report, health, oauth, clock),
    ensures
        report.oauth.backend@ == oauth.backend@,
        report.oauth.token_expires_in_seconds == oauth.expires_in,
        report.oauth.rolling_over == oauth.rolling_over,
        report.oauth.rollover_failures_total == health.rollover_failures,
        shown(report.oauth.last_rollover_success) == dated(health.last_rollover_ok_at),
        shown(report.oauth.last_rollover_failure) == dated(health.last_rollover_fail_at),
        health.token_issued_at == 0 <==> report.oauth.token_age_seconds is None,
        report.oauth.token_age_seconds matches Some(age) ==> if clock.token
            >= health.token_issued_at {
            health.token_issued_at + age == clock.token
        } else {
            age == 0
        },
        if health.started_at > 0 && clock.uptime >= health.started_at {
            health.started_at + report.uptime_seconds == clock.uptime
        } else {
            report.uptime_seconds == 0
        },
{
}

/// What a report says of the rate limit and of the upstream calls. The time to
/// the reset is shown until the reset has passed.
pub proof fn lemma_upstream_reported(
    report: HealthReport,
    health: Health,
    oauth: Oauth,
    clock: Readings,
)
    requires
        reports(report, health, oauth, clock),
    ensures
        report.ratelimit.remaining == oauth.remaining,
        report.ratelimit.used == health.ratelimit_used,
        report.ratelimit.resets_in_seconds is Some <==> health.ratelimit_reset_at > 0
            && health.ratelimit_reset_at >= clock.reset,
        report.ratelimit.resets_in_seconds matches Some(secs) ==> clock.reset + secs
            == health.ratelimit_reset_at,
        shown(report.ratelimit.last_seen) == dated(health.ratelimit_seen_at),
        report.upstream.last_status is Some <==> health.upstream_last_status > 0,
        report.upstream.last_status matches Some(status) ==> status == health.upstream_last_status,
        shown(report.upstream.last_success) == dated(health.upstream_ok_at),
        shown(report.upstream.last_error) == dated(health.upstream_err_at),
        shown(report.upstream.last_error_message) == shown(health.upstream_last_error),
        report.upstream.requests_total == health.upstream_requests,
        report.upstream.errors_total == health.upstream_errors,
{
}

/// What an instance that starts has noted: when it started, and nothing else.
pub proof fn lemma_start_noted(health: Health, now: u64)
    requires
        health.starts(now),
    ensures
        health.started_at == now,
        health.token_issued_at == 0,
        health.last_rollover_ok_at == 0,
        health.last_rollover_fail_at == 0,
        health.rollover_failures == 0,
        health.ratelimit_reset_at == 0,
        health.ratelimit_used == 0,
        health.ratelimit_seen_at == 0,
        health.upstream_last_status == 0,
        health.upstream_ok_at == 0,
        health.upstream_err_at == 0,
        !health.upstream_last_failed,
        health.upstream_requests == 0,
        health.upstream_errors == 0,
        health.upstream_last_error is None,
{
}

/// What a note on the OAuth client changes: its own timestamps and tally, and
/// nothing else.
pub proof fn lemma_oauth_noted(health: Health, now: u64, issued: u64)
    ensures
        health.token_issued(issued) == (Health { token_issued_at: issued, ..health }),
        health.rolled_over(now, issued) == (Health {
            last_rollover_ok_at: now,
            token_issued_at: issued,
            ..health
        }),
        health.rollover_failed(now) == (Health {
            last_rollover_fail_at: now,
            rollover_failures: health.rollover_failed(now).rollover_failures,
            ..health
        }),
        health.rollover_failures < u64::MAX ==> health.rollover_failed(now).rollover_failures
            == health.rollover_failures + 1,
        health.rollover_failures == u64::MAX ==> health.rollover_failed(now).rollover_failures == 0,
{
}

/// What a note on the rate limit changes: each header that was there its value,
/// and when they were seen.
pub proof fn lemma_ratelimit_noted(
    health: Health,
    reset_in: Option<u64>,
    used: Option<u16>,
    now: u64,
)
    ensures
        ({
            let after = health.ratelimited(reset_in, used, now);
            &&& after == (Health {
                ratelimit_reset_at: after.ratelimit_reset_at,
                ratelimit_used: after.ratelimit_used,
                ratelimit_seen_at: now,
                ..health
            })
            &&& reset_in is None ==> after.ratelimit_reset_at == health.ratelimit_reset_at
            &&& reset_in matches Some(secs) ==> now + secs <= u64::MAX
                ==> after.ratelimit_reset_at == now + secs
            &&& reset_in matches Some(secs) ==> now + secs > u64::MAX ==> after.ratelimit_reset_at
                == u64::MAX
            &&& used is None ==> after.ratelimit_used == health.ratelimit_used
            &&& used matches Some(count) ==> after.ratelimit_used == count
        }),
{
}

/// What a note on an upstream call changes: it counts, its status and outcome are
/// the last ones, and either the failure or the success is dated.
pub proof fn lemma_upstream_noted(health: Health, status: u16, error: Option<String>, now: u64)
    ensures
        ({
            let after = health.upstream(status, error, now);
            &&& after == (Health {
                upstream_requests: after.upstream_requests,
                upstream_errors: after.upstream_errors,
                upstream_last_status: status,
                upstream_last_failed: error is Some,
                upstream_ok_at: after.upstream_ok_at,
                upstream_err_at: after.upstream_err_at,
                upstream_last_error: after.upstream_last_error,
                ..health
            })
            &&& health.upstream_requests < u64::MAX ==> after.upstream_requests
                == health.upstream_requests + 1
            &&& health.upstream_requests == u64::MAX ==> after.upstream_requests == 0
            &&& error is Some ==> {
                &&& after.upstream_err_at == now
                &&& after.upstream_ok_at == health.upstream_ok_at
                &&& after.upstream_last_error == error
                &&& health.upstream_errors < u64::MAX ==> after.upstream_errors
                    == health.upstream_errors + 1
                &&& health.upstream_errors == u64::MAX ==> after.upstream_errors == 0
            }
            &&& error is None ==> {
                &&& after.upstream_ok_at == now
                &&& after.upstream_err_at == health.upstream_err_at
                &&& after.upstream_last_error == health.upstream_last_error
                &&& after.upstream_errors == health.upstream_errors
            }
        }),
{
}

/// A failed roll-over keeps the old token: at the same readings it is reported as
/// old as before, and as expired exactly if it was before.
pub proof fn lemma_failed_rollover_keeps_token(
    before: HealthReport,
    after: HealthReport,
    health: Health,
    oauth: Oauth,
    clock: Readings,
    failed: u64,
)
    requires
        reports(before, health, oauth, clock),
        reports(after, health.rollover_failed(failed), oauth, clock),
    ensures
        after.oauth.token_age_seconds == before.oauth.token_age_seconds,
        named(after).contains("oauth_token_expired"@) <==> named(before).contains(
            "oauth_token_expired"@,
        ),
{
    lemma_reasons_named(before, health, oauth, clock);
    lemma_reasons_named(after, health.rollover_failed(failed), oauth, clock);
}

/// A fresh token is expired as soon as it is older than its life, and not before,
/// whatever else was noted.
pub proof fn lemma_token_life(
    report: HealthReport,
    health: Health,
    oauth: Oauth,
    clock: Readings,
    issued: u64,
)
    requires
        issued > 0,
        reports(report, health.token_issued(issued), oauth, clock),
    ensures
        named(report).contains("oauth_token_expired"@) <==> clock.token > issued + oauth.expires_in,
{
    lemma_reasons_named(report, health.token_issued(issued), oauth, clock);
}

/// The next call decides: after a failed call the report names it, and after a
/// call that succeeded it does not, whatever came before.
pub proof fn lemma_last_call_decides(
    report: HealthReport,
    health: Health,
    oauth: Oauth,
    clock: Readings,
    status: u16,
    error: Option<String>,
    now: u64,
)
    requires
        reports(report, health.upstream(status, error, now), oauth, clock),
    ensures
        named(report).contains("last_upstream_request_failed"@) <==> error is Some,
{
    lemma_reasons_named(report, health.upstream(status, error, now), oauth, clock);
}

} // verus!
