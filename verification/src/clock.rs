//! Wall-clock seconds, ages and their ISO-8601 text. A stored timestamp of zero
//! means "never happened".

use vstd::prelude::*;

verus! {

/// The first second that has a calendar date: the start of the year -9999.
pub const FIRST_SECOND: i64 = -377_705_116_800;

/// The last second that has a calendar date: the end of the year 9999.
pub const LAST_SECOND: i64 = 253_402_300_799;

/// The shape of the timestamps in the reports.
pub const ISO_FORMAT: &'static str = "[year]-[month]-[day]T[hour]:[minute]:[second]Z";

/// The UTC date and time of a Unix timestamp, written as a format description
/// asks, or nothing where that fails.
pub uninterp spec fn formatted_utc(secs: i64, description: Seq<char>) -> Option<Seq<char>>;

/// `time::OffsetDateTime::now_utc`, as a Unix timestamp. Nothing is said of what
/// the clock reads but that it is a second with a calendar date: an
/// `OffsetDateTime` holds no other. On a machine whose clock is set beyond that
/// the call panics, which no argument could rule out.
#[verifier::external_body]
fn unix_now() -> (secs: i64)
    ensures
        FIRST_SECOND <= secs <= LAST_SECOND,
{
    time::OffsetDateTime::now_utc().unix_timestamp()
}

/// `time::OffsetDateTime::from_unix_timestamp` and `format`, with the format
/// description read by `time::format_description::parse_borrowed`. The one
/// description admitted is [`ISO_FORMAT`]: on some malformed ones the parser
/// trips over an assertion of its own. A timestamp without a calendar date has
/// no text, and every other has one. From 1970 on, where each field is
/// zero-padded to a fixed width and the greater unit stands first, the text has
/// 20 characters, ends in `Z`, and sorts as the seconds do.
#[verifier::external_body]
fn format_utc(secs: i64, description: &str) -> (text: Option<String>)
    requires
        description@ == ISO_FORMAT@,
    ensures
        match text {
            Some(t) => formatted_utc(secs, description@) == Some(t@),
            None => formatted_utc(secs, description@) is None,
        },
        text is Some <==> FIRST_SECOND <= secs <= LAST_SECOND,
        0 <= secs <= LAST_SECOND ==> text->0@.len() == 20 && text->0@.last() == 'Z',
        0 <= secs <= LAST_SECOND ==> forall|earlier: i64|
            0 <= earlier < secs ==> (#[trigger] formatted_utc(earlier, ISO_FORMAT@) matches Some(
                before,
            ) ==> crate::text::text_lt(before, text->0@)),
{
    let format = time::format_description::parse_borrowed::<1>(description).ok()?;
    time::OffsetDateTime::from_unix_timestamp(secs).ok()?.format(&format).ok()
}

/// The seconds of a clock reading; the time before 1970 counts as zero.
pub open spec fn clamped(reading: i64) -> u64 {
    if reading < 0 {
        0
    } else {
        reading as u64
    }
}

/// The seconds of a clock reading.
pub fn clamp(reading: i64) -> (secs: u64)
    ensures
        secs == clamped(reading),
{
    if reading < 0 {
        0
    } else {
        reading as u64
    }
}

/// The current time in seconds since 1970. Nothing is said of which second it
/// is.
pub fn now_secs() -> (secs: u64)
    ensures
        secs <= LAST_SECOND,
{
    clamp(unix_now())
}

/// The text of a stored timestamp.
pub open spec fn iso_text(secs: u64) -> Option<Seq<char>> {
    if secs == 0 {
        None
    } else {
        formatted_utc(secs as i64, ISO_FORMAT@)
    }
}

/// The view of an optional text.
pub open spec fn optional_text(text: Option<String>) -> Option<Seq<char>> {
    match text {
        Some(t) => Some(t@),
        None => None,
    }
}

/// Formats a stored timestamp as UTC ISO-8601. Zero means "never happened", and
/// has no text. A stored timestamp with a calendar date has a text of 20
/// characters that ends in `Z`, and of two of them the later has the text that
/// sorts later.
pub fn iso(secs: u64) -> (text: Option<String>)
    ensures
        optional_text(text) == iso_text(secs),
        0 < secs <= LAST_SECOND ==> text is Some && text->0@.len() == 20 && text->0@.last()
            == 'Z',
        LAST_SECOND < secs <= i64::MAX ==> text is None,
        0 < secs <= LAST_SECOND ==> forall|earlier: u64|
            0 < earlier < secs ==> (#[trigger] iso_text(earlier) matches Some(before)
                ==> crate::text::text_lt(before, text->0@)),
{
    if secs == 0 {
        return None;
    }
    format_utc(secs as i64, ISO_FORMAT)
}

/// The seconds from `since` to `now`, none where `since` is later.
pub open spec fn elapsed(now: u64, since: u64) -> u64 {
    if now < since {
        0
    } else {
        (now - since) as u64
    }
}

/// How long ago a stored timestamp was, read at `now`.
pub open spec fn age_from(secs: u64, now: u64) -> Option<u64> {
    if secs == 0 {
        None
    } else {
        Some(elapsed(now, secs))
    }
}

/// Seconds from a stored timestamp to `now`, or nothing if it never happened.
pub fn age_at(secs: u64, now: u64) -> (age: Option<u64>)
    ensures
        age == age_from(secs, now),
{
    if secs == 0 {
        None
    } else {
        Some(now.saturating_sub(secs))
    }
}

/// Seconds elapsed since a stored timestamp, or nothing if it never happened.
pub fn age(secs: u64) -> (age: Option<u64>)
    ensures
        exists|now: u64| now <= LAST_SECOND && age == #[trigger] age_from(secs, now),
{
    let now: u64 = now_secs();
    age_at(secs, now)
}

/// The text of a stored timestamp: nothing for one that never came, else its date
/// and time, from the year down to the second.
pub proof fn lemma_iso_text(secs: u64)
    ensures
        iso_text(0) is None,
        secs > 0 ==> iso_text(secs) == formatted_utc(
            secs as i64,
            "[year]-[month]-[day]T[hour]:[minute]:[second]Z"@,
        ),
{
}

/// The age of a stored timestamp: none for one that never came, else the seconds
/// that have passed, and zero for one that lies ahead.
pub proof fn lemma_age(secs: u64, now: u64)
    ensures
        age_from(secs, now) is None <==> secs == 0,
        age_from(secs, now) matches Some(age) ==> now >= secs ==> secs + age == now,
        age_from(secs, now) matches Some(age) ==> now < secs ==> age == 0,
{
}

/// A clock reading from 1970 on is its own number of seconds, and one before
/// counts as zero.
pub proof fn lemma_clamped(reading: i64)
    ensures
        reading >= 0 ==> clamped(reading) == reading,
        reading < 0 ==> clamped(reading) == 0,
{
}

} // verus!
