//! Instants and Central wall-clock time. An instant is a UTC Unix timestamp in
//! whole seconds; a local wall-clock reading is counted the same way, as if it
//! were UTC. Entry times are typed in Central time (`America/Chicago`) and
//! stored in UTC; `chrono` and `chrono-tz` do the parsing and the time zone
//! arithmetic.

use vstd::prelude::*;
use chrono::{DateTime, Local, NaiveDateTime, TimeZone, Timelike, Utc};
use chrono::offset::LocalResult;
use chrono_tz::America::Chicago;
use crate::text::{two_digits, digit_value};
use crate::calendar::date_from_ymd_text;

verus! {

/// Earliest timestamp of a representable instant (00:00:00 of the first
/// representable date).
pub const FIRST_TIMESTAMP: i64 = -8334601228800;

/// Latest whole-second timestamp of a representable instant (23:59:59 of the
/// last representable date).
pub const LAST_TIMESTAMP: i64 = 8210266876799;

/// Whether `t` is the timestamp of a representable instant.
pub open spec fn valid_timestamp(t: int) -> bool {
    FIRST_TIMESTAMP <= t <= LAST_TIMESTAMP
}

/// A chrono parse error, carried inside the library's own errors.
#[verifier::external_type_specification]
#[verifier::external_body]
pub struct ExParseError(chrono::format::ParseError);

/// How a Central wall-clock reading maps to UTC.
#[derive(Debug, Clone, Copy, PartialEq, Eq, Structural)]
pub enum LocalMapping {
    /// The reading names exactly one instant.
    Single(i64),
    /// The reading falls in a fold and names two instants, earliest first.
    Ambiguous(i64, i64),
    /// The reading falls in a gap and names no instant.
    Missing,
}

/// Why a Central date and time could not be turned into an instant.
#[derive(Debug, Clone, Copy)]
pub enum TimeConversionError {
    /// The text is not a `YYYY-MM-DD` date and `HH:MM` time.
    InvalidDateTime(chrono::format::ParseError),
    /// The wall-clock time is ambiguous or does not exist in Central time.
    AmbiguousOrInvalid,
}

/// The wall-clock reading (as seconds) that
/// Whether `c` is an ASCII digit.
pub open spec fn is_digit(c: char) -> bool {
    '0' <= c <= '9'
}

/// The minute of the day that a 24-hour `HH:MM` text names: two digits of
/// hour below 24, a colon, two digits of minute below 60.
pub open spec fn clock_minutes(t: Seq<char>) -> Option<int> {
    if t.len() == 5 && t[2] == ':' && is_digit(t[0]) && is_digit(t[1]) && is_digit(t[3]) && is_digit(t[4]) {
        let h = digit_value(t[0]) * 10 + digit_value(t[1]);
        let m = digit_value(t[3]) * 10 + digit_value(t[4]);
        if h < 24 && m < 60 {
            Some(h * 60 + m)
        } else {
            None
        }
    } else {
        None
    }
}

/// The wall-clock reading, in seconds counted as if it were UTC, of minute
/// `minute` of day number `day` (day 719163 is 1970-01-01).
pub open spec fn wall_seconds(day: int, minute: int) -> int {
    (day - 719163) * 86400 + minute * 60
}

/// The reading of a text made of a `%Y-%m-%d` date, `T`, a `HH:MM` time and
/// `:00`, when it has that shape.
pub open spec fn date_time_reading(s: Seq<char>) -> Option<int> {
    let n = s.len() as int;
    if n >= 9 && s[n - 9] == 'T' && s[n - 3] == ':' && s[n - 2] == '0' && s[n - 1] == '0' {
        match (date_from_ymd_text(s.subrange(0, n - 9)), clock_minutes(s.subrange(n - 8, n - 3))) {
            (Some(day), Some(minute)) => Some(wall_seconds(day as int, minute)),
            _ => None,
        }
    } else {
        None
    }
}

/// `NaiveDateTime::parse_from_str(s, "%Y-%m-%dT%H:%M:%S")` reads from `s`,
/// if it accepts `s`.
pub uninterp spec fn local_datetime_of(s: Seq<char>) -> Option<i64>;

/// How chrono-tz maps the Central wall-clock reading `local` to UTC
/// (`Chicago.from_local_datetime`).
pub uninterp spec fn chicago_local_to_utc(local: int) -> LocalMapping;

/// The `%H:%M` text of the instant `utc` in Central time.
pub uninterp spec fn central_hhmm(utc: int) -> Seq<char>;

/// Whether `t` is a 24-hour `HH:MM` time: two-digit hour 00 to 23, a colon,
/// two-digit minute 00 to 59.
pub open spec fn is_hhmm(t: Seq<char>) -> bool {
    exists|h: int, m: int|
        0 <= h < 24 && 0 <= m < 60 && t == two_digits(h) + seq![':'] + two_digits(m)
}

/// `NaiveDateTime::parse_from_str(s, "%Y-%m-%dT%H:%M:%S")`, giving the
/// reading as whole seconds (`and_utc().timestamp()`). Claimed: success and
/// value are the named parse of `s`, and a parsed reading is representable.
/// Sub-second parts are dropped; the texts this library builds end in `:00`
/// seconds and have none. Also claimed, as chrono's parsing of these fields
/// documents: a text made of a date that `%Y-%m-%d` reads, `T`, a 24-hour
/// `HH:MM` time and `:00` reads as that date at that hour and minute, so its
/// reading is the date's day number times 86400 seconds (from 1970-01-01)
/// plus the time's seconds.
#[verifier::external_body]
fn parse_local_datetime(s: &str) -> (r: Result<i64, chrono::format::ParseError>)
    ensures
        r is Ok <==> local_datetime_of(s@) is Some,
        r matches Ok(v) ==> local_datetime_of(s@) == Some(v) && valid_timestamp(v as int),
        date_time_reading(s@) is Some ==> r is Ok && r.unwrap() as int == date_time_reading(s@).unwrap(),
{
    match NaiveDateTime::parse_from_str(s, "%Y-%m-%dT%H:%M:%S") {
        Ok(n) => Ok(n.and_utc().timestamp()),
        Err(e) => Err(e),
    }
}

/// `Chicago.from_local_datetime` of the wall-clock reading `local`, each
/// resulting instant as its UTC timestamp. Claimed: the result is the named
/// mapping, and the two instants of an ambiguous reading come earliest first,
/// as chrono documents.
#[verifier::external_body]
fn chicago_from_local(local: i64) -> (r: LocalMapping)
    requires
        valid_timestamp(local as int),
    ensures
        r == chicago_local_to_utc(local as int),
        r matches LocalMapping::Ambiguous(a, b) ==> a <= b,
{
    let naive = DateTime::from_timestamp(local, 0).unwrap().naive_utc();
    match Chicago.from_local_datetime(&naive) {
        LocalResult::Single(t) => LocalMapping::Single(t.timestamp()),
        LocalResult::Ambiguous(a, b) => LocalMapping::Ambiguous(a.timestamp(), b.timestamp()),
        LocalResult::None => LocalMapping::Missing,
    }
}

/// `with_timezone(&Chicago).format("%H:%M").to_string()` of the instant
/// `utc`. Claimed: the named text, which chrono documents as a zero-padded
/// two-digit hour 00 to 23, a colon and a two-digit minute 00 to 59.
#[verifier::external_body]
fn central_hhmm_text(utc: i64) -> (r: String)
    requires
        valid_timestamp(utc as int),
    ensures
        r@ == central_hhmm(utc as int),
        is_hhmm(r@),
{
    DateTime::from_timestamp(utc, 0).unwrap().with_timezone(&Chicago).format("%H:%M").to_string()
}

/// `Local::now()` as hour and minute of the day. Claimed only the ranges
/// chrono documents (hour 0 to 23, minute 0 to 59): it depends on the clock.
#[verifier::external_body]
pub(crate) fn local_hour_minute() -> (r: (u32, u32))
    ensures
        r.0 < 24,
        r.1 < 60,
{
    let now = Local::now();
    (now.hour(), now.minute())
}

/// `Utc::now().timestamp()`. Claimed only that the instant is representable:
/// it depends on the clock.
#[verifier::external_body]
pub(crate) fn utc_now() -> (r: i64)
    ensures
        valid_timestamp(r as int),
{
    Utc::now().timestamp()
}

/// The text parsed for a Central date and time: `{date}T{time}:00`.
pub open spec fn central_datetime_text(date: Seq<char>, time: Seq<char>) -> Seq<char> {
    date + "T"@ + time + ":00"@
}

/// The instant a Central date and time name, if exactly one.
pub open spec fn central_instant(date: Seq<char>, time: Seq<char>) -> Option<int> {
    match local_datetime_of(central_datetime_text(date, time)) {
        Some(local) => match chicago_local_to_utc(local as int) {
            LocalMapping::Single(u) => Some(u as int),
            _ => None,
        },
        None => None,
    }
}

/// Whether the outcome `r` of converting a Central date and time is the one
/// the conversion owes: the instant when the text parses and names exactly
/// one instant, an invalid-text error when it does not parse, and an
/// ambiguity error otherwise.
pub open spec fn central_outcome(
    date: Seq<char>,
    time: Seq<char>,
    r: Result<i64, TimeConversionError>,
) -> bool {
    match local_datetime_of(central_datetime_text(date, time)) {
        None => r matches Err(TimeConversionError::InvalidDateTime(_)),
        Some(local) => match chicago_local_to_utc(local as int) {
            LocalMapping::Single(u) => r == Ok::<i64, TimeConversionError>(u),
            _ => r matches Err(TimeConversionError::AmbiguousOrInvalid),
        },
    }
}

/// Converts a local Central `YYYY-MM-DD` date and `HH:MM` time to the UTC
/// instant it names.
pub fn central_to_utc(date: &str, time: &str) -> (r: Result<i64, TimeConversionError>)
    ensures
        central_outcome(date@, time@, r),
        r matches Ok(u) ==> central_instant(date@, time@) == Some(u as int),
        r is Ok <==> central_instant(date@, time@) is Some,
        date_from_ymd_text(date@) matches Some(day) ==> (clock_minutes(time@) matches Some(minute) ==> match chicago_local_to_utc(
            wall_seconds(day as int, minute),
        ) {
            LocalMapping::Single(u) => r == Ok::<i64, TimeConversionError>(u),
            _ => r matches Err(TimeConversionError::AmbiguousOrInvalid),
        }),
{
    let mut text = String::from_str(date);
    text.append("T");
    text.append(time);
    text.append(":00");
    assert(text@ == central_datetime_text(date@, time@));
    proof {
        reveal_strlit("T");
        reveal_strlit(":00");
        if date_from_ymd_text(date@) is Some && clock_minutes(time@) is Some {
            let n = text@.len() as int;
            assert(n == date@.len() + 9);
            assert(text@.subrange(0, n - 9) =~= date@);
            assert(text@.subrange(n - 8, n - 3) =~= time@);
            assert(text@[n - 9] == 'T');
            assert(text@[n - 3] == ':' && text@[n - 2] == '0' && text@[n - 1] == '0');
        }
    }
    match parse_local_datetime(text.as_str()) {
        Err(e) => Err(TimeConversionError::InvalidDateTime(e)),
        Ok(local) => match chicago_from_local(local) {
            LocalMapping::Single(u) => Ok(u),
            _ => Err(TimeConversionError::AmbiguousOrInvalid),
        },
    }
}

/// Converts an entry's Central start and optional end time on `date` to UTC,
/// the start first.
pub fn entry_times(date: &str, start: &str, end: Option<&str>) -> (r: Result<(i64, Option<i64>), TimeConversionError>)
    ensures
        r is Ok <==> (central_instant(date@, start@) is Some
            && (end matches Some(e) ==> central_instant(date@, e@) is Some)),
        r matches Ok((s, e)) ==> central_instant(date@, start@) == Some(s as int)
            && (match end {
                Some(t) => e matches Some(u) && central_instant(date@, t@) == Some(u as int),
                None => e is None,
            }),
        r matches Err(err) ==> if central_instant(date@, start@) is None {
            central_outcome(date@, start@, Err(err))
        } else {
            end matches Some(t) && central_outcome(date@, t@, Err(err))
        },
{
    let s = match central_to_utc(date, start) {
        Ok(s) => s,
        Err(e) => return Err(e),
    };
    match end {
        None => Ok((s, None)),
        Some(t) => match central_to_utc(date, t) {
            Ok(u) => Ok((s, Some(u))),
            Err(e) => Err(e),
        },
    }
}

/// Converts a UTC instant to `HH:MM` in Central time.
pub fn utc_to_central_hhmm(utc: i64) -> (r: String)
    requires
        valid_timestamp(utc as int),
    ensures
        r@ == central_hhmm(utc as int),
        is_hhmm(r@),
{
    central_hhmm_text(utc)
}

} // verus!
