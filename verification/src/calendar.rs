//! Calendar days. A date is modelled by its day number in the proleptic
//! Gregorian calendar counted from the common era (0001-01-01 is day 1), the
//! numbering of `chrono`'s `Datelike::num_days_from_ce`. Parsing and
//! formatting of dates is done by `chrono`; moving between days is day-number
//! arithmetic, checked against the range of dates that `chrono` represents.

use vstd::prelude::*;
use chrono::{Datelike, Local, NaiveDate};

verus! {

/// Day number of the earliest date `chrono` represents (January 1, 262144 BCE).
pub const FIRST_DAY: i32 = -95746129;

/// Day number of the latest date `chrono` represents (December 31, 262142 CE).
pub const LAST_DAY: i32 = 95745399;

/// Whether `d` is the day number of a representable date.
pub open spec fn valid_day(d: int) -> bool {
    FIRST_DAY <= d <= LAST_DAY
}

/// Day of the week of day number `d`, counted from Sunday (Sunday is 0,
/// Saturday is 6). Day 1 (0001-01-01) is a Monday and weekdays repeat every
/// seven days.
pub open spec fn weekday_from_sunday(d: int) -> int {
    d % 7
}

/// The day number that `NaiveDate::parse_from_str(s, "%Y-%m-%d")` reads
/// from `s`, if it accepts `s`.
pub uninterp spec fn date_from_ymd_text(s: Seq<char>) -> Option<i32>;

/// The day number that `s.parse::<NaiveDate>()` reads from `s`, if it
/// accepts `s`.
pub uninterp spec fn date_from_str(s: Seq<char>) -> Option<i32>;

/// The text of `NaiveDate::format(pattern)` for day number `days`.
pub uninterp spec fn date_formatted(days: int, pattern: Seq<char>) -> Seq<char>;

/// The month (1 to 12) of day number `days`, as `Datelike::month`.
pub uninterp spec fn date_month(days: int) -> u32;

/// The day of the month (1 to 31) of day number `days`, as `Datelike::day`.
pub uninterp spec fn date_day(days: int) -> u32;

/// The date patterns this library formats with.
pub open spec fn supported_date_pattern(p: Seq<char>) -> bool {
    p == "%Y-%m-%d"@ || p == "%a"@ || p == "%a %m/%d"@
}

/// The `YYYY-MM-DD` text of day number `d` (the `Display` text of a
/// `NaiveDate`, which chrono documents as equal to its `%Y-%m-%d` format).
pub open spec fn date_text(d: int) -> Seq<char> {
    date_formatted(d, "%Y-%m-%d"@)
}

/// `NaiveDate::parse_from_str(s, "%Y-%m-%d")`, giving the parsed date's day
/// number. Claimed: the result is the named parse of `s`, and a parsed date is
/// a representable one.
#[verifier::external_body]
fn parse_ymd(s: &str) -> (r: Option<i32>)
    ensures
        r == date_from_ymd_text(s@),
        r matches Some(d) ==> valid_day(d as int),
{
    match NaiveDate::parse_from_str(s, "%Y-%m-%d") {
        Ok(d) => Some(d.num_days_from_ce()),
        Err(_) => None,
    }
}

/// `<NaiveDate as FromStr>::from_str(s)`, giving the parsed date's day number.
/// Claimed: the result is the named parse of `s`, and a parsed date is a
/// representable one.
#[verifier::external_body]
pub(crate) fn parse_date(s: &str) -> (r: Option<i32>)
    ensures
        r == date_from_str(s@),
        r matches Some(d) ==> valid_day(d as int),
{
    match s.parse::<NaiveDate>() {
        Ok(d) => Some(d.num_days_from_ce()),
        Err(_) => None,
    }
}

/// `NaiveDate::format(pattern).to_string()` for the date with day number
/// `days`. Claimed: the text is the named format of the day; for the pattern
/// `%Y-%m-%d` the text parses back to the same date both with `FromStr` and
/// with `parse_from_str(.., "%Y-%m-%d")` (chrono documents that `Display`
/// equals `%Y-%m-%d`, that `FromStr` reads that format, and its `%Y` reads
/// the signed years that formatting writes outside 0000 to 9999). Only the patterns this library uses are admitted, as an
/// unsupported pattern makes `to_string` panic.
#[verifier::external_body]
pub(crate) fn format_day(days: i32, pattern: &str) -> (r: String)
    requires
        valid_day(days as int),
        supported_date_pattern(pattern@),
    ensures
        r@ == date_formatted(days as int, pattern@),
        pattern@ == "%Y-%m-%d"@ ==> date_from_str(r@) == Some(days),
        pattern@ == "%Y-%m-%d"@ ==> date_from_ymd_text(r@) == Some(days),
{
    NaiveDate::from_num_days_from_ce_opt(days).unwrap().format(pattern).to_string()
}

/// The day of the week of a day number, counted from Sunday: day 1
/// (0001-01-01) is a Monday and weekdays repeat every seven days.
fn weekday_of(days: i32) -> (r: u32)
    ensures
        r as int == weekday_from_sunday(days as int),
{
    let shifted: i64 = days as i64 + 2_800_000_000;
    let w = shifted % 7;
    assert(w as int == (days as int) % 7) by {
        assert((days as int + 2_800_000_000) % 7 == (days as int) % 7) by (nonlinear_arith);
    }
    w as u32
}

/// `Datelike::month` of the date with day number `days`. Claimed: the named
/// month, which chrono documents to lie in 1 to 12.
#[verifier::external_body]
fn month_of(days: i32) -> (r: u32)
    requires
        valid_day(days as int),
    ensures
        r == date_month(days as int),
        1 <= r <= 12,
{
    NaiveDate::from_num_days_from_ce_opt(days).unwrap().month()
}

/// `Datelike::day` of the date with day number `days`. Claimed: the named
/// day of the month, which chrono documents to lie in 1 to 31.
#[verifier::external_body]
fn day_of_month(days: i32) -> (r: u32)
    requires
        valid_day(days as int),
    ensures
        r == date_day(days as int),
        1 <= r <= 31,
{
    NaiveDate::from_num_days_from_ce_opt(days).unwrap().day()
}

/// `Local::now().date_naive()`, today's date in local time. Claimed only that
/// it is a representable date: it depends on the clock.
#[verifier::external_body]
fn local_today() -> (r: i32)
    ensures
        valid_day(r as int),
{
    Local::now().date_naive().num_days_from_ce()
}

/// The `YYYY-MM-DD` text of a representable day number.
pub fn day_text(days: i32) -> (r: String)
    requires
        valid_day(days as int),
    ensures
        r@ == date_text(days as int),
        date_from_str(r@) == Some(days),
        date_from_ymd_text(r@) == Some(days),
{
    format_day(days, "%Y-%m-%d")
}

/// Whether moving `delta` days from the date that `date` denotes stays among
/// representable dates (trivially so when `date` is not a `YYYY-MM-DD` date).
pub open spec fn navigable(date: Seq<char>, delta: int) -> bool {
    date_from_ymd_text(date) matches Some(d) ==> valid_day(d + delta)
}

/// What `navigate_date` returns: the date `delta` days from `date`, or `date`
/// itself when it is not a `YYYY-MM-DD` date.
pub open spec fn navigated(date: Seq<char>, delta: int) -> Seq<char> {
    match date_from_ymd_text(date) {
        Some(d) => date_text(d + delta),
        None => date,
    }
}

/// Navigates a `YYYY-MM-DD` date by `delta` days (positive is forward); text
/// that is not such a date is returned unchanged.
pub fn navigate_date(date: &str, delta: i64) -> (r: String)
    requires
        navigable(date@, delta as int),
    ensures
        r@ == navigated(date@, delta as int),
        date_from_ymd_text(date@) matches Some(d) ==> valid_day(d as int),
        date_from_ymd_text(date@) matches Some(d) ==> date_from_ymd_text(r@) == Some((d + delta) as i32),
        date_from_ymd_text(date@) matches Some(d) ==> navigated(r@, -(delta as int)) == date_text(d as int),
{
    match parse_ymd(date) {
        Some(d) => {
            let target = (d as i64 + delta) as i32;
            day_text(target)
        },
        None => String::from_str(date),
    }
}

/// `navigate_date` where moving stays among representable dates, and `None`
/// where it would leave them (there `navigate_date` has no result).
pub fn try_navigate_date(date: &str, delta: i64) -> (r: Option<String>)
    ensures
        r is Some <==> navigable(date@, delta as int),
        r matches Some(s) ==> s@ == navigated(date@, delta as int),
{
    match parse_ymd(date) {
        Some(d) => {
            let target: i128 = d as i128 + delta as i128;
            if (FIRST_DAY as i128) <= target && target <= (LAST_DAY as i128) {
                Some(navigate_date(date, delta))
            } else {
                None
            }
        },
        None => Some(navigate_date(date, delta)),
    }
}

/// Navigates a week start by `delta` weeks.
pub fn navigate_week(week_start: &str, delta: i64) -> (r: String)
    requires
        i64::MIN <= delta * 7 <= i64::MAX,
        navigable(week_start@, delta * 7),
    ensures
        r@ == navigated(week_start@, delta * 7),
        date_from_ymd_text(week_start@) matches Some(d) ==> valid_day(d as int),
        date_from_ymd_text(week_start@) matches Some(d) ==> navigated(r@, -(delta * 7)) == date_text(d as int),
{
    navigate_date(week_start, delta * 7)
}

/// `navigate_week` where it has a result (the week count fits and the target
/// date is representable), `None` elsewhere.
pub fn try_navigate_week(week_start: &str, delta: i64) -> (r: Option<String>)
    ensures
        r is Some <==> (i64::MIN <= delta * 7 <= i64::MAX && navigable(week_start@, delta * 7)),
        r matches Some(s) ==> s@ == navigated(week_start@, delta * 7),
{
    if delta < i64::MIN / 7 || delta > i64::MAX / 7 {
        None
    } else {
        try_navigate_date(week_start, delta * 7)
    }
}

/// Whether the Sunday starting the week of `date` is representable.
pub open spec fn week_start_representable(date: Seq<char>) -> bool {
    date_from_ymd_text(date) matches Some(d) ==> valid_day(d - weekday_from_sunday(d as int))
}

/// What `week_start_for` returns: the Sunday of the (Sunday to Saturday) week
/// containing `date`, or `date` itself when it is not a `YYYY-MM-DD` date.
pub open spec fn week_start_of(date: Seq<char>) -> Seq<char> {
    match date_from_ymd_text(date) {
        Some(d) => date_text(d - weekday_from_sunday(d as int)),
        None => date,
    }
}

/// The week start of a date is a Sunday, on the date itself or at most six
/// days before it.
pub proof fn lemma_week_start_sunday(d: int)
    ensures
        weekday_from_sunday(d - weekday_from_sunday(d)) == 0,
        d - 6 <= d - weekday_from_sunday(d) <= d,
{
    assert((d - d % 7) % 7 == 0) by (nonlinear_arith);
}

/// Returns the Sunday of the week (Sunday to Saturday) containing `date`.
pub fn week_start_for(date: &str) -> (r: String)
    requires
        week_start_representable(date@),
    ensures
        r@ == week_start_of(date@),
        date_from_ymd_text(date@) matches Some(d) ==> valid_day(d as int),
        date_from_ymd_text(date@) matches Some(d) ==> (date_from_ymd_text(r@) matches Some(w)
            && weekday_from_sunday(w as int) == 0 && d - 6 <= w <= d),
        week_start_of(r@) == r@,
{
    match parse_ymd(date) {
        Some(d) => {
            let w = weekday_of(d);
            proof { lemma_week_start_sunday(d as int); }
            day_text(d - w as i32)
        },
        None => String::from_str(date),
    }
}

/// `week_start_for` where that Sunday is representable, `None` elsewhere.
pub fn try_week_start_for(date: &str) -> (r: Option<String>)
    ensures
        r is Some <==> week_start_representable(date@),
        r matches Some(s) ==> s@ == week_start_of(date@),
        date_from_ymd_text(date@) matches Some(d) ==> valid_day(d as int),
{
    match parse_ymd(date) {
        Some(d) => {
            let w = weekday_of(d);
            if (d as i64) - (w as i64) < FIRST_DAY as i64 {
                None
            } else {
                Some(week_start_for(date))
            }
        },
        None => Some(week_start_for(date)),
    }
}

/// Today's date as `YYYY-MM-DD` in local time.
pub fn today() -> (r: String)
    ensures
        exists|d: int| valid_day(d) && r@ == date_text(d),
{
    let d = local_today();
    day_text(d)
}

/// The dates from `start` to `end` inclusive, or nothing when either is not a
/// `YYYY-MM-DD` date.
pub open spec fn dates_between(start: Seq<char>, end: Seq<char>) -> Seq<Seq<char>> {
    match (date_from_ymd_text(start), date_from_ymd_text(end)) {
        (Some(s), Some(e)) => Seq::new(
            if s <= e { (e - s + 1) as nat } else { 0 },
            |k: int| date_text(s + k),
        ),
        _ => Seq::empty(),
    }
}

/// Returns the `YYYY-MM-DD` dates from `start` to `end` inclusive.
pub fn date_range(start: &str, end: &str) -> (r: Vec<String>)
    ensures
        r@.map_values(|t: String| t@) == dates_between(start@, end@),
        date_from_ymd_text(start@) matches Some(d) ==> valid_day(d as int),
        date_from_ymd_text(end@) matches Some(d) ==> valid_day(d as int),
{
    let mut dates: Vec<String> = Vec::new();
    let parsed_start = parse_ymd(start);
    let parsed_end = parse_ymd(end);
    let s = match parsed_start {
        Some(d) => d,
        None => {
            assert(dates@.map_values(|t: String| t@) =~= dates_between(start@, end@));
            return dates;
        },
    };
    let e = match parsed_end {
        Some(d) => d,
        None => {
            assert(dates@.map_values(|t: String| t@) =~= dates_between(start@, end@));
            return dates;
        },
    };
    let mut cur: i32 = s;
    while cur <= e
        invariant
            valid_day(s as int),
            valid_day(e as int),
            s <= cur,
            cur == s || cur <= e + 1,
            dates@.len() == cur - s,
            forall|k: int| 0 <= k < dates@.len() ==> #[trigger] dates@[k]@ == date_text(s + k),
        decreases e + 1 - cur,
    {
        dates.push(day_text(cur));
        cur = cur + 1;
    }
    assert(dates@.map_values(|t: String| t@) =~= dates_between(start@, end@));
    dates
}

/// Whether `date` is a `YYYY-MM-DD` date falling on a Saturday or Sunday.
pub open spec fn is_weekend_spec(date: Seq<char>) -> bool {
    match date_from_ymd_text(date) {
        Some(d) => weekday_from_sunday(d as int) == 0 || weekday_from_sunday(d as int) == 6,
        None => false,
    }
}

/// Whether `date` is a `YYYY-MM-DD` date falling on a weekend.
pub fn is_weekend(date: &str) -> (r: bool)
    ensures
        r == is_weekend_spec(date@),
{
    match parse_ymd(date) {
        Some(d) => {
            let w = weekday_of(d);
            w == 0 || w == 6
        },
        None => false,
    }
}

/// Formats a date as the two lines of a pivot column header: the weekday
/// abbreviation and `month/day` without padding (such as `Mon` and `5/20`).
pub fn format_day_col(days: i32) -> (r: (String, String))
    requires
        valid_day(days as int),
    ensures
        r.0@ == date_formatted(days as int, "%a"@),
        r.1@ == crate::text::decimal(date_month(days as int) as nat) + seq!['/']
            + crate::text::decimal(date_day(days as int) as nat),
{
    let weekday = format_day(days, "%a");
    let mut md = crate::text::decimal_text(month_of(days));
    let slash = "/";
    proof { reveal_strlit("/"); }
    md.append(slash);
    let day = crate::text::decimal_text(day_of_month(days));
    md.append(day.as_str());
    (weekday, md)
}

/// Formats a date as its weekday abbreviation and `MM/DD` (such as `Mon 05/20`).
pub fn format_day_label(days: i32) -> (r: String)
    requires
        valid_day(days as int),
    ensures
        r@ == date_formatted(days as int, "%a %m/%d"@),
{
    format_day(days, "%a %m/%d")
}

} // verus!
