//! Worked time in quarter hours: the rounding of durations to the nearest
//! 15 minutes, the rounding of "now" for the start and end buttons of the
//! entry form, and the end time that a duration gives.

use vstd::prelude::*;
use crate::text::{two_digits, push_two_digits, digit_char, u32_text, parse_u32, digit_value, all_digits, digits_value};
use crate::time::{valid_timestamp, local_hour_minute, utc_now};

verus! {

/// Integer division rounding toward zero (Rust's `/` on signed integers).
pub open spec fn trunc_div(a: int, b: int) -> int
    recommends
        b > 0,
{
    if a >= 0 {
        a / b
    } else {
        -((-a) / b)
    }
}

/// Whole minutes from `start` to `end` (seconds), truncated toward zero, as
/// `TimeDelta::num_minutes`.
pub open spec fn minutes_between(start: int, end: int) -> int {
    trunc_div(end - start, 60)
}

/// Quarter hours in `minutes` rounded to the nearest quarter hour, halves
/// (never reached with whole minutes) rounding up.
pub open spec fn nearest_quarters(minutes: int) -> int {
    (minutes + 7) / 15
}

/// Decimal hours of an entry, in quarter hours: `None` while the entry is in
/// progress or when it ends before it starts, else the exact time worked
/// rounded to the nearest quarter hour (900 seconds), halves rounding up.
pub open spec fn decimal_quarter_hours(start: int, end: Option<i64>) -> Option<u64> {
    match end {
        None => None,
        Some(e) => {
            let secs = e - start;
            if secs < 0 {
                None
            } else {
                Some(((secs + 450) / 900) as u64)
            }
        },
    }
}

/// Computes the hours of an entry rounded to the nearest 15 minutes, counted in
/// quarter hours (the decimal hours are the result divided by 4). Returns
/// `None` when `end_time` is `None` (entry in progress) or lies before the
/// start.
pub fn compute_decimal_hours(start_time: i64, end_time: Option<i64>) -> (r: Option<u64>)
    ensures
        r == decimal_quarter_hours(start_time as int, end_time),
        r is None <==> (end_time is None || end_time.unwrap() < start_time),
        r matches Some(q) ==> q * 900 <= (end_time.unwrap() - start_time) + 450
            && (end_time.unwrap() - start_time) < q * 900 + 450,
{
    let end = match end_time {
        None => return None,
        Some(e) => e,
    };
    let diff: i128 = end as i128 - start_time as i128;
    if diff < 0 {
        return None;
    }
    let q = (diff + 450) / 900;
    Some(q as u64)
}

/// Whole minutes from `start` to `now`, counting a start in the future as zero,
/// rounded to the nearest quarter hour.
pub open spec fn elapsed_quarters(start: int, now: int) -> int {
    let m = minutes_between(start, now);
    nearest_quarters(if m < 0 { 0 } else { m })
}

/// Quarter hours elapsed from `start` to `now`, rounded to the nearest quarter
/// hour; a start after `now` counts as no time.
pub fn elapsed_quarter_hours(start: i64, now: i64) -> (r: u64)
    ensures
        r == elapsed_quarters(start as int, now as int),
        r * 15 <= (if now >= start { (now - start) / 60 } else { 0 }) + 7,
        (if now >= start { (now - start) / 60 } else { 0 }) + 7 < r * 15 + 15,
{
    proof { lemma_elapsed_nearest(start as int, now as int); }
    let diff: i128 = now as i128 - start as i128;
    let minutes: i128 = if diff >= 0 { diff / 60 } else { 0 };
    assert(minutes == (if minutes_between(start as int, now as int) < 0 { 0 } else {
        minutes_between(start as int, now as int)
    }));
    ((minutes + 7) / 15) as u64
}

/// The live elapsed time counts every whole minute from the start: with `m`
/// the whole minutes elapsed (none before the start), the quarter hours are
/// `m` rounded to the nearest quarter hour.
pub proof fn lemma_elapsed_nearest(start: int, now: int)
    ensures
        elapsed_quarters(start, now) * 15 <= (if now >= start { (now - start) / 60 } else { 0 }) + 7,
        (if now >= start { (now - start) / 60 } else { 0 }) + 7 < elapsed_quarters(start, now) * 15 + 15,
{
    let m = if now >= start { (now - start) / 60 } else { 0 };
    assert(m == (if minutes_between(start, now) < 0 { 0 } else { minutes_between(start, now) })) by {
        if now < start {
            assert((start - now) / 60 >= 0);
        }
    }
    let q = (m + 7) / 15;
    assert(q * 15 <= m + 7 < q * 15 + 15) by (nonlinear_arith)
        requires q == (m + 7) / 15, m >= 0;
}

/// The live elapsed time never decreases as time passes.
pub proof fn lemma_elapsed_monotonic(start: int, now1: int, now2: int)
    requires
        now1 <= now2,
    ensures
        elapsed_quarters(start, now1) <= elapsed_quarters(start, now2),
{
    lemma_elapsed_nearest(start, now1);
    lemma_elapsed_nearest(start, now2);
    let m1 = if now1 >= start { (now1 - start) / 60 } else { 0 };
    let m2 = if now2 >= start { (now2 - start) / 60 } else { 0 };
    if now1 >= start {
        assert(m1 <= m2) by (nonlinear_arith)
            requires m1 == (now1 - start) / 60, m2 == (now2 - start) / 60, now1 - start <= now2 - start, now1 - start >= 0;
    }
    let q1 = elapsed_quarters(start, now1);
    let q2 = elapsed_quarters(start, now2);
    assert(q1 <= q2) by (nonlinear_arith)
        requires q1 * 15 <= m1 + 7, m2 + 7 < q2 * 15 + 15, m1 <= m2;
}

/// Quarter hours elapsed from `start` until now (the live time of an entry in
/// progress), rounded to the nearest quarter hour.
pub fn live_elapsed_quarter_hours(start: i64) -> (r: u64)
    ensures
        exists|now: int| valid_timestamp(now) && r == elapsed_quarters(start as int, now),
{
    let now = utc_now();
    elapsed_quarter_hours(start, now)
}

/// Rounds a minute count to the nearest multiple of 15 (7 past a boundary
/// rounds down, 8 rounds up).
pub fn round_to_nearest_15(minutes: u32) -> (r: u32)
    requires
        minutes + 7 <= u32::MAX,
    ensures
        r == (minutes + 7) / 15 * 15,
        r % 15 == 0,
        r <= minutes + 7,
        minutes <= r + 7,
{
    (minutes + 7) / 15 * 15
}

/// Rounds a minute count up to the next multiple of 15 (a multiple stays).
pub fn ceil_to_next_15(minutes: u32) -> (r: u32)
    requires
        minutes + 14 <= u32::MAX,
    ensures
        r == (minutes + 14) / 15 * 15,
        r % 15 == 0,
        minutes <= r,
        r < minutes + 15,
{
    (minutes + 14) / 15 * 15
}

/// `HH:MM` text of a minute of the day.
pub open spec fn hhmm_text(minutes: int) -> Seq<char> {
    two_digits(minutes / 60) + seq![':'] + two_digits(minutes % 60)
}

/// Writes a minute of the day as `HH:MM` (the `{:02}:{:02}` format).
pub fn hhmm(minutes: u32) -> (r: String)
    requires
        minutes < 6000,
    ensures
        r@ == hhmm_text(minutes as int),
{
    let mut s = String::new();
    push_two_digits(&mut s, minutes / 60);
    let colon = ":";
    proof { reveal_strlit(":"); }
    s.append(colon);
    push_two_digits(&mut s, minutes % 60);
    s
}

/// Start time suggested at `total` minutes past midnight: 15 minutes earlier,
/// rounded to the nearest quarter hour, at most 23:59.
pub open spec fn start_suggestion(total: int) -> int {
    let adjusted = if total >= 15 { total - 15 } else { 0 };
    let rounded = (adjusted + 7) / 15 * 15;
    if rounded < 1439 { rounded } else { 1439 }
}

/// End time suggested at `total` minutes past midnight: 15 minutes later,
/// rounded up to the next quarter hour, at most 23:59.
pub open spec fn end_suggestion(total: int) -> int {
    let rounded = (total + 15 + 14) / 15 * 15;
    if rounded < 1439 { rounded } else { 1439 }
}

/// The start-button time for the wall-clock minute `total`.
pub fn start_hhmm_at(total: u32) -> (r: String)
    ensures
        r@ == hhmm_text(start_suggestion(total as int)),
{
    let adjusted = total.saturating_sub(15);
    let rounded = round_to_nearest_15(adjusted);
    let capped = if rounded < 1439 { rounded } else { 1439 };
    hhmm(capped)
}

/// The end-button time for the wall-clock minute `total`.
pub fn end_hhmm_at(total: u32) -> (r: String)
    requires
        total + 29 <= u32::MAX,
    ensures
        r@ == hhmm_text(end_suggestion(total as int)),
{
    let adjusted = total + 15;
    let rounded = ceil_to_next_15(adjusted);
    let capped = if rounded < 1439 { rounded } else { 1439 };
    hhmm(capped)
}

/// The text `HH:MM` of a minute of the day has five characters with the colon
/// in the middle.
pub proof fn lemma_hhmm_shape(minutes: int)
    requires
        0 <= minutes < 1440,
    ensures
        hhmm_text(minutes).len() == 5,
        hhmm_text(minutes)[2] == ':',
{
}

/// Suggested start time for the entry form: the current local time minus 15
/// minutes, rounded to the nearest quarter hour.
pub fn start_now_hhmm() -> (r: String)
    ensures
        exists|total: int| 0 <= total < 1440 && r@ == hhmm_text(start_suggestion(total)),
        r@.len() == 5,
        r@[2] == ':',
{
    let (h, m) = local_hour_minute();
    let total = h * 60 + m;
    let r = start_hhmm_at(total);
    proof { lemma_hhmm_shape(start_suggestion(total as int)); }
    r
}

/// Suggested end time for the entry form: the current local time plus 15
/// minutes, rounded up to the next quarter hour.
pub fn end_now_hhmm() -> (r: String)
    ensures
        exists|total: int| 0 <= total < 1440 && r@ == hhmm_text(end_suggestion(total)),
        r@.len() == 5,
        r@[2] == ':',
{
    let (h, m) = local_hour_minute();
    let total = h * 60 + m;
    let r = end_hhmm_at(total);
    proof { lemma_hhmm_shape(end_suggestion(total as int)); }
    r
}


/// The index of the first `:` of `s` at or after `from`, or the length of `s`
/// when there is none.
pub open spec fn next_colon(s: Seq<char>, from: int) -> int
    decreases s.len() - from,
{
    if from >= s.len() {
        s.len() as int
    } else if s[from] == ':' {
        from
    } else {
        next_colon(s, from + 1)
    }
}

/// The hour and minute of a start time as the duration mode of the entry
/// form reads them: the text before the first `:` and the text after it up
/// to the next `:`, each read as a `u32`.
pub open spec fn start_fields(s: Seq<char>) -> Option<(u32, u32)> {
    let c = next_colon(s, 0);
    if c >= s.len() {
        None
    } else {
        match (u32_text(s.subrange(0, c)), u32_text(s.subrange(c + 1, next_colon(s, c + 1)))) {
            (Some(h), Some(m)) => Some((h, m)),
            _ => None,
        }
    }
}

/// The end time `minutes` after the start time `start`: `HH:MM`, or nothing
/// when the start does not read or the end falls on the next day or later.
pub open spec fn duration_end(start: Seq<char>, minutes: int) -> Option<Seq<char>> {
    match start_fields(start) {
        Some((h, m)) => {
            let total = h * 60 + m + minutes;
            if total >= 1440 {
                None
            } else {
                Some(hhmm_text(total))
            }
        },
        None => None,
    }
}

/// The end of a duration is the start plus the whole duration, when it stays
/// within the day; past midnight, or from an unreadable start, there is none.
pub proof fn lemma_duration_end_exact(start: Seq<char>, minutes: int)
    ensures
        start_fields(start) matches Some((h, m)) ==> (h * 60 + m + minutes < 1440 ==> duration_end(start, minutes)
            == Some(hhmm_text(h * 60 + m + minutes))),
        start_fields(start) matches Some((h, m)) ==> (h * 60 + m + minutes >= 1440 ==> duration_end(start, minutes)
            is None),
        start_fields(start) is None ==> duration_end(start, minutes) is None,
{
}

proof fn lemma_digit_char_value(d: int)
    requires
        0 <= d < 10,
    ensures
        digit_value(digit_char(d)) == d,
        '0' <= digit_char(d) <= '9',
{
    let ds = seq!['0', '1', '2', '3', '4', '5', '6', '7', '8', '9'];
    assert(digit_char(d) == ds[d]);
    if d == 0 {} else if d == 1 {} else if d == 2 {} else if d == 3 {} else if d == 4 {}
    else if d == 5 {} else if d == 6 {} else if d == 7 {} else if d == 8 {} else {}
}

/// Two digits written by `two_digits` read back as their number.
proof fn lemma_two_digits_read(n: int)
    requires
        0 <= n < 100,
    ensures
        u32_text(two_digits(n)) == Some(n as u32),
{
    let t = two_digits(n);
    lemma_digit_char_value(n / 10);
    lemma_digit_char_value(n % 10);
    assert(t[0] != '+');
    assert(all_digits(t)) by {
        assert forall|i: int| 0 <= i < t.len() implies '0' <= #[trigger] t[i] <= '9' by {
            if i == 0 {} else {}
        }
    }
    assert(t.drop_last() =~= seq![t[0]]);
    assert(seq![t[0]].drop_last() =~= Seq::<char>::empty());
    assert(digits_value(Seq::<char>::empty()) == 0);
    assert(seq![t[0]].last() == t[0]);
    assert(digits_value(seq![t[0]]) == n / 10);
    assert(t.last() == t[1]);
    assert(digits_value(t) == (n / 10) * 10 + n % 10);
}

/// From a clock time `HH:MM` (minute `s0` of the day), the end after
/// `minutes` is the clock time `minutes` later, within the day.
pub proof fn lemma_duration_end_of_clock(s0: int, minutes: int)
    requires
        0 <= s0 < 1440,
        minutes >= 0,
    ensures
        duration_end(hhmm_text(s0), minutes) == if s0 + minutes < 1440 {
            Some(hhmm_text(s0 + minutes))
        } else {
            None::<Seq<char>>
        },
{
    let t = hhmm_text(s0);
    lemma_digit_char_value((s0 / 60) / 10);
    lemma_digit_char_value((s0 / 60) % 10);
    lemma_digit_char_value((s0 % 60) / 10);
    lemma_digit_char_value((s0 % 60) % 10);
    assert(t.len() == 5 && t[2] == ':');
    assert(t[0] != ':' && t[1] != ':' && t[3] != ':' && t[4] != ':');
    assert(next_colon(t, 5) == 5);
    assert(next_colon(t, 4) == 5);
    assert(next_colon(t, 3) == 5);
    assert(next_colon(t, 2) == 2);
    assert(next_colon(t, 1) == 2);
    assert(next_colon(t, 0) == 2);
    assert(t.subrange(0, 2) =~= two_digits(s0 / 60));
    assert(t.subrange(3, 5) =~= two_digits(s0 % 60));
    lemma_two_digits_read(s0 / 60);
    lemma_two_digits_read(s0 % 60);
    assert(start_fields(t) == Some(((s0 / 60) as u32, (s0 % 60) as u32)));
    assert((s0 / 60) * 60 + s0 % 60 == s0);
}

/// Whether the minute count of `start` plus `minutes` fits in a `u32`.
pub open spec fn duration_fits(start: Seq<char>, minutes: int) -> bool {
    start_fields(start) matches Some((h, m)) ==> h * 60 + m + minutes <= u32::MAX
}

/// The index of the first `:` of `s` at or after `from`, or its length.
fn find_colon(s: &str, from: usize) -> (r: usize)
    requires
        from <= s@.len(),
    ensures
        r == next_colon(s@, from as int),
        from <= r <= s@.len(),
{
    let n = s.unicode_len();
    let mut i = from;
    while i < n
        invariant
            n == s@.len(),
            from <= i <= n,
            next_colon(s@, from as int) == next_colon(s@, i as int),
        decreases n - i,
    {
        if s.get_char(i) == ':' {
            return i;
        }
        i = i + 1;
    }
    i
}

/// Reads the hour and minute of a start time as the duration mode of the
/// entry form does: the number before the first `:` and the number after it.
pub fn read_start_fields(start: &str) -> (r: Option<(u32, u32)>)
    ensures
        r == start_fields(start@),
{
    let n = start.unicode_len();
    let c = find_colon(start, 0);
    if c >= n {
        return None;
    }
    let c2 = find_colon(start, c + 1);
    let h = match parse_u32(start.substring_char(0, c)) {
        Some(h) => h,
        None => return None,
    };
    let m = match parse_u32(start.substring_char(c + 1, c2)) {
        Some(m) => m,
        None => return None,
    };
    Some((h, m))
}

/// The end time of an entry of `minutes` minutes starting at `start`
/// (`HH:MM`): `HH:MM`, or `None` when the start does not read or the end
/// would fall at or after midnight.
pub fn end_from_duration(start: &str, minutes: u32) -> (r: Option<String>)
    requires
        duration_fits(start@, minutes as int),
    ensures
        match duration_end(start@, minutes as int) {
            Some(t) => r matches Some(x) && x@ == t,
            None => r is None,
        },
        start_fields(start@) matches Some((h, m)) ==> (h * 60 + m + minutes < 1440 ==> (r matches Some(x)
            && x@ == hhmm_text(h * 60 + m + minutes))),
        start_fields(start@) matches Some((h, m)) ==> (h * 60 + m + minutes >= 1440 ==> r is None),
        start_fields(start@) is None ==> r is None,
{
    proof { lemma_duration_end_exact(start@, minutes as int); }
    let (h, m) = match read_start_fields(start) {
        Some(f) => f,
        None => return None,
    };
    let total = h * 60 + m + minutes;
    if total >= 1440 {
        return None;
    }
    Some(hhmm(total))
}

} // verus!
