use chrono::DateTime;
use timecard::hours::{
    ceil_to_next_15, compute_decimal_hours, elapsed_quarter_hours, end_from_duration, end_hhmm_at,
    end_now_hhmm, hhmm, live_elapsed_quarter_hours, read_start_fields, round_to_nearest_15,
    start_hhmm_at, start_now_hhmm,
};

fn dt(s: &str) -> i64 {
    DateTime::parse_from_rfc3339(s).unwrap().timestamp()
}

/// Decimal hours of a quarter-hour count.
fn hours(q: Option<u64>) -> Option<f64> {
    q.map(|q| q as f64 / 4.0)
}

#[test]
fn null_end_returns_none() {
    assert_eq!(hours(compute_decimal_hours(dt("2026-05-21T07:00:00Z"), None)), None);
}

#[test]
fn exact_15_min_boundary() {
    // 8h 15m = 495m → 8.25
    assert_eq!(
        hours(compute_decimal_hours(dt("2026-05-21T07:00:00Z"), Some(dt("2026-05-21T15:15:00Z")))),
        Some(8.25)
    );
}

#[test]
fn rounds_up_at_8m() {
    assert_eq!(
        hours(compute_decimal_hours(dt("2026-05-21T07:00:00Z"), Some(dt("2026-05-21T07:08:00Z")))),
        Some(0.25)
    );
}

#[test]
fn rounds_down_at_7m() {
    assert_eq!(
        hours(compute_decimal_hours(dt("2026-05-21T07:00:00Z"), Some(dt("2026-05-21T07:07:00Z")))),
        Some(0.0)
    );
}

#[test]
fn rounds_up_8h12m() {
    assert_eq!(
        hours(compute_decimal_hours(dt("2026-05-21T07:00:00Z"), Some(dt("2026-05-21T15:12:00Z")))),
        Some(8.25)
    );
}

#[test]
fn rounds_down_8h7m() {
    assert_eq!(
        hours(compute_decimal_hours(dt("2026-05-21T07:00:00Z"), Some(dt("2026-05-21T15:07:00Z")))),
        Some(8.0)
    );
}

#[test]
fn exact_half_hour() {
    assert_eq!(
        hours(compute_decimal_hours(dt("2026-05-21T08:00:00Z"), Some(dt("2026-05-21T12:30:00Z")))),
        Some(4.5)
    );
}

#[test]
fn zero_duration_rounds_to_zero() {
    assert_eq!(
        hours(compute_decimal_hours(dt("2026-05-21T07:00:00Z"), Some(dt("2026-05-21T07:00:00Z")))),
        Some(0.0)
    );
}

#[test]
fn end_before_start_returns_none() {
    assert_eq!(
        hours(compute_decimal_hours(dt("2026-05-21T08:00:00Z"), Some(dt("2026-05-21T07:00:00Z")))),
        None
    );
}

#[test]
fn seconds_count_in_rounding() {
    // 7 min 30 s is half a quarter hour, which rounds up.
    assert_eq!(
        hours(compute_decimal_hours(dt("2026-05-21T07:00:00Z"), Some(dt("2026-05-21T07:07:30Z")))),
        Some(0.25)
    );
    // 7 min 29 s rounds down, 8 min 1 s rounds up.
    assert_eq!(compute_decimal_hours(0, Some(7 * 60 + 29)), Some(0));
    assert_eq!(compute_decimal_hours(0, Some(8 * 60 + 1)), Some(1));
}

#[test]
fn end_seconds_before_start_is_none() {
    assert_eq!(
        hours(compute_decimal_hours(dt("2026-05-21T08:00:00Z"), Some(dt("2026-05-21T07:59:30Z")))),
        None
    );
    assert_eq!(compute_decimal_hours(100, Some(99)), None);
    assert_eq!(compute_decimal_hours(100, Some(100)), Some(0));
}

#[test]
fn long_entry_quarter_count() {
    // 30 hours
    assert_eq!(compute_decimal_hours(0, Some(30 * 3600)), Some(120));
}

#[test]
fn elapsed_rounds_and_clamps() {
    assert_eq!(elapsed_quarter_hours(0, 22 * 60), 1);
    assert_eq!(elapsed_quarter_hours(0, 23 * 60), 2);
    assert_eq!(elapsed_quarter_hours(1000, 0), 0);
}

#[test]
fn live_elapsed_of_recent_start_is_small() {
    let now = chrono::Utc::now().timestamp();
    let q = live_elapsed_quarter_hours(now);
    assert!(q <= 1);
}

#[test]
fn rounding_examples() {
    assert_eq!(round_to_nearest_15(0), 0);
    assert_eq!(round_to_nearest_15(7), 0);
    assert_eq!(round_to_nearest_15(8), 15);
    assert_eq!(ceil_to_next_15(0), 0);
    assert_eq!(ceil_to_next_15(1), 15);
}

#[test]
fn hhmm_pads_both_fields() {
    assert_eq!(hhmm(0), "00:00");
    assert_eq!(hhmm(9 * 60 + 5), "09:05");
    assert_eq!(hhmm(23 * 60 + 59), "23:59");
}

#[test]
fn start_suggestion_rounds_earlier_time() {
    // 13:52 → 13:37 → nearest quarter 13:30
    assert_eq!(start_hhmm_at(13 * 60 + 52), "13:30");
    // just after midnight stays at 00:00
    assert_eq!(start_hhmm_at(5), "00:00");
}

#[test]
fn end_suggestion_rounds_later_time_and_caps() {
    // 14:22 → 14:37 → next quarter 14:45
    assert_eq!(end_hhmm_at(14 * 60 + 22), "14:45");
    // late evening is capped at 23:59
    assert_eq!(end_hhmm_at(23 * 60 + 50), "23:59");
}

#[test]
fn now_suggestions_have_clock_shape() {
    let s = start_now_hhmm();
    let e = end_now_hhmm();
    assert_eq!(s.len(), 5);
    assert_eq!(e.len(), 5);
    assert_eq!(&e[2..3], ":");
}

#[test]
fn duration_end_time() {
    assert_eq!(end_from_duration("08:00", 8 * 60), Some("16:00".to_string()));
    assert_eq!(end_from_duration("08:30", 30), Some("09:00".to_string()));
    assert_eq!(end_from_duration("8:5", 0), Some("08:05".to_string()));
}

#[test]
fn duration_end_past_midnight_is_none() {
    assert_eq!(end_from_duration("20:00", 4 * 60), None);
    assert_eq!(end_from_duration("23:59", 1), None);
}

#[test]
fn duration_end_of_unreadable_start_is_none() {
    assert_eq!(end_from_duration("", 60), None);
    assert_eq!(end_from_duration("0800", 60), None);
    assert_eq!(end_from_duration("aa:00", 60), None);
    assert_eq!(end_from_duration("08:", 60), None);
}

#[test]
fn start_fields_read_like_split_and_parse() {
    assert_eq!(read_start_fields("08:15"), Some((8, 15)));
    assert_eq!(read_start_fields("+8:15:99"), Some((8, 15)));
    assert_eq!(read_start_fields("-8:15"), None);
    assert_eq!(read_start_fields("4294967296:00"), None);
}
