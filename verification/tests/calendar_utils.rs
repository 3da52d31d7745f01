use chrono::{DateTime, Datelike, NaiveDate};
use timecard::calendar::{
    date_range, day_text, format_day_col, format_day_label, is_weekend, navigate_date,
    navigate_week, today, try_navigate_date, try_navigate_week, try_week_start_for,
    week_start_for,
};
use timecard::hours::{ceil_to_next_15, end_now_hhmm, round_to_nearest_15, start_now_hhmm};
use timecard::time::utc_to_central_hhmm;

fn day(y: i32, m: u32, d: u32) -> i32 {
    NaiveDate::from_ymd_opt(y, m, d).unwrap().num_days_from_ce()
}

#[test]
fn navigate_date_forward() {
    assert_eq!(navigate_date("2026-05-21", 1), "2026-05-22");
}

#[test]
fn navigate_date_backward() {
    assert_eq!(navigate_date("2026-05-21", -1), "2026-05-20");
}

#[test]
fn navigate_date_crosses_month() {
    assert_eq!(navigate_date("2026-05-31", 1), "2026-06-01");
}

#[test]
fn navigate_week_forward() {
    assert_eq!(navigate_week("2026-05-18", 1), "2026-05-25");
}

#[test]
fn navigate_week_backward() {
    assert_eq!(navigate_week("2026-05-25", -1), "2026-05-18");
}

#[test]
fn week_start_for_wednesday() {
    assert_eq!(week_start_for("2026-05-20"), "2026-05-17");
}

#[test]
fn week_start_for_sunday_is_itself() {
    assert_eq!(week_start_for("2026-05-17"), "2026-05-17");
}

#[test]
fn week_start_for_monday() {
    assert_eq!(week_start_for("2026-05-18"), "2026-05-17");
}

#[test]
fn utc_to_central_hhmm_converts_correctly() {
    // 14:00 UTC = 09:00 CDT (UTC-5 in May; Central Daylight Time)
    let dt = DateTime::parse_from_rfc3339("2026-05-21T14:00:00Z").unwrap().timestamp();
    assert_eq!(utc_to_central_hhmm(dt), "09:00");
}

#[test]
fn round_start_mid_interval() {
    assert_eq!(round_to_nearest_15(832), 825);
}

#[test]
fn round_start_equidistant_rounds_up() {
    assert_eq!(round_to_nearest_15(907), 900);
}

#[test]
fn round_start_on_boundary() {
    assert_eq!(round_to_nearest_15(840), 840);
}

#[test]
fn round_end_mid_interval() {
    assert_eq!(ceil_to_next_15(862), 870);
}

#[test]
fn round_end_on_boundary() {
    assert_eq!(ceil_to_next_15(870), 870);
}

#[test]
fn round_end_just_past_boundary() {
    assert_eq!(ceil_to_next_15(871), 885);
}

#[test]
fn start_now_hhmm_format() {
    let s = start_now_hhmm();
    assert_eq!(s.len(), 5);
    assert_eq!(&s[2..3], ":");
}

#[test]
fn end_now_hhmm_format() {
    let s = end_now_hhmm();
    assert_eq!(s.len(), 5);
    assert_eq!(&s[2..3], ":");
}

#[test]
fn navigate_invalid_date_is_unchanged() {
    assert_eq!(navigate_date("not a date", 3), "not a date");
    assert_eq!(navigate_week("2026-13-01", 1), "2026-13-01");
    assert_eq!(week_start_for("2026/05/20"), "2026/05/20");
}

#[test]
fn navigate_round_trip() {
    let there = navigate_date("2026-02-27", 40);
    assert_eq!(there, "2026-04-08");
    assert_eq!(navigate_date(&there, -40), "2026-02-27");
}

#[test]
fn navigate_week_is_seven_days() {
    assert_eq!(navigate_week("2026-12-27", 1), navigate_date("2026-12-27", 7));
}

#[test]
fn navigation_outside_calendar_is_refused() {
    assert_eq!(try_navigate_date("2026-05-21", 1), Some("2026-05-22".to_string()));
    assert_eq!(try_navigate_date("2026-05-21", i64::MAX), None);
    assert_eq!(try_navigate_week("2026-05-21", i64::MAX / 7), None);
    assert_eq!(try_week_start_for("2026-05-20"), Some("2026-05-17".to_string()));
}

#[test]
fn today_is_a_date() {
    let t = today();
    assert!(NaiveDate::parse_from_str(&t, "%Y-%m-%d").is_ok());
}

#[test]
fn date_range_inclusive() {
    assert_eq!(
        date_range("2026-05-30", "2026-06-02"),
        vec!["2026-05-30", "2026-05-31", "2026-06-01", "2026-06-02"]
    );
    assert_eq!(date_range("2026-05-30", "2026-05-30"), vec!["2026-05-30"]);
    assert!(date_range("2026-06-02", "2026-05-30").is_empty());
    assert!(date_range("bad", "2026-05-30").is_empty());
}

#[test]
fn weekend_detection() {
    assert!(is_weekend("2026-05-23"));
    assert!(is_weekend("2026-05-24"));
    assert!(!is_weekend("2026-05-25"));
    assert!(!is_weekend("garbage"));
}

#[test]
fn day_labels() {
    let d = day(2026, 5, 20);
    assert_eq!(day_text(d), "2026-05-20");
    assert_eq!(format_day_col(d), ("Wed".to_string(), "5/20".to_string()));
    assert_eq!(format_day_label(d), "Wed 05/20");
    assert_eq!(format_day_col(day(2026, 12, 1)), ("Tue".to_string(), "12/1".to_string()));
}

#[test]
fn week_start_is_a_fixed_point() {
    let w = week_start_for("2026-05-21");
    assert_eq!(w, "2026-05-17");
    assert_eq!(week_start_for(&w), w);
    assert!(NaiveDate::parse_from_str(&w, "%Y-%m-%d").unwrap().weekday() == chrono::Weekday::Sun);
}

#[test]
fn weekday_numbering_far_from_today() {
    // 0001-01-01 was a Monday, so the week starts on 0000-12-31.
    assert_eq!(week_start_for("0001-01-01"), "0000-12-31");
    assert!(is_weekend("-0001-01-01") == (NaiveDate::from_ymd_opt(-1, 1, 1).unwrap().weekday().num_days_from_monday() >= 5));
}
