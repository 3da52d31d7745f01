use chrono::{Datelike, NaiveDate};
use timecard::aggregate::total_quarter_hours;
use timecard::models::TimecardEntryView;
use timecard::repository::Repository;

fn day(s: &str) -> i32 {
    NaiveDate::parse_from_str(s, "%Y-%m-%d").unwrap().num_days_from_ce()
}

fn entry(id: i64, lc: i64, wbs: &str, date: &str, quarters: Option<u64>) -> TimecardEntryView {
    TimecardEntryView {
        id,
        labor_code_id: lc,
        hour_type_id: 1,
        telework: false,
        date: day(date),
        start_time: 0,
        end_time: quarters.map(|q| q as i64 * 900),
        quarter_hours: quarters,
        wbs_number: wbs.to_string(),
        labor_code_name: format!("Code {}", wbs),
        hour_type_code: "REG".to_string(),
        hour_type_name: "Regular".to_string(),
    }
}

fn sample() -> Vec<TimecardEntryView> {
    vec![
        entry(1, 7, "WBS-B", "2026-05-18", Some(32)),
        entry(2, 3, "WBS-A", "2026-05-18", Some(8)),
        entry(3, 7, "WBS-B", "2026-05-20", Some(4)),
        entry(4, 3, "WBS-A", "2026-05-20", None),
        entry(5, 9, "WBS-C", "2026-05-22", Some(1)),
    ]
}

#[test]
fn total_counts_finished_entries_only() {
    assert_eq!(total_quarter_hours(&sample()), 45);
    assert_eq!(total_quarter_hours(&[]), 0);
}

#[test]
fn day_summary_of_two_entries() {
    // 8 h and 2 h on one day: 10 h.
    let entries = vec![
        entry(1, 1, "WBS-T", "2026-05-21", Some(32)),
        entry(2, 1, "WBS-T", "2026-05-21", Some(8)),
    ];
    let s = Repository::day_summary(entries);
    assert_eq!(s.entries.len(), 2);
    assert_eq!(s.total_quarter_hours as f64 / 4.0, 10.0);
    assert_eq!(s.by_labor_code.len(), 1);
    assert_eq!(s.by_labor_code[0].total_quarter_hours, 40);
}

#[test]
fn labor_code_rows_sorted_by_wbs() {
    let rows = Repository::aggregate_by_labor_code(&sample());
    let wbs: Vec<&str> = rows.iter().map(|r| r.wbs_number.as_str()).collect();
    assert_eq!(wbs, vec!["WBS-A", "WBS-B", "WBS-C"]);
    let totals: Vec<u128> = rows.iter().map(|r| r.total_quarter_hours).collect();
    assert_eq!(totals, vec![8, 36, 1]);
    assert_eq!(rows[0].labor_code_name, "Code WBS-A");
}

#[test]
fn labor_code_totals_add_up() {
    let entries = sample();
    let rows = Repository::aggregate_by_labor_code(&entries);
    let sum: u128 = rows.iter().map(|r| r.total_quarter_hours).sum();
    assert_eq!(sum, total_quarter_hours(&entries));
}

#[test]
fn by_day_lists_every_day_of_range() {
    let rows = Repository::aggregate_by_day(&sample(), "2026-05-17", "2026-05-23");
    let dates: Vec<&str> = rows.iter().map(|r| r.date.as_str()).collect();
    assert_eq!(
        dates,
        vec!["2026-05-17", "2026-05-18", "2026-05-19", "2026-05-20", "2026-05-21", "2026-05-22", "2026-05-23"]
    );
    let totals: Vec<u128> = rows.iter().map(|r| r.total_quarter_hours).collect();
    assert_eq!(totals, vec![0, 40, 0, 4, 0, 1, 0]);
}

#[test]
fn day_totals_add_up_within_range() {
    let entries = sample();
    let rows = Repository::aggregate_by_day(&entries, "2026-05-17", "2026-05-23");
    let sum: u128 = rows.iter().map(|r| r.total_quarter_hours).sum();
    assert_eq!(sum, total_quarter_hours(&entries));
}

#[test]
fn by_day_of_bad_range_is_empty() {
    assert!(Repository::aggregate_by_day(&sample(), "x", "2026-05-23").is_empty());
    assert!(Repository::aggregate_by_day(&sample(), "2026-05-23", "2026-05-17").is_empty());
    assert_eq!(Repository::try_aggregate_by_day(&sample(), "2026-05-17", "2026-05-17").unwrap().len(), 1);
}

#[test]
fn week_summary_parts() {
    let s = Repository::period_summary(sample(), "2026-05-17", "2026-05-23");
    assert_eq!(s.entries.len(), 5);
    assert_eq!(s.total_quarter_hours, 45);
    assert_eq!(s.by_day.len(), 7);
    assert_eq!(s.by_labor_code.len(), 3);
    let t = Repository::try_period_summary(sample(), "2026-05-17", "2026-05-23").unwrap();
    assert_eq!(t.total_quarter_hours, 45);
}

#[test]
fn week_end_is_six_days_later() {
    assert_eq!(Repository::week_end_date("2026-05-17"), Some("2026-05-23".to_string()));
    assert_eq!(Repository::week_end_date("2026-12-27"), Some("2027-01-02".to_string()));
    assert_eq!(Repository::week_end_date("nope"), None);
    assert_eq!(Repository::try_week_end_date("2026-05-17"), Some(Some("2026-05-23".to_string())));
}
