use chrono::NaiveDate;
use timecard::models::{PayPeriodAnchor, PayPeriodRange};
use timecard::pay_period::select_pay_period;
use timecard::repository::Repository;

#[test]
fn compute_pay_periods_empty_anchors() {
    let result = Repository::compute_pay_periods(&[], "2026-05-21");
    assert!(result.is_empty());
}

#[test]
fn compute_pay_periods_single_anchor_contains_reference_date() {
    let anchors = vec![PayPeriodAnchor { id: 1, start_date: "2026-05-06".into() }];
    let periods = Repository::compute_pay_periods(&anchors, "2026-05-21");
    assert!(!periods.is_empty());
    let current = periods
        .iter()
        .find(|p| p.start_date.as_str() <= "2026-05-21" && p.end_date.as_str() >= "2026-05-21");
    assert!(current.is_some(), "reference date must fall in some period");
}

#[test]
fn compute_pay_periods_14_day_periods() {
    let anchors = vec![PayPeriodAnchor { id: 1, start_date: "2026-05-06".into() }];
    let periods = Repository::compute_pay_periods(&anchors, "2026-05-21");
    for p in &periods {
        let start = NaiveDate::parse_from_str(&p.start_date, "%Y-%m-%d").unwrap();
        let end = NaiveDate::parse_from_str(&p.end_date, "%Y-%m-%d").unwrap();
        assert_eq!((end - start).num_days(), 13, "each period must be exactly 14 days");
    }
}

#[test]
fn compute_pay_periods_are_sorted_and_unique() {
    let anchors = vec![PayPeriodAnchor { id: 1, start_date: "2026-05-06".into() }];
    let periods = Repository::compute_pay_periods(&anchors, "2026-05-21");
    for w in periods.windows(2) {
        assert!(w[0].start_date < w[1].start_date, "periods must be sorted");
    }
}

#[test]
fn pay_periods_of_one_anchor_cover_two_years() {
    let anchors = vec![PayPeriodAnchor { id: 1, start_date: "2026-05-06".into() }];
    let periods = Repository::compute_pay_periods(&anchors, "2026-05-21");
    // Every period starts a multiple of 14 days from the anchor.
    assert!(periods.iter().any(|p| p.start_date == "2026-05-06" && p.end_date == "2026-05-19"));
    assert!(periods.iter().any(|p| p.start_date == "2026-05-20" && p.end_date == "2026-06-02"));
    // Periods start no earlier than a year before the reference date, and
    // the days from 352 days before it to a year after it are covered.
    assert!(periods.first().unwrap().start_date.as_str() >= "2025-05-21");
    assert!(periods.first().unwrap().start_date.as_str() <= "2025-06-03");
    assert!(periods.last().unwrap().end_date.as_str() >= "2027-05-21");
}

#[test]
fn pay_periods_of_aligned_anchors_are_merged() {
    let one = vec![PayPeriodAnchor { id: 1, start_date: "2026-05-06".into() }];
    let two = vec![
        PayPeriodAnchor { id: 1, start_date: "2026-05-06".into() },
        PayPeriodAnchor { id: 2, start_date: "2026-06-03".into() },
    ];
    let a = Repository::compute_pay_periods(&one, "2026-05-21");
    let b = Repository::compute_pay_periods(&two, "2026-05-21");
    assert_eq!(a.len(), b.len());
    for (x, y) in a.iter().zip(b.iter()) {
        assert_eq!(x.start_date, y.start_date);
        assert_eq!(x.end_date, y.end_date);
    }
}

#[test]
fn pay_periods_skip_unparseable_anchors() {
    let anchors = vec![PayPeriodAnchor { id: 1, start_date: "someday".into() }];
    assert!(Repository::compute_pay_periods(&anchors, "2026-05-21").is_empty());
    let anchors = vec![PayPeriodAnchor { id: 1, start_date: "2026-05-06".into() }];
    assert!(Repository::compute_pay_periods(&anchors, "not a date").is_empty());
}

#[test]
fn try_pay_periods_matches_plain_call() {
    let anchors = vec![PayPeriodAnchor { id: 1, start_date: "2026-05-06".into() }];
    let a = Repository::compute_pay_periods(&anchors, "2026-05-21");
    let b = Repository::try_compute_pay_periods(&anchors, "2026-05-21").unwrap();
    assert_eq!(a.len(), b.len());
}

fn period(s: &str, e: &str) -> PayPeriodRange {
    PayPeriodRange { start_date: s.into(), end_date: e.into() }
}

fn three_periods() -> Vec<PayPeriodRange> {
    vec![
        period("2026-05-06", "2026-05-19"),
        period("2026-05-20", "2026-06-02"),
        period("2026-06-03", "2026-06-16"),
    ]
}

#[test]
fn select_period_containing_date() {
    let ps = three_periods();
    assert_eq!(select_pay_period(&ps, "2026-05-21", 0), Some((1, true, true)));
    assert_eq!(select_pay_period(&ps, "2026-05-20", -1), Some((0, false, true)));
    assert_eq!(select_pay_period(&ps, "2026-06-02", 1), Some((2, true, false)));
}

#[test]
fn select_period_clamps_offset() {
    let ps = three_periods();
    assert_eq!(select_pay_period(&ps, "2026-05-21", -5), Some((0, false, true)));
    assert_eq!(select_pay_period(&ps, "2026-05-21", 9), Some((2, true, false)));
}

#[test]
fn select_period_without_match_starts_from_last() {
    let ps = three_periods();
    assert_eq!(select_pay_period(&ps, "2027-01-01", 0), Some((2, true, false)));
    assert_eq!(select_pay_period(&ps, "2027-01-01", -1), Some((1, true, true)));
}

#[test]
fn select_period_of_no_periods_is_none() {
    assert_eq!(select_pay_period(&[], "2026-05-21", 0), None);
}

fn starts_of(periods: &[PayPeriodRange]) -> Vec<String> {
    periods.iter().map(|p| p.start_date.clone()).collect()
}

#[test]
fn later_anchor_overrides_cadence() {
    let anchors = vec![
        PayPeriodAnchor { id: 1, start_date: "2026-01-01".into() },
        PayPeriodAnchor { id: 2, start_date: "2026-01-08".into() },
    ];
    let periods = Repository::compute_pay_periods(&anchors, "2026-01-20");
    let starts = starts_of(&periods);
    assert!(starts.contains(&"2026-01-01".to_string()));
    assert!(starts.contains(&"2026-01-08".to_string()));
    assert!(starts.contains(&"2026-01-22".to_string()));
    assert!(!starts.contains(&"2026-01-15".to_string()));
    assert!(!starts.contains(&"2026-01-29".to_string()));
    // The earliest anchor's cadence continues backward.
    assert!(starts.contains(&"2025-12-18".to_string()));
    // The period of the first anchor is cut short by nothing else: it is
    // the only one between the two anchors.
    let i = starts.iter().position(|s| s == "2026-01-01").unwrap();
    assert_eq!(starts[i + 1], "2026-01-08");
    for w in periods.windows(2) {
        assert!(w[0].start_date < w[1].start_date);
    }
}

#[test]
fn anchor_order_and_repeats_do_not_matter() {
    let a = vec![
        PayPeriodAnchor { id: 1, start_date: "2026-01-01".into() },
        PayPeriodAnchor { id: 2, start_date: "2026-03-11".into() },
    ];
    let b = vec![
        PayPeriodAnchor { id: 7, start_date: "2026-03-11".into() },
        PayPeriodAnchor { id: 8, start_date: "2026-01-01".into() },
        PayPeriodAnchor { id: 9, start_date: "2026-03-11".into() },
    ];
    let pa = Repository::compute_pay_periods(&a, "2026-02-01");
    let pb = Repository::compute_pay_periods(&b, "2026-02-01");
    assert_eq!(pa.len(), pb.len());
    for (x, y) in pa.iter().zip(pb.iter()) {
        assert_eq!(x.start_date, y.start_date);
        assert_eq!(x.end_date, y.end_date);
    }
}

#[test]
fn pay_periods_refused_near_calendar_end() {
    let anchors = vec![PayPeriodAnchor { id: 1, start_date: "2026-05-06".into() }];
    assert!(Repository::try_compute_pay_periods(&anchors, "+262142-12-20").is_none());
    assert!(Repository::try_compute_pay_periods(&anchors, "2026-05-21").is_some());
}

#[test]
fn undated_anchors_give_nothing_even_near_calendar_end() {
    let anchors = vec![PayPeriodAnchor { id: 1, start_date: "someday".into() }];
    assert_eq!(Repository::try_compute_pay_periods(&anchors, "+262142-12-20").map(|v| v.len()), Some(0));
    assert!(Repository::compute_pay_periods(&anchors, "+262142-12-20").is_empty());
}
