use chrono::{DateTime, Datelike, NaiveDate};
use timecard::entries::{default_hour_type_id, hour_type_badge_class, overlapping_ids};
use timecard::models::{ExportEntry, HourType, LaborCode, TimecardEntryRow, TimecardEntryView};
use timecard::repository::Repository;
use timecard::time::{central_to_utc, entry_times, TimeConversionError};
use timecard::transfer::ImportEntryError;

fn day(s: &str) -> i32 {
    NaiveDate::parse_from_str(s, "%Y-%m-%d").unwrap().num_days_from_ce()
}

fn ts(s: &str) -> i64 {
    DateTime::parse_from_rfc3339(s).unwrap().timestamp()
}

fn row(id: i64, start: &str, end: Option<&str>, telework: i64) -> TimecardEntryRow {
    TimecardEntryRow {
        id,
        labor_code_id: 10,
        hour_type_id: 20,
        telework,
        date: day("2026-05-21"),
        start_time: ts(start),
        end_time: end.map(ts),
        wbs_number: "WBS-T".to_string(),
        labor_code_name: "Test".to_string(),
        hour_type_code: "REG".to_string(),
        hour_type_name: "Regular".to_string(),
    }
}

fn view(id: i64, start: i64, end: Option<i64>) -> TimecardEntryView {
    Repository::row_to_view(TimecardEntryRow {
        id,
        labor_code_id: 1,
        hour_type_id: 1,
        telework: 0,
        date: day("2026-05-21"),
        start_time: start,
        end_time: end,
        wbs_number: "W".to_string(),
        labor_code_name: "N".to_string(),
        hour_type_code: "REG".to_string(),
        hour_type_name: "Regular".to_string(),
    })
}

#[test]
fn row_to_view_converts_flag_and_hours() {
    let v = Repository::row_to_view(row(1, "2026-05-21T13:00:00Z", Some("2026-05-21T21:00:00Z"), 1));
    assert!(v.telework);
    assert_eq!(v.quarter_hours, Some(32));
    assert_eq!(v.wbs_number, "WBS-T");
    let p = Repository::row_to_view(row(2, "2026-05-21T13:00:00Z", None, 0));
    assert!(!p.telework);
    assert_eq!(p.quarter_hours, None);
}

#[test]
fn rows_to_views_keeps_order() {
    let vs = Repository::rows_to_views(vec![
        row(1, "2026-05-21T13:00:00Z", None, 0),
        row(2, "2026-05-21T14:00:00Z", None, 0),
    ]);
    let ids: Vec<i64> = vs.iter().map(|v| v.id).collect();
    assert_eq!(ids, vec![1, 2]);
}

#[test]
fn overlapping_pairs_are_reported() {
    let es = vec![view(1, 0, Some(100)), view(2, 50, Some(200)), view(3, 200, Some(300)), view(4, 400, None)];
    let ids = overlapping_ids(&es);
    assert!(ids.contains(&1) && ids.contains(&2));
    // touching intervals do not overlap
    assert!(!ids.contains(&3));
    assert!(!ids.contains(&4));
    assert_eq!(ids.len(), 2);
}

#[test]
fn open_entries_overlap_later_ones() {
    let es = vec![view(1, 0, None), view(2, 500, Some(600))];
    let ids = overlapping_ids(&es);
    assert_eq!(ids.len(), 2);
    let es = vec![view(1, 0, None), view(2, 5, None)];
    assert_eq!(overlapping_ids(&es).len(), 2);
}

#[test]
fn badge_and_default_hour_type() {
    assert_eq!(hour_type_badge_class("OT"), "pd-type-ot");
    assert_eq!(hour_type_badge_class("ot"), "pd-type-ot");
    assert_eq!(hour_type_badge_class("REG"), "pd-type-reg");
    let hts = vec![
        HourType { id: 4, code: "OT".into(), name: "Overtime".into() },
        HourType { id: 7, code: "reg".into(), name: "Regular".into() },
        HourType { id: 9, code: "REG".into(), name: "Regular 2".into() },
    ];
    assert_eq!(default_hour_type_id(&hts), Some(7));
    assert_eq!(default_hour_type_id(&hts[..1]), None);
}

#[test]
fn central_time_conversion() {
    // 08:00 CDT is 13:00 UTC
    assert_eq!(central_to_utc("2026-05-21", "08:00").ok(), Some(ts("2026-05-21T13:00:00Z")));
    // 08:00 CST is 14:00 UTC
    assert_eq!(central_to_utc("2026-01-15", "08:00").ok(), Some(ts("2026-01-15T14:00:00Z")));
    assert!(matches!(central_to_utc("2026-05-21", "8am"), Err(TimeConversionError::InvalidDateTime(_))));
    // 02:30 on the spring-forward day does not exist
    assert!(matches!(central_to_utc("2026-03-08", "02:30"), Err(TimeConversionError::AmbiguousOrInvalid)));
    // 01:30 on the fall-back day is ambiguous
    assert!(matches!(central_to_utc("2026-11-01", "01:30"), Err(TimeConversionError::AmbiguousOrInvalid)));
}

#[test]
fn entry_times_convert_both_ends() {
    let (s, e) = entry_times("2026-05-21", "08:00", Some("16:00")).ok().unwrap();
    assert_eq!(e.unwrap() - s, 8 * 3600);
    let (_, e) = entry_times("2026-05-21", "08:00", None).ok().unwrap();
    assert_eq!(e, None);
    assert!(entry_times("2026-05-21", "08:00", Some("25:00")).is_err());
}

#[test]
fn lookup_payload_has_same_shape() {
    let lcs = vec![LaborCode { id: 1, wbs_number: "WBS-A".into(), name: "Alpha".into() }];
    let hts = vec![HourType { id: 2, code: "REG".into(), name: "Regular".into() }];
    let p = Repository::lookup_payload(&lcs, &hts);
    assert_eq!(p.labor_codes.len(), 1);
    assert_eq!(p.labor_codes[0].wbs_number, "WBS-A");
    assert_eq!(p.hour_types[0].name, "Regular");
}

#[test]
fn export_uses_wbs_code_and_central_times() {
    let x = Repository::export_entry(&row(1, "2026-05-21T13:00:00Z", Some("2026-05-21T21:00:00Z"), 0));
    assert_eq!(x.wbs_number, "WBS-T");
    assert_eq!(x.hour_type_code, "REG");
    assert!(!x.telework);
    assert_eq!(x.date, "2026-05-21");
    assert_eq!(x.start_time, "08:00");
    assert_eq!(x.end_time, Some("16:00".to_string()));
    let p = Repository::export_payload(&[row(2, "2026-05-21T13:00:00Z", None, 1)]);
    assert_eq!(p.entries.len(), 1);
    assert_eq!(p.entries[0].end_time, None);
    assert!(p.entries[0].telework);
}

fn lookups() -> (Vec<LaborCode>, Vec<HourType>) {
    (
        vec![LaborCode { id: 11, wbs_number: "WBS-A".into(), name: "Alpha".into() }],
        vec![HourType { id: 22, code: "REG".into(), name: "Regular".into() }],
    )
}

fn export(wbs: &str, code: &str, start: &str, end: Option<&str>) -> ExportEntry {
    ExportEntry {
        wbs_number: wbs.into(),
        hour_type_code: code.into(),
        telework: true,
        date: "2026-05-21".into(),
        start_time: start.into(),
        end_time: end.map(|e| e.to_string()),
    }
}

#[test]
fn import_resolves_codes_and_times() {
    let (lcs, hts) = lookups();
    let r = Repository::resolve_import_entries(&[export("WBS-A", "REG", "08:00", Some("16:00"))], &lcs, &hts);
    let v = r.ok().unwrap();
    assert_eq!(v.len(), 1);
    assert_eq!(v[0].labor_code_id, 11);
    assert_eq!(v[0].hour_type_id, 22);
    assert!(v[0].telework);
    assert_eq!(v[0].start_time, ts("2026-05-21T13:00:00Z"));
    assert_eq!(v[0].end_time, Some(ts("2026-05-21T21:00:00Z")));
}

#[test]
fn import_missing_labor_code() {
    let (lcs, hts) = lookups();
    let r = Repository::resolve_import_entries(
        &[export("WBS-A", "REG", "08:00", None), export("WBS-MISSING", "REG", "09:00", None)],
        &lcs,
        &hts,
    );
    match r {
        Err(ImportEntryError::LaborCodeNotFound(w)) => assert_eq!(w, "WBS-MISSING"),
        _ => panic!("expected a missing labor code"),
    }
}

#[test]
fn import_missing_hour_type() {
    let (lcs, hts) = lookups();
    match Repository::resolve_import_entries(&[export("WBS-A", "MISSING", "08:00", None)], &lcs, &hts) {
        Err(ImportEntryError::HourTypeNotFound(c)) => assert_eq!(c, "MISSING"),
        _ => panic!("expected a missing hour type"),
    }
}

#[test]
fn import_invalid_time() {
    let (lcs, hts) = lookups();
    match Repository::resolve_import_entries(&[export("WBS-A", "REG", "08:00", Some("99:99"))], &lcs, &hts) {
        Err(ImportEntryError::InvalidTime(TimeConversionError::InvalidDateTime(_))) => {},
        _ => panic!("expected an invalid time"),
    }
}

#[test]
fn export_then_import_keeps_codes() {
    let (lcs, hts) = lookups();
    let mut r = row(1, "2026-05-21T13:00:00Z", Some("2026-05-21T21:00:00Z"), 1);
    r.wbs_number = "WBS-A".into();
    let x = Repository::export_entry(&r);
    let v = Repository::resolve_import_entries(&[x], &lcs, &hts).ok().unwrap();
    assert_eq!(v[0].start_time, r.start_time);
    assert_eq!(v[0].end_time, r.end_time);
    assert_eq!(v[0].labor_code_id, 11);
}
