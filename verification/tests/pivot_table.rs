use chrono::{Datelike, NaiveDate};
use timecard::entries::overlapping_ids;
use timecard::models::TimecardEntryView;
use timecard::pivot::{
    build_pivot, cell_click_entry, cell_entries, cell_has_overlap, pivot_column_totals, pivot_grand_total,
    visible_columns, visible_week_columns,
};

fn day(s: &str) -> i32 {
    NaiveDate::parse_from_str(s, "%Y-%m-%d").unwrap().num_days_from_ce()
}

fn entry(
    id: i64,
    lc: i64,
    ht: i64,
    tw: bool,
    wbs: &str,
    code: &str,
    date: &str,
    start: i64,
    quarters: Option<u64>,
) -> TimecardEntryView {
    TimecardEntryView {
        id,
        labor_code_id: lc,
        hour_type_id: ht,
        telework: tw,
        date: day(date),
        start_time: start,
        end_time: quarters.map(|q| start + q as i64 * 900),
        quarter_hours: quarters,
        wbs_number: wbs.to_string(),
        labor_code_name: format!("Name {}", wbs),
        hour_type_code: code.to_string(),
        hour_type_name: code.to_string(),
    }
}

fn days() -> Vec<String> {
    ["2026-05-17", "2026-05-18", "2026-05-19", "2026-05-20", "2026-05-21", "2026-05-22", "2026-05-23"]
        .iter()
        .map(|s| s.to_string())
        .collect()
}

fn sample() -> Vec<TimecardEntryView> {
    vec![
        entry(1, 2, 1, false, "WBS-B", "REG", "2026-05-18", 0, Some(32)),
        entry(2, 1, 2, false, "WBS-A", "REG", "2026-05-18", 40000, Some(4)),
        entry(3, 2, 1, true, "WBS-B", "REG", "2026-05-19", 90000, Some(16)),
        entry(4, 2, 1, false, "WBS-B", "REG", "2026-05-18", 100, Some(2)),
        entry(5, 1, 1, false, "WBS-A", "OT", "2026-05-23", 200000, Some(8)),
        entry(6, 3, 1, false, "WBS-C", "REG", "2026-05-20", 300000, None),
    ]
}

#[test]
fn pivot_rows_grouped_and_sorted() {
    let rows = build_pivot(&sample(), &days());
    let keys: Vec<(i64, i64, bool)> = rows.iter().map(|r| (r.labor_code_id, r.hour_type_id, r.telework)).collect();
    // WBS-A/OT, WBS-A/REG, WBS-B/REG without, WBS-B/REG with telework;
    // the entry in progress makes no row.
    assert_eq!(keys, vec![(1, 1, false), (1, 2, false), (2, 1, false), (2, 1, true)]);
    assert_eq!(rows[0].hour_type_code, "OT");
    assert_eq!(rows[2].labor_code_name, "Name WBS-B");
}

#[test]
fn pivot_cells_sum_per_day() {
    let rows = build_pivot(&sample(), &days());
    let b = &rows[2];
    assert_eq!(b.cells, vec![None, Some(34), None, None, None, None, None]);
    assert_eq!(b.total, 34);
    let a_ot = &rows[0];
    assert_eq!(a_ot.cells[6], Some(8));
    assert_eq!(a_ot.total, 8);
}

#[test]
fn pivot_ties_keep_first_entry_order() {
    let entries = vec![
        entry(1, 5, 1, false, "WBS-X", "REG", "2026-05-18", 0, Some(4)),
        entry(2, 4, 1, false, "WBS-X", "REG", "2026-05-18", 10000, Some(4)),
    ];
    let rows = build_pivot(&entries, &days());
    assert_eq!(rows.len(), 2);
    assert_eq!(rows[0].labor_code_id, 5);
    assert_eq!(rows[1].labor_code_id, 4);
}

#[test]
fn pivot_zero_hours_cell_is_some() {
    let entries = vec![entry(1, 1, 1, false, "W", "REG", "2026-05-18", 0, Some(0))];
    let rows = build_pivot(&entries, &days());
    assert_eq!(rows[0].cells[1], Some(0));
    assert_eq!(rows[0].cells[0], None);
}

#[test]
fn pivot_of_no_entries_is_empty() {
    assert!(build_pivot(&[], &days()).is_empty());
}

#[test]
fn column_and_grand_totals() {
    let rows = build_pivot(&sample(), &days());
    let cols = pivot_column_totals(&rows, 7);
    assert_eq!(cols, vec![0, 38, 16, 0, 0, 0, 8]);
    assert_eq!(pivot_grand_total(&cols), 62);
    let row_sum: u128 = rows.iter().map(|r| r.total).sum();
    assert_eq!(row_sum, 62);
}

#[test]
fn saturating_grand_total() {
    assert_eq!(pivot_grand_total(&[u128::MAX, 1]), u128::MAX);
    assert_eq!(pivot_grand_total(&[]), 0);
}

#[test]
fn weekend_columns_hidden_without_hours() {
    let rows = build_pivot(&sample(), &days());
    let cols = pivot_column_totals(&rows, 7);
    // Sunday 05-17 has no hours and is hidden; Saturday 05-23 has hours.
    assert_eq!(visible_columns(&days(), &cols), vec![1, 2, 3, 4, 5, 6]);
    assert_eq!(visible_columns(&days(), &[0; 7]), vec![1, 2, 3, 4, 5]);
}

#[test]
fn cell_entries_match_day_and_row() {
    let entries = sample();
    let m = cell_entries(&entries, "2026-05-18", 2, 1, false);
    let ids: Vec<i64> = m.iter().map(|e| e.id).collect();
    assert_eq!(ids, vec![1, 4]);
    let one = cell_entries(&entries, "2026-05-19", 2, 1, true);
    assert_eq!(one.len(), 1);
    assert_eq!(one[0].wbs_number, "WBS-B");
    assert!(cell_entries(&entries, "2026-05-19", 2, 1, false).is_empty());
}

#[test]
fn cell_overlap_flag() {
    let entries = sample();
    let overlaps = overlapping_ids(&entries);
    // entries 1 and 4 overlap (0..28800 and 100..1900)
    assert!(cell_has_overlap(&cell_entries(&entries, "2026-05-18", 2, 1, false), &overlaps));
    assert!(!cell_has_overlap(&cell_entries(&entries, "2026-05-18", 1, 2, false), &overlaps));
}

#[test]
fn click_opens_single_entry_only() {
    let entries = sample();
    let two = cell_entries(&entries, "2026-05-18", 2, 1, false);
    assert!(cell_click_entry(&two).is_none());
    let one = cell_entries(&entries, "2026-05-19", 2, 1, true);
    assert_eq!(cell_click_entry(&one).map(|e| e.id), Some(3));
    assert!(cell_click_entry(&[]).is_none());
}

#[test]
fn weekend_toggle_hides_weekends() {
    let rows = build_pivot(&sample(), &days());
    let cols = pivot_column_totals(&rows, 7);
    assert_eq!(visible_week_columns(&days(), &cols, true), vec![1, 2, 3, 4, 5, 6]);
    assert_eq!(visible_week_columns(&days(), &cols, false), vec![1, 2, 3, 4, 5]);
}
