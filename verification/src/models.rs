//! The records of the timecard: lookup data (labor codes, hour types), timecard
//! entries, pay periods, aggregates and the import/export payloads.
//!
//! Dates are day numbers (see `calendar`), instants are UTC Unix timestamps in
//! seconds, and worked time is counted in quarter hours: a duration of `q`
//! quarter hours is `q / 4` decimal hours.

use vstd::prelude::*;

verus! {

/// A WBS labor code that time is charged to.
#[derive(Debug, Clone)]
pub struct LaborCode {
    pub id: i64,
    pub wbs_number: String,
    pub name: String,
}

/// Input for creating a labor code.
#[derive(Debug, Clone)]
pub struct CreateLaborCode {
    pub wbs_number: String,
    pub name: String,
}

/// Input for updating a labor code.
#[derive(Debug, Clone)]
pub struct UpdateLaborCode {
    pub id: i64,
    pub wbs_number: String,
    pub name: String,
}

/// An hour type (such as regular or overtime).
#[derive(Debug, Clone)]
pub struct HourType {
    pub id: i64,
    pub code: String,
    pub name: String,
}

/// Input for creating an hour type.
#[derive(Debug, Clone)]
pub struct CreateHourType {
    pub code: String,
    pub name: String,
}

/// Input for updating an hour type.
#[derive(Debug, Clone)]
pub struct UpdateHourType {
    pub id: i64,
    pub code: String,
    pub name: String,
}

/// A stored timecard entry joined with its labor code and hour type, as read
/// from the database: `telework` is the stored integer flag.
#[derive(Debug, Clone)]
pub struct TimecardEntryRow {
    pub id: i64,
    pub labor_code_id: i64,
    pub hour_type_id: i64,
    pub telework: i64,
    /// Local calendar day of the entry (day number).
    pub date: i32,
    /// Start instant (UTC Unix seconds).
    pub start_time: i64,
    /// End instant (UTC Unix seconds); `None` while the entry is in progress.
    pub end_time: Option<i64>,
    pub wbs_number: String,
    pub labor_code_name: String,
    pub hour_type_code: String,
    pub hour_type_name: String,
}

/// A timecard entry as shown: the telework flag as a boolean and the worked
/// time rounded to the nearest quarter hour.
#[derive(Debug, Clone)]
pub struct TimecardEntryView {
    pub id: i64,
    pub labor_code_id: i64,
    pub hour_type_id: i64,
    pub telework: bool,
    /// Local calendar day of the entry (day number).
    pub date: i32,
    /// Start instant (UTC Unix seconds).
    pub start_time: i64,
    /// End instant (UTC Unix seconds); `None` while the entry is in progress.
    pub end_time: Option<i64>,
    /// Worked time in quarter hours; `None` while in progress or when the
    /// end lies before the start.
    pub quarter_hours: Option<u64>,
    pub wbs_number: String,
    pub labor_code_name: String,
    pub hour_type_code: String,
    pub hour_type_name: String,
}

/// Input for creating a timecard entry: a local `YYYY-MM-DD` date and Central
/// `HH:MM` times.
#[derive(Debug, Clone)]
pub struct CreateTimecardEntry {
    pub labor_code_id: i64,
    pub hour_type_id: i64,
    pub telework: bool,
    pub date: String,
    pub start_time: String,
    pub end_time: Option<String>,
}

/// Input for updating a timecard entry.
#[derive(Debug, Clone)]
pub struct UpdateTimecardEntry {
    pub id: i64,
    pub labor_code_id: i64,
    pub hour_type_id: i64,
    pub telework: bool,
    pub date: String,
    pub start_time: String,
    pub end_time: Option<String>,
}

/// A date that starts a two-week pay period cadence.
#[derive(Debug, Clone)]
pub struct PayPeriodAnchor {
    pub id: i64,
    pub start_date: String,
}

/// A pay period: its first and last `YYYY-MM-DD` dates.
#[derive(Debug, Clone)]
pub struct PayPeriodRange {
    pub start_date: String,
    pub end_date: String,
}

/// Hours worked on one date.
#[derive(Debug, Clone)]
pub struct DayAggregate {
    pub date: String,
    pub total_quarter_hours: u128,
}

/// Hours worked against one labor code.
#[derive(Debug, Clone)]
pub struct AggregateRow {
    pub wbs_number: String,
    pub labor_code_name: String,
    pub total_quarter_hours: u128,
}

/// The entries of one day with their totals.
#[derive(Debug, Clone)]
pub struct DaySummary {
    pub entries: Vec<TimecardEntryView>,
    pub total_quarter_hours: u128,
    pub by_labor_code: Vec<AggregateRow>,
}

/// The entries of a range of days (a week or a pay period) with their totals.
#[derive(Debug, Clone)]
pub struct WeekSummary {
    pub entries: Vec<TimecardEntryView>,
    pub total_quarter_hours: u128,
    pub by_day: Vec<DayAggregate>,
    pub by_labor_code: Vec<AggregateRow>,
}

/// A labor code in an import or export file.
#[derive(Debug, Clone)]
pub struct ImportLaborCode {
    pub wbs_number: String,
    pub name: String,
}

/// An hour type in an import or export file.
#[derive(Debug, Clone)]
pub struct ImportHourType {
    pub code: String,
    pub name: String,
}

/// Lookup data as imported and exported.
#[derive(Debug, Clone)]
pub struct ImportPayload {
    pub labor_codes: Vec<ImportLaborCode>,
    pub hour_types: Vec<ImportHourType>,
}

/// How many lookup records an import wrote.
#[derive(Debug, Clone)]
pub struct ImportResult {
    pub imported_labor_codes: u64,
    pub imported_hour_types: u64,
}

/// A portable timecard entry: labor code by WBS number, hour type by code,
/// local `YYYY-MM-DD` date and Central `HH:MM` times.
#[derive(Debug, Clone)]
pub struct ExportEntry {
    pub wbs_number: String,
    pub hour_type_code: String,
    pub telework: bool,
    pub date: String,
    pub start_time: String,
    pub end_time: Option<String>,
}

/// Timecard entries as exported and imported.
#[derive(Debug, Clone)]
pub struct ExportEntriesPayload {
    pub entries: Vec<ExportEntry>,
}

} // verus!
