//! Timecard calculations: quarter-hour rounding of worked time, calendar
//! navigation over days counted from the common era, pay-period cadences,
//! daily and per-labor-code aggregates, pivot tables and the import/export
//! mapping of timecard data.

pub mod text;
pub mod calendar;
pub mod models;
pub mod time;
pub mod hours;
pub mod repository;
pub mod pay_period;
pub mod aggregate;
pub mod entries;
pub mod transfer;
pub mod pivot;
pub mod form;
