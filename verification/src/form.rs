//! The checks the entry form makes before it saves an entry: a labor code
//! and an hour type must be selected and a start time given.

use vstd::prelude::*;
use crate::text::{i64_text, parse_i64};

verus! {

/// Why the entry form refuses to save.
#[derive(Debug, Clone, Copy, PartialEq, Eq, Structural)]
pub enum EntryFormError {
    /// The labor-code selection is not an id.
    NoLaborCode,
    /// The hour-type selection is not an id.
    NoHourType,
    /// The start time is empty.
    NoStartTime,
}

/// The banner text of each refusal.
pub open spec fn form_error_text(e: EntryFormError) -> Seq<char> {
    match e {
        EntryFormError::NoLaborCode => "Select a labor code"@,
        EntryFormError::NoHourType => "Select an hour type"@,
        EntryFormError::NoStartTime => "Start time is required"@,
    }
}

impl EntryFormError {
    /// The text the form shows for this refusal.
    pub fn message(&self) -> (r: &'static str)
        ensures
            r@ == form_error_text(*self),
    {
        match self {
            EntryFormError::NoLaborCode => "Select a labor code",
            EntryFormError::NoHourType => "Select an hour type",
            EntryFormError::NoStartTime => "Start time is required",
        }
    }
}

/// What the submit check of the entry form decides: the labor-code and
/// hour-type ids, or the first refusal (labor code, then hour type, then
/// start time).
pub open spec fn entry_form_outcome(labor_code_id: Seq<char>, hour_type_id: Seq<char>, start_time: Seq<char>) -> Result<(i64, i64), EntryFormError> {
    match i64_text(labor_code_id) {
        None => Err(EntryFormError::NoLaborCode),
        Some(lc) => match i64_text(hour_type_id) {
            None => Err(EntryFormError::NoHourType),
            Some(ht) => if start_time.len() == 0 {
                Err(EntryFormError::NoStartTime)
            } else {
                Ok((lc, ht))
            },
        },
    }
}

/// Checks the entry form before it saves: the selected labor code and hour
/// type must read as ids (`str::parse::<i64>`) and the start time must not
/// be empty. Returns the two ids, or the first refusal.
pub fn check_entry_form(labor_code_id: &str, hour_type_id: &str, start_time: &str) -> (r: Result<(i64, i64), EntryFormError>)
    ensures
        r == entry_form_outcome(labor_code_id@, hour_type_id@, start_time@),
{
    let lc = match parse_i64(labor_code_id) {
        Some(v) => v,
        None => return Err(EntryFormError::NoLaborCode),
    };
    let ht = match parse_i64(hour_type_id) {
        Some(v) => v,
        None => return Err(EntryFormError::NoHourType),
    };
    if start_time.unicode_len() == 0 {
        return Err(EntryFormError::NoStartTime);
    }
    Ok((lc, ht))
}

} // verus!
