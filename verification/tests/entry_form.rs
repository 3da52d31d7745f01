use timecard::form::{check_entry_form, EntryFormError};
use timecard::text::parse_i64;

#[test]
fn form_accepts_selected_ids_and_start() {
    assert_eq!(check_entry_form("12", "3", "08:00"), Ok((12, 3)));
}

#[test]
fn form_requires_labor_code_first() {
    assert_eq!(check_entry_form("", "", ""), Err(EntryFormError::NoLaborCode));
    assert_eq!(check_entry_form("x", "3", "08:00"), Err(EntryFormError::NoLaborCode));
}

#[test]
fn form_requires_hour_type() {
    assert_eq!(check_entry_form("12", "", ""), Err(EntryFormError::NoHourType));
}

#[test]
fn form_requires_start_time() {
    assert_eq!(check_entry_form("12", "3", ""), Err(EntryFormError::NoStartTime));
}

#[test]
fn form_messages() {
    assert_eq!(EntryFormError::NoLaborCode.message(), "Select a labor code");
    assert_eq!(EntryFormError::NoHourType.message(), "Select an hour type");
    assert_eq!(EntryFormError::NoStartTime.message(), "Start time is required");
}

#[test]
fn parse_i64_like_std() {
    for s in [
        "0", "-0", "+0", "42", "-42", "+7", "9223372036854775807", "9223372036854775808",
        "-9223372036854775808", "-9223372036854775809", "", "+", "-", "1a", " 1", "007", "--1",
        "99999999999999999999999",
    ] {
        assert_eq!(parse_i64(s), s.parse::<i64>().ok(), "input {:?}", s);
    }
}
