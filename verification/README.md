# timecard

The calculations of a desktop timecard: hours worked against labor codes and
hour types, rounded to the nearest 15 minutes, totalled per day, per week, per
pay period and per labor code, and moved in and out of the program as JSON.

The library in `src/` is written in Verus. Its functions carry contracts
that Verus proves, except the small wrappers around chrono and chrono-tz
(marked `#[verifier::external_body]` in `calendar` and `time`): their
contracts state what those crates document and are trusted, not proved.

- `text`: digits and `HH:MM` pieces, string order and equality, reading a `u32`
  or an `i64`.
- `calendar`: dates as day numbers; navigation by days and weeks, the Sunday
  starting a week, ranges of dates, weekday and label formatting (parsing and
  formatting are chrono's).
- `time`: Central wall-clock times to UTC instants and back (chrono-tz).
- `hours`: quarter-hour rounding of entries, live elapsed time, the suggested
  start and end times of the entry form, the end time of a duration.
- `models`: the records; instants are Unix seconds, worked time is counted in
  quarter hours.
- `repository`: the repository handle; its computations are associated
  functions defined in the modules below.
- `pay_period`: pay periods repeating every 14 days from each anchor date until
  the next anchor takes over, and the choice of the period to show.
- `aggregate`: totals per entry set, per day and per labor code; day and
  period summaries; the laws that these totals add up.
- `entries`: stored rows to shown entries, overlap detection, hour-type rules.
- `pivot`: the week and pay-period pivot table, its column and grand totals,
  the columns shown and the entries behind a cell.
- `transfer`: the import/export mapping of lookup data and entries.
- `form`: the entry form's check before saving (labor code, hour type and
  start time required).

`app/` is the program around the library: the SQLite database (sqlx), the
repository's queries, the JSON forms of the payloads (serde) and the Dioxus
shell. `tests/` runs the library on concrete values.
