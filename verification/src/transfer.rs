//! Import and export of lookup data and timecard entries: the mapping between
//! stored records and their portable form (labor codes by WBS number, hour
//! types by code, Central `HH:MM` times).

use vstd::prelude::*;
use crate::calendar::{valid_day, date_text, day_text};
use crate::time::{
    valid_timestamp, central_hhmm, central_instant, central_outcome, central_to_utc,
    utc_to_central_hhmm, TimeConversionError,
};
use crate::models::{
    LaborCode, HourType, ImportLaborCode, ImportHourType, ImportPayload, TimecardEntryRow,
    ExportEntry, ExportEntriesPayload,
};
use crate::repository::Repository;
use crate::text::str_eq;

verus! {

/// A timecard entry ready to be stored: lookups resolved to ids, times in UTC.
#[derive(Debug, Clone)]
pub struct NewTimecardEntry {
    pub labor_code_id: i64,
    pub hour_type_id: i64,
    pub telework: bool,
    /// Local `YYYY-MM-DD` date, as given.
    pub date: String,
    /// Start instant (UTC Unix seconds).
    pub start_time: i64,
    /// End instant (UTC Unix seconds), if any.
    pub end_time: Option<i64>,
}

/// Why a portable entry could not be imported.
#[derive(Debug, Clone)]
pub enum ImportEntryError {
    /// No labor code has the entry's WBS number.
    LaborCodeNotFound(String),
    /// No hour type has the entry's code.
    HourTypeNotFound(String),
    /// The entry's date and times do not name instants.
    InvalidTime(TimeConversionError),
}

/// The lookup data in portable form, in the same order.
pub open spec fn payload_of(lcs: Seq<LaborCode>, hts: Seq<HourType>, p: ImportPayload) -> bool {
    &&& p.labor_codes@.len() == lcs.len()
    &&& forall|i: int| #![trigger p.labor_codes@[i]] 0 <= i < lcs.len() ==> {
        &&& p.labor_codes@[i].wbs_number@ == lcs[i].wbs_number@
        &&& p.labor_codes@[i].name@ == lcs[i].name@
    }
    &&& p.hour_types@.len() == hts.len()
    &&& forall|i: int| #![trigger p.hour_types@[i]] 0 <= i < hts.len() ==> {
        &&& p.hour_types@[i].code@ == hts[i].code@
        &&& p.hour_types@[i].name@ == hts[i].name@
    }
}

/// A stored row whose date and instants are representable.
pub open spec fn exportable(r: TimecardEntryRow) -> bool {
    &&& valid_day(r.date as int)
    &&& valid_timestamp(r.start_time as int)
    &&& (r.end_time matches Some(e) ==> valid_timestamp(e as int))
}

/// `x` is the portable form of the stored row `r`.
pub open spec fn export_of(r: TimecardEntryRow, x: ExportEntry) -> bool {
    &&& x.wbs_number@ == r.wbs_number@
    &&& x.hour_type_code@ == r.hour_type_code@
    &&& x.telework == (r.telework != 0)
    &&& x.date@ == date_text(r.date as int)
    &&& x.start_time@ == central_hhmm(r.start_time as int)
    &&& match r.end_time {
        Some(e) => x.end_time matches Some(t) && t@ == central_hhmm(e as int),
        None => x.end_time is None,
    }
}

/// The id of the first labor code with WBS number `wbs`.
pub open spec fn find_labor_code(lcs: Seq<LaborCode>, wbs: Seq<char>) -> Option<i64>
    decreases lcs.len(),
{
    if lcs.len() == 0 {
        None
    } else if lcs[0].wbs_number@ == wbs {
        Some(lcs[0].id)
    } else {
        find_labor_code(lcs.drop_first(), wbs)
    }
}

/// The id of the first hour type with code `code`.
pub open spec fn find_hour_type(hts: Seq<HourType>, code: Seq<char>) -> Option<i64>
    decreases hts.len(),
{
    if hts.len() == 0 {
        None
    } else if hts[0].code@ == code {
        Some(hts[0].id)
    } else {
        find_hour_type(hts.drop_first(), code)
    }
}

/// Whether a portable entry resolves: its labor code and hour type exist and
/// its times name instants.
pub open spec fn resolvable(e: ExportEntry, lcs: Seq<LaborCode>, hts: Seq<HourType>) -> bool {
    &&& find_labor_code(lcs, e.wbs_number@) is Some
    &&& find_hour_type(hts, e.hour_type_code@) is Some
    &&& central_instant(e.date@, e.start_time@) is Some
    &&& (e.end_time matches Some(t) ==> central_instant(e.date@, t@) is Some)
}

/// `n` is the resolved form of the portable entry `e`.
pub open spec fn resolved_as(e: ExportEntry, lcs: Seq<LaborCode>, hts: Seq<HourType>, n: NewTimecardEntry) -> bool {
    &&& find_labor_code(lcs, e.wbs_number@) == Some(n.labor_code_id)
    &&& find_hour_type(hts, e.hour_type_code@) == Some(n.hour_type_id)
    &&& n.telework == e.telework
    &&& n.date@ == e.date@
    &&& central_instant(e.date@, e.start_time@) == Some(n.start_time as int)
    &&& match e.end_time {
        Some(t) => n.end_time matches Some(u) && central_instant(e.date@, t@) == Some(u as int),
        None => n.end_time is None,
    }
}

/// The error owed for an unresolvable portable entry: the missing labor code
/// first, then the missing hour type, then the start time, then the end time.
pub open spec fn resolution_error(e: ExportEntry, lcs: Seq<LaborCode>, hts: Seq<HourType>, err: ImportEntryError) -> bool {
    if find_labor_code(lcs, e.wbs_number@) is None {
        err matches ImportEntryError::LaborCodeNotFound(w) && w@ == e.wbs_number@
    } else if find_hour_type(hts, e.hour_type_code@) is None {
        err matches ImportEntryError::HourTypeNotFound(c) && c@ == e.hour_type_code@
    } else if central_instant(e.date@, e.start_time@) is None {
        err matches ImportEntryError::InvalidTime(te) && central_outcome(e.date@, e.start_time@, Err(te))
    } else {
        err matches ImportEntryError::InvalidTime(te) && (e.end_time matches Some(t) && central_outcome(e.date@, t@, Err(te)))
    }
}

/// Entry `i` is the first unresolvable one and `err` is its error.
pub open spec fn first_failure(es: Seq<ExportEntry>, lcs: Seq<LaborCode>, hts: Seq<HourType>, err: ImportEntryError) -> bool {
    exists|i: int|
        0 <= i < es.len() && (forall|k: int| 0 <= k < i ==> resolvable(#[trigger] es[k], lcs, hts))
            && !resolvable(es[i], lcs, hts) && resolution_error(es[i], lcs, hts, err)
}

/// No two labor codes share a WBS number (the database's `UNIQUE` constraint).
pub open spec fn unique_wbs(lcs: Seq<LaborCode>) -> bool {
    forall|a: int, b: int| 0 <= a < b < lcs.len() ==> (#[trigger] lcs[a]).wbs_number@ != (#[trigger] lcs[b]).wbs_number@
}

/// No two hour types share a code (the database's `UNIQUE` constraint).
pub open spec fn unique_codes(hts: Seq<HourType>) -> bool {
    forall|a: int, b: int| 0 <= a < b < hts.len() ==> (#[trigger] hts[a]).code@ != (#[trigger] hts[b]).code@
}

proof fn lemma_find_labor_code_at(lcs: Seq<LaborCode>, i: int)
    requires
        unique_wbs(lcs),
        0 <= i < lcs.len(),
    ensures
        find_labor_code(lcs, lcs[i].wbs_number@) == Some(lcs[i].id),
    decreases i,
{
    if i > 0 {
        let rest = lcs.drop_first();
        assert(lcs[0].wbs_number@ != lcs[i].wbs_number@);
        assert(unique_wbs(rest)) by {
            assert forall|a: int, b: int| 0 <= a < b < rest.len() implies (#[trigger] rest[a]).wbs_number@
                != (#[trigger] rest[b]).wbs_number@ by {
                assert(rest[a] == lcs[a + 1] && rest[b] == lcs[b + 1]);
            }
        }
        assert(rest[i - 1] == lcs[i]);
        lemma_find_labor_code_at(rest, i - 1);
    }
}

proof fn lemma_find_hour_type_at(hts: Seq<HourType>, i: int)
    requires
        unique_codes(hts),
        0 <= i < hts.len(),
    ensures
        find_hour_type(hts, hts[i].code@) == Some(hts[i].id),
    decreases i,
{
    if i > 0 {
        let rest = hts.drop_first();
        assert(hts[0].code@ != hts[i].code@);
        assert(unique_codes(rest)) by {
            assert forall|a: int, b: int| 0 <= a < b < rest.len() implies (#[trigger] rest[a]).code@
                != (#[trigger] rest[b]).code@ by {
                assert(rest[a] == hts[a + 1] && rest[b] == hts[b + 1]);
            }
        }
        assert(rest[i - 1] == hts[i]);
        lemma_find_hour_type_at(rest, i - 1);
    }
}

/// Importing an exported entry against the lookup tables it came from gives
/// back its labor code and hour type: when the table holds the row's labor
/// code at `i` and its hour type at `j`, with WBS numbers and codes unique,
/// the portable entry resolves to the row's ids, telework flag and date.
pub proof fn lemma_export_import_lookups(
    r: TimecardEntryRow,
    x: ExportEntry,
    lcs: Seq<LaborCode>,
    hts: Seq<HourType>,
    i: int,
    j: int,
)
    requires
        export_of(r, x),
        unique_wbs(lcs),
        unique_codes(hts),
        0 <= i < lcs.len(),
        lcs[i].id == r.labor_code_id,
        lcs[i].wbs_number@ == r.wbs_number@,
        0 <= j < hts.len(),
        hts[j].id == r.hour_type_id,
        hts[j].code@ == r.hour_type_code@,
    ensures
        find_labor_code(lcs, x.wbs_number@) == Some(r.labor_code_id),
        find_hour_type(hts, x.hour_type_code@) == Some(r.hour_type_id),
        forall|n: NewTimecardEntry| #[trigger] resolved_as(x, lcs, hts, n) ==> {
            &&& n.labor_code_id == r.labor_code_id
            &&& n.hour_type_id == r.hour_type_id
            &&& n.telework == (r.telework != 0)
            &&& n.date@ == date_text(r.date as int)
        },
{
    lemma_find_labor_code_at(lcs, i);
    lemma_find_hour_type_at(hts, j);
}

/// Looks up a labor code id by WBS number.
fn lookup_labor_code(lcs: &[LaborCode], wbs: &str) -> (r: Option<i64>)
    ensures
        r == find_labor_code(lcs@, wbs@),
{
    let n = lcs.len();
    let mut i: usize = 0;
    assert(lcs@.skip(0) =~= lcs@);
    while i < n
        invariant
            n == lcs@.len(),
            i <= n,
            find_labor_code(lcs@, wbs@) == find_labor_code(lcs@.skip(i as int), wbs@),
        decreases n - i,
    {
        proof {
            assert(lcs@.skip(i as int).drop_first() =~= lcs@.skip(i + 1));
            assert(lcs@.skip(i as int)[0] == lcs@[i as int]);
        }
        if str_eq(lcs[i].wbs_number.as_str(), wbs) {
            return Some(lcs[i].id);
        }
        i = i + 1;
    }
    None
}

/// Looks up an hour type id by code.
fn lookup_hour_type(hts: &[HourType], code: &str) -> (r: Option<i64>)
    ensures
        r == find_hour_type(hts@, code@),
{
    let n = hts.len();
    let mut i: usize = 0;
    assert(hts@.skip(0) =~= hts@);
    while i < n
        invariant
            n == hts@.len(),
            i <= n,
            find_hour_type(hts@, code@) == find_hour_type(hts@.skip(i as int), code@),
        decreases n - i,
    {
        proof {
            assert(hts@.skip(i as int).drop_first() =~= hts@.skip(i + 1));
            assert(hts@.skip(i as int)[0] == hts@[i as int]);
        }
        if str_eq(hts[i].code.as_str(), code) {
            return Some(hts[i].id);
        }
        i = i + 1;
    }
    None
}

impl Repository<'static, ()> {
    /// All labor codes and hour types as an import payload (the shape that
    /// import reads).
    pub fn lookup_payload(labor_codes: &[LaborCode], hour_types: &[HourType]) -> (r: ImportPayload)
        ensures
            payload_of(labor_codes@, hour_types@, r),
    {
        let mut lcs: Vec<ImportLaborCode> = Vec::new();
        let n = labor_codes.len();
        let mut i: usize = 0;
        while i < n
            invariant
                n == labor_codes@.len(),
                i <= n,
                lcs@.len() == i,
                forall|k: int| #![trigger lcs@[k]] 0 <= k < i ==> {
                    &&& lcs@[k].wbs_number@ == labor_codes@[k].wbs_number@
                    &&& lcs@[k].name@ == labor_codes@[k].name@
                },
            decreases n - i,
        {
            lcs.push(ImportLaborCode {
                wbs_number: labor_codes[i].wbs_number.clone(),
                name: labor_codes[i].name.clone(),
            });
            i = i + 1;
        }
        let mut hts: Vec<ImportHourType> = Vec::new();
        let m = hour_types.len();
        let mut j: usize = 0;
        while j < m
            invariant
                m == hour_types@.len(),
                j <= m,
                hts@.len() == j,
                forall|k: int| #![trigger hts@[k]] 0 <= k < j ==> {
                    &&& hts@[k].code@ == hour_types@[k].code@
                    &&& hts@[k].name@ == hour_types@[k].name@
                },
            decreases m - j,
        {
            hts.push(ImportHourType { code: hour_types[j].code.clone(), name: hour_types[j].name.clone() });
            j = j + 1;
        }
        ImportPayload { labor_codes: lcs, hour_types: hts }
    }

    /// The portable form of a stored entry: WBS number, hour type code, the
    /// telework flag, the `YYYY-MM-DD` date and Central `HH:MM` times.
    pub fn export_entry(row: &TimecardEntryRow) -> (x: ExportEntry)
        requires
            exportable(*row),
        ensures
            export_of(*row, x),
    {
        let end_time = match row.end_time {
            Some(e) => Some(utc_to_central_hhmm(e)),
            None => None,
        };
        ExportEntry {
            wbs_number: row.wbs_number.clone(),
            hour_type_code: row.hour_type_code.clone(),
            telework: row.telework != 0,
            date: day_text(row.date),
            start_time: utc_to_central_hhmm(row.start_time),
            end_time,
        }
    }

    /// The portable form of stored entries, in order.
    pub fn export_payload(rows: &[TimecardEntryRow]) -> (p: ExportEntriesPayload)
        requires
            forall|i: int| 0 <= i < rows@.len() ==> exportable(#[trigger] rows@[i]),
        ensures
            p.entries@.len() == rows@.len(),
            forall|i: int| 0 <= i < rows@.len() ==> export_of(#[trigger] rows@[i], p.entries@[i]),
    {
        let mut entries: Vec<ExportEntry> = Vec::new();
        let n = rows.len();
        let mut i: usize = 0;
        while i < n
            invariant
                n == rows@.len(),
                i <= n,
                entries@.len() == i,
                forall|k: int| 0 <= k < rows@.len() ==> exportable(#[trigger] rows@[k]),
                forall|k: int| 0 <= k < i ==> export_of(#[trigger] rows@[k], entries@[k]),
            decreases n - i,
        {
            entries.push(Self::export_entry(&rows[i]));
            i = i + 1;
        }
        ExportEntriesPayload { entries }
    }

    /// Resolves portable entries for import against the stored labor codes
    /// and hour types, in order, stopping at the first that does not resolve:
    /// its WBS number names no labor code, its code no hour type, or its times
    /// name no instant.
    pub fn resolve_import_entries(
        entries: &[ExportEntry],
        labor_codes: &[LaborCode],
        hour_types: &[HourType],
    ) -> (r: Result<Vec<NewTimecardEntry>, ImportEntryError>)
        ensures
            r is Ok <==> forall|i: int| 0 <= i < entries@.len() ==> resolvable(#[trigger] entries@[i], labor_codes@, hour_types@),
            r matches Ok(v) ==> v@.len() == entries@.len() && forall|i: int| 0 <= i < entries@.len()
                ==> resolved_as(#[trigger] entries@[i], labor_codes@, hour_types@, v@[i]),
            r matches Err(err) ==> first_failure(entries@, labor_codes@, hour_types@, err),
    {
        let mut out: Vec<NewTimecardEntry> = Vec::new();
        let n = entries.len();
        let mut i: usize = 0;
        while i < n
            invariant
                n == entries@.len(),
                i <= n,
                out@.len() == i,
                forall|k: int| 0 <= k < i ==> resolvable(#[trigger] entries@[k], labor_codes@, hour_types@),
                forall|k: int| 0 <= k < i ==> resolved_as(#[trigger] entries@[k], labor_codes@, hour_types@, out@[k]),
            decreases n - i,
        {
            let e = &entries[i];
            let lc = match lookup_labor_code(labor_codes, e.wbs_number.as_str()) {
                Some(id) => id,
                None => {
                    let err = ImportEntryError::LaborCodeNotFound(e.wbs_number.clone());
                    assert(resolution_error(entries@[i as int], labor_codes@, hour_types@, err));
                    return Err(err);
                },
            };
            let ht = match lookup_hour_type(hour_types, e.hour_type_code.as_str()) {
                Some(id) => id,
                None => {
                    let err = ImportEntryError::HourTypeNotFound(e.hour_type_code.clone());
                    assert(resolution_error(entries@[i as int], labor_codes@, hour_types@, err));
                    return Err(err);
                },
            };
            let start = match central_to_utc(e.date.as_str(), e.start_time.as_str()) {
                Ok(u) => u,
                Err(te) => {
                    let err = ImportEntryError::InvalidTime(te);
                    assert(resolution_error(entries@[i as int], labor_codes@, hour_types@, err));
                    return Err(err);
                },
            };
            let end = match &e.end_time {
                None => None,
                Some(t) => match central_to_utc(e.date.as_str(), t.as_str()) {
                    Ok(u) => Some(u),
                    Err(te) => {
                        let err = ImportEntryError::InvalidTime(te);
                        assert(resolution_error(entries@[i as int], labor_codes@, hour_types@, err));
                        return Err(err);
                    },
                },
            };
            out.push(NewTimecardEntry {
                labor_code_id: lc,
                hour_type_id: ht,
                telework: e.telework,
                date: e.date.clone(),
                start_time: start,
                end_time: end,
            });
            i = i + 1;
        }
        Ok(out)
    }
}

} // verus!
