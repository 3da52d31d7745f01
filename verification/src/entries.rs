//! Timecard entries as shown: conversion of stored rows, detection of entries
//! whose times overlap, and the presentation rules keyed on hour types.

use vstd::prelude::*;
use crate::hours::{compute_decimal_hours, decimal_quarter_hours};
use crate::text::{eq_ignore_ascii_case, eq_ignore_ascii_case_spec};
use crate::models::{TimecardEntryRow, TimecardEntryView, HourType};
use crate::repository::Repository;
use std::collections::HashSet;

verus! {

/// `v` shows the stored row `r`: same fields, the telework flag set when the
/// stored integer is non-zero, and the worked time rounded to quarter hours.
pub open spec fn view_of_row(r: TimecardEntryRow, v: TimecardEntryView) -> bool {
    &&& v.id == r.id
    &&& v.labor_code_id == r.labor_code_id
    &&& v.hour_type_id == r.hour_type_id
    &&& v.telework == (r.telework != 0)
    &&& v.date == r.date
    &&& v.start_time == r.start_time
    &&& v.end_time == r.end_time
    &&& v.quarter_hours == decimal_quarter_hours(r.start_time as int, r.end_time)
    &&& v.wbs_number@ == r.wbs_number@
    &&& v.labor_code_name@ == r.labor_code_name@
    &&& v.hour_type_code@ == r.hour_type_code@
    &&& v.hour_type_name@ == r.hour_type_name@
}

impl Repository<'static, ()> {
    /// Converts a stored row to the entry view with its hours computed.
    pub fn row_to_view(r: TimecardEntryRow) -> (v: TimecardEntryView)
        ensures
            view_of_row(r, v),
    {
        let quarter_hours = compute_decimal_hours(r.start_time, r.end_time);
        TimecardEntryView {
            id: r.id,
            labor_code_id: r.labor_code_id,
            hour_type_id: r.hour_type_id,
            telework: r.telework != 0,
            date: r.date,
            start_time: r.start_time,
            end_time: r.end_time,
            quarter_hours,
            wbs_number: r.wbs_number,
            labor_code_name: r.labor_code_name,
            hour_type_code: r.hour_type_code,
            hour_type_name: r.hour_type_name,
        }
    }

    /// Converts stored rows, in order.
    pub fn rows_to_views(rows: Vec<TimecardEntryRow>) -> (r: Vec<TimecardEntryView>)
        ensures
            r@.len() == rows@.len(),
            forall|i: int| 0 <= i < rows@.len() ==> view_of_row(#[trigger] rows@[i], r@[i]),
    {
        let mut rows = rows;
        let ghost orig = rows@;
        let mut stack: Vec<TimecardEntryRow> = Vec::new();
        while rows.len() > 0
            invariant
                rows@.len() + stack@.len() == orig.len(),
                rows@ == orig.take(rows@.len() as int),
                forall|i: int| 0 <= i < stack@.len() ==> #[trigger] stack@[i] == orig[orig.len() - 1 - i],
            decreases rows@.len(),
        {
            let row = rows.pop().unwrap();
            proof {
                assert(rows@ =~= orig.take(rows@.len() as int));
            }
            stack.push(row);
        }
        let mut out: Vec<TimecardEntryView> = Vec::new();
        while stack.len() > 0
            invariant
                out@.len() + stack@.len() == orig.len(),
                forall|i: int| 0 <= i < stack@.len() ==> #[trigger] stack@[i] == orig[orig.len() - 1 - i],
                forall|i: int| 0 <= i < out@.len() ==> view_of_row(#[trigger] orig[i], out@[i]),
            decreases stack@.len(),
        {
            let row = stack.pop().unwrap();
            out.push(Self::row_to_view(row));
        }
        out
    }
}

/// Whether two entries' times intersect: `a.start < b.end && b.start < a.end`,
/// an entry without an end extending indefinitely.
pub open spec fn overlaps(a: TimecardEntryView, b: TimecardEntryView) -> bool {
    match (a.end_time, b.end_time) {
        (Some(ea), Some(eb)) => a.start_time < eb && b.start_time < ea,
        (None, Some(eb)) => a.start_time < eb,
        (Some(ea), None) => b.start_time < ea,
        (None, None) => true,
    }
}

/// Overlap does not depend on the order of the two entries.
pub proof fn lemma_overlaps_symmetric(a: TimecardEntryView, b: TimecardEntryView)
    ensures
        overlaps(a, b) == overlaps(b, a),
{
}

/// An entry whose times overlap those of any other entry of `es` (before or
/// after it) is marked as overlapping.
pub proof fn lemma_overlap_marked(es: Seq<TimecardEntryView>, i: int, j: int)
    requires
        0 <= i < es.len(),
        0 <= j < es.len(),
        i != j,
        overlaps(es[i], es[j]),
    ensures
        in_overlap(es, es[i].id),
{
    if i < j {
        assert(overlaps(es[i], es[j]) && es[i].id == es[i].id);
    } else {
        lemma_overlaps_symmetric(es[i], es[j]);
        assert(overlaps(es[j], es[i]) && es[i].id == es[i].id);
    }
}

/// Instant `t` lies in the time of entry `e`: from its start (included) to
/// its end (excluded), an entry without an end running on indefinitely.
pub open spec fn during(e: TimecardEntryView, t: int) -> bool {
    e.start_time <= t && (e.end_time matches Some(x) ==> t < x)
}

/// Some instant lies in the times of both entries.
pub open spec fn times_meet(a: TimecardEntryView, b: TimecardEntryView) -> bool {
    exists|t: int| during(a, t) && #[trigger] during(b, t)
}

/// An entry takes some time: it is in progress or ends after it starts.
pub open spec fn takes_time(e: TimecardEntryView) -> bool {
    e.end_time matches Some(x) ==> e.start_time < x
}

/// Two entries that take time overlap exactly when some instant lies in both
/// of their times, whichever starts first and whether or not either has
/// ended.
pub proof fn lemma_overlaps_iff_times_meet(a: TimecardEntryView, b: TimecardEntryView)
    requires
        takes_time(a),
        takes_time(b),
    ensures
        overlaps(a, b) <==> times_meet(a, b),
{
    let t = if a.start_time <= b.start_time { b.start_time as int } else { a.start_time as int };
    if overlaps(a, b) {
        assert(during(a, t) && during(b, t));
    }
    if times_meet(a, b) {
        let u = choose|u: int| during(a, u) && #[trigger] during(b, u);
        assert(during(a, u) && during(b, u));
    }
}

/// Every entry whose time meets that of another entry is reported as
/// overlapping.
pub proof fn lemma_meeting_entries_reported(es: Seq<TimecardEntryView>, i: int, j: int)
    requires
        0 <= i < es.len(),
        0 <= j < es.len(),
        i != j,
        takes_time(es[i]),
        takes_time(es[j]),
        times_meet(es[i], es[j]),
    ensures
        in_overlap(es, es[i].id),
{
    lemma_overlaps_iff_times_meet(es[i], es[j]);
    lemma_overlap_marked(es, i, j);
}

/// Some pair `(x, y)` with `x < y`, `x < i`, overlaps and involves an entry
/// with id `id`.
pub open spec fn overlap_before(es: Seq<TimecardEntryView>, i: int, id: i64) -> bool {
    exists|x: int, y: int|
        0 <= x < i && x < y < es.len() && #[trigger] overlaps(es[x], es[y]) && (es[x].id == id || es[y].id == id)
}

/// Some `y` with `i < y < j` has entry `y` overlap entry `i`, one of them
/// with id `id`.
pub open spec fn overlap_within(es: Seq<TimecardEntryView>, i: int, j: int, id: i64) -> bool {
    exists|y: int| i < y < j && #[trigger] overlaps(es[i], es[y]) && (es[i].id == id || es[y].id == id)
}

/// Whether an entry with id `id` overlaps another entry of `es`.
pub open spec fn in_overlap(es: Seq<TimecardEntryView>, id: i64) -> bool {
    overlap_before(es, es.len() as int, id)
}

/// Whether two entries overlap.
fn entries_overlap(a: &TimecardEntryView, b: &TimecardEntryView) -> (r: bool)
    ensures
        r == overlaps(*a, *b),
{
    match (a.end_time, b.end_time) {
        (Some(ea), Some(eb)) => a.start_time < eb && b.start_time < ea,
        (None, Some(eb)) => a.start_time < eb,
        (Some(ea), None) => b.start_time < ea,
        (None, None) => true,
    }
}

/// Returns the ids of entries that overlap in time with at least one other
/// entry, each once. Two entries overlap when their intervals intersect,
/// `a.start < b.end && b.start < a.end`; an entry without an end extends
/// indefinitely.
pub fn overlapping_ids(entries: &[TimecardEntryView]) -> (r: HashSet<i64>)
    ensures
        forall|id: i64| r@.contains(id) <==> in_overlap(entries@, id),
{
    broadcast use vstd::std_specs::hash::group_hash_axioms;
    let n = entries.len();
    let mut result: HashSet<i64> = HashSet::new();
    let mut i: usize = 0;
    while i < n
        invariant
            n == entries@.len(),
            i <= n,
            forall|id: i64| result@.contains(id) <==> overlap_before(entries@, i as int, id),
        decreases n - i,
    {
        let mut j: usize = i + 1;
        while j < n
            invariant
                n == entries@.len(),
                i < n,
                i + 1 <= j <= n,
                forall|id: i64| result@.contains(id) <==> (overlap_before(entries@, i as int, id)
                    || overlap_within(entries@, i as int, j as int, id)),
            decreases n - j,
        {
            if entries_overlap(&entries[i], &entries[j]) {
                result.insert(entries[i].id);
                result.insert(entries[j].id);
            }
            assert forall|id: i64| result@.contains(id) <==> (overlap_before(entries@, i as int, id)
                || overlap_within(entries@, i as int, j + 1, id)) by {
                if overlap_within(entries@, i as int, j + 1, id) {
                    let y = choose|y: int| i < y < j + 1 && #[trigger] overlaps(entries@[i as int], entries@[y])
                        && (entries@[i as int].id == id || entries@[y].id == id);
                    if y < j {
                        assert(overlap_within(entries@, i as int, j as int, id));
                    }
                }
                if overlap_within(entries@, i as int, j as int, id) {
                    let y = choose|y: int| i < y < j && #[trigger] overlaps(entries@[i as int], entries@[y])
                        && (entries@[i as int].id == id || entries@[y].id == id);
                    assert(i < y < j + 1);
                }
            }
            j = j + 1;
        }
        assert forall|id: i64| result@.contains(id) <==> overlap_before(entries@, i + 1, id) by {
            if overlap_before(entries@, i + 1, id) {
                let (x, y) = choose|x: int, y: int| 0 <= x < i + 1 && x < y < entries@.len()
                    && #[trigger] overlaps(entries@[x], entries@[y]) && (entries@[x].id == id || entries@[y].id == id);
                if x < i {
                    assert(overlap_before(entries@, i as int, id));
                } else {
                    assert(overlap_within(entries@, i as int, n as int, id));
                }
            }
            if overlap_within(entries@, i as int, n as int, id) {
                let y = choose|y: int| i < y < n && #[trigger] overlaps(entries@[i as int], entries@[y])
                    && (entries@[i as int].id == id || entries@[y].id == id);
                assert(overlap_before(entries@, i + 1, id));
            }
            if overlap_before(entries@, i as int, id) {
                let (x, y) = choose|x: int, y: int| 0 <= x < i && x < y < entries@.len()
                    && #[trigger] overlaps(entries@[x], entries@[y]) && (entries@[x].id == id || entries@[y].id == id);
                assert(overlap_before(entries@, i + 1, id));
            }
        }
        i = i + 1;
    }
    result
}

/// The badge class of an hour type code: overtime (`OT` in any case) or
/// regular.
pub open spec fn badge_class_spec(code: Seq<char>) -> Seq<char> {
    if eq_ignore_ascii_case_spec(code, "OT"@) {
        "pd-type-ot"@
    } else {
        "pd-type-reg"@
    }
}

/// The badge class for an hour type code: `pd-type-ot` for overtime (`OT`
/// in any case), `pd-type-reg` otherwise.
pub fn hour_type_badge_class(code: &str) -> (r: &'static str)
    ensures
        r@ == badge_class_spec(code@),
{
    if eq_ignore_ascii_case(code, "OT") {
        "pd-type-ot"
    } else {
        "pd-type-reg"
    }
}

/// The id of the first hour type whose code is `REG` in any case.
pub open spec fn default_hour_type_spec(hts: Seq<HourType>, r: Option<i64>) -> bool {
    match r {
        Some(id) => exists|i: int| 0 <= i < hts.len() && eq_ignore_ascii_case_spec(hts[i].code@, "REG"@)
            && hts[i].id == id && forall|k: int| 0 <= k < i ==> !eq_ignore_ascii_case_spec(#[trigger] hts[k].code@, "REG"@),
        None => forall|k: int| 0 <= k < hts.len() ==> !eq_ignore_ascii_case_spec(#[trigger] hts[k].code@, "REG"@),
    }
}

/// The hour type a new entry starts with: the first whose code is `REG` in
/// any case, if any.
pub fn default_hour_type_id(hour_types: &[HourType]) -> (r: Option<i64>)
    ensures
        default_hour_type_spec(hour_types@, r),
{
    let n = hour_types.len();
    let mut i: usize = 0;
    while i < n
        invariant
            n == hour_types@.len(),
            i <= n,
            forall|k: int| 0 <= k < i ==> !eq_ignore_ascii_case_spec(#[trigger] hour_types@[k].code@, "REG"@),
        decreases n - i,
    {
        if eq_ignore_ascii_case(hour_types[i].code.as_str(), "REG") {
            return Some(hour_types[i].id);
        }
        i = i + 1;
    }
    None
}

} // verus!
