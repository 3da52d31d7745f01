//! Totals of worked time: per entry set, per day of a range, and per labor
//! code, and the day and period summaries built from them.

use vstd::prelude::*;
use crate::calendar::{valid_day, date_from_str, date_text, parse_date, day_text, LAST_DAY};
use crate::text::{chars_lt, chars_le, str_less, lemma_chars_lt_total, lemma_chars_lt_transitive};
use crate::models::{TimecardEntryView, DayAggregate, AggregateRow, DaySummary, WeekSummary};
use crate::repository::Repository;

verus! {

/// Largest quarter-hour count of one entry.
pub open spec fn max_entry_quarters() -> int {
    0xFFFF_FFFF_FFFF_FFFF
}

/// Quarter hours of an entry; an entry without hours counts as none.
pub open spec fn entry_quarters(e: TimecardEntryView) -> nat {
    match e.quarter_hours {
        Some(q) => q as nat,
        None => 0,
    }
}

/// Quarter hours of all entries.
pub open spec fn all_quarters(es: Seq<TimecardEntryView>) -> nat
    decreases es.len(),
{
    if es.len() == 0 {
        0
    } else {
        all_quarters(es.drop_last()) + entry_quarters(es.last())
    }
}

/// Quarter hours of the entries dated on day `d`.
pub open spec fn day_quarters(es: Seq<TimecardEntryView>, d: int) -> nat
    decreases es.len(),
{
    if es.len() == 0 {
        0
    } else {
        day_quarters(es.drop_last(), d) + if es.last().date == d { entry_quarters(es.last()) } else { 0 }
    }
}

/// Quarter hours of the entries charged to labor code `id`.
pub open spec fn code_quarters(es: Seq<TimecardEntryView>, id: i64) -> nat
    decreases es.len(),
{
    if es.len() == 0 {
        0
    } else {
        code_quarters(es.drop_last(), id) + if es.last().labor_code_id == id { entry_quarters(es.last()) } else { 0 }
    }
}

proof fn lemma_all_quarters_bound(es: Seq<TimecardEntryView>)
    ensures
        all_quarters(es) <= es.len() * max_entry_quarters(),
    decreases es.len(),
{
    if es.len() > 0 {
        lemma_all_quarters_bound(es.drop_last());
    }
}

proof fn lemma_day_quarters_bound(es: Seq<TimecardEntryView>, d: int)
    ensures
        day_quarters(es, d) <= es.len() * max_entry_quarters(),
    decreases es.len(),
{
    if es.len() > 0 {
        lemma_day_quarters_bound(es.drop_last(), d);
    }
}

proof fn lemma_code_quarters_bound(es: Seq<TimecardEntryView>, id: i64)
    ensures
        code_quarters(es, id) <= es.len() * max_entry_quarters(),
    decreases es.len(),
{
    if es.len() > 0 {
        lemma_code_quarters_bound(es.drop_last(), id);
    }
}

/// A count of at most `n` entries' quarter hours, for `n` a possible vector
/// length, fits in a `u128`.
pub(crate) proof fn lemma_fits_u128(total: int, n: int)
    requires
        0 <= n <= usize::MAX,
        0 <= total <= n * max_entry_quarters(),
    ensures
        total <= u128::MAX,
{
    assert(n * max_entry_quarters() <= usize::MAX * max_entry_quarters()) by (nonlinear_arith)
        requires 0 <= n <= usize::MAX;
}

/// Total quarter hours of `entries` (entries in progress count as none).
pub fn total_quarter_hours(entries: &[TimecardEntryView]) -> (r: u128)
    ensures
        r == all_quarters(entries@),
{
    let n = entries.len();
    let mut acc: u128 = 0;
    let mut i: usize = 0;
    while i < n
        invariant
            n == entries@.len(),
            i <= n,
            acc == all_quarters(entries@.take(i as int)),
        decreases n - i,
    {
        proof {
            assert(entries@.take(i + 1).drop_last() =~= entries@.take(i as int));
            lemma_all_quarters_bound(entries@.take(i + 1));
            lemma_fits_u128(all_quarters(entries@.take(i + 1)) as int, (i + 1) as int);
        }
        if let Some(q) = entries[i].quarter_hours {
            acc = acc + q as u128;
        }
        i = i + 1;
    }
    assert(entries@.take(n as int) =~= entries@);
    acc
}

/// Quarter hours of the entries dated on day `d`.
fn quarters_on_day(entries: &[TimecardEntryView], d: i32) -> (r: u128)
    ensures
        r == day_quarters(entries@, d as int),
{
    let n = entries.len();
    let mut acc: u128 = 0;
    let mut i: usize = 0;
    while i < n
        invariant
            n == entries@.len(),
            i <= n,
            acc == day_quarters(entries@.take(i as int), d as int),
        decreases n - i,
    {
        proof {
            assert(entries@.take(i + 1).drop_last() =~= entries@.take(i as int));
            lemma_day_quarters_bound(entries@.take(i + 1), d as int);
            lemma_fits_u128(day_quarters(entries@.take(i + 1), d as int) as int, (i + 1) as int);
        }
        if entries[i].date == d {
            if let Some(q) = entries[i].quarter_hours {
                acc = acc + q as u128;
            }
        }
        i = i + 1;
    }
    assert(entries@.take(n as int) =~= entries@);
    acc
}

/// Whether walking the days from `from` to `to` stays among representable
/// dates, including the step one past `to`.
pub open spec fn day_walk_in_range(from: Seq<char>, to: Seq<char>) -> bool {
    match (date_from_str(from), date_from_str(to)) {
        (Some(s), Some(e)) => s <= e ==> valid_day(e + 1),
        _ => true,
    }
}

/// `r` lists each day from `from` to `to` with the quarter hours of the
/// entries on it; nothing when either date does not parse.
pub open spec fn by_day_result(entries: Seq<TimecardEntryView>, from: Seq<char>, to: Seq<char>, r: Seq<DayAggregate>) -> bool {
    match (date_from_str(from), date_from_str(to)) {
        (Some(s), Some(e)) => {
            &&& r.len() == (if s <= e { e - s + 1 } else { 0 })
            &&& forall|k: int| #![trigger r[k]] 0 <= k < r.len() ==> {
                &&& r[k].date@ == date_text(s + k)
                &&& r[k].total_quarter_hours == day_quarters(entries, s + k)
            }
        },
        _ => r.len() == 0,
    }
}

/// Whether entry `i` is the first in `es` charged to labor code `id`.
pub open spec fn first_with_code(es: Seq<TimecardEntryView>, id: i64, i: int) -> bool {
    &&& 0 <= i < es.len()
    &&& es[i].labor_code_id == id
    &&& forall|k: int| 0 <= k < i ==> #[trigger] es[k].labor_code_id != id
}

/// `row` totals labor code `id` over `es`, with the WBS number and name of the
/// first entry charged to it.
pub open spec fn row_for_code(es: Seq<TimecardEntryView>, id: i64, row: AggregateRow) -> bool {
    &&& row.total_quarter_hours == code_quarters(es, id)
    &&& exists|i: int|
        first_with_code(es, id, i) && row.wbs_number@ == es[i].wbs_number@ && row.labor_code_name@
            == es[i].labor_code_name@
}

/// Rows ordered by WBS number (ties in any order).
pub open spec fn wbs_sorted(rows: Seq<AggregateRow>) -> bool {
    forall|i: int, j: int|
        0 <= i < j < rows.len() ==> chars_le(#[trigger] rows[i].wbs_number@, #[trigger] rows[j].wbs_number@)
}

/// `rows` has one row per labor code of `es`, row `k` for code `ids[k]`.
pub open spec fn rows_for_codes(es: Seq<TimecardEntryView>, rows: Seq<AggregateRow>, ids: Seq<i64>) -> bool {
    &&& rows.len() == ids.len()
    &&& ids.no_duplicates()
    &&& forall|k: int| #![trigger ids[k]] 0 <= k < ids.len() ==> row_for_code(es, ids[k], rows[k])
    &&& forall|m: int| #![trigger es[m]] 0 <= m < es.len() ==> ids.contains(es[m].labor_code_id)
}

/// `rows` totals `es` per labor code, one row per code charged, ordered by
/// WBS number.
pub open spec fn labor_code_rows(es: Seq<TimecardEntryView>, rows: Seq<AggregateRow>) -> bool {
    &&& wbs_sorted(rows)
    &&& exists|ids: Seq<i64>| rows_for_codes(es, rows, ids)
}

/// A row keeps describing its labor code when an entry of another code is added.
proof fn lemma_row_other_code(es: Seq<TimecardEntryView>, e: TimecardEntryView, id: i64, row: AggregateRow)
    requires
        row_for_code(es, id, row),
        e.labor_code_id != id,
    ensures
        row_for_code(es.push(e), id, row),
{
    let es2 = es.push(e);
    assert(es2.drop_last() =~= es);
    let i = choose|i: int| first_with_code(es, id, i) && row.wbs_number@ == es[i].wbs_number@
        && row.labor_code_name@ == es[i].labor_code_name@;
    assert(es2[i] == es[i]);
    assert forall|k: int| 0 <= k < i implies #[trigger] es2[k].labor_code_id != id by {
        assert(es2[k] == es[k]);
    }
    assert(first_with_code(es2, id, i));
}

/// A row takes in the hours of an entry of its labor code.
proof fn lemma_row_same_code(es: Seq<TimecardEntryView>, e: TimecardEntryView, row: AggregateRow, row2: AggregateRow)
    requires
        row_for_code(es, e.labor_code_id, row),
        row2.wbs_number@ == row.wbs_number@,
        row2.labor_code_name@ == row.labor_code_name@,
        row2.total_quarter_hours == row.total_quarter_hours + entry_quarters(e),
    ensures
        row_for_code(es.push(e), e.labor_code_id, row2),
{
    let id = e.labor_code_id;
    let es2 = es.push(e);
    assert(es2.drop_last() =~= es);
    let i = choose|i: int| first_with_code(es, id, i) && row.wbs_number@ == es[i].wbs_number@
        && row.labor_code_name@ == es[i].labor_code_name@;
    assert(es2[i] == es[i]);
    assert forall|k: int| 0 <= k < i implies #[trigger] es2[k].labor_code_id != id by {
        assert(es2[k] == es[k]);
    }
    assert(first_with_code(es2, id, i));
}

/// The row started by the first entry of a labor code.
proof fn lemma_row_new_code(es: Seq<TimecardEntryView>, e: TimecardEntryView, row: AggregateRow)
    requires
        forall|m: int| 0 <= m < es.len() ==> #[trigger] es[m].labor_code_id != e.labor_code_id,
        row.wbs_number@ == e.wbs_number@,
        row.labor_code_name@ == e.labor_code_name@,
        row.total_quarter_hours == entry_quarters(e),
    ensures
        row_for_code(es.push(e), e.labor_code_id, row),
{
    let id = e.labor_code_id;
    let es2 = es.push(e);
    assert(es2.drop_last() =~= es);
    lemma_code_quarters_absent(es, id);
    assert forall|k: int| 0 <= k < es.len() implies #[trigger] es2[k].labor_code_id != id by {
        assert(es2[k] == es[k]);
    }
    assert(first_with_code(es2, id, es.len() as int));
}

/// A labor code without entries has no hours.
proof fn lemma_code_quarters_absent(es: Seq<TimecardEntryView>, id: i64)
    requires
        forall|m: int| 0 <= m < es.len() ==> #[trigger] es[m].labor_code_id != id,
    ensures
        code_quarters(es, id) == 0,
    decreases es.len(),
{
    if es.len() > 0 {
        assert forall|m: int| 0 <= m < es.drop_last().len() implies #[trigger] es.drop_last()[m].labor_code_id != id by {
            assert(es.drop_last()[m] == es[m]);
        }
        lemma_code_quarters_absent(es.drop_last(), id);
        assert(es[es.len() - 1].labor_code_id != id);
    }
}

/// Adding an entry of a labor code already present at row `k`.
proof fn lemma_groups_existing(
    es: Seq<TimecardEntryView>,
    e: TimecardEntryView,
    rows: Seq<AggregateRow>,
    ids: Seq<i64>,
    k: int,
    row2: AggregateRow,
)
    requires
        rows_for_codes(es, rows, ids),
        0 <= k < ids.len(),
        ids[k] == e.labor_code_id,
        row2.wbs_number@ == rows[k].wbs_number@,
        row2.labor_code_name@ == rows[k].labor_code_name@,
        row2.total_quarter_hours == rows[k].total_quarter_hours + entry_quarters(e),
    ensures
        rows_for_codes(es.push(e), rows.update(k, row2), ids),
{
    let es2 = es.push(e);
    let rows2 = rows.update(k, row2);
    assert forall|j: int| #![trigger ids[j]] 0 <= j < ids.len() implies row_for_code(es2, ids[j], rows2[j]) by {
        if j == k {
            lemma_row_same_code(es, e, rows[k], row2);
        } else {
            assert(ids[j] != ids[k]);
            lemma_row_other_code(es, e, ids[j], rows[j]);
        }
    }
    assert forall|m: int| #![trigger es2[m]] 0 <= m < es2.len() implies ids.contains(es2[m].labor_code_id) by {
        if m < es.len() {
            assert(es2[m] == es[m]);
        } else {
            assert(ids[k] == es2[m].labor_code_id);
        }
    }
}

/// Adding the first entry of a labor code as a new row at `pos`.
proof fn lemma_groups_new(
    es: Seq<TimecardEntryView>,
    e: TimecardEntryView,
    rows: Seq<AggregateRow>,
    ids: Seq<i64>,
    pos: int,
    row: AggregateRow,
)
    requires
        rows_for_codes(es, rows, ids),
        !ids.contains(e.labor_code_id),
        0 <= pos <= ids.len(),
        row.wbs_number@ == e.wbs_number@,
        row.labor_code_name@ == e.labor_code_name@,
        row.total_quarter_hours == entry_quarters(e),
    ensures
        rows_for_codes(es.push(e), rows.insert(pos, row), ids.insert(pos, e.labor_code_id)),
{
    let es2 = es.push(e);
    let rows2 = rows.insert(pos, row);
    let ids2 = ids.insert(pos, e.labor_code_id);
    assert forall|m: int| 0 <= m < es.len() implies #[trigger] es[m].labor_code_id != e.labor_code_id by {
        assert(ids.contains(es[m].labor_code_id));
    }
    assert forall|a: int, b: int| 0 <= a < ids2.len() && 0 <= b < ids2.len() && a != b implies ids2[a] != ids2[b] by {
        if a == pos {
            assert(ids2[b] == if b < pos { ids[b] } else { ids[b - 1] });
        } else if b == pos {
            assert(ids2[a] == if a < pos { ids[a] } else { ids[a - 1] });
        } else {
            let oa = if a < pos { a } else { a - 1 };
            let ob = if b < pos { b } else { b - 1 };
            assert(ids2[a] == ids[oa] && ids2[b] == ids[ob]);
        }
    }
    assert forall|j: int| #![trigger ids2[j]] 0 <= j < ids2.len() implies row_for_code(es2, ids2[j], rows2[j]) by {
        if j == pos {
            lemma_row_new_code(es, e, row);
        } else {
            let oj = if j < pos { j } else { j - 1 };
            assert(ids2[j] == ids[oj] && rows2[j] == rows[oj]);
            assert(ids[oj] != e.labor_code_id);
            lemma_row_other_code(es, e, ids[oj], rows[oj]);
        }
    }
    assert forall|m: int| #![trigger es2[m]] 0 <= m < es2.len() implies ids2.contains(es2[m].labor_code_id) by {
        if m < es.len() {
            assert(es2[m] == es[m]);
            let x = choose|x: int| 0 <= x < ids.len() && ids[x] == es[m].labor_code_id;
            if x < pos {
                assert(ids2[x] == ids[x]);
            } else {
                assert(ids2[x + 1] == ids[x]);
            }
        } else {
            assert(ids2[pos] == e.labor_code_id);
        }
    }
}

/// Inserting a row at `pos` keeps WBS order when the rows before `pos` do not
/// sort after it and it sorts strictly before the row at `pos`.
proof fn lemma_wbs_insert(rows: Seq<AggregateRow>, row: AggregateRow, pos: int)
    requires
        wbs_sorted(rows),
        0 <= pos <= rows.len(),
        forall|j: int| 0 <= j < pos ==> !chars_lt(row.wbs_number@, #[trigger] rows[j].wbs_number@),
        pos < rows.len() ==> chars_lt(row.wbs_number@, rows[pos].wbs_number@),
    ensures
        wbs_sorted(rows.insert(pos, row)),
{
    let r2 = rows.insert(pos, row);
    assert forall|a: int, b: int| 0 <= a < b < r2.len() implies chars_le(
        #[trigger] r2[a].wbs_number@,
        #[trigger] r2[b].wbs_number@,
    ) by {
        if b < pos {
            assert(r2[a] == rows[a] && r2[b] == rows[b]);
        } else if b == pos {
            assert(r2[a] == rows[a]);
            lemma_chars_lt_total(row.wbs_number@, rows[a].wbs_number@);
        } else if a == pos {
            assert(r2[b] == rows[b - 1]);
            if b - 1 > pos {
                if rows[pos].wbs_number@ == rows[b - 1].wbs_number@ {
                } else {
                    lemma_chars_lt_transitive(row.wbs_number@, rows[pos].wbs_number@, rows[b - 1].wbs_number@);
                }
            }
        } else if a < pos {
            assert(r2[a] == rows[a] && r2[b] == rows[b - 1]);
        } else {
            assert(r2[a] == rows[a - 1] && r2[b] == rows[b - 1]);
        }
    }
}

impl Repository<'static, ()> {
    /// Quarter hours per day for each day from `from` to `to` inclusive.
    pub fn aggregate_by_day(entries: &[TimecardEntryView], from: &str, to: &str) -> (r: Vec<DayAggregate>)
        requires
            day_walk_in_range(from@, to@),
        ensures
            by_day_result(entries@, from@, to@, r@),
    {
        let mut result: Vec<DayAggregate> = Vec::new();
        let start = match parse_date(from) {
            Some(d) => d,
            None => return result,
        };
        let end = match parse_date(to) {
            Some(d) => d,
            None => return result,
        };
        let mut cur: i32 = start;
        while cur <= end
            invariant
                valid_day(start as int),
                valid_day(end as int),
                start <= end ==> valid_day(end + 1),
                start <= cur,
                cur == start || cur <= end + 1,
                result@.len() == cur - start,
                forall|k: int| #![trigger result@[k]] 0 <= k < result@.len() ==> {
                    &&& result@[k].date@ == date_text(start + k)
                    &&& result@[k].total_quarter_hours == day_quarters(entries@, start + k)
                },
            decreases end + 1 - cur,
        {
            let date = day_text(cur);
            let total_quarter_hours = quarters_on_day(entries, cur);
            result.push(DayAggregate { date, total_quarter_hours });
            cur = cur + 1;
        }
        result
    }

    /// Quarter hours per labor code, ordered by WBS number: one row per labor
    /// code charged, with the WBS number and name of its first entry.
    pub fn aggregate_by_labor_code(entries: &[TimecardEntryView]) -> (r: Vec<AggregateRow>)
        ensures
            labor_code_rows(entries@, r@),
    {
        let n = entries.len();
        let mut rows: Vec<AggregateRow> = Vec::new();
        let mut ids: Vec<i64> = Vec::new();
        let mut i: usize = 0;
        proof {
            assert(entries@.take(0) =~= Seq::<TimecardEntryView>::empty());
        }
        while i < n
            invariant
                n == entries@.len(),
                i <= n,
                rows_for_codes(entries@.take(i as int), rows@, ids@),
                wbs_sorted(rows@),
            decreases n - i,
        {
            let ghost prefix = entries@.take(i as int);
            let e = &entries[i];
            proof {
                assert(entries@.take(i + 1) =~= prefix.push(*e));
                lemma_code_quarters_bound(entries@.take(i + 1), e.labor_code_id);
                lemma_fits_u128(code_quarters(entries@.take(i + 1), e.labor_code_id) as int, (i + 1) as int);
                assert(entries@.take(i + 1).drop_last() =~= prefix);
            }
            let q: u128 = match e.quarter_hours {
                Some(q) => q as u128,
                None => 0,
            };
            let m = ids.len();
            let mut k: usize = 0;
            while k < m && ids[k] != e.labor_code_id
                invariant
                    m == ids@.len(),
                    k <= m,
                    forall|x: int| 0 <= x < k ==> ids@[x] != e.labor_code_id,
                decreases m - k,
            {
                k = k + 1;
            }
            if k < m {
                let row2 = AggregateRow {
                    wbs_number: rows[k].wbs_number.clone(),
                    labor_code_name: rows[k].labor_code_name.clone(),
                    total_quarter_hours: rows[k].total_quarter_hours + q,
                };
                proof {
                    lemma_groups_existing(prefix, *e, rows@, ids@, k as int, row2);
                    assert(rows@.update(k as int, row2)[k as int].wbs_number@ == rows@[k as int].wbs_number@);
                    assert forall|a: int, b: int| 0 <= a < b < rows@.len() implies chars_le(
                        #[trigger] rows@.update(k as int, row2)[a].wbs_number@,
                        #[trigger] rows@.update(k as int, row2)[b].wbs_number@,
                    ) by {
                        assert(chars_le(rows@[a].wbs_number@, rows@[b].wbs_number@));
                    }
                }
                rows.set(k, row2);
            } else {
                let mut pos: usize = 0;
                loop
                    invariant
                        m == rows@.len(),
                        pos <= m,
                        forall|j: int| 0 <= j < pos ==> !chars_lt(e.wbs_number@, #[trigger] rows@[j].wbs_number@),
                    ensures
                        pos <= m,
                        forall|j: int| 0 <= j < pos ==> !chars_lt(e.wbs_number@, #[trigger] rows@[j].wbs_number@),
                        pos < m ==> chars_lt(e.wbs_number@, rows@[pos as int].wbs_number@),
                    decreases m - pos,
                {
                    if pos >= m {
                        break;
                    }
                    if str_less(e.wbs_number.as_str(), rows[pos].wbs_number.as_str()) {
                        break;
                    }
                    pos = pos + 1;
                }
                let row = AggregateRow {
                    wbs_number: e.wbs_number.clone(),
                    labor_code_name: e.labor_code_name.clone(),
                    total_quarter_hours: q,
                };
                proof {
                    lemma_groups_new(prefix, *e, rows@, ids@, pos as int, row);
                    lemma_wbs_insert(rows@, row, pos as int);
                }
                rows.insert(pos, row);
                ids.insert(pos, e.labor_code_id);
            }
            i = i + 1;
        }
        proof {
            assert(entries@.take(n as int) =~= entries@);
        }
        rows
    }

    /// The summary of one day's entries: the entries, their total and their
    /// totals per labor code.
    pub fn day_summary(entries: Vec<TimecardEntryView>) -> (r: DaySummary)
        ensures
            r.entries@ == entries@,
            r.total_quarter_hours == all_quarters(entries@),
            labor_code_rows(entries@, r.by_labor_code@),
    {
        let total_quarter_hours = total_quarter_hours(entries.as_slice());
        let by_labor_code = Self::aggregate_by_labor_code(entries.as_slice());
        DaySummary { entries, total_quarter_hours, by_labor_code }
    }

    /// The summary of the entries of the days from `from` to `to` (a week or a
    /// pay period): the entries, their total, their totals per day and per
    /// labor code.
    pub fn period_summary(entries: Vec<TimecardEntryView>, from: &str, to: &str) -> (r: WeekSummary)
        requires
            day_walk_in_range(from@, to@),
        ensures
            r.entries@ == entries@,
            r.total_quarter_hours == all_quarters(entries@),
            by_day_result(entries@, from@, to@, r.by_day@),
            labor_code_rows(entries@, r.by_labor_code@),
    {
        let total_quarter_hours = total_quarter_hours(entries.as_slice());
        let by_day = Self::aggregate_by_day(entries.as_slice(), from, to);
        let by_labor_code = Self::aggregate_by_labor_code(entries.as_slice());
        WeekSummary { entries, total_quarter_hours, by_day, by_labor_code }
    }

    /// `period_summary` where the walk over the days stays among
    /// representable dates, `None` elsewhere.
    pub fn try_period_summary(entries: Vec<TimecardEntryView>, from: &str, to: &str) -> (r: Option<WeekSummary>)
        ensures
            r is Some <==> day_walk_in_range(from@, to@),
            r matches Some(w) ==> {
                &&& w.entries@ == entries@
                &&& w.total_quarter_hours == all_quarters(entries@)
                &&& by_day_result(entries@, from@, to@, w.by_day@)
                &&& labor_code_rows(entries@, w.by_labor_code@)
            },
    {
        if let (Some(s), Some(e)) = (parse_date(from), parse_date(to)) {
            if s <= e && e >= LAST_DAY {
                return None;
            }
        }
        Some(Self::period_summary(entries, from, to))
    }

    /// The last day (`YYYY-MM-DD`) of the week starting on `week_start`: six
    /// days later. `None` when `week_start` is not a date.
    pub fn week_end_date(week_start: &str) -> (r: Option<String>)
        requires
            date_from_str(week_start@) matches Some(d) ==> valid_day(d + 6),
        ensures
            match date_from_str(week_start@) {
                Some(d) => r matches Some(t) && t@ == date_text(d + 6) && date_from_str(t@) == Some((d + 6) as i32),
                None => r is None,
            },
    {
        match parse_date(week_start) {
            Some(d) => Some(day_text(d + 6)),
            None => None,
        }
    }

    /// `week_end_date` where the last day is representable; `None` where it is
    /// not (there `week_end_date` has no result).
    pub fn try_week_end_date(week_start: &str) -> (r: Option<Option<String>>)
        ensures
            r is Some <==> (date_from_str(week_start@) matches Some(d) ==> valid_day(d + 6)),
            r matches Some(w) ==> match date_from_str(week_start@) {
                Some(d) => w matches Some(t) && t@ == date_text(d + 6),
                None => w is None,
            },
    {
        match parse_date(week_start) {
            Some(d) => {
                if d > LAST_DAY - 6 {
                    None
                } else {
                    Some(Self::week_end_date(week_start))
                }
            },
            None => Some(None),
        }
    }

    /// `aggregate_by_day` where the walk stays among representable dates,
    /// `None` elsewhere.
    pub fn try_aggregate_by_day(entries: &[TimecardEntryView], from: &str, to: &str) -> (r: Option<Vec<DayAggregate>>)
        ensures
            r is Some <==> day_walk_in_range(from@, to@),
            r matches Some(v) ==> by_day_result(entries@, from@, to@, v@),
    {
        if let (Some(s), Some(e)) = (parse_date(from), parse_date(to)) {
            if s <= e && e >= LAST_DAY {
                return None;
            }
        }
        Some(Self::aggregate_by_day(entries, from, to))
    }
}


/// The sum of the totals of some labor-code rows.
pub open spec fn rows_total(rows: Seq<AggregateRow>) -> nat
    decreases rows.len(),
{
    if rows.len() == 0 {
        0
    } else {
        rows_total(rows.drop_last()) + rows.last().total_quarter_hours as nat
    }
}

/// The sum of the quarter hours of the labor codes `ids` over `es`.
pub open spec fn codes_total(es: Seq<TimecardEntryView>, ids: Seq<i64>) -> nat
    decreases ids.len(),
{
    if ids.len() == 0 {
        0
    } else {
        codes_total(es, ids.drop_last()) + code_quarters(es, ids.last())
    }
}

/// The sum of the day totals of some day aggregates.
pub open spec fn days_total(days: Seq<DayAggregate>) -> nat
    decreases days.len(),
{
    if days.len() == 0 {
        0
    } else {
        days_total(days.drop_last()) + days.last().total_quarter_hours as nat
    }
}

/// The quarter hours of the entries on the `n` days from day `s`.
pub open spec fn span_total(es: Seq<TimecardEntryView>, s: int, n: int) -> nat
    decreases n,
{
    if n <= 0 {
        0
    } else {
        span_total(es, s, n - 1) + day_quarters(es, s + n - 1)
    }
}

/// One more entry adds its quarter hours to the labor code it is charged to,
/// once, when that code is among the distinct codes `ids`.
proof fn lemma_codes_total_push(es: Seq<TimecardEntryView>, e: TimecardEntryView, ids: Seq<i64>)
    requires
        ids.no_duplicates(),
    ensures
        codes_total(es.push(e), ids) == codes_total(es, ids) + if ids.contains(e.labor_code_id) {
            entry_quarters(e)
        } else {
            0
        },
    decreases ids.len(),
{
    assert(es.push(e).drop_last() =~= es);
    if ids.len() > 0 {
        let rest = ids.drop_last();
        assert(rest.no_duplicates()) by {
            assert forall|a: int, b: int| 0 <= a < rest.len() && 0 <= b < rest.len() && a != b implies rest[a] != rest[b] by {
                assert(rest[a] == ids[a] && rest[b] == ids[b]);
            }
        }
        lemma_codes_total_push(es, e, rest);
        if ids.last() == e.labor_code_id {
            assert(!rest.contains(e.labor_code_id)) by {
                if rest.contains(e.labor_code_id) {
                    let w = choose|w: int| 0 <= w < rest.len() && rest[w] == e.labor_code_id;
                    assert(ids[w] == ids[ids.len() - 1]);
                }
            }
            assert(ids.contains(e.labor_code_id)) by {
                assert(ids[ids.len() - 1] == e.labor_code_id);
            }
        } else {
            assert(ids.contains(e.labor_code_id) == rest.contains(e.labor_code_id)) by {
                if ids.contains(e.labor_code_id) {
                    let w = choose|w: int| 0 <= w < ids.len() && ids[w] == e.labor_code_id;
                    assert(rest[w] == ids[w]);
                }
                if rest.contains(e.labor_code_id) {
                    let w = choose|w: int| 0 <= w < rest.len() && rest[w] == e.labor_code_id;
                    assert(ids[w] == rest[w]);
                }
            }
        }
    }
}

/// Distinct labor codes covering every entry account for all its hours.
proof fn lemma_codes_total_all(es: Seq<TimecardEntryView>, ids: Seq<i64>)
    requires
        ids.no_duplicates(),
        forall|m: int| 0 <= m < es.len() ==> ids.contains(#[trigger] es[m].labor_code_id),
    ensures
        codes_total(es, ids) == all_quarters(es),
    decreases es.len(),
{
    if es.len() == 0 {
        lemma_codes_total_empty(es, ids);
    } else {
        let rest = es.drop_last();
        assert forall|m: int| 0 <= m < rest.len() implies ids.contains(#[trigger] rest[m].labor_code_id) by {
            assert(rest[m] == es[m]);
        }
        lemma_codes_total_all(rest, ids);
        assert(rest.push(es.last()) =~= es);
        lemma_codes_total_push(rest, es.last(), ids);
        assert(ids.contains(es[es.len() - 1].labor_code_id));
    }
}

/// Over no entries, every labor code totals nothing.
proof fn lemma_codes_total_empty(es: Seq<TimecardEntryView>, ids: Seq<i64>)
    requires
        es.len() == 0,
    ensures
        codes_total(es, ids) == 0,
    decreases ids.len(),
{
    if ids.len() > 0 {
        lemma_codes_total_empty(es, ids.drop_last());
    }
}

/// Rows for the labor codes `ids` total the sum of those codes' hours.
proof fn lemma_rows_total_codes(es: Seq<TimecardEntryView>, rows: Seq<AggregateRow>, ids: Seq<i64>)
    requires
        rows.len() == ids.len(),
        forall|k: int| 0 <= k < ids.len() ==> (#[trigger] rows[k]).total_quarter_hours == code_quarters(es, ids[k]),
    ensures
        rows_total(rows) == codes_total(es, ids),
    decreases rows.len(),
{
    if rows.len() > 0 {
        let r2 = rows.drop_last();
        let i2 = ids.drop_last();
        assert forall|k: int| 0 <= k < i2.len() implies (#[trigger] r2[k]).total_quarter_hours == code_quarters(es, i2[k]) by {
            assert(r2[k] == rows[k] && i2[k] == ids[k]);
        }
        lemma_rows_total_codes(es, r2, i2);
        assert(rows[rows.len() - 1].total_quarter_hours == code_quarters(es, ids[ids.len() - 1]));
    }
}

/// The per-labor-code totals add up to the total of all entries: each
/// entry's hours are counted in exactly one row.
pub proof fn lemma_labor_code_totals(es: Seq<TimecardEntryView>, rows: Seq<AggregateRow>)
    requires
        labor_code_rows(es, rows),
    ensures
        rows_total(rows) == all_quarters(es),
{
    let ids = choose|ids: Seq<i64>| rows_for_codes(es, rows, ids);
    assert forall|k: int| 0 <= k < ids.len() implies (#[trigger] rows[k]).total_quarter_hours == code_quarters(es, ids[k]) by {
        assert(row_for_code(es, ids[k], rows[k]));
    }
    lemma_rows_total_codes(es, rows, ids);
    lemma_codes_total_all(es, ids);
}

/// One more entry adds its quarter hours to a run of days when its date is
/// among them.
proof fn lemma_span_total_push(es: Seq<TimecardEntryView>, e: TimecardEntryView, s: int, n: int)
    requires
        n >= 0,
    ensures
        span_total(es.push(e), s, n) == span_total(es, s, n) + if s <= e.date < s + n {
            entry_quarters(e)
        } else {
            0
        },
    decreases n,
{
    assert(es.push(e).drop_last() =~= es);
    if n > 0 {
        lemma_span_total_push(es, e, s, n - 1);
    }
}

/// A run of days covering every entry's date accounts for all the hours.
proof fn lemma_span_total_all(es: Seq<TimecardEntryView>, s: int, n: int)
    requires
        n >= 0,
        forall|m: int| 0 <= m < es.len() ==> s <= #[trigger] es[m].date < s + n,
    ensures
        span_total(es, s, n) == all_quarters(es),
    decreases es.len(),
{
    if es.len() == 0 {
        lemma_span_total_empty(es, s, n);
    } else {
        let rest = es.drop_last();
        assert forall|m: int| 0 <= m < rest.len() implies s <= #[trigger] rest[m].date < s + n by {
            assert(rest[m] == es[m]);
        }
        lemma_span_total_all(rest, s, n);
        assert(rest.push(es.last()) =~= es);
        lemma_span_total_push(rest, es.last(), s, n);
        assert(s <= es[es.len() - 1].date < s + n);
    }
}

/// Over no entries, every run of days totals nothing.
proof fn lemma_span_total_empty(es: Seq<TimecardEntryView>, s: int, n: int)
    requires
        es.len() == 0,
    ensures
        span_total(es, s, n) == 0,
    decreases n,
{
    if n > 0 {
        lemma_span_total_empty(es, s, n - 1);
    }
}

/// The day totals of a range list the hours of the days in order.
proof fn lemma_days_total_span(es: Seq<TimecardEntryView>, r: Seq<DayAggregate>, s: int)
    requires
        forall|k: int| 0 <= k < r.len() ==> (#[trigger] r[k]).total_quarter_hours == day_quarters(es, s + k),
    ensures
        days_total(r) == span_total(es, s, r.len() as int),
    decreases r.len(),
{
    if r.len() > 0 {
        let r2 = r.drop_last();
        assert forall|k: int| 0 <= k < r2.len() implies (#[trigger] r2[k]).total_quarter_hours == day_quarters(es, s + k) by {
            assert(r2[k] == r[k]);
        }
        lemma_days_total_span(es, r2, s);
        assert(r[r.len() - 1].total_quarter_hours == day_quarters(es, s + r.len() - 1));
    }
}

/// When every entry is dated within the range, the day totals of the range
/// add up to the total of all entries.
pub proof fn lemma_day_totals(es: Seq<TimecardEntryView>, from: Seq<char>, to: Seq<char>, r: Seq<DayAggregate>)
    requires
        by_day_result(es, from, to, r),
        date_from_str(from) is Some,
        date_from_str(to) is Some,
        forall|m: int| 0 <= m < es.len() ==> date_from_str(from).unwrap() <= #[trigger] es[m].date <= date_from_str(to).unwrap(),
    ensures
        days_total(r) == all_quarters(es),
{
    let s = date_from_str(from).unwrap() as int;
    let e = date_from_str(to).unwrap() as int;
    lemma_days_total_span(es, r, s);
    if s <= e {
        lemma_span_total_all(es, s, e - s + 1);
    } else {
        if es.len() > 0 {
            assert(s <= es[0].date <= e);
        }
        lemma_span_total_empty(es, s, 0);
    }
}

} // verus!
