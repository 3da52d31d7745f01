//! The pivot table of a week or a pay period: one row per labor code, hour
//! type and telework flag, one column per day, each cell the worked time of
//! the entries of its row on its day.

use vstd::prelude::*;
use crate::calendar::{valid_day, date_text, day_text, is_weekend, is_weekend_spec};
use crate::text::{chars_lt, str_eq, str_less, lemma_chars_lt_irreflexive, lemma_chars_lt_total, lemma_chars_lt_transitive};
use crate::models::TimecardEntryView;
use std::collections::HashSet;
use crate::aggregate::{entry_quarters, all_quarters, max_entry_quarters, lemma_fits_u128};

verus! {

/// One row of the pivot table: the entries of one labor code, hour type and
/// telework flag, totalled per day.
#[derive(Debug, Clone)]
pub struct PivotRow {
    pub labor_code_id: i64,
    pub hour_type_id: i64,
    pub wbs_number: String,
    pub labor_code_name: String,
    pub hour_type_code: String,
    pub telework: bool,
    /// Quarter hours per day, in the order of the table's days; `None` where
    /// no entry of the row has hours on that day.
    pub cells: Vec<Option<u128>>,
    /// Quarter hours of the whole row (the sum of its cells, saturating).
    pub total: u128,
}

/// The row an entry belongs to: its labor code, hour type and telework flag.
pub open spec fn pivot_key(e: TimecardEntryView) -> (i64, i64, bool) {
    (e.labor_code_id, e.hour_type_id, e.telework)
}

/// The key of a row.
pub open spec fn row_key(r: PivotRow) -> (i64, i64, bool) {
    (r.labor_code_id, r.hour_type_id, r.telework)
}

/// Whether an entry counts in the table: only entries with hours do.
pub open spec fn counted(e: TimecardEntryView) -> bool {
    e.quarter_hours is Some
}

/// Entry `o` is the first counted entry of `es` with key `k`.
pub open spec fn first_counted(es: Seq<TimecardEntryView>, k: (i64, i64, bool), o: int) -> bool {
    &&& 0 <= o < es.len()
    &&& counted(es[o])
    &&& pivot_key(es[o]) == k
    &&& forall|j: int| 0 <= j < o ==> !(counted(#[trigger] es[j]) && pivot_key(es[j]) == k)
}

/// Row `r` stems from entry `o`: the first counted entry with its key, whose
/// WBS number, labor code name and hour type code it carries.
pub open spec fn row_origin(es: Seq<TimecardEntryView>, r: PivotRow, o: int) -> bool {
    &&& first_counted(es, row_key(r), o)
    &&& r.wbs_number@ == es[o].wbs_number@
    &&& r.labor_code_name@ == es[o].labor_code_name@
    &&& r.hour_type_code@ == es[o].hour_type_code@
}

/// Row `r` stems from an entry before index `i`.
pub open spec fn originates_before(es: Seq<TimecardEntryView>, r: PivotRow, i: int) -> bool {
    exists|o: int| o < i && row_origin(es, r, o)
}

/// Some row of `rows` has key `k`.
pub open spec fn has_row(rows: Seq<PivotRow>, k: (i64, i64, bool)) -> bool {
    exists|a: int| 0 <= a < rows.len() && row_key(#[trigger] rows[a]) == k
}

/// Row `a` sorts strictly before row `b`: by WBS number, then hour type code,
/// then telework flag (without before with).
pub open spec fn sorts_before(a: PivotRow, b: PivotRow) -> bool {
    ||| chars_lt(a.wbs_number@, b.wbs_number@)
    ||| a.wbs_number@ == b.wbs_number@ && chars_lt(a.hour_type_code@, b.hour_type_code@)
    ||| a.wbs_number@ == b.wbs_number@ && a.hour_type_code@ == b.hour_type_code@ && !a.telework && b.telework
}

/// Rows `a` and `b` have the same sort key.
pub open spec fn sort_tie(a: PivotRow, b: PivotRow) -> bool {
    a.wbs_number@ == b.wbs_number@ && a.hour_type_code@ == b.hour_type_code@ && a.telework == b.telework
}

/// Of two rows with the same sort key, `a` stems from the earlier entry.
pub open spec fn origin_order(es: Seq<TimecardEntryView>, a: PivotRow, b: PivotRow) -> bool {
    forall|o1: int, o2: int| row_origin(es, a, o1) && row_origin(es, b, o2) ==> o1 < o2
}

/// The rows of the table over the entries `es`, without their cells: one row
/// per key of a counted entry, each with the data of the first such entry,
/// sorted by `sorts_before`, rows with the same sort key in the order of
/// their first entries.
pub open spec fn pivot_heads(es: Seq<TimecardEntryView>, rows: Seq<PivotRow>, upto: int) -> bool {
    &&& forall|a: int, b: int| 0 <= a < b < rows.len() ==> row_key(#[trigger] rows[a]) != row_key(#[trigger] rows[b])
    &&& forall|a: int| 0 <= a < rows.len() ==> originates_before(es, #[trigger] rows[a], upto)
    &&& forall|m: int| 0 <= m < upto && counted(#[trigger] es[m]) ==> has_row(rows, pivot_key(es[m]))
    &&& forall|a: int, b: int| 0 <= a < b < rows.len() ==> !sorts_before(#[trigger] rows[b], #[trigger] rows[a])
    &&& forall|a: int, b: int|
        0 <= a < b < rows.len() && sort_tie(#[trigger] rows[a], #[trigger] rows[b]) ==> origin_order(es, rows[a], rows[b])
}

/// Entry `e` falls in the cell of key `k` and the day whose text is `day`.
pub open spec fn in_cell(e: TimecardEntryView, k: (i64, i64, bool), day: Seq<char>) -> bool {
    counted(e) && pivot_key(e) == k && date_text(e.date as int) == day
}

/// Quarter hours of the entries in a cell.
pub open spec fn cell_total(es: Seq<TimecardEntryView>, k: (i64, i64, bool), day: Seq<char>) -> nat
    decreases es.len(),
{
    if es.len() == 0 {
        0
    } else {
        cell_total(es.drop_last(), k, day) + if in_cell(es.last(), k, day) { entry_quarters(es.last()) } else { 0 }
    }
}

/// Whether some entry falls in a cell.
pub open spec fn cell_filled(es: Seq<TimecardEntryView>, k: (i64, i64, bool), day: Seq<char>) -> bool {
    exists|m: int| 0 <= m < es.len() && in_cell(#[trigger] es[m], k, day)
}

/// The value of a cell: the quarter hours of its entries, `None` without
/// entries.
pub open spec fn cell_value(es: Seq<TimecardEntryView>, k: (i64, i64, bool), day: Seq<char>) -> Option<u128> {
    if cell_filled(es, k, day) {
        Some(cell_total(es, k, day) as u128)
    } else {
        None
    }
}

/// The sum of the values of some cells.
pub open spec fn cells_sum(cells: Seq<Option<u128>>) -> nat
    decreases cells.len(),
{
    if cells.len() == 0 {
        0
    } else {
        cells_sum(cells.drop_last()) + match cells.last() {
            Some(v) => v as nat,
            None => 0,
        }
    }
}

/// `n` capped at the largest `u128`.
pub open spec fn saturated(n: nat) -> u128 {
    if n > u128::MAX {
        u128::MAX
    } else {
        n as u128
    }
}

/// Row `r` has one cell per day of `days`, each the value of its cell over
/// `es`, and the saturated sum of them as its total.
pub open spec fn row_cells(es: Seq<TimecardEntryView>, days: Seq<String>, r: PivotRow) -> bool {
    &&& r.cells@.len() == days.len()
    &&& forall|d: int| 0 <= d < days.len() ==> #[trigger] r.cells@[d] == cell_value(es, row_key(r), days[d]@)
    &&& r.total == saturated(cells_sum(r.cells@))
}

/// The pivot table of `es` over the days `days`.
pub open spec fn pivot_table(es: Seq<TimecardEntryView>, days: Seq<String>, rows: Seq<PivotRow>) -> bool {
    &&& pivot_heads(es, rows, es.len() as int)
    &&& forall|a: int| 0 <= a < rows.len() ==> row_cells(es, days, #[trigger] rows[a])
}

/// Every entry has a representable date.
pub open spec fn dated(es: Seq<TimecardEntryView>) -> bool {
    forall|m: int| 0 <= m < es.len() ==> valid_day(#[trigger] es[m].date as int)
}

/// There is only one first counted entry of a key.
proof fn lemma_first_unique(es: Seq<TimecardEntryView>, k: (i64, i64, bool), o1: int, o2: int)
    requires
        first_counted(es, k, o1),
        first_counted(es, k, o2),
    ensures
        o1 == o2,
{
    if o1 < o2 {
        assert(!(counted(es[o1]) && pivot_key(es[o1]) == k));
    } else if o2 < o1 {
        assert(!(counted(es[o2]) && pivot_key(es[o2]) == k));
    }
}

/// The sort order of rows: asymmetric, transitive, and two rows either tie
/// or one sorts before the other.
proof fn lemma_sort_order(a: PivotRow, b: PivotRow, c: PivotRow)
    ensures
        !(sorts_before(a, b) && sorts_before(b, a)),
        !(sorts_before(a, b) && sort_tie(a, b)),
        sorts_before(a, b) || sorts_before(b, a) || sort_tie(a, b),
        sorts_before(a, b) && sorts_before(b, c) ==> sorts_before(a, c),
        sorts_before(a, b) && sort_tie(b, c) ==> sorts_before(a, c),
        sort_tie(a, b) && sorts_before(b, c) ==> sorts_before(a, c),
{
    lemma_chars_lt_total(a.wbs_number@, b.wbs_number@);
    lemma_chars_lt_total(a.hour_type_code@, b.hour_type_code@);
    lemma_chars_lt_total(b.wbs_number@, c.wbs_number@);
    lemma_chars_lt_total(b.hour_type_code@, c.hour_type_code@);
    lemma_chars_lt_irreflexive(a.wbs_number@);
    lemma_chars_lt_irreflexive(a.hour_type_code@);
    lemma_chars_lt_irreflexive(b.wbs_number@);
    lemma_chars_lt_irreflexive(b.hour_type_code@);
    if chars_lt(a.wbs_number@, b.wbs_number@) && chars_lt(b.wbs_number@, c.wbs_number@) {
        lemma_chars_lt_transitive(a.wbs_number@, b.wbs_number@, c.wbs_number@);
    }
    if chars_lt(a.hour_type_code@, b.hour_type_code@) && chars_lt(b.hour_type_code@, c.hour_type_code@) {
        lemma_chars_lt_transitive(a.hour_type_code@, b.hour_type_code@, c.hour_type_code@);
    }
}

/// Rows `a` and `b` agree on all but their cells and total.
pub open spec fn same_head(a: PivotRow, b: PivotRow) -> bool {
    &&& row_key(a) == row_key(b)
    &&& a.wbs_number@ == b.wbs_number@
    &&& a.labor_code_name@ == b.labor_code_name@
    &&& a.hour_type_code@ == b.hour_type_code@
}

/// Adding a row for the first counted entry `i` of a key not yet in `rows`,
/// at a position that keeps the order, gives the rows of the entries up to
/// and including `i`.
proof fn lemma_heads_insert(es: Seq<TimecardEntryView>, rows: Seq<PivotRow>, head: PivotRow, i: int, pos: int)
    requires
        pivot_heads(es, rows, i),
        0 <= i < es.len(),
        counted(es[i]),
        row_key(head) == pivot_key(es[i]),
        head.wbs_number@ == es[i].wbs_number@,
        head.labor_code_name@ == es[i].labor_code_name@,
        head.hour_type_code@ == es[i].hour_type_code@,
        forall|x: int| 0 <= x < rows.len() ==> row_key(#[trigger] rows[x]) != pivot_key(es[i]),
        0 <= pos <= rows.len(),
        forall|q: int| 0 <= q < pos ==> !sorts_before(head, #[trigger] rows[q]),
        pos < rows.len() ==> sorts_before(head, rows[pos]),
    ensures
        pivot_heads(es, rows.insert(pos, head), i + 1),
{
    let k = pivot_key(es[i]);
    let r2 = rows.insert(pos, head);
    assert forall|j: int| 0 <= j < i implies !(counted(#[trigger] es[j]) && pivot_key(es[j]) == k) by {
        if counted(es[j]) && pivot_key(es[j]) == k {
            assert(has_row(rows, pivot_key(es[j])));
            let a = choose|a: int| 0 <= a < rows.len() && row_key(#[trigger] rows[a]) == pivot_key(es[j]);
        }
    }
    assert(first_counted(es, k, i));
    assert(row_origin(es, head, i));
    assert forall|a: int, b: int| 0 <= a < b < r2.len() implies row_key(#[trigger] r2[a]) != row_key(#[trigger] r2[b]) by {
        if a < pos && b < pos {
            assert(r2[a] == rows[a] && r2[b] == rows[b]);
        } else if a < pos && b == pos {
            assert(r2[a] == rows[a]);
        } else if a < pos {
            assert(r2[a] == rows[a] && r2[b] == rows[b - 1]);
        } else if a == pos {
            assert(r2[b] == rows[b - 1]);
        } else {
            assert(r2[a] == rows[a - 1] && r2[b] == rows[b - 1]);
        }
    }
    assert forall|a: int| 0 <= a < r2.len() implies originates_before(es, #[trigger] r2[a], i + 1) by {
        if a == pos {
            assert(row_origin(es, r2[a], i));
        } else {
            let a0 = if a < pos { a } else { a - 1 };
            assert(r2[a] == rows[a0]);
            assert(originates_before(es, rows[a0], i));
            let o = choose|o: int| o < i && row_origin(es, rows[a0], o);
            assert(row_origin(es, r2[a], o));
        }
    }
    assert forall|m: int| 0 <= m < i + 1 && counted(#[trigger] es[m]) implies has_row(r2, pivot_key(es[m])) by {
        if m == i {
            assert(row_key(r2[pos]) == pivot_key(es[m]));
        } else {
            assert(has_row(rows, pivot_key(es[m])));
            let a = choose|a: int| 0 <= a < rows.len() && row_key(#[trigger] rows[a]) == pivot_key(es[m]);
            let a2 = if a < pos { a } else { a + 1 };
            assert(r2[a2] == rows[a]);
        }
    }
    assert forall|a: int, b: int| 0 <= a < b < r2.len() implies !sorts_before(#[trigger] r2[b], #[trigger] r2[a]) by {
        if b < pos {
            assert(r2[a] == rows[a] && r2[b] == rows[b]);
        } else if b == pos {
            assert(r2[a] == rows[a]);
            lemma_sort_order(head, rows[a], head);
        } else if a == pos {
            assert(r2[b] == rows[b - 1]);
            lemma_sort_order(rows[b - 1], head, rows[pos]);
            if b - 1 > pos {
                assert(!sorts_before(rows[b - 1], rows[pos]));
            }
        } else if a < pos {
            assert(r2[a] == rows[a] && r2[b] == rows[b - 1]);
        } else {
            assert(r2[a] == rows[a - 1] && r2[b] == rows[b - 1]);
        }
    }
    assert forall|a: int, b: int|
        0 <= a < b < r2.len() && sort_tie(#[trigger] r2[a], #[trigger] r2[b]) implies origin_order(es, r2[a], r2[b]) by {
        if b < pos {
            assert(r2[a] == rows[a] && r2[b] == rows[b]);
        } else if b == pos {
            assert(r2[a] == rows[a]);
            assert(originates_before(es, rows[a], i));
            let o = choose|o: int| o < i && row_origin(es, rows[a], o);
            assert forall|o1: int, o2: int| row_origin(es, r2[a], o1) && row_origin(es, r2[b], o2) implies o1 < o2 by {
                lemma_first_unique(es, row_key(rows[a]), o, o1);
                lemma_first_unique(es, k, i, o2);
            }
        } else if a == pos {
            assert(r2[b] == rows[b - 1]);
            lemma_sort_order(head, rows[b - 1], rows[pos]);
            if b - 1 > pos {
                assert(!sorts_before(rows[b - 1], rows[pos]));
            }
            lemma_sort_order(rows[b - 1], head, rows[pos]);
        } else if a < pos {
            assert(r2[a] == rows[a] && r2[b] == rows[b - 1]);
        } else {
            assert(r2[a] == rows[a - 1] && r2[b] == rows[b - 1]);
        }
    }
}

/// A row with the key and data of entry `e`, without cells.
fn head_of(e: &TimecardEntryView) -> (r: PivotRow)
    ensures
        row_key(r) == pivot_key(*e),
        r.wbs_number@ == e.wbs_number@,
        r.labor_code_name@ == e.labor_code_name@,
        r.hour_type_code@ == e.hour_type_code@,
{
    PivotRow {
        labor_code_id: e.labor_code_id,
        hour_type_id: e.hour_type_id,
        wbs_number: e.wbs_number.clone(),
        labor_code_name: e.labor_code_name.clone(),
        hour_type_code: e.hour_type_code.clone(),
        telework: e.telework,
        cells: Vec::new(),
        total: 0,
    }
}

/// Whether row `a` sorts strictly before row `b`.
fn row_sorts_before(a: &PivotRow, b: &PivotRow) -> (r: bool)
    ensures
        r == sorts_before(*a, *b),
{
    if str_less(a.wbs_number.as_str(), b.wbs_number.as_str()) {
        return true;
    }
    if !str_eq(a.wbs_number.as_str(), b.wbs_number.as_str()) {
        return false;
    }
    if str_less(a.hour_type_code.as_str(), b.hour_type_code.as_str()) {
        return true;
    }
    if !str_eq(a.hour_type_code.as_str(), b.hour_type_code.as_str()) {
        return false;
    }
    !a.telework && b.telework
}

/// The rows of the pivot table of `entries`, without cells.
fn pivot_heads_of(entries: &[TimecardEntryView]) -> (rows: Vec<PivotRow>)
    ensures
        pivot_heads(entries@, rows@, entries@.len() as int),
{
    let n = entries.len();
    let mut rows: Vec<PivotRow> = Vec::new();
    let mut i: usize = 0;
    while i < n
        invariant
            n == entries@.len(),
            i <= n,
            pivot_heads(entries@, rows@, i as int),
        decreases n - i,
    {
        let e = &entries[i];
        let ghost before = rows@;
        let m = rows.len();
        let mut k: usize = 0;
        while k < m && !(rows[k].labor_code_id == e.labor_code_id && rows[k].hour_type_id == e.hour_type_id
            && rows[k].telework == e.telework)
            invariant
                m == rows@.len(),
                k <= m,
                forall|x: int| 0 <= x < k ==> row_key(#[trigger] rows@[x]) != pivot_key(*e),
            decreases m - k,
        {
            k = k + 1;
        }
        if e.quarter_hours.is_some() && k == m {
            let head = head_of(e);
            let mut pos: usize = 0;
            loop
                invariant
                    m == rows@.len(),
                    pos <= m,
                    forall|q: int| 0 <= q < pos ==> !sorts_before(head, #[trigger] rows@[q]),
                ensures
                    pos <= m,
                    forall|q: int| 0 <= q < pos ==> !sorts_before(head, #[trigger] rows@[q]),
                    pos < m ==> sorts_before(head, rows@[pos as int]),
                decreases m - pos,
            {
                if pos >= m {
                    break;
                }
                if row_sorts_before(&head, &rows[pos]) {
                    break;
                }
                pos = pos + 1;
            }
            proof {
                lemma_heads_insert(entries@, rows@, head, i as int, pos as int);
            }
            rows.insert(pos, head);
        } else {
            proof {
                assert forall|a: int| 0 <= a < rows@.len() implies originates_before(entries@, #[trigger] rows@[a], i + 1) by {
                    assert(originates_before(entries@, rows@[a], i as int));
                    let o = choose|o: int| o < i && row_origin(entries@, rows@[a], o);
                }
                assert forall|x: int| 0 <= x < i + 1 && counted(#[trigger] entries@[x]) implies has_row(rows@, pivot_key(entries@[x])) by {
                    if x == i {
                        assert(row_key(rows@[k as int]) == pivot_key(entries@[x]));
                    }
                }
            }
        }
        i = i + 1;
    }
    rows
}

proof fn lemma_cell_total_bound(es: Seq<TimecardEntryView>, k: (i64, i64, bool), day: Seq<char>)
    ensures
        cell_total(es, k, day) <= es.len() * max_entry_quarters(),
    decreases es.len(),
{
    if es.len() > 0 {
        lemma_cell_total_bound(es.drop_last(), k, day);
    }
}

/// The `YYYY-MM-DD` text of each entry's date.
fn date_texts(entries: &[TimecardEntryView]) -> (r: Vec<String>)
    requires
        dated(entries@),
    ensures
        r@.len() == entries@.len(),
        forall|m: int| 0 <= m < entries@.len() ==> (#[trigger] r@[m])@ == date_text(entries@[m].date as int),
{
    let n = entries.len();
    let mut r: Vec<String> = Vec::new();
    let mut i: usize = 0;
    while i < n
        invariant
            n == entries@.len(),
            i <= n,
            dated(entries@),
            r@.len() == i,
            forall|m: int| 0 <= m < i ==> (#[trigger] r@[m])@ == date_text(entries@[m].date as int),
        decreases n - i,
    {
        assert(valid_day(entries@[i as int].date as int));
        r.push(day_text(entries[i].date));
        i = i + 1;
    }
    r
}

/// The value of the cell of key `k` on the day whose text is `day`.
fn cell_of(entries: &[TimecardEntryView], texts: &[String], k: (i64, i64, bool), day: &str) -> (r: Option<u128>)
    requires
        texts@.len() == entries@.len(),
        forall|m: int| 0 <= m < entries@.len() ==> (#[trigger] texts@[m])@ == date_text(entries@[m].date as int),
    ensures
        r == cell_value(entries@, k, day@),
{
    let n = entries.len();
    let mut total: u128 = 0;
    let mut filled = false;
    let mut m: usize = 0;
    while m < n
        invariant
            n == entries@.len(),
            texts@.len() == n,
            forall|x: int| 0 <= x < n ==> (#[trigger] texts@[x])@ == date_text(entries@[x].date as int),
            m <= n,
            total == cell_total(entries@.take(m as int), k, day@),
            filled == cell_filled(entries@.take(m as int), k, day@),
        decreases n - m,
    {
        let ghost prefix = entries@.take(m as int);
        let ghost next = entries@.take(m + 1);
        proof {
            assert(next.drop_last() =~= prefix);
            lemma_cell_total_bound(next, k, day@);
            lemma_fits_u128(cell_total(next, k, day@) as int, (m + 1) as int);
        }
        let e = &entries[m];
        let hit = match e.quarter_hours {
            Some(_) => e.labor_code_id == k.0 && e.hour_type_id == k.1 && e.telework == k.2
                && str_eq(texts[m].as_str(), day),
            None => false,
        };
        assert(hit == in_cell(entries@[m as int], k, day@));
        if hit {
            if let Some(q) = e.quarter_hours {
                total = total + q as u128;
            }
            filled = true;
        }
        proof {
            assert(next[m as int] == entries@[m as int]);
            if hit {
                assert(cell_filled(next, k, day@));
            } else {
                if cell_filled(next, k, day@) {
                    let x = choose|x: int| 0 <= x < next.len() && in_cell(#[trigger] next[x], k, day@);
                    assert(prefix[x] == next[x]);
                }
            }
            if filled && !hit {
                let x = choose|x: int| 0 <= x < prefix.len() && in_cell(#[trigger] prefix[x], k, day@);
                assert(next[x] == prefix[x]);
            }
        }
        m = m + 1;
    }
    assert(entries@.take(n as int) =~= entries@);
    if filled {
        Some(total)
    } else {
        None
    }
}

/// The row of `head` with its cells over `days` and their total.
fn fill_row(entries: &[TimecardEntryView], texts: &[String], days: &[String], head: &PivotRow) -> (r: PivotRow)
    requires
        texts@.len() == entries@.len(),
        forall|m: int| 0 <= m < entries@.len() ==> (#[trigger] texts@[m])@ == date_text(entries@[m].date as int),
    ensures
        same_head(r, *head),
        row_cells(entries@, days@, r),
{
    let k = (head.labor_code_id, head.hour_type_id, head.telework);
    let nd = days.len();
    let mut cells: Vec<Option<u128>> = Vec::new();
    let mut total: u128 = 0;
    let mut d: usize = 0;
    while d < nd
        invariant
            nd == days@.len(),
            texts@.len() == entries@.len(),
            forall|m: int| 0 <= m < entries@.len() ==> (#[trigger] texts@[m])@ == date_text(entries@[m].date as int),
            k == row_key(*head),
            d <= nd,
            cells@.len() == d,
            forall|x: int| 0 <= x < d ==> #[trigger] cells@[x] == cell_value(entries@, k, days@[x]@),
            total == saturated(cells_sum(cells@)),
        decreases nd - d,
    {
        let c = cell_of(entries, texts, k, days[d].as_str());
        let ghost before = cells@;
        cells.push(c);
        proof {
            assert(cells@.drop_last() =~= before);
        }
        match c {
            Some(v) => {
                total = total.saturating_add(v);
            },
            None => {},
        }
        d = d + 1;
    }
    PivotRow {
        labor_code_id: head.labor_code_id,
        hour_type_id: head.hour_type_id,
        wbs_number: head.wbs_number.clone(),
        labor_code_name: head.labor_code_name.clone(),
        hour_type_code: head.hour_type_code.clone(),
        telework: head.telework,
        cells,
        total,
    }
}

/// The properties of a table's rows carry over to rows with the same heads.
proof fn lemma_heads_transfer(es: Seq<TimecardEntryView>, heads: Seq<PivotRow>, rows: Seq<PivotRow>)
    requires
        pivot_heads(es, heads, es.len() as int),
        rows.len() == heads.len(),
        forall|a: int| 0 <= a < rows.len() ==> same_head(#[trigger] rows[a], heads[a]),
    ensures
        pivot_heads(es, rows, es.len() as int),
{
    assert forall|a: int, b: int| 0 <= a < b < rows.len() implies row_key(#[trigger] rows[a]) != row_key(#[trigger] rows[b]) by {
        assert(same_head(rows[a], heads[a]) && same_head(rows[b], heads[b]));
    }
    assert forall|a: int| 0 <= a < rows.len() implies originates_before(es, #[trigger] rows[a], es.len() as int) by {
        assert(same_head(rows[a], heads[a]));
        assert(originates_before(es, heads[a], es.len() as int));
        let o = choose|o: int| o < es.len() && row_origin(es, heads[a], o);
        assert(row_origin(es, rows[a], o));
    }
    assert forall|m: int| 0 <= m < es.len() && counted(#[trigger] es[m]) implies has_row(rows, pivot_key(es[m])) by {
        assert(has_row(heads, pivot_key(es[m])));
        let a = choose|a: int| 0 <= a < heads.len() && row_key(#[trigger] heads[a]) == pivot_key(es[m]);
        assert(same_head(rows[a], heads[a]));
    }
    assert forall|a: int, b: int| 0 <= a < b < rows.len() implies !sorts_before(#[trigger] rows[b], #[trigger] rows[a]) by {
        assert(same_head(rows[a], heads[a]) && same_head(rows[b], heads[b]));
        assert(!sorts_before(heads[b], heads[a]));
    }
    assert forall|a: int, b: int|
        0 <= a < b < rows.len() && sort_tie(#[trigger] rows[a], #[trigger] rows[b]) implies origin_order(es, rows[a], rows[b]) by {
        assert(same_head(rows[a], heads[a]) && same_head(rows[b], heads[b]));
        assert(sort_tie(heads[a], heads[b]));
        assert(origin_order(es, heads[a], heads[b]));
        assert forall|o1: int, o2: int| row_origin(es, rows[a], o1) && row_origin(es, rows[b], o2) implies o1 < o2 by {
            assert(row_origin(es, heads[a], o1) && row_origin(es, heads[b], o2));
        }
    }
}

/// Builds the pivot table of `entries` over the days `days`
/// (`YYYY-MM-DD` texts): one row per labor code, hour type and telework flag
/// of an entry with hours, carrying the WBS number, labor code name and hour
/// type code of the first such entry; rows sorted by WBS number, hour type
/// code and telework flag, rows that tie in the order of their first
/// entries. Each row has one cell per day (the quarter hours of its entries
/// dated that day, `None` without any) and the total of its cells.
pub fn build_pivot(entries: &[TimecardEntryView], days: &[String]) -> (r: Vec<PivotRow>)
    requires
        dated(entries@),
    ensures
        pivot_table(entries@, days@, r@),
{
    let heads = pivot_heads_of(entries);
    let texts = date_texts(entries);
    let nh = heads.len();
    let mut rows: Vec<PivotRow> = Vec::new();
    let mut a: usize = 0;
    while a < nh
        invariant
            nh == heads@.len(),
            texts@.len() == entries@.len(),
            forall|m: int| 0 <= m < entries@.len() ==> (#[trigger] texts@[m])@ == date_text(entries@[m].date as int),
            a <= nh,
            rows@.len() == a,
            forall|x: int| 0 <= x < a ==> same_head(#[trigger] rows@[x], heads@[x]),
            forall|x: int| 0 <= x < a ==> row_cells(entries@, days@, #[trigger] rows@[x]),
        decreases nh - a,
    {
        let row = fill_row(entries, texts.as_slice(), days, &heads[a]);
        rows.push(row);
        a = a + 1;
    }
    proof {
        lemma_heads_transfer(entries@, heads@, rows@);
    }
    rows
}

/// The quarter hours of column `i` summed over `rows`.
pub open spec fn column_sum(rows: Seq<PivotRow>, i: int) -> nat
    decreases rows.len(),
{
    if rows.len() == 0 {
        0
    } else {
        column_sum(rows.drop_last(), i) + match rows.last().cells@[i] {
            Some(v) => v as nat,
            None => 0,
        }
    }
}

/// The sum of some quarter-hour counts.
pub open spec fn values_sum(vs: Seq<u128>) -> nat
    decreases vs.len(),
{
    if vs.len() == 0 {
        0
    } else {
        values_sum(vs.drop_last()) + vs.last() as nat
    }
}

/// The total of each of the first `n_days` columns of `rows` (saturating).
pub fn pivot_column_totals(rows: &[PivotRow], n_days: usize) -> (r: Vec<u128>)
    requires
        forall|a: int| 0 <= a < rows@.len() ==> n_days <= (#[trigger] rows@[a]).cells@.len(),
    ensures
        r@.len() == n_days,
        forall|i: int| 0 <= i < n_days ==> #[trigger] r@[i] == saturated(column_sum(rows@, i)),
{
    let nr = rows.len();
    let mut totals: Vec<u128> = Vec::new();
    let mut i: usize = 0;
    while i < n_days
        invariant
            nr == rows@.len(),
            forall|a: int| 0 <= a < rows@.len() ==> n_days <= (#[trigger] rows@[a]).cells@.len(),
            i <= n_days,
            totals@.len() == i,
            forall|x: int| 0 <= x < i ==> #[trigger] totals@[x] == saturated(column_sum(rows@, x)),
        decreases n_days - i,
    {
        let mut t: u128 = 0;
        let mut a: usize = 0;
        while a < nr
            invariant
                nr == rows@.len(),
                forall|b: int| 0 <= b < rows@.len() ==> n_days <= (#[trigger] rows@[b]).cells@.len(),
                i < n_days,
                a <= nr,
                t == saturated(column_sum(rows@.take(a as int), i as int)),
            decreases nr - a,
        {
            proof {
                assert(rows@.take(a + 1).drop_last() =~= rows@.take(a as int));
                assert(rows@.take(a + 1).last() == rows@[a as int]);
                assert(n_days <= rows@[a as int].cells@.len());
            }
            match rows[a].cells[i] {
                Some(v) => {
                    t = t.saturating_add(v);
                },
                None => {},
            }
            a = a + 1;
        }
        assert(rows@.take(nr as int) =~= rows@);
        totals.push(t);
        i = i + 1;
    }
    totals
}

/// The total of all columns (saturating).
pub fn pivot_grand_total(column_totals: &[u128]) -> (r: u128)
    ensures
        r == saturated(values_sum(column_totals@)),
{
    let n = column_totals.len();
    let mut t: u128 = 0;
    let mut i: usize = 0;
    while i < n
        invariant
            n == column_totals@.len(),
            i <= n,
            t == saturated(values_sum(column_totals@.take(i as int))),
        decreases n - i,
    {
        assert(column_totals@.take(i + 1).drop_last() =~= column_totals@.take(i as int));
        t = t.saturating_add(column_totals[i]);
        i = i + 1;
    }
    assert(column_totals@.take(n as int) =~= column_totals@);
    t
}

/// Whether a column is shown: weekdays always, weekend days only when they
/// have hours.
pub open spec fn column_shown(day: Seq<char>, total: u128) -> bool {
    !is_weekend_spec(day) || total > 0
}

/// Whether a column of a week is shown when the weekend toggle is `show`:
/// weekdays always, weekend days only with hours and the toggle on.
pub open spec fn column_shown_with(day: Seq<char>, total: u128, show: bool) -> bool {
    !is_weekend_spec(day) || (show && total > 0)
}

/// The indices, in increasing order, of the columns of a week to show when
/// the weekend toggle is `show_weekends`: weekdays always, weekend days only
/// when they have hours and the toggle is on.
pub fn visible_week_columns(days: &[String], column_totals: &[u128], show_weekends: bool) -> (r: Vec<usize>)
    requires
        days@.len() <= column_totals@.len(),
    ensures
        forall|k: int| 0 <= k < r@.len() ==> #[trigger] r@[k] < days@.len(),
        forall|k: int, l: int| 0 <= k < l < r@.len() ==> #[trigger] r@[k] < #[trigger] r@[l],
        forall|i: int| 0 <= i < days@.len() ==> (r@.contains(i as usize) <==> column_shown_with(
            #[trigger] days@[i]@,
            column_totals@[i],
            show_weekends,
        )),
{
    let n = days.len();
    let mut r: Vec<usize> = Vec::new();
    let mut i: usize = 0;
    while i < n
        invariant
            n == days@.len(),
            n <= column_totals@.len(),
            i <= n,
            forall|k: int| 0 <= k < r@.len() ==> #[trigger] r@[k] < i,
            forall|k: int, l: int| 0 <= k < l < r@.len() ==> #[trigger] r@[k] < #[trigger] r@[l],
            forall|x: int| 0 <= x < i ==> (r@.contains(x as usize) <==> column_shown_with(
                #[trigger] days@[x]@,
                column_totals@[x],
                show_weekends,
            )),
        decreases n - i,
    {
        let ghost before = r@;
        if !is_weekend(days[i].as_str()) || (show_weekends && column_totals[i] > 0) {
            r.push(i);
            proof {
                assert(r@[before.len() as int] == i);
                assert forall|x: int| 0 <= x < i + 1 implies (r@.contains(x as usize) <==> column_shown_with(
                    #[trigger] days@[x]@,
                    column_totals@[x],
                    show_weekends,
                )) by {
                    if r@.contains(x as usize) && x < i {
                        let w = choose|w: int| 0 <= w < r@.len() && r@[w] == x as usize;
                        assert(w < before.len());
                        assert(before[w] == x as usize);
                    }
                    if before.contains(x as usize) {
                        let w = choose|w: int| 0 <= w < before.len() && before[w] == x as usize;
                        assert(r@[w] == x as usize);
                    }
                }
            }
        } else {
            proof {
                assert(!before.contains(i)) by {
                    if before.contains(i) {
                        let w = choose|w: int| 0 <= w < before.len() && before[w] == i;
                    }
                }
            }
        }
        i = i + 1;
    }
    r
}

/// The indices, in increasing order, of the columns to show.
pub fn visible_columns(days: &[String], column_totals: &[u128]) -> (r: Vec<usize>)
    requires
        days@.len() <= column_totals@.len(),
    ensures
        forall|k: int| 0 <= k < r@.len() ==> #[trigger] r@[k] < days@.len(),
        forall|k: int, l: int| 0 <= k < l < r@.len() ==> #[trigger] r@[k] < #[trigger] r@[l],
        forall|i: int| 0 <= i < days@.len() ==> (r@.contains(i as usize) <==> column_shown(
            #[trigger] days@[i]@,
            column_totals@[i],
        )),
{
    visible_week_columns(days, column_totals, true)
}

/// Entries `a` and `b` hold the same data.
pub open spec fn same_entry(a: TimecardEntryView, b: TimecardEntryView) -> bool {
    &&& a.id == b.id
    &&& a.labor_code_id == b.labor_code_id
    &&& a.hour_type_id == b.hour_type_id
    &&& a.telework == b.telework
    &&& a.date == b.date
    &&& a.start_time == b.start_time
    &&& a.end_time == b.end_time
    &&& a.quarter_hours == b.quarter_hours
    &&& a.wbs_number@ == b.wbs_number@
    &&& a.labor_code_name@ == b.labor_code_name@
    &&& a.hour_type_code@ == b.hour_type_code@
    &&& a.hour_type_name@ == b.hour_type_name@
}

/// A copy of an entry.
fn copy_entry(e: &TimecardEntryView) -> (r: TimecardEntryView)
    ensures
        same_entry(r, *e),
{
    TimecardEntryView {
        id: e.id,
        labor_code_id: e.labor_code_id,
        hour_type_id: e.hour_type_id,
        telework: e.telework,
        date: e.date,
        start_time: e.start_time,
        end_time: e.end_time,
        quarter_hours: e.quarter_hours,
        wbs_number: e.wbs_number.clone(),
        labor_code_name: e.labor_code_name.clone(),
        hour_type_code: e.hour_type_code.clone(),
        hour_type_name: e.hour_type_name.clone(),
    }
}

/// Whether entry `e` is dated on the day whose text is `day` and belongs to
/// the row of labor code `lc`, hour type `ht` and telework flag `tw`.
pub open spec fn cell_match(e: TimecardEntryView, day: Seq<char>, lc: i64, ht: i64, tw: bool) -> bool {
    date_text(e.date as int) == day && e.labor_code_id == lc && e.hour_type_id == ht && e.telework == tw
}

/// The entries of `es` that match a cell, in their order.
pub open spec fn cell_matches(es: Seq<TimecardEntryView>, day: Seq<char>, lc: i64, ht: i64, tw: bool) -> Seq<TimecardEntryView>
    decreases es.len(),
{
    if es.len() == 0 {
        Seq::empty()
    } else {
        let before = cell_matches(es.drop_last(), day, lc, ht, tw);
        if cell_match(es.last(), day, lc, ht, tw) {
            before.push(es.last())
        } else {
            before
        }
    }
}

/// The entries behind a cell of the pivot table: those dated on `day`
/// (`YYYY-MM-DD`) with the labor code, hour type and telework flag of the
/// row, in their order.
pub fn cell_entries(entries: &[TimecardEntryView], day: &str, labor_code_id: i64, hour_type_id: i64, telework: bool) -> (r: Vec<TimecardEntryView>)
    requires
        dated(entries@),
    ensures
        r@.len() == cell_matches(entries@, day@, labor_code_id, hour_type_id, telework).len(),
        forall|k: int| 0 <= k < r@.len() ==> same_entry(
            #[trigger] r@[k],
            cell_matches(entries@, day@, labor_code_id, hour_type_id, telework)[k],
        ),
{
    let n = entries.len();
    let mut r: Vec<TimecardEntryView> = Vec::new();
    let mut i: usize = 0;
    while i < n
        invariant
            n == entries@.len(),
            dated(entries@),
            i <= n,
            r@.len() == cell_matches(entries@.take(i as int), day@, labor_code_id, hour_type_id, telework).len(),
            forall|k: int| 0 <= k < r@.len() ==> same_entry(
                #[trigger] r@[k],
                cell_matches(entries@.take(i as int), day@, labor_code_id, hour_type_id, telework)[k],
            ),
        decreases n - i,
    {
        let ghost prefix = entries@.take(i as int);
        let ghost next = entries@.take(i + 1);
        proof {
            assert(next.drop_last() =~= prefix);
            assert(next.last() == entries@[i as int]);
            assert(valid_day(entries@[i as int].date as int));
        }
        let e = &entries[i];
        let text = day_text(e.date);
        if str_eq(text.as_str(), day) && e.labor_code_id == labor_code_id && e.hour_type_id == hour_type_id
            && e.telework == telework {
            r.push(copy_entry(e));
        }
        i = i + 1;
    }
    assert(entries@.take(n as int) =~= entries@);
    r
}

/// The entry a click on a cell opens: the cell's entry when exactly one
/// matches, none otherwise (the day is then opened without an entry).
pub fn cell_click_entry(matched: &[TimecardEntryView]) -> (r: Option<TimecardEntryView>)
    ensures
        r is Some <==> matched@.len() == 1,
        r matches Some(e) ==> same_entry(e, matched@[0]),
{
    if matched.len() == 1 {
        Some(copy_entry(&matched[0]))
    } else {
        None
    }
}

/// Whether some entry of `matched` has its id among `overlap_ids`.
pub fn cell_has_overlap(matched: &[TimecardEntryView], overlap_ids: &HashSet<i64>) -> (r: bool)
    ensures
        r == exists|k: int| 0 <= k < matched@.len() && overlap_ids@.contains(#[trigger] matched@[k].id),
{
    broadcast use vstd::std_specs::hash::group_hash_axioms;
    let n = matched.len();
    let mut i: usize = 0;
    while i < n
        invariant
            n == matched@.len(),
            i <= n,
            forall|k: int| 0 <= k < i ==> !overlap_ids@.contains(#[trigger] matched@[k].id),
        decreases n - i,
    {
        if overlap_ids.contains(&matched[i].id) {
            return true;
        }
        i = i + 1;
    }
    false
}


/// The value of a cell, counting an empty one as nothing.
pub open spec fn cell_amount(c: Option<u128>) -> nat {
    match c {
        Some(v) => v as nat,
        None => 0,
    }
}

/// The sum of the first `n` column sums of `rows`.
pub open spec fn columns_total(rows: Seq<PivotRow>, n: int) -> nat
    decreases n,
{
    if n <= 0 {
        0
    } else {
        columns_total(rows, n - 1) + column_sum(rows, n - 1)
    }
}

/// The sum of the cells of all rows.
pub open spec fn rows_cells_total(rows: Seq<PivotRow>) -> nat
    decreases rows.len(),
{
    if rows.len() == 0 {
        0
    } else {
        rows_cells_total(rows.drop_last()) + cells_sum(rows.last().cells@)
    }
}

/// The sum of the first `n` cells of `cells`.
pub open spec fn cells_prefix(cells: Seq<Option<u128>>, n: int) -> nat
    decreases n,
{
    if n <= 0 {
        0
    } else {
        cells_prefix(cells, n - 1) + cell_amount(cells[n - 1])
    }
}

proof fn lemma_cells_prefix_sum(cells: Seq<Option<u128>>, n: int)
    requires
        0 <= n <= cells.len(),
    ensures
        cells_prefix(cells, n) == cells_sum(cells.take(n)),
    decreases n,
{
    if n > 0 {
        lemma_cells_prefix_sum(cells, n - 1);
        assert(cells.take(n).drop_last() =~= cells.take(n - 1));
    }
}

/// Adding a row adds its first `n` cells to the first `n` column sums.
proof fn lemma_columns_total_push(rows: Seq<PivotRow>, row: PivotRow, n: int)
    requires
        n >= 0,
    ensures
        columns_total(rows.push(row), n) == columns_total(rows, n) + cells_prefix(row.cells@, n),
    decreases n,
{
    assert(rows.push(row).drop_last() =~= rows);
    if n > 0 {
        lemma_columns_total_push(rows, row, n - 1);
    }
}

proof fn lemma_columns_total_empty(rows: Seq<PivotRow>, n: int)
    requires
        rows.len() == 0,
    ensures
        columns_total(rows, n) == 0,
    decreases n,
{
    if n > 0 {
        lemma_columns_total_empty(rows, n - 1);
    }
}

/// The column sums of a table add up to the sum of its rows' cells: summing
/// the grid by columns or by rows gives the same total.
pub proof fn lemma_pivot_sums(rows: Seq<PivotRow>, n: int)
    requires
        n >= 0,
        forall|a: int| 0 <= a < rows.len() ==> (#[trigger] rows[a]).cells@.len() == n,
    ensures
        columns_total(rows, n) == rows_cells_total(rows),
    decreases rows.len(),
{
    if rows.len() == 0 {
        lemma_columns_total_empty(rows, n);
    } else {
        let rest = rows.drop_last();
        assert forall|a: int| 0 <= a < rest.len() implies (#[trigger] rest[a]).cells@.len() == n by {
            assert(rest[a] == rows[a]);
        }
        lemma_pivot_sums(rest, n);
        assert(rest.push(rows.last()) =~= rows);
        lemma_columns_total_push(rest, rows.last(), n);
        assert(rows[rows.len() - 1].cells@.len() == n);
        lemma_cells_prefix_sum(rows.last().cells@, n);
        assert(rows.last().cells@.take(n) =~= rows.last().cells@);
    }
}


/// Quarter hours of the cells of key `k` over the days `days`, summed.
pub open spec fn row_grid(es: Seq<TimecardEntryView>, k: (i64, i64, bool), days: Seq<String>) -> nat
    decreases days.len(),
{
    if days.len() == 0 {
        0
    } else {
        row_grid(es, k, days.drop_last()) + cell_total(es, k, days.last()@)
    }
}

/// Quarter hours of the cells of all `rows` over the days `days`, summed.
pub open spec fn grid_total(es: Seq<TimecardEntryView>, rows: Seq<PivotRow>, days: Seq<String>) -> nat
    decreases rows.len(),
{
    if rows.len() == 0 {
        0
    } else {
        grid_total(es, rows.drop_last(), days) + row_grid(es, row_key(rows.last()), days)
    }
}

/// No two days of `days` have the same text.
pub open spec fn distinct_days(days: Seq<String>) -> bool {
    forall|a: int, b: int| 0 <= a < b < days.len() ==> (#[trigger] days[a])@ != (#[trigger] days[b])@
}

/// Some day of `days` has the text `t`.
pub open spec fn lists_day(days: Seq<String>, t: Seq<char>) -> bool {
    exists|d: int| 0 <= d < days.len() && (#[trigger] days[d])@ == t
}

/// A cell without entries totals nothing.
proof fn lemma_cell_total_unfilled(es: Seq<TimecardEntryView>, k: (i64, i64, bool), day: Seq<char>)
    requires
        !cell_filled(es, k, day),
    ensures
        cell_total(es, k, day) == 0,
    decreases es.len(),
{
    if es.len() > 0 {
        let rest = es.drop_last();
        assert(!cell_filled(rest, k, day)) by {
            if cell_filled(rest, k, day) {
                let m = choose|m: int| 0 <= m < rest.len() && in_cell(#[trigger] rest[m], k, day);
                assert(es[m] == rest[m]);
            }
        }
        assert(!in_cell(es[es.len() - 1], k, day));
        lemma_cell_total_unfilled(rest, k, day);
    }
}

/// Cells holding the values of key `k` over `days` sum to its grid total.
proof fn lemma_cells_values(es: Seq<TimecardEntryView>, days: Seq<String>, k: (i64, i64, bool), cells: Seq<Option<u128>>)
    requires
        cells.len() == days.len(),
        forall|x: int| 0 <= x < days.len() ==> #[trigger] cells[x] == cell_value(es, k, days[x]@),
        es.len() <= usize::MAX,
    ensures
        cells_sum(cells) == row_grid(es, k, days),
    decreases days.len(),
{
    if days.len() > 0 {
        let n = (days.len() - 1) as int;
        let c2 = cells.drop_last();
        let d2 = days.drop_last();
        assert forall|x: int| 0 <= x < d2.len() implies #[trigger] c2[x] == cell_value(es, k, d2[x]@) by {
            assert(c2[x] == cells[x] && d2[x] == days[x]);
        }
        lemma_cells_values(es, d2, k, c2);
        let day = days[n]@;
        assert(cells[n] == cell_value(es, k, days[n]@));
        if cell_filled(es, k, day) {
            lemma_cell_total_bound(es, k, day);
            lemma_fits_u128(cell_total(es, k, day) as int, es.len() as int);
        } else {
            lemma_cell_total_unfilled(es, k, day);
        }
    }
}

/// The cells of all rows sum to the grid total.
proof fn lemma_rows_cells_grid(es: Seq<TimecardEntryView>, days: Seq<String>, rows: Seq<PivotRow>)
    requires
        forall|a: int| 0 <= a < rows.len() ==> row_cells(es, days, #[trigger] rows[a]),
        es.len() <= usize::MAX,
    ensures
        rows_cells_total(rows) == grid_total(es, rows, days),
    decreases rows.len(),
{
    if rows.len() > 0 {
        let rest = rows.drop_last();
        assert forall|a: int| 0 <= a < rest.len() implies row_cells(es, days, #[trigger] rest[a]) by {
            assert(rest[a] == rows[a]);
        }
        lemma_rows_cells_grid(es, days, rest);
        let last = rows[rows.len() - 1];
        assert(row_cells(es, days, last));
        lemma_cells_values(es, days, row_key(last), last.cells@);
    }
}

/// One more entry adds its quarter hours to the grid of its own key once,
/// when its day is among distinct days.
proof fn lemma_row_grid_push(es: Seq<TimecardEntryView>, e: TimecardEntryView, k: (i64, i64, bool), days: Seq<String>)
    requires
        distinct_days(days),
    ensures
        row_grid(es.push(e), k, days) == row_grid(es, k, days) + if counted(e) && pivot_key(e) == k && lists_day(
            days,
            date_text(e.date as int),
        ) {
            entry_quarters(e)
        } else {
            0
        },
    decreases days.len(),
{
    assert(es.push(e).drop_last() =~= es);
    if days.len() > 0 {
        let rest = days.drop_last();
        let t = date_text(e.date as int);
        assert(distinct_days(rest)) by {
            assert forall|a: int, b: int| 0 <= a < b < rest.len() implies (#[trigger] rest[a])@ != (#[trigger] rest[b])@ by {
                assert(rest[a] == days[a] && rest[b] == days[b]);
            }
        }
        lemma_row_grid_push(es, e, k, rest);
        let n = days.len() - 1;
        if days[n]@ == t {
            assert(!lists_day(rest, t)) by {
                if lists_day(rest, t) {
                    let d = choose|d: int| 0 <= d < rest.len() && (#[trigger] rest[d])@ == t;
                    assert(days[d] == rest[d]);
                }
            }
            assert(lists_day(days, t)) by {
                assert(days[n]@ == t);
            }
        } else {
            assert(lists_day(days, t) == lists_day(rest, t)) by {
                if lists_day(days, t) {
                    let d = choose|d: int| 0 <= d < days.len() && (#[trigger] days[d])@ == t;
                    assert(rest[d] == days[d]);
                }
                if lists_day(rest, t) {
                    let d = choose|d: int| 0 <= d < rest.len() && (#[trigger] rest[d])@ == t;
                    assert(days[d] == rest[d]);
                }
            }
        }
    }
}

/// One more entry adds its quarter hours to the grid of rows with distinct
/// keys once, when its key has a row and its day is among distinct days.
proof fn lemma_grid_total_push(es: Seq<TimecardEntryView>, e: TimecardEntryView, rows: Seq<PivotRow>, days: Seq<String>)
    requires
        distinct_days(days),
        forall|a: int, b: int| 0 <= a < b < rows.len() ==> row_key(#[trigger] rows[a]) != row_key(#[trigger] rows[b]),
    ensures
        grid_total(es.push(e), rows, days) == grid_total(es, rows, days) + if counted(e) && has_row(rows, pivot_key(e))
            && lists_day(days, date_text(e.date as int)) {
            entry_quarters(e)
        } else {
            0
        },
    decreases rows.len(),
{
    if rows.len() > 0 {
        let rest = rows.drop_last();
        let n = rows.len() - 1;
        let k = pivot_key(e);
        assert forall|a: int, b: int| 0 <= a < b < rest.len() implies row_key(#[trigger] rest[a]) != row_key(#[trigger] rest[b]) by {
            assert(rest[a] == rows[a] && rest[b] == rows[b]);
        }
        lemma_grid_total_push(es, e, rest, days);
        lemma_row_grid_push(es, e, row_key(rows[n]), days);
        if row_key(rows[n]) == k {
            assert(!has_row(rest, k)) by {
                if has_row(rest, k) {
                    let a = choose|a: int| 0 <= a < rest.len() && row_key(#[trigger] rest[a]) == k;
                    assert(rows[a] == rest[a]);
                }
            }
            assert(has_row(rows, k)) by {
                assert(row_key(rows[n]) == k);
            }
        } else {
            assert(has_row(rows, k) == has_row(rest, k)) by {
                if has_row(rows, k) {
                    let a = choose|a: int| 0 <= a < rows.len() && row_key(#[trigger] rows[a]) == k;
                    assert(rest[a] == rows[a]);
                }
                if has_row(rest, k) {
                    let a = choose|a: int| 0 <= a < rest.len() && row_key(#[trigger] rest[a]) == k;
                    assert(rows[a] == rest[a]);
                }
            }
        }
    }
}

proof fn lemma_row_grid_empty(es: Seq<TimecardEntryView>, k: (i64, i64, bool), days: Seq<String>)
    requires
        es.len() == 0,
    ensures
        row_grid(es, k, days) == 0,
    decreases days.len(),
{
    if days.len() > 0 {
        lemma_row_grid_empty(es, k, days.drop_last());
    }
}

proof fn lemma_grid_total_empty(es: Seq<TimecardEntryView>, rows: Seq<PivotRow>, days: Seq<String>)
    requires
        es.len() == 0,
    ensures
        grid_total(es, rows, days) == 0,
    decreases rows.len(),
{
    if rows.len() > 0 {
        lemma_grid_total_empty(es, rows.drop_last(), days);
        lemma_row_grid_empty(es, row_key(rows.last()), days);
    }
}

/// The grid of rows covering every counted entry, over distinct days listing
/// every counted entry's day, totals all the entries' hours.
proof fn lemma_grid_total_all(es: Seq<TimecardEntryView>, rows: Seq<PivotRow>, days: Seq<String>, i: int)
    requires
        0 <= i <= es.len(),
        distinct_days(days),
        forall|a: int, b: int| 0 <= a < b < rows.len() ==> row_key(#[trigger] rows[a]) != row_key(#[trigger] rows[b]),
        forall|m: int| 0 <= m < es.len() && counted(#[trigger] es[m]) ==> has_row(rows, pivot_key(es[m])) && lists_day(
            days,
            date_text(es[m].date as int),
        ),
    ensures
        grid_total(es.take(i), rows, days) == all_quarters(es.take(i)),
    decreases i,
{
    if i == 0 {
        lemma_grid_total_empty(es.take(0), rows, days);
    } else {
        lemma_grid_total_all(es, rows, days, i - 1);
        assert(es.take(i) =~= es.take(i - 1).push(es[i - 1]));
        assert(es.take(i).drop_last() =~= es.take(i - 1));
        lemma_grid_total_push(es.take(i - 1), es[i - 1], rows, days);
        if counted(es[i - 1]) {
            assert(has_row(rows, pivot_key(es[i - 1])) && lists_day(days, date_text(es[i - 1].date as int)));
        }
    }
}

/// Over distinct days that list the day of every entry with hours, the
/// cells of the pivot table hold all the entries' hours: its rows' cells sum
/// to the total of the entries.
pub proof fn lemma_pivot_holds_all_hours(es: Seq<TimecardEntryView>, days: Seq<String>, rows: Seq<PivotRow>)
    requires
        pivot_table(es, days, rows),
        es.len() <= usize::MAX,
        distinct_days(days),
        forall|m: int| 0 <= m < es.len() && counted(#[trigger] es[m]) ==> lists_day(days, date_text(es[m].date as int)),
    ensures
        rows_cells_total(rows) == all_quarters(es),
{
    lemma_rows_cells_grid(es, days, rows);
    lemma_grid_total_all(es, rows, days, es.len() as int);
    assert(es.take(es.len() as int) =~= es);
}

/// Quarter hours of the entries with hours dated on the day whose text is
/// `day`.
pub open spec fn day_text_quarters(es: Seq<TimecardEntryView>, day: Seq<char>) -> nat
    decreases es.len(),
{
    if es.len() == 0 {
        0
    } else {
        day_text_quarters(es.drop_last(), day) + if counted(es.last()) && date_text(es.last().date as int) == day {
            entry_quarters(es.last())
        } else {
            0
        }
    }
}

/// Quarter hours of the cells of the keys of `rows` on the day `day`.
spec fn keys_day_total(es: Seq<TimecardEntryView>, rows: Seq<PivotRow>, day: Seq<char>) -> nat
    decreases rows.len(),
{
    if rows.len() == 0 {
        0
    } else {
        keys_day_total(es, rows.drop_last(), day) + cell_total(es, row_key(rows.last()), day)
    }
}

proof fn lemma_column_keys(es: Seq<TimecardEntryView>, days: Seq<String>, rows: Seq<PivotRow>, i: int)
    requires
        0 <= i < days.len(),
        forall|a: int| 0 <= a < rows.len() ==> row_cells(es, days, #[trigger] rows[a]),
        es.len() <= usize::MAX,
    ensures
        column_sum(rows, i) == keys_day_total(es, rows, days[i]@),
    decreases rows.len(),
{
    if rows.len() > 0 {
        let rest = rows.drop_last();
        assert forall|a: int| 0 <= a < rest.len() implies row_cells(es, days, #[trigger] rest[a]) by {
            assert(rest[a] == rows[a]);
        }
        lemma_column_keys(es, days, rest, i);
        let last = rows[rows.len() - 1];
        assert(row_cells(es, days, last));
        let k = row_key(last);
        let day = days[i]@;
        assert(last.cells@[i] == cell_value(es, k, day));
        if cell_filled(es, k, day) {
            lemma_cell_total_bound(es, k, day);
            lemma_fits_u128(cell_total(es, k, day) as int, es.len() as int);
        } else {
            lemma_cell_total_unfilled(es, k, day);
        }
    }
}

proof fn lemma_keys_day_push(es: Seq<TimecardEntryView>, e: TimecardEntryView, rows: Seq<PivotRow>, day: Seq<char>)
    requires
        forall|a: int, b: int| 0 <= a < b < rows.len() ==> row_key(#[trigger] rows[a]) != row_key(#[trigger] rows[b]),
    ensures
        keys_day_total(es.push(e), rows, day) == keys_day_total(es, rows, day) + if counted(e) && has_row(
            rows,
            pivot_key(e),
        ) && date_text(e.date as int) == day {
            entry_quarters(e)
        } else {
            0
        },
    decreases rows.len(),
{
    assert(es.push(e).drop_last() =~= es);
    if rows.len() > 0 {
        let rest = rows.drop_last();
        let n = rows.len() - 1;
        let k = pivot_key(e);
        assert forall|a: int, b: int| 0 <= a < b < rest.len() implies row_key(#[trigger] rest[a]) != row_key(#[trigger] rest[b]) by {
            assert(rest[a] == rows[a] && rest[b] == rows[b]);
        }
        lemma_keys_day_push(es, e, rest, day);
        if row_key(rows[n]) == k {
            assert(!has_row(rest, k)) by {
                if has_row(rest, k) {
                    let a = choose|a: int| 0 <= a < rest.len() && row_key(#[trigger] rest[a]) == k;
                    assert(rows[a] == rest[a]);
                }
            }
            assert(has_row(rows, k)) by {
                assert(row_key(rows[n]) == k);
            }
        } else {
            assert(has_row(rows, k) == has_row(rest, k)) by {
                if has_row(rows, k) {
                    let a = choose|a: int| 0 <= a < rows.len() && row_key(#[trigger] rows[a]) == k;
                    assert(rest[a] == rows[a]);
                }
                if has_row(rest, k) {
                    let a = choose|a: int| 0 <= a < rest.len() && row_key(#[trigger] rest[a]) == k;
                    assert(rows[a] == rest[a]);
                }
            }
        }
    }
}

proof fn lemma_keys_day_empty(es: Seq<TimecardEntryView>, rows: Seq<PivotRow>, day: Seq<char>)
    requires
        es.len() == 0,
    ensures
        keys_day_total(es, rows, day) == 0,
    decreases rows.len(),
{
    if rows.len() > 0 {
        lemma_keys_day_empty(es, rows.drop_last(), day);
    }
}

proof fn lemma_keys_day_all(es: Seq<TimecardEntryView>, rows: Seq<PivotRow>, day: Seq<char>, i: int)
    requires
        0 <= i <= es.len(),
        forall|a: int, b: int| 0 <= a < b < rows.len() ==> row_key(#[trigger] rows[a]) != row_key(#[trigger] rows[b]),
        forall|m: int| 0 <= m < es.len() && counted(#[trigger] es[m]) ==> has_row(rows, pivot_key(es[m])),
    ensures
        keys_day_total(es.take(i), rows, day) == day_text_quarters(es.take(i), day),
    decreases i,
{
    if i == 0 {
        lemma_keys_day_empty(es.take(0), rows, day);
    } else {
        lemma_keys_day_all(es, rows, day, i - 1);
        assert(es.take(i) =~= es.take(i - 1).push(es[i - 1]));
        assert(es.take(i).drop_last() =~= es.take(i - 1));
        lemma_keys_day_push(es.take(i - 1), es[i - 1], rows, day);
        if counted(es[i - 1]) {
            assert(has_row(rows, pivot_key(es[i - 1])));
        }
    }
}

/// A column of the pivot table totals the hours of the entries dated on its
/// day: the sum of the column's cells over all rows is the quarter hours of
/// the entries with hours whose date is that day.
pub proof fn lemma_pivot_column_hours(es: Seq<TimecardEntryView>, days: Seq<String>, rows: Seq<PivotRow>, i: int)
    requires
        pivot_table(es, days, rows),
        es.len() <= usize::MAX,
        0 <= i < days.len(),
    ensures
        column_sum(rows, i) == day_text_quarters(es, days[i]@),
{
    lemma_column_keys(es, days, rows, i);
    lemma_keys_day_all(es, rows, days[i]@, es.len() as int);
    assert(es.take(es.len() as int) =~= es);
}

} // verus!
