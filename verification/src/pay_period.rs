//! Pay periods: two-week ranges repeating from anchor dates, and the choice of
//! the current period for a date.

use vstd::prelude::*;
use crate::calendar::{valid_day, date_from_str, date_text, parse_date, day_text, FIRST_DAY, LAST_DAY};
use crate::text::{chars_lt, str_less, str_eq, lemma_chars_lt_total, lemma_chars_lt_transitive, lemma_chars_lt_irreflexive};
use crate::models::{PayPeriodAnchor, PayPeriodRange};
use crate::repository::Repository;

verus! {

/// Number of days either side of the reference date that periods are produced for.
pub const WINDOW_DAYS: i64 = 365;

/// Length of a pay period in days.
pub const PERIOD_DAYS: i64 = 14;

/// The texts of a pay period: first and last date.
pub open spec fn pview(p: PayPeriodRange) -> (Seq<char>, Seq<char>) {
    (p.start_date@, p.end_date@)
}

/// The pay period starting on day `s`: from `s` to `s + 13`.
pub open spec fn period_of(s: int) -> (Seq<char>, Seq<char>) {
    (date_text(s), date_text(s + 13))
}

/// Periods whose start dates strictly increase (as text).
#[verifier::opaque]
pub open spec fn starts_strictly_increasing(res: Seq<PayPeriodRange>) -> bool {
    forall|i: int, j: int|
        0 <= i < j < res.len() ==> chars_lt(#[trigger] res[i].start_date@, #[trigger] res[j].start_date@)
}

/// Whether `g[i]` is the first period in `g` with its start date.
pub open spec fn first_of_its_start(g: Seq<(Seq<char>, Seq<char>)>, i: int) -> bool {
    &&& 0 <= i < g.len()
    &&& forall|k: int| 0 <= k < i ==> #[trigger] g[k].0 != g[i].0
}

/// `res` is `g` sorted by start date with later duplicates of a start date
/// dropped: what a stable sort by start date followed by `dedup_by_key` on the
/// start date gives.
pub open spec fn sorted_unique_periods(res: Seq<PayPeriodRange>, g: Seq<(Seq<char>, Seq<char>)>) -> bool {
    &&& starts_strictly_increasing(res)
    &&& each_first_occurrence(res, g)
    &&& each_start_present(res, g)
}

/// Every period of `res` is the first period of `g` with its start date.
#[verifier::opaque]
pub open spec fn each_first_occurrence(res: Seq<PayPeriodRange>, g: Seq<(Seq<char>, Seq<char>)>) -> bool {
    forall|j: int|
        #![trigger res[j]]
        0 <= j < res.len() ==> exists|i: int| first_of_its_start(g, i) && pview(res[j]) == g[i]
}

/// Every start date of `g` is the start date of some period of `res`.
#[verifier::opaque]
pub open spec fn each_start_present(res: Seq<PayPeriodRange>, g: Seq<(Seq<char>, Seq<char>)>) -> bool {
    forall|i: int|
        #![trigger g[i]]
        0 <= i < g.len() ==> exists|j: int| 0 <= j < res.len() && res[j].start_date@ == g[i].0
}

/// Adding a period whose start date is already present keeps `res` the
/// deduplicated sorting of the longer sequence.
proof fn lemma_add_present(res: Seq<PayPeriodRange>, g: Seq<(Seq<char>, Seq<char>)>, p: PayPeriodRange, pos: int)
    requires
        sorted_unique_periods(res, g),
        0 <= pos < res.len(),
        res[pos].start_date@ == p.start_date@,
    ensures
        sorted_unique_periods(res, g.push(pview(p))),
{
    let g2 = g.push(pview(p));
    assert(each_first_occurrence(res, g2)) by {
        reveal(each_first_occurrence);
        assert forall|j: int| #![trigger res[j]] 0 <= j < res.len() implies exists|i: int|
            first_of_its_start(g2, i) && pview(res[j]) == g2[i] by {
            let i = choose|i: int| first_of_its_start(g, i) && pview(res[j]) == g[i];
            assert(g2[i] == g[i]);
            assert forall|k: int| 0 <= k < i implies #[trigger] g2[k].0 != g2[i].0 by {
                assert(g2[k] == g[k]);
            }
        }
    }
    assert(each_start_present(res, g2)) by {
        reveal(each_start_present);
        assert forall|i: int| #![trigger g2[i]] 0 <= i < g2.len() implies exists|j: int|
            0 <= j < res.len() && res[j].start_date@ == g2[i].0 by {
            if i < g.len() {
                assert(g2[i] == g[i]);
            } else {
                assert(res[pos].start_date@ == g2[i].0);
            }
        }
    }
}

/// Inserting at `pos` keeps start dates strictly increasing when `p` starts
/// after everything before `pos` and before everything from `pos` on.
proof fn lemma_insert_sorted(res: Seq<PayPeriodRange>, p: PayPeriodRange, pos: int)
    requires
        starts_strictly_increasing(res),
        0 <= pos <= res.len(),
        forall|j: int| 0 <= j < pos ==> chars_lt(#[trigger] res[j].start_date@, p.start_date@),
        pos < res.len() ==> chars_lt(p.start_date@, res[pos].start_date@),
    ensures
        starts_strictly_increasing(res.insert(pos, p)),
{
    let r2 = res.insert(pos, p);
    reveal(starts_strictly_increasing);
    assert forall|a: int, b: int| 0 <= a < b < r2.len() implies chars_lt(
        #[trigger] r2[a].start_date@,
        #[trigger] r2[b].start_date@,
    ) by {
        if b < pos {
            assert(r2[a] == res[a] && r2[b] == res[b]);
        } else if b == pos {
            assert(r2[a] == res[a]);
        } else if a == pos {
            assert(r2[b] == res[b - 1]);
            if b - 1 > pos {
                lemma_chars_lt_transitive(p.start_date@, res[pos].start_date@, res[b - 1].start_date@);
            }
        } else if a < pos {
            assert(r2[a] == res[a] && r2[b] == res[b - 1]);
        } else {
            assert(r2[a] == res[a - 1] && r2[b] == res[b - 1]);
        }
    }
}

/// A period whose start date is absent from `res` is the first with its
/// start date in the longer sequence.
proof fn lemma_new_start_first(res: Seq<PayPeriodRange>, g: Seq<(Seq<char>, Seq<char>)>, p: PayPeriodRange)
    requires
        sorted_unique_periods(res, g),
        forall|j: int| 0 <= j < res.len() ==> #[trigger] res[j].start_date@ != p.start_date@,
    ensures
        first_of_its_start(g.push(pview(p)), g.len() as int),
{
    let g2 = g.push(pview(p));
    reveal(each_start_present);
    assert forall|k: int| 0 <= k < g.len() implies #[trigger] g2[k].0 != g2[g.len() as int].0 by {
        assert(g2[k] == g[k]);
        assert(0 <= k < g.len());
        let jj = choose|jj: int| 0 <= jj < res.len() && res[jj].start_date@ == g[k].0;
        assert(res[jj].start_date@ != p.start_date@);
    }
}

/// Inserting a period with a new start date at its sorted position keeps the
/// result the deduplicated sorting of the longer sequence.
proof fn lemma_add_new(res: Seq<PayPeriodRange>, g: Seq<(Seq<char>, Seq<char>)>, p: PayPeriodRange, pos: int)
    requires
        sorted_unique_periods(res, g),
        0 <= pos <= res.len(),
        forall|j: int| 0 <= j < pos ==> chars_lt(#[trigger] res[j].start_date@, p.start_date@),
        pos < res.len() ==> chars_lt(p.start_date@, res[pos].start_date@),
    ensures
        sorted_unique_periods(res.insert(pos, p), g.push(pview(p))),
{
    let g2 = g.push(pview(p));
    let r2 = res.insert(pos, p);
    lemma_insert_sorted(res, p, pos);
    reveal(starts_strictly_increasing);
    assert forall|j: int| 0 <= j < res.len() implies #[trigger] res[j].start_date@ != p.start_date@ by {
        if j < pos {
            if res[j].start_date@ == p.start_date@ {
                lemma_chars_lt_irreflexive(p.start_date@);
            }
        } else if j == pos {
            if res[j].start_date@ == p.start_date@ {
                lemma_chars_lt_irreflexive(p.start_date@);
            }
        } else {
            if res[j].start_date@ == p.start_date@ {
                lemma_chars_lt_transitive(p.start_date@, res[pos].start_date@, res[j].start_date@);
                lemma_chars_lt_irreflexive(p.start_date@);
            }
        }
    }
    lemma_new_start_first(res, g, p);
    assert(each_first_occurrence(r2, g2)) by {
        reveal(each_first_occurrence);
        assert forall|j: int| #![trigger r2[j]] 0 <= j < r2.len() implies exists|i: int|
            first_of_its_start(g2, i) && pview(r2[j]) == g2[i] by {
            if j == pos {
                assert(pview(r2[j]) == g2[g.len() as int]);
            } else {
                let oj = if j < pos { j } else { j - 1 };
                assert(r2[j] == res[oj]);
                let i = choose|i: int| first_of_its_start(g, i) && pview(res[oj]) == g[i];
                assert(g2[i] == g[i]);
                assert forall|k: int| 0 <= k < i implies #[trigger] g2[k].0 != g2[i].0 by {
                    assert(g2[k] == g[k]);
                }
            }
        }
    }
    assert(each_start_present(r2, g2)) by {
        reveal(each_start_present);
        assert forall|i: int| #![trigger g2[i]] 0 <= i < g2.len() implies exists|j: int|
            0 <= j < r2.len() && r2[j].start_date@ == g2[i].0 by {
            if i < g.len() {
                assert(g2[i] == g[i]);
                let jj = choose|jj: int| 0 <= jj < res.len() && res[jj].start_date@ == g[i].0;
                if jj < pos {
                    assert(r2[jj] == res[jj]);
                } else {
                    assert(r2[jj + 1] == res[jj]);
                }
            } else {
                assert(r2[pos] == p);
            }
        }
    }
}

/// Adds `p` to the sorted, deduplicated `periods`, unless a period with the
/// same start date is already there.
fn insert_period(periods: &mut Vec<PayPeriodRange>, p: PayPeriodRange, Ghost(g): Ghost<Seq<(Seq<char>, Seq<char>)>>)
    requires
        sorted_unique_periods(old(periods)@, g),
    ensures
        sorted_unique_periods(final(periods)@, g.push(pview(p))),
{
    let len = periods.len();
    let mut pos: usize = 0;
    loop
        invariant
            len == periods@.len(),
            pos <= len,
            forall|j: int| 0 <= j < pos ==> chars_lt(#[trigger] periods@[j].start_date@, p.start_date@),
        ensures
            pos <= len,
            forall|j: int| 0 <= j < pos ==> chars_lt(#[trigger] periods@[j].start_date@, p.start_date@),
            pos < len ==> !chars_lt(periods@[pos as int].start_date@, p.start_date@),
        decreases len - pos,
    {
        if pos >= len {
            break;
        }
        if !str_less(periods[pos].start_date.as_str(), p.start_date.as_str()) {
            break;
        }
        pos = pos + 1;
    }
    if pos < len && periods[pos].start_date == p.start_date {
        proof { lemma_add_present(periods@, g, p, pos as int); }
        return;
    }
    proof {
        if pos < len {
            lemma_chars_lt_total(periods@[pos as int].start_date@, p.start_date@);
        }
        lemma_add_new(periods@, g, p, pos as int);
    }
    periods.insert(pos, p);
}


/// How many periods the backward walk from the earliest anchor `a` produces:
/// starts `a - 14`, `a - 28`, ... not before `r - 365`.
pub open spec fn backward_count(a: int, r: int) -> int {
    if a - 14 >= r - 365 {
        (a - 14 - (r - 365)) / 14 + 1
    } else {
        0
    }
}

/// The backward start days from anchor `a`, in the order produced.
pub open spec fn backward_starts(a: int, r: int) -> Seq<int> {
    Seq::new(backward_count(a, r) as nat, |k: int| a - 14 * (k + 1))
}

/// Day `a` is the date of some anchor.
pub open spec fn anchor_day(anchors: Seq<PayPeriodAnchor>, a: int) -> bool {
    exists|i: int|
        0 <= i < anchors.len() && (#[trigger] date_from_str(anchors[i].start_date@)) is Some
            && date_from_str(anchors[i].start_date@).unwrap() as int == a
}

/// No anchor falls after day `a` and on or before day `s`.
pub open spec fn no_anchor_between(anchors: Seq<PayPeriodAnchor>, a: int, s: int) -> bool {
    forall|b: int| a < b <= s ==> !#[trigger] anchor_day(anchors, b)
}

/// Day `a` is the earliest anchor date.
pub open spec fn earliest_anchor(anchors: Seq<PayPeriodAnchor>, a: int) -> bool {
    anchor_day(anchors, a) && forall|b: int| #[trigger] anchor_day(anchors, b) ==> a <= b
}

/// Day `s` is `k` periods from anchor day `a` in `a`'s cadence around
/// reference day `r`: forward (`k >= 0`) up to a year after the reference
/// day and only until the next anchor takes over; backward (`k < 0`) down to
/// a year before the reference day, from the earliest anchor only.
pub open spec fn cadence_start(anchors: Seq<PayPeriodAnchor>, r: int, a: int, k: int, s: int) -> bool {
    &&& anchor_day(anchors, a)
    &&& s == a + 14 * k
    &&& ((k >= 0 && s <= r + 365 && no_anchor_between(anchors, a, s))
        || (k < 0 && s >= r - 365 && earliest_anchor(anchors, a)))
}

/// Day `s` starts a pay period of `anchors` around reference day `r`: each
/// anchor's 14-day cadence runs from it until the next anchor, the earliest
/// one's also backward, within a year either side of the reference day.
pub open spec fn period_start(anchors: Seq<PayPeriodAnchor>, r: int, s: int) -> bool {
    exists|a: int, k: int| #[trigger] cadence_start(anchors, r, a, k, s)
}

/// `p` is the period of some start day of `anchors` around `r`.
pub open spec fn listed_period(anchors: Seq<PayPeriodAnchor>, r: int, p: PayPeriodRange) -> bool {
    exists|s: int| period_start(anchors, r, s) && #[trigger] spans_fourteen_days_from(p, s)
}

/// Some period of `res` is the one starting on day `s`.
pub open spec fn has_period(res: Seq<PayPeriodRange>, s: int) -> bool {
    exists|j: int| 0 <= j < res.len() && pview(#[trigger] res[j]) == period_of(s)
}

/// Whether computing pay periods around `reference` stays among
/// representable dates: a year before it and a year and 13 days after it.
pub open spec fn pay_periods_computable(reference: Seq<char>) -> bool {
    date_from_str(reference) matches Some(r) ==> valid_day(r - 365) && valid_day(r + 378)
}

/// Whether some anchor is a date.
pub open spec fn has_dated_anchor(anchors: Seq<PayPeriodAnchor>) -> bool {
    exists|i: int| 0 <= i < anchors.len() && (#[trigger] date_from_str(anchors[i].start_date@)) is Some
}

/// Every produced start day is representable with its last day, and the
/// texts of both parse back to them.
pub open spec fn starts_round_trip(starts: Seq<int>) -> bool {
    forall|k: int|
        #![trigger starts[k]]
        0 <= k < starts.len() ==> {
            &&& valid_day(starts[k])
            &&& valid_day(starts[k] + 13)
            &&& date_from_str(date_text(starts[k])) == Some(starts[k] as i32)
            &&& date_from_str(date_text(starts[k] + 13)) == Some((starts[k] + 13) as i32)
        }
}

/// `p` is the period from day `s` to day `s + 13`, and its texts parse back
/// to those days.
pub open spec fn spans_fourteen_days_from(p: PayPeriodRange, s: int) -> bool {
    &&& pview(p) == period_of(s)
    &&& date_from_str(p.start_date@) == Some(s as i32)
    &&& date_from_str(p.end_date@) == Some((s + 13) as i32)
}

/// `p` spans fourteen days: from some day `s` to `s + 13`, its texts parsing
/// back to those days.
pub open spec fn spans_fourteen_days(p: PayPeriodRange) -> bool {
    exists|s: int| spans_fourteen_days_from(p, s)
}

/// Some period of `res` contains day `d`.
pub open spec fn covers_day(res: Seq<PayPeriodRange>, d: int) -> bool {
    exists|j: int, s: int| 0 <= j < res.len() && pview(res[j]) == period_of(s) && s <= d <= s + 13
}

/// Day numbers in strictly increasing order.
spec fn days_increasing(ds: Seq<i64>) -> bool {
    forall|i: int, j: int| 0 <= i < j < ds.len() ==> #[trigger] ds[i] < #[trigger] ds[j]
}

/// `ds` lists exactly the anchor days of `anchors`.
spec fn lists_anchor_days(anchors: Seq<PayPeriodAnchor>, ds: Seq<i64>) -> bool {
    &&& forall|i: int| 0 <= i < ds.len() ==> anchor_day(anchors, #[trigger] ds[i] as int)
    &&& forall|x: int| #[trigger] anchor_day(anchors, x) ==> ds.contains(x as i64)
}

/// The last day on which anchor `i` of the sorted days `ds` may start a
/// forward period.
spec fn segment_limit(ds: Seq<i64>, i: int, r: int) -> int {
    if i + 1 < ds.len() && ds[i + 1] - 1 < r + 365 {
        ds[i + 1] - 1
    } else {
        r + 365
    }
}

/// How many starts `a`, `a + 14`, ... lie on or before `limit`.
spec fn steps_upto(a: int, limit: int) -> int {
    if a <= limit {
        (limit - a) / 14 + 1
    } else {
        0
    }
}

spec fn segment_starts(a: int, limit: int) -> Seq<int> {
    Seq::new(steps_upto(a, limit) as nat, |k: int| a + 14 * k)
}

/// The forward starts of the first `i` anchors of `ds`.
spec fn segments(ds: Seq<i64>, r: int, i: int) -> Seq<int>
    decreases i,
{
    if i <= 0 {
        Seq::empty()
    } else {
        segments(ds, r, i - 1) + segment_starts(ds[i - 1] as int, segment_limit(ds, i - 1, r))
    }
}

/// A start of the first `i` segments is a start of the first `j >= i`.
proof fn lemma_segments_grow(ds: Seq<i64>, r: int, i: int, j: int, s: int)
    requires
        0 <= i <= j,
        segments(ds, r, i).contains(s),
    ensures
        segments(ds, r, j).contains(s),
    decreases j - i,
{
    if i < j {
        let prev = segments(ds, r, j - 1);
        lemma_segments_grow(ds, r, i, j - 1, s);
        let w = choose|w: int| 0 <= w < prev.len() && prev[w] == s;
        let own = segment_starts(ds[j - 1] as int, segment_limit(ds, j - 1, r));
        assert((prev + own)[w] == s);
    }
}

/// A start of the first `i` segments is a step of one of their anchors.
proof fn lemma_segments_member(ds: Seq<i64>, r: int, i: int, s: int)
    requires
        0 <= i <= ds.len(),
        segments(ds, r, i).contains(s),
    ensures
        exists|j: int, k: int|
            0 <= j < i && 0 <= k < steps_upto(ds[j] as int, segment_limit(ds, j, r)) && #[trigger] (ds[j] + 14 * k) == s,
    decreases i,
{
    let prev = segments(ds, r, i - 1);
    let own = segment_starts(ds[i - 1] as int, segment_limit(ds, i - 1, r));
    let w = choose|w: int| 0 <= w < (prev + own).len() && (prev + own)[w] == s;
    if w < prev.len() {
        assert(prev[w] == s);
        lemma_segments_member(ds, r, i - 1, s);
    } else {
        let k = w - prev.len();
        assert(own[k] == s);
        assert(ds[i - 1] + 14 * k == s);
    }
}

/// The starts walked from the sorted anchor days `ds` around `r` are exactly
/// the period starts of the anchors.
proof fn lemma_plan_starts(anchors: Seq<PayPeriodAnchor>, ds: Seq<i64>, r: int, s: int)
    requires
        ds.len() > 0,
        days_increasing(ds),
        lists_anchor_days(anchors, ds),
    ensures
        (backward_starts(ds[0] as int, r) + segments(ds, r, ds.len() as int)).contains(s) <==> period_start(anchors, r, s),
{
    let a0 = ds[0] as int;
    let back = backward_starts(a0, r);
    let fwd = segments(ds, r, ds.len() as int);
    let all = back + fwd;
    assert(earliest_anchor(anchors, a0)) by {
        assert(anchor_day(anchors, ds[0] as int));
        assert forall|b: int| #[trigger] anchor_day(anchors, b) implies a0 <= b by {
            assert(ds.contains(b as i64));
            let t = choose|t: int| 0 <= t < ds.len() && ds[t] == b as i64;
            if t > 0 {
                assert(ds[0] < ds[t]);
            }
        }
    }
    if all.contains(s) {
        let w = choose|w: int| 0 <= w < all.len() && all[w] == s;
        if w < back.len() {
            assert(back[w] == s);
            let bc = backward_count(a0, r);
            assert(w <= (a0 - 14 - (r - 365)) / 14);
            assert(14 * w <= a0 - 14 - (r - 365)) by (nonlinear_arith)
                requires w <= (a0 - 14 - (r - 365)) / 14, a0 - 14 - (r - 365) >= 0;
            assert(cadence_start(anchors, r, a0, -(w + 1), s));
        } else {
            assert(fwd[w - back.len()] == s);
            assert(fwd.contains(s));
            lemma_segments_member(ds, r, ds.len() as int, s);
            let (j, k) = choose|j: int, k: int|
                0 <= j < ds.len() && 0 <= k < steps_upto(ds[j] as int, segment_limit(ds, j, r)) && #[trigger] (ds[j] + 14 * k) == s;
            let a = ds[j] as int;
            let lim = segment_limit(ds, j, r);
            assert(k <= (lim - a) / 14);
            assert(14 * k <= lim - a) by (nonlinear_arith)
                requires k <= (lim - a) / 14, lim - a >= 0;
            assert(anchor_day(anchors, ds[j] as int));
            assert forall|b: int| a < b <= s implies !#[trigger] anchor_day(anchors, b) by {
                if anchor_day(anchors, b) {
                    assert(ds.contains(b as i64));
                    let t = choose|t: int| 0 <= t < ds.len() && ds[t] == b as i64;
                    if t <= j {
                        if t < j {
                            assert(ds[t] < ds[j]);
                        }
                    } else {
                        if t > j + 1 {
                            assert(ds[j + 1] < ds[t]);
                        }
                    }
                }
            }
            assert(cadence_start(anchors, r, a, k, s));
        }
    }
    if period_start(anchors, r, s) {
        let (a, k) = choose|a: int, k: int| #[trigger] cadence_start(anchors, r, a, k, s);
        assert(ds.contains(a as i64));
        let i = choose|i: int| 0 <= i < ds.len() && ds[i] == a as i64;
        if k < 0 {
            assert(a <= a0);
            if i > 0 {
                assert(ds[0] < ds[i]);
            }
            let m = -k - 1;
            assert(14 * m <= a0 - 14 - (r - 365));
            assert(m <= (a0 - 14 - (r - 365)) / 14) by (nonlinear_arith)
                requires 14 * m <= a0 - 14 - (r - 365), m >= 0;
            assert(back[m] == s);
            assert(all[m] == s);
        } else {
            let lim = segment_limit(ds, i, r);
            if i + 1 < ds.len() {
                assert(ds[i] < ds[i + 1]);
                assert(anchor_day(anchors, ds[i + 1] as int));
                assert(!(a < ds[i + 1] as int <= s));
            }
            assert(s <= lim);
            assert(k <= (lim - a) / 14) by (nonlinear_arith)
                requires 14 * k <= lim - a, k >= 0;
            let own = segment_starts(a, lim);
            assert(own[k] == s);
            let prev = segments(ds, r, i);
            assert(segments(ds, r, i + 1) == prev + own);
            assert((prev + own)[prev.len() + k] == s);
            lemma_segments_grow(ds, r, i + 1, ds.len() as int, s);
            let w = choose|w: int| 0 <= w < fwd.len() && fwd[w] == s;
            assert(all[back.len() + w] == s);
        }
    }
}

/// Of strictly increasing day numbers, some is the last one on or before day
/// `d`, when the first is.
proof fn lemma_last_anchor_before(ds: Seq<i64>, d: int) -> (i: int)
    requires
        ds.len() > 0,
        days_increasing(ds),
        ds[0] <= d,
    ensures
        0 <= i < ds.len(),
        ds[i] <= d,
        i + 1 < ds.len() ==> ds[i + 1] > d,
    decreases ds.len(),
{
    let n = ds.len() - 1;
    if ds[n] <= d {
        n
    } else {
        let rest = ds.drop_last();
        assert(days_increasing(rest)) by {
            assert forall|i: int, j: int| 0 <= i < j < rest.len() implies #[trigger] rest[i] < #[trigger] rest[j] by {
                assert(rest[i] == ds[i] && rest[j] == ds[j]);
            }
        }
        let i = lemma_last_anchor_before(rest, d);
        assert(rest[i] == ds[i]);
        if i + 1 < rest.len() {
            assert(rest[i + 1] == ds[i + 1]);
        }
        i
    }
}

/// Every day from 352 days before to 365 days after the reference day lies
/// in a period that starts on a period start, when some anchor is a date.
proof fn lemma_cover_start(anchors: Seq<PayPeriodAnchor>, ds: Seq<i64>, r: int, d: int) -> (s: int)
    requires
        ds.len() > 0,
        days_increasing(ds),
        lists_anchor_days(anchors, ds),
        r - 352 <= d <= r + 365,
    ensures
        period_start(anchors, r, s),
        s <= d <= s + 13,
{
    let a0 = ds[0] as int;
    assert(anchor_day(anchors, ds[0] as int));
    if d < a0 {
        let m = (a0 - d + 13) / 14;
        let s = a0 - 14 * m;
        assert(a0 - d + 13 == 14 * m + (a0 - d + 13) % 14);
        assert(earliest_anchor(anchors, a0)) by {
            assert forall|b: int| #[trigger] anchor_day(anchors, b) implies a0 <= b by {
                assert(ds.contains(b as i64));
                let t = choose|t: int| 0 <= t < ds.len() && ds[t] == b as i64;
                if t > 0 {
                    assert(ds[0] < ds[t]);
                }
            }
        }
        assert(cadence_start(anchors, r, a0, -m, s));
        s
    } else {
        let i = lemma_last_anchor_before(ds, d);
        let a = ds[i] as int;
        let k = (d - a) / 14;
        let s = a + 14 * k;
        assert(d - a == 14 * k + (d - a) % 14);
        assert(anchor_day(anchors, ds[i] as int));
        assert forall|b: int| a < b <= s implies !#[trigger] anchor_day(anchors, b) by {
            if anchor_day(anchors, b) {
                assert(ds.contains(b as i64));
                let t = choose|t: int| 0 <= t < ds.len() && ds[t] == b as i64;
                if t < i {
                    assert(ds[t] < ds[i]);
                } else if t > i + 1 {
                    assert(ds[i + 1] < ds[t]);
                }
            }
        }
        assert(cadence_start(anchors, r, a, k, s));
        s
    }
}

/// The period starting on day `s`.
fn make_period(s: i64) -> (p: PayPeriodRange)
    requires
        valid_day(s as int),
        valid_day(s + 13),
    ensures
        pview(p) == period_of(s as int),
        date_from_str(date_text(s as int)) == Some(s as i32),
        date_from_str(date_text(s + 13)) == Some((s + 13) as i32),
{
    let start_date = day_text(s as i32);
    let end_date = day_text((s + 13) as i32);
    PayPeriodRange { start_date, end_date }
}

/// What `compute_pay_periods` owes for `anchors` around `reference`: nothing
/// when the reference date does not parse; else one period for each period
/// start of the anchors (each spanning fourteen days), sorted by start date,
/// together covering the days from 352 days before to 365 days after the
/// reference date when some anchor is a date.
pub open spec fn pay_periods_result(anchors: Seq<PayPeriodAnchor>, reference: Seq<char>, res: Seq<PayPeriodRange>) -> bool {
    &&& date_from_str(reference) is None ==> res.len() == 0
    &&& starts_strictly_increasing(res)
    &&& date_from_str(reference) matches Some(rd) ==> forall|j: int|
        0 <= j < res.len() ==> listed_period(anchors, rd as int, #[trigger] res[j])
    &&& date_from_str(reference) matches Some(rd) ==> forall|s: int|
        #[trigger] period_start(anchors, rd as int, s) ==> has_period(res, s)
    &&& forall|j: int| #![trigger res[j]] 0 <= j < res.len() ==> spans_fourteen_days(res[j])
    &&& date_from_str(reference) matches Some(rd) ==> (has_dated_anchor(anchors) ==>
        forall|d: int| rd - 352 <= d <= rd + 365 ==> #[trigger] covers_day(res, d))
}

/// Adds day `a` to the strictly increasing days `ds` unless it is there.
fn insert_day(ds: &mut Vec<i64>, a: i64)
    requires
        days_increasing(old(ds)@),
    ensures
        days_increasing(final(ds)@),
        forall|x: i64| #[trigger] final(ds)@.contains(x) <==> (old(ds)@.contains(x) || x == a),
{
    let n = ds.len();
    let mut pos: usize = 0;
    while pos < n && ds[pos] < a
        invariant
            n == ds@.len(),
            pos <= n,
            forall|j: int| 0 <= j < pos ==> #[trigger] ds@[j] < a,
        decreases n - pos,
    {
        pos = pos + 1;
    }
    if pos < n && ds[pos] == a {
        return;
    }
    let ghost before = ds@;
    ds.insert(pos, a);
    proof {
        assert forall|i: int, j: int| 0 <= i < j < ds@.len() implies #[trigger] ds@[i] < #[trigger] ds@[j] by {
            if j < pos {
                assert(ds@[i] == before[i] && ds@[j] == before[j]);
            } else if j == pos {
                assert(ds@[i] == before[i]);
            } else if i == pos {
                assert(ds@[j] == before[j - 1]);
                if j - 1 > pos {
                    assert(before[pos as int] < before[j - 1]);
                }
            } else if i < pos {
                assert(ds@[i] == before[i] && ds@[j] == before[j - 1]);
            } else {
                assert(ds@[i] == before[i - 1] && ds@[j] == before[j - 1]);
            }
        }
        assert forall|x: i64| #[trigger] ds@.contains(x) <==> (before.contains(x) || x == a) by {
            if ds@.contains(x) {
                let w = choose|w: int| 0 <= w < ds@.len() && ds@[w] == x;
                if w < pos {
                    assert(before[w] == x);
                } else if w > pos {
                    assert(before[w - 1] == x);
                }
            }
            if before.contains(x) {
                let w = choose|w: int| 0 <= w < before.len() && before[w] == x;
                if w < pos {
                    assert(ds@[w] == x);
                } else {
                    assert(ds@[w + 1] == x);
                }
            }
            if x == a {
                assert(ds@[pos as int] == x);
            }
        }
    }
}

/// The sorted, distinct anchor days of `anchors`.
fn anchor_days(anchors: &[PayPeriodAnchor]) -> (ds: Vec<i64>)
    ensures
        days_increasing(ds@),
        lists_anchor_days(anchors@, ds@),
        forall|j: int| 0 <= j < ds@.len() ==> valid_day(#[trigger] ds@[j] as int),
{
    let n = anchors.len();
    let mut ds: Vec<i64> = Vec::new();
    let mut i: usize = 0;
    while i < n
        invariant
            n == anchors@.len(),
            i <= n,
            days_increasing(ds@),
            lists_anchor_days(anchors@.take(i as int), ds@),
            forall|j: int| 0 <= j < ds@.len() ==> valid_day(#[trigger] ds@[j] as int),
        decreases n - i,
    {
        let ghost pre = anchors@.take(i as int);
        let ghost next = anchors@.take(i + 1);
        let ghost before = ds@;
        proof {
            assert(next.drop_last() =~= pre);
            assert(next[i as int] == anchors@[i as int]);
        }
        let parsed = parse_date(anchors[i].start_date.as_str());
        if let Some(a) = parsed {
            insert_day(&mut ds, a as i64);
        }
        proof {
            assert forall|j: int| 0 <= j < ds@.len() implies valid_day(#[trigger] ds@[j] as int) by {
                if parsed is None {
                    assert(ds@ == before);
                }
                assert(ds@.contains(ds@[j]));
                if !before.contains(ds@[j]) {
                    assert(parsed is Some && ds@[j] == parsed.unwrap() as i64);
                } else {
                    let w = choose|w: int| 0 <= w < before.len() && before[w] == ds@[j];
                    assert(valid_day(before[w] as int));
                }
            }
            assert forall|j: int| 0 <= j < ds@.len() implies anchor_day(next, #[trigger] ds@[j] as int) by {
                if parsed is None {
                    assert(ds@ == before);
                }
                assert(ds@.contains(ds@[j]));
                if before.contains(ds@[j]) {
                    let w = choose|w: int| 0 <= w < before.len() && before[w] == ds@[j];
                    assert(anchor_day(pre, before[w] as int));
                    let t = choose|t: int|
                        0 <= t < pre.len() && (#[trigger] date_from_str(pre[t].start_date@)) is Some
                            && date_from_str(pre[t].start_date@).unwrap() as int == before[w] as int;
                    assert(next[t] == pre[t]);
                } else {
                    assert(parsed is Some && ds@[j] == parsed.unwrap() as i64);
                    assert(date_from_str(next[i as int].start_date@) == parsed);
                }
            }
            assert forall|x: int| #[trigger] anchor_day(next, x) implies ds@.contains(x as i64) by {
                let t = choose|t: int|
                    0 <= t < next.len() && (#[trigger] date_from_str(next[t].start_date@)) is Some
                        && date_from_str(next[t].start_date@).unwrap() as int == x;
                if t < i {
                    assert(pre[t] == next[t]);
                    assert(anchor_day(pre, x));
                    assert(before.contains(x as i64));
                } else {
                    assert(parsed is Some);
                }
            }
        }
        i = i + 1;
    }
    assert(anchors@.take(n as int) =~= anchors@);
    ds
}

/// The periods of a walk whose starts are exactly the period starts are
/// the ones owed: each listed, and each start present.
proof fn lemma_periods_of_starts(
    anchors: Seq<PayPeriodAnchor>,
    r: int,
    periods: Seq<PayPeriodRange>,
    starts: Seq<int>,
)
    requires
        starts_round_trip(starts),
        sorted_unique_periods(periods, starts.map_values(|x: int| period_of(x))),
        forall|s: int| starts.contains(s) <==> period_start(anchors, r, s),
    ensures
        forall|j: int| 0 <= j < periods.len() ==> listed_period(anchors, r, #[trigger] periods[j]),
        forall|s: int| #[trigger] period_start(anchors, r, s) ==> has_period(periods, s),
{
    let g = starts.map_values(|x: int| period_of(x));
    assert forall|j: int| 0 <= j < periods.len() implies listed_period(anchors, r, #[trigger] periods[j]) by {
        reveal(each_first_occurrence);
        let gi = choose|gi: int| first_of_its_start(g, gi) && pview(periods[j]) == g[gi];
        assert(g[gi] == period_of(starts[gi]));
        assert(starts.contains(starts[gi]));
        assert(spans_fourteen_days_from(periods[j], starts[gi]));
    }
    assert forall|s: int| #[trigger] period_start(anchors, r, s) implies has_period(periods, s) by {
        assert(starts.contains(s));
        let m = choose|m: int| 0 <= m < starts.len() && starts[m] == s;
        assert(g[m] == period_of(s));
        assert(exists|j: int| 0 <= j < periods.len() && periods[j].start_date@ == g[m].0) by {
            reveal(each_start_present);
        }
        let j = choose|j: int| 0 <= j < periods.len() && periods[j].start_date@ == g[m].0;
        assert(exists|gi: int| first_of_its_start(g, gi) && pview(periods[j]) == g[gi]) by {
            reveal(each_first_occurrence);
        }
        let gi = choose|gi: int| first_of_its_start(g, gi) && pview(periods[j]) == g[gi];
        assert(g[gi] == period_of(starts[gi]));
        assert(date_from_str(date_text(starts[gi])) == Some(starts[gi] as i32));
        assert(date_from_str(date_text(starts[m])) == Some(starts[m] as i32));
        assert(valid_day(starts[gi]) && valid_day(starts[m]));
        assert(starts[gi] == s);
        assert(pview(periods[j]) == period_of(s));
    }
}

impl Repository<'static, ()> {
    /// Pure function, no database access. Returns the sorted 14-day pay
    /// periods spanning about a year either side of `reference_date`,
    /// derived from `anchors`: each anchor starts a 14-day cadence that runs
    /// until the next anchor overrides it (the last one up to a year after
    /// the reference date), and the earliest anchor's cadence also runs
    /// backward to a year before it. Returns nothing when the reference date
    /// or every anchor is unparsable, or when there are no anchors.
    pub fn compute_pay_periods(anchors: &[PayPeriodAnchor], reference_date: &str) -> (r: Vec<PayPeriodRange>)
        requires
            has_dated_anchor(anchors@) ==> pay_periods_computable(reference_date@),
        ensures
            pay_periods_result(anchors@, reference_date@, r@),
    {
        let mut periods: Vec<PayPeriodRange> = Vec::new();
        proof {
            reveal(starts_strictly_increasing);
            reveal(each_first_occurrence);
            reveal(each_start_present);
        }
        let rd = match parse_date(reference_date) {
            Some(d) => d,
            None => return periods,
        };
        let ghost rr = rd as int;
        let ds = anchor_days(anchors);
        let m = ds.len();
        if m == 0 {
            proof {
                assert forall|s: int| #[trigger] period_start(anchors@, rr, s) implies has_period(periods@, s) by {
                    let (a, k) = choose|a: int, k: int| #[trigger] cadence_start(anchors@, rr, a, k, s);
                    assert(ds@.contains(a as i64));
                }
                if has_dated_anchor(anchors@) {
                    let i = choose|i: int| 0 <= i < anchors@.len() && (#[trigger] date_from_str(anchors@[i].start_date@)) is Some;
                    assert(anchor_day(anchors@, date_from_str(anchors@[i].start_date@).unwrap() as int));
                    assert(ds@.contains(date_from_str(anchors@[i].start_date@).unwrap() as i64));
                }
            }
            return periods;
        }
        proof {
            assert(anchor_day(anchors@, ds@[0] as int));
            let i = choose|i: int|
                0 <= i < anchors@.len() && (#[trigger] date_from_str(anchors@[i].start_date@)) is Some
                    && date_from_str(anchors@[i].start_date@).unwrap() as int == ds@[0] as int;
            assert(has_dated_anchor(anchors@));
        }
        let a0 = ds[0];
        let ghost a0i = a0 as int;
        let ghost bc = backward_count(a0i, rr);
        let ghost mut starts: Seq<int> = Seq::empty();
        let mut cur: i64 = a0 - 14;
        let ghost mut k: int = 0;
        assert(valid_day(ds@[0] as int));
        while cur >= rd as i64 - 365
            invariant
                valid_day(a0i),
                valid_day(rr - 365),
                rr == rd as int,
                a0i == a0 as int,
                bc == backward_count(a0i, rr),
                0 <= k <= bc,
                cur == a0i - 14 * (k + 1),
                starts == backward_starts(a0i, rr).take(k),
                starts_round_trip(starts),
                sorted_unique_periods(periods@, starts.map_values(|x: int| period_of(x))),
            decreases cur - (rd as i64 - 365) + 14,
        {
            proof {
                let x = a0i - 14 - (rr - 365);
                assert(14 * k <= x);
                assert(k <= x / 14) by (nonlinear_arith)
                    requires 14 * k <= x, k >= 0;
            }
            let p = make_period(cur);
            proof {
                assert((starts.push(cur as int)).map_values(|x: int| period_of(x))
                    =~= starts.map_values(|x: int| period_of(x)).push(pview(p)));
            }
            insert_period(&mut periods, p, Ghost(starts.map_values(|x: int| period_of(x))));
            proof {
                assert(backward_starts(a0i, rr).take(k + 1) =~= backward_starts(a0i, rr).take(k).push(cur as int));
                let old_starts = starts;
                starts = starts.push(cur as int);
                assert forall|q: int| #![trigger starts[q]] 0 <= q < starts.len() implies {
                    &&& valid_day(starts[q])
                    &&& valid_day(starts[q] + 13)
                    &&& date_from_str(date_text(starts[q])) == Some(starts[q] as i32)
                    &&& date_from_str(date_text(starts[q] + 13)) == Some((starts[q] + 13) as i32)
                } by {
                    if q < old_starts.len() {
                        assert(starts[q] == old_starts[q]);
                    }
                }
                k = k + 1;
            }
            cur = cur - 14;
        }
        proof {
            if k < bc {
                let x = a0i - 14 - (rr - 365);
                assert(x >= 0);
                assert(k <= x / 14);
                assert(14 * k <= x) by (nonlinear_arith)
                    requires k <= x / 14, x >= 0;
            }
            assert(k == bc);
            assert(backward_starts(a0i, rr).take(k) =~= backward_starts(a0i, rr));
            assert(segments(ds@, rr, 0) =~= Seq::<int>::empty());
            assert(starts =~= backward_starts(a0i, rr) + segments(ds@, rr, 0));
        }
        let mut i: usize = 0;
        while i < m
            invariant
                m == ds@.len(),
                m > 0,
                i <= m,
                days_increasing(ds@),
                forall|j: int| 0 <= j < ds@.len() ==> valid_day(#[trigger] ds@[j] as int),
                valid_day(rr + 378),
                rr == rd as int,
                a0i == ds@[0] as int,
                starts == backward_starts(a0i, rr) + segments(ds@, rr, i as int),
                starts_round_trip(starts),
                sorted_unique_periods(periods@, starts.map_values(|x: int| period_of(x))),
            decreases m - i,
        {
            let a = ds[i];
            assert(valid_day(ds@[i as int] as int));
            let lim: i64 = if i + 1 < m && ds[i + 1] - 1 < rd as i64 + 365 {
                ds[i + 1] - 1
            } else {
                rd as i64 + 365
            };
            assert(lim as int == segment_limit(ds@, i as int, rr));
            let ghost mid = starts;
            let ghost st = steps_upto(a as int, lim as int);
            let mut cur: i64 = a;
            let ghost mut k: int = 0;
            while cur <= lim
                invariant
                    valid_day(a as int),
                    valid_day(rr + 378),
                    lim <= rr + 365,
                    st == steps_upto(a as int, lim as int),
                    0 <= k <= st,
                    cur == a + 14 * k,
                    starts == mid + segment_starts(a as int, lim as int).take(k),
                    starts_round_trip(starts),
                    sorted_unique_periods(periods@, starts.map_values(|x: int| period_of(x))),
                decreases lim - cur + 14,
            {
                proof {
                    let x = lim - a;
                    assert(14 * k <= x);
                    assert(k <= x / 14) by (nonlinear_arith)
                        requires 14 * k <= x, k >= 0;
                }
                let p = make_period(cur);
                proof {
                    assert((starts.push(cur as int)).map_values(|x: int| period_of(x))
                        =~= starts.map_values(|x: int| period_of(x)).push(pview(p)));
                }
                insert_period(&mut periods, p, Ghost(starts.map_values(|x: int| period_of(x))));
                proof {
                    assert(segment_starts(a as int, lim as int).take(k + 1)
                        =~= segment_starts(a as int, lim as int).take(k).push(cur as int));
                    let old_starts = starts;
                    starts = starts.push(cur as int);
                    assert forall|q: int| #![trigger starts[q]] 0 <= q < starts.len() implies {
                        &&& valid_day(starts[q])
                        &&& valid_day(starts[q] + 13)
                        &&& date_from_str(date_text(starts[q])) == Some(starts[q] as i32)
                        &&& date_from_str(date_text(starts[q] + 13)) == Some((starts[q] + 13) as i32)
                    } by {
                        if q < old_starts.len() {
                            assert(starts[q] == old_starts[q]);
                        }
                    }
                    k = k + 1;
                }
                cur = cur + 14;
            }
            proof {
                if k < st {
                    let x = lim - a;
                    assert(x >= 0);
                    assert(k <= x / 14);
                    assert(14 * k <= x) by (nonlinear_arith)
                        requires k <= x / 14, x >= 0;
                }
                assert(k == st);
                assert(segment_starts(a as int, lim as int).take(k) =~= segment_starts(a as int, lim as int));
                assert(segments(ds@, rr, i + 1) == segments(ds@, rr, i as int) + segment_starts(
                    ds@[i as int] as int,
                    segment_limit(ds@, i as int, rr),
                ));
                assert(starts =~= backward_starts(a0i, rr) + segments(ds@, rr, i + 1));
            }
            i = i + 1;
        }
        proof {
            assert forall|s: int| starts.contains(s) <==> period_start(anchors@, rr, s) by {
                lemma_plan_starts(anchors@, ds@, rr, s);
            }
            lemma_periods_of_starts(anchors@, rr, periods@, starts);
            assert forall|j: int| #![trigger periods@[j]] 0 <= j < periods@.len() implies spans_fourteen_days(periods@[j]) by {
                assert(listed_period(anchors@, rr, periods@[j]));
            }
            if has_dated_anchor(anchors@) {
                assert forall|d: int| rd - 352 <= d <= rd + 365 implies #[trigger] covers_day(periods@, d) by {
                    let s = lemma_cover_start(anchors@, ds@, rr, d);
                    assert(has_period(periods@, s));
                    let j = choose|j: int| 0 <= j < periods@.len() && pview(#[trigger] periods@[j]) == period_of(s);
                }
            }
        }
        periods
    }

    /// `compute_pay_periods` where its dates stay among representable ones;
    /// `None` where they would leave them (there `compute_pay_periods` has no
    /// result).
    pub fn try_compute_pay_periods(anchors: &[PayPeriodAnchor], reference_date: &str) -> (r: Option<Vec<PayPeriodRange>>)
        ensures
            r is Some <==> (has_dated_anchor(anchors@) ==> pay_periods_computable(reference_date@)),
            r matches Some(v) ==> pay_periods_result(anchors@, reference_date@, v@),
    {
        if let Some(rd) = parse_date(reference_date) {
            if (rd as i64) - 365 < FIRST_DAY as i64 || (rd as i64) + 378 > LAST_DAY as i64 {
                let n = anchors.len();
                let mut i: usize = 0;
                while i < n
                    invariant
                        n == anchors@.len(),
                        i <= n,
                        forall|k: int| 0 <= k < i ==> (#[trigger] date_from_str(anchors@[k].start_date@)) is None,
                        !pay_periods_computable(reference_date@),
                    decreases n - i,
                {
                    if parse_date(anchors[i].start_date.as_str()).is_some() {
                        assert((date_from_str(anchors@[i as int].start_date@)) is Some);
                        assert(has_dated_anchor(anchors@));
                        return None;
                    }
                    i = i + 1;
                }
            }
        }
        Some(Self::compute_pay_periods(anchors, reference_date))
    }
}


/// Some anchor of `anchors` has the start-date text `t`.
pub open spec fn dated_in(anchors: Seq<PayPeriodAnchor>, t: Seq<char>) -> bool {
    exists|j: int| 0 <= j < anchors.len() && (#[trigger] anchors[j]).start_date@ == t
}

/// Two anchor lists have the same start-date texts, in any order and
/// repeated any number of times.
pub open spec fn same_anchor_dates(a1: Seq<PayPeriodAnchor>, a2: Seq<PayPeriodAnchor>) -> bool {
    &&& forall|i: int| 0 <= i < a1.len() ==> dated_in(a2, (#[trigger] a1[i]).start_date@)
    &&& forall|j: int| 0 <= j < a2.len() ==> dated_in(a1, (#[trigger] a2[j]).start_date@)
}

/// Some period of `res` is `p`'s period.
spec fn period_in(res: Seq<PayPeriodRange>, p: PayPeriodRange) -> bool {
    exists|j: int| 0 <= j < res.len() && pview(#[trigger] res[j]) == pview(p)
}

proof fn lemma_anchor_day_transfer(a1: Seq<PayPeriodAnchor>, a2: Seq<PayPeriodAnchor>, x: int)
    requires
        same_anchor_dates(a1, a2),
        anchor_day(a1, x),
    ensures
        anchor_day(a2, x),
{
    let i = choose|i: int|
        0 <= i < a1.len() && (#[trigger] date_from_str(a1[i].start_date@)) is Some
            && date_from_str(a1[i].start_date@).unwrap() as int == x;
    assert(dated_in(a2, a1[i].start_date@));
    let j = choose|j: int| 0 <= j < a2.len() && (#[trigger] a2[j]).start_date@ == a1[i].start_date@;
    assert(date_from_str(a2[j].start_date@) == date_from_str(a1[i].start_date@));
}

proof fn lemma_period_start_transfer(a1: Seq<PayPeriodAnchor>, a2: Seq<PayPeriodAnchor>, r: int, s: int)
    requires
        same_anchor_dates(a1, a2),
        period_start(a1, r, s),
    ensures
        period_start(a2, r, s),
{
    let (a, k) = choose|a: int, k: int| #[trigger] cadence_start(a1, r, a, k, s);
    assert(same_anchor_dates(a2, a1));
    lemma_anchor_day_transfer(a1, a2, a);
    assert forall|b: int| #[trigger] anchor_day(a2, b) implies anchor_day(a1, b) by {
        lemma_anchor_day_transfer(a2, a1, b);
    }
    assert(cadence_start(a2, r, a, k, s));
}

/// Two lists of periods with strictly increasing start dates and the same
/// periods are the same list.
proof fn lemma_same_sorted_periods(v1: Seq<PayPeriodRange>, v2: Seq<PayPeriodRange>)
    requires
        starts_strictly_increasing(v1),
        starts_strictly_increasing(v2),
        forall|i: int| 0 <= i < v1.len() ==> period_in(v2, #[trigger] v1[i]),
        forall|j: int| 0 <= j < v2.len() ==> period_in(v1, #[trigger] v2[j]),
    ensures
        v1.len() == v2.len(),
        forall|i: int| 0 <= i < v1.len() ==> pview(#[trigger] v1[i]) == pview(v2[i]),
    decreases v1.len(),
{
    reveal(starts_strictly_increasing);
    if v1.len() == 0 {
        if v2.len() > 0 {
            assert(period_in(v1, v2[0]));
        }
    } else {
        assert(period_in(v2, v1[0]));
        let j0 = choose|j: int| 0 <= j < v2.len() && pview(#[trigger] v2[j]) == pview(v1[0]);
        assert(period_in(v1, v2[0]));
        let i0 = choose|i: int| 0 <= i < v1.len() && pview(#[trigger] v1[i]) == pview(v2[0]);
        if j0 > 0 {
            assert(chars_lt(v2[0].start_date@, v2[j0].start_date@));
            if i0 > 0 {
                assert(chars_lt(v1[0].start_date@, v1[i0].start_date@));
                lemma_chars_lt_total(v1[0].start_date@, v2[0].start_date@);
            } else {
                lemma_chars_lt_irreflexive(v1[0].start_date@);
            }
        }
        let t1 = v1.drop_first();
        let t2 = v2.drop_first();
        assert forall|i: int| 0 <= i < t1.len() implies period_in(t2, #[trigger] t1[i]) by {
            assert(t1[i] == v1[i + 1]);
            assert(period_in(v2, v1[i + 1]));
            let j = choose|j: int| 0 <= j < v2.len() && pview(#[trigger] v2[j]) == pview(v1[i + 1]);
            if j == 0 {
                assert(chars_lt(v1[0].start_date@, v1[i + 1].start_date@));
                lemma_chars_lt_irreflexive(v1[0].start_date@);
            }
            assert(t2[j - 1] == v2[j]);
        }
        assert forall|j: int| 0 <= j < t2.len() implies period_in(t1, #[trigger] t2[j]) by {
            assert(t2[j] == v2[j + 1]);
            assert(period_in(v1, v2[j + 1]));
            let i = choose|i: int| 0 <= i < v1.len() && pview(#[trigger] v1[i]) == pview(v2[j + 1]);
            if i == 0 {
                assert(chars_lt(v2[0].start_date@, v2[j + 1].start_date@));
                lemma_chars_lt_irreflexive(v2[0].start_date@);
            }
            assert(t1[i - 1] == v1[i]);
        }
        assert(starts_strictly_increasing(t1)) by {
            assert forall|a: int, b: int| 0 <= a < b < t1.len() implies chars_lt(
                #[trigger] t1[a].start_date@,
                #[trigger] t1[b].start_date@,
            ) by {
                assert(t1[a] == v1[a + 1] && t1[b] == v1[b + 1]);
            }
        }
        assert(starts_strictly_increasing(t2)) by {
            assert forall|a: int, b: int| 0 <= a < b < t2.len() implies chars_lt(
                #[trigger] t2[a].start_date@,
                #[trigger] t2[b].start_date@,
            ) by {
                assert(t2[a] == v2[a + 1] && t2[b] == v2[b + 1]);
            }
        }
        lemma_same_sorted_periods(t1, t2);
        assert forall|i: int| 0 <= i < v1.len() implies pview(#[trigger] v1[i]) == pview(v2[i]) by {
            if i > 0 {
                assert(t1[i - 1] == v1[i] && t2[i - 1] == v2[i]);
            }
        }
    }
}

/// Each period of `res1` (listed for `a1`) is among `res2`, which has a
/// period for every period start of `a2`, when the anchors have the same
/// dates.
proof fn lemma_periods_in(
    a1: Seq<PayPeriodAnchor>,
    a2: Seq<PayPeriodAnchor>,
    r: int,
    res1: Seq<PayPeriodRange>,
    res2: Seq<PayPeriodRange>,
)
    requires
        same_anchor_dates(a1, a2),
        forall|j: int| 0 <= j < res1.len() ==> listed_period(a1, r, #[trigger] res1[j]),
        forall|s: int| #[trigger] period_start(a2, r, s) ==> has_period(res2, s),
    ensures
        forall|i: int| 0 <= i < res1.len() ==> period_in(res2, #[trigger] res1[i]),
{
    assert forall|i: int| 0 <= i < res1.len() implies period_in(res2, #[trigger] res1[i]) by {
        assert(listed_period(a1, r, res1[i]));
        let s = choose|s: int| period_start(a1, r, s) && #[trigger] spans_fourteen_days_from(res1[i], s);
        lemma_period_start_transfer(a1, a2, r, s);
        assert(has_period(res2, s));
    }
}

/// The pay periods depend on the anchors only through their start dates:
/// reordering or repeating anchors (or changing their ids) gives the same
/// periods.
pub proof fn lemma_pay_periods_anchor_order(
    a1: Seq<PayPeriodAnchor>,
    a2: Seq<PayPeriodAnchor>,
    reference: Seq<char>,
    res1: Seq<PayPeriodRange>,
    res2: Seq<PayPeriodRange>,
)
    requires
        same_anchor_dates(a1, a2),
        pay_periods_result(a1, reference, res1),
        pay_periods_result(a2, reference, res2),
    ensures
        res1.len() == res2.len(),
        forall|i: int| 0 <= i < res1.len() ==> pview(#[trigger] res1[i]) == pview(res2[i]),
{
    match date_from_str(reference) {
        None => {},
        Some(rd) => {
            let r = rd as int;
            assert(same_anchor_dates(a2, a1));
            lemma_periods_in(a1, a2, r, res1, res2);
            lemma_periods_in(a2, a1, r, res2, res1);
            lemma_same_sorted_periods(res1, res2);
        },
    }
}

/// Whether pay period `p` contains the date `date`, comparing `YYYY-MM-DD`
/// texts: `start_date <= date <= end_date`.
pub open spec fn period_contains(p: PayPeriodRange, date: Seq<char>) -> bool {
    (chars_lt(p.start_date@, date) || p.start_date@ == date) && (chars_lt(date, p.end_date@) || date == p.end_date@)
}

/// The index of the first period containing `date`, if any.
pub open spec fn first_containing(periods: Seq<PayPeriodRange>, date: Seq<char>) -> Option<int>
    decreases periods.len(),
{
    if periods.len() == 0 {
        None
    } else {
        match first_containing(periods.drop_last(), date) {
            Some(k) => Some(k),
            None => if period_contains(periods.last(), date) {
                Some(periods.len() - 1)
            } else {
                None
            },
        }
    }
}

/// The period the selection starts from: the first containing `date`, else
/// the last.
pub open spec fn base_period(periods: Seq<PayPeriodRange>, date: Seq<char>) -> int {
    match first_containing(periods, date) {
        Some(k) => k,
        None => periods.len() - 1,
    }
}

/// The first containing period is the one of lowest index that contains the
/// date; without one, no period contains it. The base period lies within the
/// list when the list is not empty.
pub proof fn lemma_first_containing(periods: Seq<PayPeriodRange>, date: Seq<char>)
    ensures
        match first_containing(periods, date) {
            Some(k) => 0 <= k < periods.len() && period_contains(periods[k], date) && forall|j: int|
                0 <= j < k ==> !period_contains(#[trigger] periods[j], date),
            None => forall|j: int| 0 <= j < periods.len() ==> !period_contains(#[trigger] periods[j], date),
        },
        periods.len() > 0 ==> 0 <= base_period(periods, date) < periods.len(),
    decreases periods.len(),
{
    if periods.len() > 0 {
        let rest = periods.drop_last();
        lemma_first_containing(rest, date);
        match first_containing(rest, date) {
            Some(k) => {
                assert(periods[k] == rest[k]);
                assert forall|j: int| 0 <= j < k implies !period_contains(#[trigger] periods[j], date) by {
                    assert(periods[j] == rest[j]);
                }
            },
            None => {
                assert forall|j: int| 0 <= j < periods.len() - 1 implies !period_contains(#[trigger] periods[j], date) by {
                    assert(periods[j] == rest[j]);
                }
            },
        }
    }
}

/// The period a date selects is the first whose start date is on or before
/// the date and whose end date is on or after it, both ends included: when
/// period `k` is the first such, the selection starts from `k`.
pub proof fn lemma_base_period_first_inclusive(periods: Seq<PayPeriodRange>, date: Seq<char>, k: int)
    requires
        0 <= k < periods.len(),
        chars_lt(periods[k].start_date@, date) || periods[k].start_date@ == date,
        chars_lt(date, periods[k].end_date@) || date == periods[k].end_date@,
        forall|j: int|
            0 <= j < k ==> !((chars_lt((#[trigger] periods[j]).start_date@, date) || periods[j].start_date@ == date)
                && (chars_lt(date, periods[j].end_date@) || date == periods[j].end_date@)),
    ensures
        base_period(periods, date) == k,
{
    lemma_first_containing(periods, date);
    match first_containing(periods, date) {
        Some(f) => {
            if f < k {
                assert(!((chars_lt(periods[f].start_date@, date) || periods[f].start_date@ == date)
                    && (chars_lt(date, periods[f].end_date@) || date == periods[f].end_date@)));
            } else if f > k {
                assert(!period_contains(periods[k], date));
            }
        },
        None => {
            assert(!period_contains(periods[k], date));
        },
    }
}

/// A date that no period holds (start date on or before it and end date on or
/// after it) selects from the last period.
pub proof fn lemma_base_period_none_inclusive(periods: Seq<PayPeriodRange>, date: Seq<char>)
    requires
        periods.len() > 0,
        forall|j: int|
            0 <= j < periods.len() ==> !((chars_lt((#[trigger] periods[j]).start_date@, date) || periods[j].start_date@
                == date) && (chars_lt(date, periods[j].end_date@) || date == periods[j].end_date@)),
    ensures
        base_period(periods, date) == periods.len() - 1,
{
    lemma_first_containing(periods, date);
    if let Some(f) = first_containing(periods, date) {
        assert(period_contains(periods[f], date));
        assert(!((chars_lt(periods[f].start_date@, date) || periods[f].start_date@ == date)
            && (chars_lt(date, periods[f].end_date@) || date == periods[f].end_date@)));
    }
}

/// `v` clamped to `lo..=hi`.
pub open spec fn clamped(v: int, lo: int, hi: int) -> int {
    if v < lo {
        lo
    } else if v > hi {
        hi
    } else {
        v
    }
}

/// Clamping keeps a value inside the bounds, leaves a value already inside
/// unchanged, and moves one outside to the nearer bound.
pub proof fn lemma_clamped(v: int, lo: int, hi: int)
    requires
        lo <= hi,
    ensures
        lo <= clamped(v, lo, hi) <= hi,
        lo <= v <= hi ==> clamped(v, lo, hi) == v,
        v < lo ==> clamped(v, lo, hi) == lo,
        v > hi ==> clamped(v, lo, hi) == hi,
{
}

/// Chooses the pay period to show for `date`, moved `offset` periods from
/// the period containing `date` (or from the last period when none does) and
/// kept within the list. Returns the chosen index and whether there is a
/// period before and after it; `None` when there are no periods.
pub fn select_pay_period(periods: &[PayPeriodRange], date: &str, offset: i32) -> (r: Option<(usize, bool, bool)>)
    requires
        periods@.len() <= i32::MAX,
        periods@.len() > 0 ==> i32::MIN <= base_period(periods@, date@) + offset <= i32::MAX,
    ensures
        periods@.len() == 0 ==> r is None,
        periods@.len() > 0 ==> (r matches Some((t, can_prev, can_next)) && {
            &&& t == clamped(base_period(periods@, date@) + offset, 0, periods@.len() - 1)
            &&& can_prev == (t > 0)
            &&& can_next == (t < periods@.len() - 1)
        }),
{
    let n = periods.len();
    if n == 0 {
        return None;
    }
    let mut i: usize = 0;
    let mut found: Option<usize> = None;
    while i < n && found.is_none()
        invariant
            n == periods@.len(),
            i <= n,
            found matches Some(k) ==> first_containing(periods@.take(i as int), date@) == Some(k as int) && k < n,
            found is None ==> first_containing(periods@.take(i as int), date@) is None,
        decreases n - i,
    {
        proof {
            assert(periods@.take(i + 1).drop_last() =~= periods@.take(i as int));
        }
        let p = &periods[i];
        let after_start = str_less(p.start_date.as_str(), date) || str_eq(p.start_date.as_str(), date);
        let before_end = str_less(date, p.end_date.as_str()) || str_eq(date, p.end_date.as_str());
        if after_start && before_end {
            found = Some(i);
        }
        i = i + 1;
    }
    proof {
        if found is Some {
            lemma_first_containing_prefix(periods@, date@, i as int);
        } else {
            assert(periods@.take(n as int) =~= periods@);
        }
    }
    let base: usize = match found {
        Some(k) => k,
        None => n - 1,
    };
    let last = (n - 1) as i32;
    let moved = base as i32 + offset;
    let target: i32 = if moved < 0 {
        0
    } else if moved > last {
        last
    } else {
        moved
    };
    let t = target as usize;
    Some((t, t > 0, t < n - 1))
}

/// Once a prefix has a first containing period, longer prefixes (and the
/// whole list) have the same.
proof fn lemma_first_containing_prefix(periods: Seq<PayPeriodRange>, date: Seq<char>, i: int)
    requires
        0 <= i <= periods.len(),
        first_containing(periods.take(i), date) is Some,
    ensures
        first_containing(periods, date) == first_containing(periods.take(i), date),
    decreases periods.len() - i,
{
    if i < periods.len() {
        assert(periods.take(i + 1).drop_last() =~= periods.take(i));
        lemma_first_containing_prefix(periods, date, i + 1);
    } else {
        assert(periods.take(i) =~= periods);
    }
}

} // verus!
