//! Threshold (`t:`) values: an absolute date, or an offset in days, weeks,
//! months or years from the task's due date (or, without one, its creation
//! date), resolved to a date.
//!
//! An offset is an optional sign (`+` or `-`), one or more decimal digits and
//! a unit: `d` (days), `w` (weeks of seven days), `m` (months) or `y` (years
//! of twelve months), such as `-3d` or `2w`. Months and years move the month
//! and keep the day, clamped to the last day of the month it lands in. A
//! value that is neither form, an offset with no anchor date, and a result
//! outside the years 0000 to 9999 do not resolve.
use vstd::prelude::*;

use crate::dates::{
    date_day, date_from_day, date_month, date_of_day, date_parts, date_string, date_text, date_year,
    day_count, day_count_of, day_number, day_number_of, days_in_month, digit_value, is_calendar_date,
    is_calendar_date_text, lemma_date_of_day, lemma_date_of_own_day, lemma_date_text_reads_back, lemma_day_number_range,
    month_length, valid_date,
};
use crate::text::chars_of;
use crate::todo::is_digit;

verus! {

/// Offsets larger than this land outside the years 0000 to 9999 whatever
/// the anchor and unit.
pub const OFFSET_CAP: u64 = 4000000;

/// The length of an offset's sign: 1 when it starts with `+` or `-`.
pub open spec fn sign_len(s: Seq<char>) -> int {
    if s.len() > 0 && (s[0] == '+' || s[0] == '-') {
        1
    } else {
        0
    }
}

/// The units of an offset: days, weeks, months, years.
pub open spec fn is_unit(c: char) -> bool {
    c == 'd' || c == 'w' || c == 'm' || c == 'y'
}

/// The digits of an offset, between its sign and its unit.
pub open spec fn offset_digits(s: Seq<char>) -> Seq<char> {
    s.subrange(sign_len(s), s.len() - 1)
}

/// `s` is an offset: optional sign, one or more digits, a unit.
pub open spec fn is_offset_text(s: Seq<char>) -> bool {
    &&& s.len() >= sign_len(s) + 2
    &&& is_unit(s.last())
    &&& forall|i: int| 0 <= i < offset_digits(s).len() ==> is_digit(#[trigger] offset_digits(s)[i])
}

/// The value of a string of decimal digits.
pub open spec fn digits_value(s: Seq<char>) -> int
    decreases s.len(),
{
    if s.len() == 0 {
        0
    } else {
        digits_value(s.drop_last()) * 10 + digit_value(s.last())
    }
}

/// The signed number of units of an offset.
pub open spec fn offset_amount(s: Seq<char>) -> int {
    if s[0] == '-' {
        -digits_value(offset_digits(s))
    } else {
        digits_value(offset_digits(s))
    }
}

/// The date `delta` days after `y-m-d`, written `YYYY-MM-DD`, if it falls in
/// the years 0000 to 9999.
pub open spec fn add_days(y: int, m: int, d: int, delta: int) -> Option<Seq<char>> {
    let n = day_number(y, m, d) + delta;
    if 0 <= n < day_count() {
        let r = date_of_day(n);
        Some(date_text(r.0, r.1, r.2))
    } else {
        None
    }
}

/// The date `delta` months after `y-m-d`, the day clamped to the length of
/// the month it lands in, written `YYYY-MM-DD`, if it falls in the years
/// 0000 to 9999.
pub open spec fn add_months(y: int, m: int, d: int, delta: int) -> Option<Seq<char>> {
    let t = y * 12 + (m - 1) + delta;
    if 0 <= t < 120000 {
        let y2 = t / 12;
        let m2 = t % 12 + 1;
        let d2 = if d <= days_in_month(y2, m2) {
            d
        } else {
            days_in_month(y2, m2)
        };
        Some(date_text(y2, m2, d2))
    } else {
        None
    }
}

/// The calendar date `anchor` moved by the offset `off`.
pub open spec fn shift_date(anchor: Seq<char>, off: Seq<char>) -> Option<Seq<char>> {
    let y = date_year(anchor);
    let m = date_month(anchor);
    let d = date_day(anchor);
    let k = offset_amount(off);
    let u = off.last();
    if u == 'd' {
        add_days(y, m, d, k)
    } else if u == 'w' {
        add_days(y, m, d, 7 * k)
    } else if u == 'm' {
        add_months(y, m, d, k)
    } else {
        add_months(y, m, d, 12 * k)
    }
}

/// The date an offset is anchored on: the due date when it is a calendar
/// date, else the creation date when it is one.
pub open spec fn threshold_anchor(due: Option<Seq<char>>, created: Option<Seq<char>>) -> Option<Seq<char>> {
    if due matches Some(d) && is_calendar_date(d) {
        due
    } else if created matches Some(c) && is_calendar_date(c) {
        created
    } else {
        None
    }
}

/// The date a threshold value resolves to: itself when it is a calendar
/// date; an offset moves its anchor; anything else does not resolve.
pub open spec fn resolved_threshold(th: Seq<char>, due: Option<Seq<char>>, created: Option<Seq<char>>) -> Option<
    Seq<char>,
> {
    if is_calendar_date(th) {
        Some(th)
    } else if is_offset_text(th) {
        match threshold_anchor(due, created) {
            Some(a) => shift_date(a, th),
            None => None,
        }
    } else {
        None
    }
}

/// An offset amount, capped just above `OFFSET_CAP`.
pub open spec fn capped(n: int) -> int {
    if n <= OFFSET_CAP {
        n
    } else {
        OFFSET_CAP + 1
    }
}

/// Appending a digit never lowers the value.
proof fn lemma_digits_value_grows(s: Seq<char>, c: char)
    requires
        forall|i: int| 0 <= i < s.len() ==> is_digit(#[trigger] s[i]),
        is_digit(c),
    ensures
        digits_value(s.push(c)) == digits_value(s) * 10 + digit_value(c),
        digits_value(s) >= 0,
    decreases s.len(),
{
    assert(s.push(c).drop_last() =~= s);
    if s.len() > 0 {
        lemma_digits_value_grows(s.drop_last(), s.last());
        assert(s.drop_last().push(s.last()) =~= s);
    }
}

/// Reads an offset: its sign (`true` for `-`), its amount capped just above
/// `OFFSET_CAP`, and its unit; `None` when `s` is no offset.
fn parse_offset(s: &str) -> (r: Option<(bool, u64, char)>)
    ensures
        r is Some <==> is_offset_text(s@),
        r matches Some((neg, c, u)) ==> {
            &&& neg == (s@[0] == '-')
            &&& c == capped(digits_value(offset_digits(s@)))
            &&& u == s@.last()
        },
{
    let cs = chars_of(s);
    let n = cs.len();
    let sl: usize = if n > 0 && (cs[0] == '+' || cs[0] == '-') {
        1
    } else {
        0
    };
    if n < sl + 2 {
        return None;
    }
    let u = cs[n - 1];
    assert(s@.last() == u);
    if !(u == 'd' || u == 'w' || u == 'm' || u == 'y') {
        return None;
    }
    let ghost digits = offset_digits(s@);
    let mut acc: u64 = 0;
    let mut i: usize = sl;
    assert(cs@.subrange(sl as int, sl as int) =~= Seq::<char>::empty());
    while i < n - 1
        invariant
            cs@ == s@,
            n == cs@.len(),
            sl == sign_len(s@),
            sl + 2 <= n,
            sl <= i <= n - 1,
            digits == cs@.subrange(sl as int, n - 1),
            forall|j: int| sl <= j < i ==> is_digit(#[trigger] cs@[j]),
            acc == capped(digits_value(cs@.subrange(sl as int, i as int))),
            digits_value(cs@.subrange(sl as int, i as int)) >= 0,
        decreases n - 1 - i,
    {
        let c = cs[i];
        if !('0' <= c && c <= '9') {
            proof {
                assert(digits[i - sl] == c);
                assert(!is_digit(digits[i - sl]));
                assert(digits == offset_digits(s@));
                assert(!is_digit(offset_digits(s@)[i - sl]));
            }
            return None;
        }
        let ghost prev = cs@.subrange(sl as int, i as int);
        proof {
            assert(cs@.subrange(sl as int, i + 1) =~= prev.push(c));
            assert forall|j: int| 0 <= j < prev.len() implies is_digit(#[trigger] prev[j]) by {
                assert(prev[j] == cs@[sl + j]);
            }
            lemma_digits_value_grows(prev, c);
        }
        let dv = (c as u64) - ('0' as u64);
        if acc <= OFFSET_CAP {
            acc = acc * 10 + dv;
            if acc > OFFSET_CAP {
                acc = OFFSET_CAP + 1;
            }
        }
        i = i + 1;
    }
    proof {
        assert forall|j: int| 0 <= j < digits.len() implies is_digit(#[trigger] digits[j]) by {
            assert(digits[j] == cs@[sl + j]);
        }
    }
    Some((cs[0] == '-', acc, u))
}

/// `add_days` on a valid date, for a change of at most `7 * (OFFSET_CAP + 1)`
/// days.
fn add_days_to(y: u32, m: u32, d: u32, delta: i64) -> (r: Option<String>)
    requires
        valid_date(y as int, m as int, d as int),
        -7 * (OFFSET_CAP + 1) <= delta <= 7 * (OFFSET_CAP + 1),
    ensures
        opt_string_view(r) == add_days(y as int, m as int, d as int, delta as int),
{
    proof {
        lemma_day_number_range(y as int, m as int, d as int);
    }
    let dn = day_number_of(y, m, d) as i64;
    let n = dn + delta;
    let count = day_count_of() as i64;
    if n < 0 || n >= count {
        return None;
    }
    let (y2, m2, d2) = date_from_day(n as u32);
    Some(date_string(y2, m2, d2))
}

/// `add_months` on a valid date, for a change of at most
/// `12 * (OFFSET_CAP + 1)` months.
fn add_months_to(y: u32, m: u32, d: u32, delta: i64) -> (r: Option<String>)
    requires
        valid_date(y as int, m as int, d as int),
        -12 * (OFFSET_CAP + 1) <= delta <= 12 * (OFFSET_CAP + 1),
    ensures
        opt_string_view(r) == add_months(y as int, m as int, d as int, delta as int),
{
    let t = (y as i64) * 12 + (m as i64) - 1 + delta;
    if t < 0 || t >= 120000 {
        return None;
    }
    let y2 = (t / 12) as u32;
    let m2 = (t % 12 + 1) as u32;
    let len = month_length(y2, m2);
    let d2 = if d <= len {
        d
    } else {
        len
    };
    Some(date_string(y2, m2, d2))
}

/// The view of an optional string.
pub open spec fn opt_string_view(o: Option<String>) -> Option<Seq<char>> {
    match o {
        Some(s) => Some(s@),
        None => None,
    }
}

/// The view of an optional string slice.
pub open spec fn opt_str_view(o: Option<&str>) -> Option<Seq<char>> {
    match o {
        Some(s) => Some(s@),
        None => None,
    }
}

/// The calendar date `anchor` moved by the offset `off`.
fn shift_anchor(anchor: &str, off: &str) -> (r: Option<String>)
    requires
        is_calendar_date(anchor@),
        is_offset_text(off@),
    ensures
        opt_string_view(r) == shift_date(anchor@, off@),
{
    let (y, m, d) = date_parts(anchor);
    let (neg, c, u) = match parse_offset(off) {
        Some(p) => p,
        None => {
            return None;
        },
    };
    let ghost k = offset_amount(off@);
    proof {
        lemma_day_number_range(y as int, m as int, d as int);
        assert(digits_value(offset_digits(off@)) >= 0) by {
            let ds = offset_digits(off@);
            if ds.len() > 0 {
                assert forall|i: int| 0 <= i < ds.drop_last().len() implies is_digit(#[trigger] ds.drop_last()[i]) by {
                    assert(ds.drop_last()[i] == ds[i]);
                }
                lemma_digits_value_grows(ds.drop_last(), ds.last());
                assert(ds.drop_last().push(ds.last()) =~= ds);
            }
        }
    }
    if c > OFFSET_CAP {
        // Any anchor moved this far leaves the years 0000 to 9999.
        return None;
    }
    let amount: i64 = if neg {
        -(c as i64)
    } else {
        c as i64
    };
    assert(amount == k);
    if u == 'd' {
        add_days_to(y, m, d, amount)
    } else if u == 'w' {
        add_days_to(y, m, d, 7 * amount)
    } else if u == 'm' {
        add_months_to(y, m, d, amount)
    } else {
        add_months_to(y, m, d, 12 * amount)
    }
}

/// Resolves a threshold value `th` of a task with due date `due` and
/// creation date `created` to a date written `YYYY-MM-DD`.
pub fn resolve_threshold_value(th: &str, due: Option<&str>, created: Option<&str>) -> (r: Option<String>)
    ensures
        opt_string_view(r) == resolved_threshold(th@, opt_str_view(due), opt_str_view(created)),
{
    if is_calendar_date_text(th) {
        return Some(th.to_string());
    }
    if parse_offset(th).is_none() {
        return None;
    }
    let anchor = match due {
        Some(d) if is_calendar_date_text(d) => Some(d),
        _ => match created {
            Some(c) if is_calendar_date_text(c) => Some(c),
            _ => None,
        },
    };
    match anchor {
        Some(a) => shift_anchor(a, th),
        None => None,
    }
}

/// Moving a date by zero days keeps it.
pub proof fn law_zero_days_keep_the_date(y: int, m: int, d: int)
    requires
        valid_date(y, m, d),
    ensures
        add_days(y, m, d, 0) == Some(date_text(y, m, d)),
{
    lemma_date_of_own_day(y, m, d);
}

/// Moving a date by `k` days and then by `-k` days gives the date back,
/// whenever the first move stays within the years 0000 to 9999.
pub proof fn law_day_shifts_undo(y: int, m: int, d: int, k: int)
    requires
        valid_date(y, m, d),
        add_days(y, m, d, k) is Some,
    ensures
        ({
            let r = date_of_day(day_number(y, m, d) + k);
            &&& valid_date(r.0, r.1, r.2)
            &&& add_days(y, m, d, k) == Some(date_text(r.0, r.1, r.2))
            &&& add_days(r.0, r.1, r.2, -k) == Some(date_text(y, m, d))
        }),
{
    lemma_date_of_day(day_number(y, m, d) + k);
    lemma_date_of_own_day(y, m, d);
}

/// A shift by days lands on the day whose number is the anchor's plus the
/// shift: moves add up.
pub proof fn law_day_shifts_add_up(y: int, m: int, d: int, j: int, k: int)
    requires
        valid_date(y, m, d),
        add_days(y, m, d, j) is Some,
    ensures
        ({
            let r = date_of_day(day_number(y, m, d) + j);
            add_days(r.0, r.1, r.2, k) == add_days(y, m, d, j + k)
        }),
{
    lemma_date_of_day(day_number(y, m, d) + j);
}

/// An absolute date resolves to itself, whatever the anchors.
pub proof fn law_absolute_threshold_is_itself(th: Seq<char>, due: Option<Seq<char>>, created: Option<Seq<char>>)
    requires
        is_calendar_date(th),
    ensures
        resolved_threshold(th, due, created) == Some(th),
{
}

/// An offset with no calendar date to anchor it does not resolve.
pub proof fn law_offset_without_anchor_does_not_resolve(th: Seq<char>, due: Option<Seq<char>>, created: Option<Seq<char>>)
    requires
        !is_calendar_date(th),
        threshold_anchor(due, created) is None,
    ensures
        resolved_threshold(th, due, created) is None,
{
}

/// Whatever a threshold resolves to is a calendar date.
pub proof fn law_resolved_threshold_is_a_date(th: Seq<char>, due: Option<Seq<char>>, created: Option<Seq<char>>)
    ensures
        resolved_threshold(th, due, created) matches Some(r) ==> is_calendar_date(r),
{
    if !is_calendar_date(th) && is_offset_text(th) {
        if let Some(a) = threshold_anchor(due, created) {
            let y = date_year(a);
            let m = date_month(a);
            let d = date_day(a);
            let k = offset_amount(th);
            let u = th.last();
            if u == 'd' || u == 'w' {
                let delta = if u == 'd' {
                    k
                } else {
                    7 * k
                };
                let n = day_number(y, m, d) + delta;
                if 0 <= n < day_count() {
                    lemma_date_of_day(n);
                    let r = date_of_day(n);
                    lemma_date_text_reads_back(r.0, r.1, r.2);
                }
            } else {
                let delta = if u == 'm' {
                    k
                } else {
                    12 * k
                };
                let t = y * 12 + (m - 1) + delta;
                if 0 <= t < 120000 {
                    let y2 = t / 12;
                    let m2 = t % 12 + 1;
                    let d2 = if d <= days_in_month(y2, m2) {
                        d
                    } else {
                        days_in_month(y2, m2)
                    };
                    assert(valid_date(y2, m2, d2));
                    lemma_date_text_reads_back(y2, m2, d2);
                }
            }
        }
    }
}

/// An offset in days or weeks moves the anchor by that many days (a week
/// being seven), forward for no sign or `+`, backward for `-`: the result
/// is the calendar date whose day number is the anchor's plus the signed
/// count times the unit, and there is a result exactly when that day lies
/// in the years 0000 to 9999.
pub proof fn law_day_and_week_offsets_move_by_days(anchor: Seq<char>, off: Seq<char>)
    requires
        is_calendar_date(anchor),
        is_offset_text(off),
        off.last() == 'd' || off.last() == 'w',
    ensures
        ({
            let count = digits_value(off.subrange(sign_len(off), off.len() - 1));
            let signed = if off[0] == '-' {
                -count
            } else {
                count
            };
            let unit = if off.last() == 'd' {
                1int
            } else {
                7int
            };
            let from = day_number(date_year(anchor), date_month(anchor), date_day(anchor));
            let target = from + unit * signed;
            &&& (shift_date(anchor, off) is Some <==> 0 <= target < day_count())
            &&& shift_date(anchor, off) matches Some(r) ==> {
                &&& is_calendar_date(r)
                &&& day_number(date_year(r), date_month(r), date_day(r)) == target
                &&& (off[0] == '-' ==> day_number(date_year(r), date_month(r), date_day(r)) <= from)
                &&& (off[0] != '-' ==> day_number(date_year(r), date_month(r), date_day(r)) >= from)
            }
        }),
{
    let count = digits_value(off.subrange(sign_len(off), off.len() - 1));
    assert(count >= 0) by {
        let ds = offset_digits(off);
        if ds.len() > 0 {
            assert forall|i: int| 0 <= i < ds.drop_last().len() implies is_digit(#[trigger] ds.drop_last()[i]) by {
                assert(ds.drop_last()[i] == ds[i]);
            }
            lemma_digits_value_grows(ds.drop_last(), ds.last());
            assert(ds.drop_last().push(ds.last()) =~= ds);
        }
    }
    let y = date_year(anchor);
    let m = date_month(anchor);
    let d = date_day(anchor);
    let k = offset_amount(off);
    let delta = if off.last() == 'd' {
        k
    } else {
        7 * k
    };
    let n = day_number(y, m, d) + delta;
    if 0 <= n < day_count() {
        lemma_date_of_day(n);
        let r = date_of_day(n);
        lemma_date_text_reads_back(r.0, r.1, r.2);
    }
}

/// An offset in months or years moves the anchor's month by that many
/// months (a year being twelve), forward for no sign or `+`, backward for
/// `-`, and keeps its day, cut back to the last day of the month reached;
/// there is a result exactly when that month lies in the years 0000 to 9999.
pub proof fn law_month_and_year_offsets_move_by_months(anchor: Seq<char>, off: Seq<char>)
    requires
        is_calendar_date(anchor),
        is_offset_text(off),
        off.last() == 'm' || off.last() == 'y',
    ensures
        ({
            let count = digits_value(off.subrange(sign_len(off), off.len() - 1));
            let signed = if off[0] == '-' {
                -count
            } else {
                count
            };
            let unit = if off.last() == 'm' {
                1int
            } else {
                12int
            };
            let target = date_year(anchor) * 12 + date_month(anchor) - 1 + unit * signed;
            &&& (shift_date(anchor, off) is Some <==> 0 <= target < 120000)
            &&& shift_date(anchor, off) matches Some(r) ==> {
                &&& is_calendar_date(r)
                &&& date_year(r) * 12 + date_month(r) - 1 == target
                &&& date_day(r) <= date_day(anchor)
                &&& (date_day(r) == date_day(anchor) || date_day(r) == days_in_month(date_year(r), date_month(r)))
            }
        }),
{
    let y = date_year(anchor);
    let m = date_month(anchor);
    let d = date_day(anchor);
    let k = offset_amount(off);
    let delta = if off.last() == 'm' {
        k
    } else {
        12 * k
    };
    let t = y * 12 + (m - 1) + delta;
    if 0 <= t < 120000 {
        let y2 = t / 12;
        let m2 = t % 12 + 1;
        let d2 = if d <= days_in_month(y2, m2) {
            d
        } else {
            days_in_month(y2, m2)
        };
        assert(valid_date(y2, m2, d2));
        lemma_date_text_reads_back(y2, m2, d2);
    }
}

/// An offset is anchored on the due date when that is a calendar date, and
/// otherwise on the creation date when that is one.
pub proof fn law_anchor_prefers_the_due_date(due: Option<Seq<char>>, created: Option<Seq<char>>)
    ensures
        due matches Some(d) && is_calendar_date(d) ==> threshold_anchor(due, created) == due,
        created matches Some(c) && is_calendar_date(c) ==> (!(due matches Some(d) && is_calendar_date(d))
            ==> threshold_anchor(due, created) == created),
        threshold_anchor(due, created) matches Some(a) ==> is_calendar_date(a),
{
}

} // verus!
