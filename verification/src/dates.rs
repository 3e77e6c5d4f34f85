//! Calendar dates written `YYYY-MM-DD`, and day and month arithmetic on
//! them (years 0000 to 9999 of the proleptic Gregorian calendar).
use vstd::prelude::*;

use crate::text::chars_of;
use crate::todo::{is_date_shape, is_digit};
use vstd::string::StringExecFns;

verus! {

/// The value of a decimal digit.
pub open spec fn digit_value(c: char) -> int {
    (c as int) - ('0' as int)
}

/// The year of a `YYYY-MM-DD` shaped text.
pub open spec fn date_year(s: Seq<char>) -> int {
    1000 * digit_value(s[0]) + 100 * digit_value(s[1]) + 10 * digit_value(s[2]) + digit_value(s[3])
}

/// The month of a `YYYY-MM-DD` shaped text.
pub open spec fn date_month(s: Seq<char>) -> int {
    10 * digit_value(s[5]) + digit_value(s[6])
}

/// The day of a `YYYY-MM-DD` shaped text.
pub open spec fn date_day(s: Seq<char>) -> int {
    10 * digit_value(s[8]) + digit_value(s[9])
}

/// Gregorian leap years.
pub open spec fn is_leap_year(y: int) -> bool {
    y % 4 == 0 && (y % 100 != 0 || y % 400 == 0)
}

/// Days in month `m` (1..=12) of year `y`.
pub open spec fn days_in_month(y: int, m: int) -> int {
    if m == 2 {
        if is_leap_year(y) {
            29
        } else {
            28
        }
    } else if m == 4 || m == 6 || m == 9 || m == 11 {
        30
    } else {
        31
    }
}

/// A calendar date written `YYYY-MM-DD`.
pub open spec fn is_calendar_date(s: Seq<char>) -> bool {
    &&& is_date_shape(s)
    &&& 1 <= date_month(s) <= 12
    &&& 1 <= date_day(s) <= days_in_month(date_year(s), date_month(s))
}

/// Whether `s` is a calendar date written `YYYY-MM-DD`.
pub fn is_calendar_date_text(s: &str) -> (r: bool)
    ensures
        r == is_calendar_date(s@),
{
    let cs = chars_of(s);
    if cs.len() != 10 || cs[4] != '-' || cs[7] != '-' {
        return false;
    }
    let mut i: usize = 0;
    while i < 10
        invariant
            cs@ == s@,
            cs@.len() == 10,
            i <= 10,
            forall|j: int| 0 <= j < i && j != 4 && j != 7 ==> is_digit(#[trigger] cs@[j]),
        decreases 10 - i,
    {
        if i != 4 && i != 7 && !('0' <= cs[i] && cs[i] <= '9') {
            assert(!is_digit(cs@[i as int]));
            return false;
        }
        i = i + 1;
    }
    assert(is_date_shape(s@));
    let d0 = (cs[0] as u32) - ('0' as u32);
    let d1 = (cs[1] as u32) - ('0' as u32);
    let d2 = (cs[2] as u32) - ('0' as u32);
    let d3 = (cs[3] as u32) - ('0' as u32);
    let year = 1000 * d0 + 100 * d1 + 10 * d2 + d3;
    let month = 10 * ((cs[5] as u32) - ('0' as u32)) + ((cs[6] as u32) - ('0' as u32));
    let day = 10 * ((cs[8] as u32) - ('0' as u32)) + ((cs[9] as u32) - ('0' as u32));
    assert(year == date_year(s@));
    assert(month == date_month(s@));
    assert(day == date_day(s@));
    if month < 1 || month > 12 || day < 1 {
        return false;
    }
    let days = month_length(year, month);
    day <= days
}

/// Days in year `y`.
pub open spec fn year_len(y: int) -> int {
    if is_leap_year(y) {
        366
    } else {
        365
    }
}

/// Days from 0000-01-01 to the first day of year `y`.
pub open spec fn year_start(y: int) -> int
    decreases y,
{
    if y <= 0 {
        0
    } else {
        year_start(y - 1) + year_len(y - 1)
    }
}

/// Days from the first day of year `y` to the first day of month `m`.
pub open spec fn month_start(y: int, m: int) -> int
    decreases m,
{
    if m <= 1 {
        0
    } else {
        month_start(y, m - 1) + days_in_month(y, m - 1)
    }
}

/// Days from 0000-01-01 to the date.
pub open spec fn day_number(y: int, m: int, d: int) -> int {
    year_start(y) + month_start(y, m) + d - 1
}

/// A calendar date with a four-digit year.
pub open spec fn valid_date(y: int, m: int, d: int) -> bool {
    &&& 0 <= y <= 9999
    &&& 1 <= m <= 12
    &&& 1 <= d <= days_in_month(y, m)
}

/// The number of days from 0000-01-01 to 10000-01-01: day numbers of valid
/// dates lie below it.
pub open spec fn day_count() -> int {
    year_start(10000)
}

/// The date with day number `n` (one exists exactly when
/// `0 <= n < day_count()`, and it is unique).
pub open spec fn date_of_day(n: int) -> (int, int, int) {
    choose|y: int, m: int, d: int| valid_date(y, m, d) && day_number(y, m, d) == n
}

/// The decimal digit of `n` (0 to 9).
pub open spec fn digit_char(n: int) -> char {
    if n == 0 {
        '0'
    } else if n == 1 {
        '1'
    } else if n == 2 {
        '2'
    } else if n == 3 {
        '3'
    } else if n == 4 {
        '4'
    } else if n == 5 {
        '5'
    } else if n == 6 {
        '6'
    } else if n == 7 {
        '7'
    } else if n == 8 {
        '8'
    } else {
        '9'
    }
}

/// The date written `YYYY-MM-DD`.
pub open spec fn date_text(y: int, m: int, d: int) -> Seq<char> {
    seq![
        digit_char(y / 1000),
        digit_char(y / 100 % 10),
        digit_char(y / 10 % 10),
        digit_char(y % 10),
        '-',
        digit_char(m / 10),
        digit_char(m % 10),
        '-',
        digit_char(d / 10),
        digit_char(d % 10),
    ]
}

/// The months of a year add up to the year.
proof fn lemma_months_fill_year(y: int)
    ensures
        month_start(y, 13) == year_len(y),
{
    reveal_with_fuel(month_start, 13);
}

/// Later months start later: month `m1` ends no later than month `m2` starts.
proof fn lemma_month_start_grows(y: int, m1: int, m2: int)
    requires
        1 <= m1 < m2 <= 13,
    ensures
        month_start(y, m1) + days_in_month(y, m1) <= month_start(y, m2),
    decreases m2 - m1,
{
    if m1 + 1 < m2 {
        lemma_month_start_grows(y, m1 + 1, m2);
    }
}

/// Later years start later: year `y1` ends no later than year `y2` starts.
proof fn lemma_year_start_grows(y1: int, y2: int)
    requires
        0 <= y1 < y2,
    ensures
        year_start(y1) + year_len(y1) <= year_start(y2),
    decreases y2 - y1,
{
    if y1 + 1 < y2 {
        lemma_year_start_grows(y1 + 1, y2);
    }
}

/// Year starts grow by at most 366 days a year.
proof fn lemma_year_start_bound(y: int)
    requires
        0 <= y,
    ensures
        0 <= year_start(y) <= 366 * y,
    decreases y,
{
    if y > 0 {
        lemma_year_start_bound(y - 1);
    }
}

/// A valid date's day number lies within its year.
proof fn lemma_day_number_in_year(y: int, m: int, d: int)
    requires
        valid_date(y, m, d),
    ensures
        year_start(y) <= day_number(y, m, d) < year_start(y + 1),
        month_start(y, m) <= day_number(y, m, d) - year_start(y) < month_start(y, m) + days_in_month(y, m),
{
    lemma_months_fill_year(y);
    if m < 12 {
        lemma_month_start_grows(y, m, 13);
    }
    lemma_month_start_bound(y, m);
}

/// Month starts are not negative.
proof fn lemma_month_start_bound(y: int, m: int)
    requires
        1 <= m,
    ensures
        0 <= month_start(y, m) <= 31 * m,
    decreases m,
{
    if m > 1 {
        lemma_month_start_bound(y, m - 1);
    }
}

/// Different valid dates have different day numbers.
pub proof fn lemma_day_number_injective(y1: int, m1: int, d1: int, y2: int, m2: int, d2: int)
    requires
        valid_date(y1, m1, d1),
        valid_date(y2, m2, d2),
        day_number(y1, m1, d1) == day_number(y2, m2, d2),
    ensures
        y1 == y2 && m1 == m2 && d1 == d2,
{
    lemma_day_number_in_year(y1, m1, d1);
    lemma_day_number_in_year(y2, m2, d2);
    if y1 < y2 {
        lemma_year_start_grows(y1, y2);
    } else if y2 < y1 {
        lemma_year_start_grows(y2, y1);
    } else if m1 < m2 {
        lemma_month_start_grows(y1, m1, m2);
    } else if m2 < m1 {
        lemma_month_start_grows(y1, m2, m1);
    }
}

/// Valid dates have day numbers in `0 .. day_count()`.
pub proof fn lemma_day_number_range(y: int, m: int, d: int)
    requires
        valid_date(y, m, d),
    ensures
        0 <= day_number(y, m, d) < day_count(),
        day_count() <= 3660000,
{
    lemma_day_number_in_year(y, m, d);
    lemma_year_start_bound(y);
    lemma_year_start_bound(10000);
    if y < 9999 {
        lemma_year_start_grows(y + 1, 10000);
    }
}

/// The year in which day `n` falls, searching from year `y`.
proof fn lemma_year_of(n: int, y: int) -> (r: int)
    requires
        0 <= y <= 9999,
        year_start(y) <= n < day_count(),
    ensures
        y <= r <= 9999,
        year_start(r) <= n < year_start(r + 1),
    decreases 9999 - y,
{
    if n < year_start(y + 1) {
        y
    } else {
        lemma_year_of(n, y + 1)
    }
}

/// The month in which day `k` of year `y` falls, searching from month `m`.
proof fn lemma_month_of(y: int, k: int, m: int) -> (r: int)
    requires
        1 <= m <= 12,
        month_start(y, m) <= k < year_len(y),
    ensures
        m <= r <= 12,
        month_start(y, r) <= k < month_start(y, r) + days_in_month(y, r),
    decreases 12 - m,
{
    lemma_months_fill_year(y);
    if k < month_start(y, m + 1) {
        m
    } else {
        lemma_month_of(y, k, m + 1)
    }
}

/// Every day number below `day_count()` is that of exactly one valid date,
/// `date_of_day(n)`.
pub proof fn lemma_date_of_day(n: int)
    requires
        0 <= n < day_count(),
    ensures
        valid_date(date_of_day(n).0, date_of_day(n).1, date_of_day(n).2),
        day_number(date_of_day(n).0, date_of_day(n).1, date_of_day(n).2) == n,
{
    let y = lemma_year_of(n, 0);
    let m = lemma_month_of(y, n - year_start(y), 1);
    let d = n - year_start(y) - month_start(y, m) + 1;
    assert(valid_date(y, m, d) && day_number(y, m, d) == n);
}

/// A valid date is the date of its own day number.
pub proof fn lemma_date_of_own_day(y: int, m: int, d: int)
    requires
        valid_date(y, m, d),
    ensures
        date_of_day(day_number(y, m, d)) == (y, m, d),
        0 <= day_number(y, m, d) < day_count(),
{
    lemma_day_number_range(y, m, d);
    let w = date_of_day(day_number(y, m, d));
    lemma_day_number_injective(w.0, w.1, w.2, y, m, d);
}

/// The digit written for `n` has value `n`.
proof fn lemma_digit_char(n: int)
    requires
        0 <= n < 10,
    ensures
        is_digit(digit_char(n)),
        digit_value(digit_char(n)) == n,
{
}

/// A valid date written out is a calendar date that reads back as itself.
pub proof fn lemma_date_text_reads_back(y: int, m: int, d: int)
    requires
        valid_date(y, m, d),
    ensures
        is_calendar_date(date_text(y, m, d)),
        date_year(date_text(y, m, d)) == y,
        date_month(date_text(y, m, d)) == m,
        date_day(date_text(y, m, d)) == d,
{
    let s = date_text(y, m, d);
    lemma_digit_char(y / 1000);
    lemma_digit_char(y / 100 % 10);
    lemma_digit_char(y / 10 % 10);
    lemma_digit_char(y % 10);
    lemma_digit_char(m / 10);
    lemma_digit_char(m % 10);
    lemma_digit_char(d / 10);
    lemma_digit_char(d % 10);
    assert(1000 * (y / 1000) + 100 * (y / 100 % 10) + 10 * (y / 10 % 10) + y % 10 == y) by (nonlinear_arith)
        requires
            0 <= y <= 9999,
    ;
    assert(10 * (m / 10) + m % 10 == m) by (nonlinear_arith)
        requires
            0 <= m,
    ;
    assert(10 * (d / 10) + d % 10 == d) by (nonlinear_arith)
        requires
            0 <= d,
    ;
    assert(is_date_shape(s));
}

/// Days in month `m` of year `y`.
pub fn month_length(y: u32, m: u32) -> (r: u32)
    ensures
        r == days_in_month(y as int, m as int),
{
    if m == 2 {
        if y % 4 == 0 && (y % 100 != 0 || y % 400 == 0) {
            29
        } else {
            28
        }
    } else if m == 4 || m == 6 || m == 9 || m == 11 {
        30
    } else {
        31
    }
}

/// Days in year `y`.
fn year_length(y: u32) -> (r: u32)
    ensures
        r == year_len(y as int),
{
    if y % 4 == 0 && (y % 100 != 0 || y % 400 == 0) {
        366
    } else {
        365
    }
}

/// The year, month and day of a calendar date.
pub fn date_parts(s: &str) -> (r: (u32, u32, u32))
    requires
        is_calendar_date(s@),
    ensures
        r.0 == date_year(s@),
        r.1 == date_month(s@),
        r.2 == date_day(s@),
        valid_date(r.0 as int, r.1 as int, r.2 as int),
{
    let cs = chars_of(s);
    assert(is_digit(cs@[0]) && is_digit(cs@[1]) && is_digit(cs@[2]) && is_digit(cs@[3]));
    assert(is_digit(cs@[5]) && is_digit(cs@[6]) && is_digit(cs@[8]) && is_digit(cs@[9]));
    let year = 1000 * ((cs[0] as u32) - ('0' as u32)) + 100 * ((cs[1] as u32) - ('0' as u32)) + 10 * ((
    cs[2] as u32) - ('0' as u32)) + ((cs[3] as u32) - ('0' as u32));
    let month = 10 * ((cs[5] as u32) - ('0' as u32)) + ((cs[6] as u32) - ('0' as u32));
    let day = 10 * ((cs[8] as u32) - ('0' as u32)) + ((cs[9] as u32) - ('0' as u32));
    (year, month, day)
}

/// The day number of a valid date.
pub fn day_number_of(y: u32, m: u32, d: u32) -> (r: u32)
    requires
        valid_date(y as int, m as int, d as int),
    ensures
        r == day_number(y as int, m as int, d as int),
{
    proof {
        lemma_day_number_range(y as int, m as int, d as int);
        lemma_year_start_bound(y as int);
        lemma_month_start_bound(y as int, m as int);
    }
    let mut ys: u32 = 0;
    let mut i: u32 = 0;
    while i < y
        invariant
            i <= y <= 9999,
            ys == year_start(i as int),
            ys <= 366 * i,
        decreases y - i,
    {
        ys = ys + year_length(i);
        i = i + 1;
    }
    let mut ms: u32 = 0;
    let mut k: u32 = 1;
    while k < m
        invariant
            1 <= k <= m <= 12,
            ms == month_start(y as int, k as int),
            ms <= 31 * k,
        decreases m - k,
    {
        ms = ms + month_length(y, k);
        k = k + 1;
    }
    ys + ms + d - 1
}

/// The valid date with day number `n`.
pub fn date_from_day(n: u32) -> (r: (u32, u32, u32))
    requires
        n < day_count(),
    ensures
        valid_date(r.0 as int, r.1 as int, r.2 as int),
        day_number(r.0 as int, r.1 as int, r.2 as int) == n,
        (r.0 as int, r.1 as int, r.2 as int) == date_of_day(n as int),
{
    proof {
        lemma_year_start_bound(10000);
    }
    let mut y: u32 = 0;
    let mut ys: u32 = 0;
    while y < 9999 && ys + year_length(y) <= n
        invariant
            y <= 9999,
            ys == year_start(y as int),
            ys <= n,
            n < day_count(),
            day_count() <= 3660000,
        decreases 9999 - y,
    {
        ys = ys + year_length(y);
        y = y + 1;
    }
    proof {
        if y == 9999 {
            assert(year_start(10000) == year_start(9999) + year_len(9999));
        }
        lemma_months_fill_year(y as int);
    }
    let rem = n - ys;
    let mut m: u32 = 1;
    let mut ms: u32 = 0;
    while m < 12 && ms + month_length(y, m) <= rem
        invariant
            1 <= m <= 12,
            ms == month_start(y as int, m as int),
            ms <= rem,
            rem < year_len(y as int),
            month_start(y as int, 13) == year_len(y as int),
        decreases 12 - m,
    {
        ms = ms + month_length(y, m);
        m = m + 1;
    }
    let d = rem - ms + 1;
    proof {
        if m == 12 {
            assert(month_start(y as int, 13) == month_start(y as int, 12) + days_in_month(y as int, 12));
        }
        assert(valid_date(y as int, m as int, d as int));
        let w = date_of_day(n as int);
        lemma_day_number_injective(w.0, w.1, w.2, y as int, m as int, d as int);
    }
    (y, m, d)
}

/// A one-digit string.
fn digit_str(n: u32) -> (r: &'static str)
    requires
        n < 10,
    ensures
        r@ == seq![digit_char(n as int)],
{
    proof {
        reveal_strlit("0");
        reveal_strlit("1");
        reveal_strlit("2");
        reveal_strlit("3");
        reveal_strlit("4");
        reveal_strlit("5");
        reveal_strlit("6");
        reveal_strlit("7");
        reveal_strlit("8");
        reveal_strlit("9");
    }
    if n == 0 {
        "0"
    } else if n == 1 {
        "1"
    } else if n == 2 {
        "2"
    } else if n == 3 {
        "3"
    } else if n == 4 {
        "4"
    } else if n == 5 {
        "5"
    } else if n == 6 {
        "6"
    } else if n == 7 {
        "7"
    } else if n == 8 {
        "8"
    } else {
        "9"
    }
}

/// The date written `YYYY-MM-DD`.
pub fn date_string(y: u32, m: u32, d: u32) -> (r: String)
    requires
        y <= 9999,
        m <= 99,
        d <= 99,
    ensures
        r@ == date_text(y as int, m as int, d as int),
{
    proof {
        reveal_strlit("-");
    }
    let mut r = String::new();
    r.append(digit_str(y / 1000));
    r.append(digit_str(y / 100 % 10));
    r.append(digit_str(y / 10 % 10));
    r.append(digit_str(y % 10));
    r.append("-");
    r.append(digit_str(m / 10));
    r.append(digit_str(m % 10));
    r.append("-");
    r.append(digit_str(d / 10));
    r.append(digit_str(d % 10));
    assert(r@ =~= date_text(y as int, m as int, d as int));
    r
}

/// The number of days from 0000-01-01 to 10000-01-01.
pub fn day_count_of() -> (r: u32)
    ensures
        r == day_count(),
{
    proof {
        lemma_day_number_range(9999, 12, 31);
        lemma_months_fill_year(9999);
        assert(month_start(9999, 13) == month_start(9999, 12) + days_in_month(9999, 12));
        assert(year_start(10000) == year_start(9999) + year_len(9999));
    }
    day_number_of(9999, 12, 31) + 1
}

} // verus!
