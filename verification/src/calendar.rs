//! The proleptic Gregorian calendar, as plain arithmetic on years and months.

use vstd::prelude::*;
use vstd::arithmetic::div_mod::{lemma_fundamental_div_mod, lemma_fundamental_div_mod_converse};

verus! {

/// Earliest year that the date library used for timestamps can represent.
pub const MIN_YEAR: i32 = -262143;

/// Latest year that the date library used for timestamps can represent.
pub const MAX_YEAR: i32 = 262142;

/// Seconds in one day (leap seconds are not counted by Unix time).
pub const SECONDS_PER_DAY: i64 = 86400;

/// Whether `year` is a leap year of the proleptic Gregorian calendar.
pub open spec fn is_leap_year(year: int) -> bool {
    year % 4 == 0 && (year % 100 != 0 || year % 400 == 0)
}

/// Number of days in `month` (1 to 12) of `year`.
pub open spec fn days_in_month(year: int, month: int) -> int {
    if month == 2 {
        if is_leap_year(year) { 29 } else { 28 }
    } else if month == 4 || month == 6 || month == 9 || month == 11 {
        30
    } else {
        31
    }
}

/// Days in the months of `year` that come before `month` (1 to 12).
pub open spec fn days_before_month(year: int, month: int) -> int
    decreases month,
{
    if month <= 1 {
        0
    } else {
        days_before_month(year, month - 1) + days_in_month(year, month - 1)
    }
}

/// How many leap years lie in the years 1 up to `year - 1` (negative below year 1).
pub open spec fn leap_years_before(year: int) -> int {
    (year - 1) / 4 - (year - 1) / 100 + (year - 1) / 400
}

/// Days from 1970-01-01 to the first day of `month` (1 to 12) of `year`.
pub open spec fn days_from_epoch(year: int, month: int) -> int {
    365 * (year - 1970) + (leap_years_before(year) - leap_years_before(1970))
        + days_before_month(year, month)
}

/// The Unix time of the first second of `month` (1 to 12) of `year`, in UTC.
pub open spec fn month_start_seconds(year: int, month: int) -> int {
    86400 * days_from_epoch(year, month)
}

/// A month of a year that the calendar knows (month 1 to 12).
pub open spec fn is_valid_month(month: int) -> bool {
    1 <= month <= 12
}

/// The month that follows (`year`, `month`); month 12 rolls over into the next year.
pub open spec fn next_month(year: int, month: int) -> (int, int) {
    if month == 12 { (year + 1, 1) } else { (year, month + 1) }
}

/// Whether (`year`, `month`) comes before (`year2`, `month2`), year first.
pub open spec fn month_precedes(year: int, month: int, year2: int, month2: int) -> bool {
    year < year2 || (year == year2 && month < month2)
}

proof fn lemma_div_step(y: int, d: int)
    requires
        d > 0,
    ensures
        y / d - (y - 1) / d == (if y % d == 0 { 1int } else { 0int }),
{
    let q = (y - 1) / d;
    let r = (y - 1) % d;
    lemma_fundamental_div_mod(y - 1, d);
    assert(0 <= r < d);
    assert(d * q == q * d) by (nonlinear_arith);
    if r + 1 < d {
        lemma_fundamental_div_mod_converse(y, d, q, r + 1);
    } else {
        assert((q + 1) * d == q * d + d) by (nonlinear_arith);
        lemma_fundamental_div_mod_converse(y, d, q + 1, 0);
    }
}

/// Between consecutive years, the leap-year count grows by one exactly when the earlier
/// year is a leap year.
pub proof fn lemma_leap_years_step(year: int)
    ensures
        leap_years_before(year + 1) - leap_years_before(year)
            == (if is_leap_year(year) { 1int } else { 0int }),
{
    lemma_div_step(year, 4);
    lemma_div_step(year, 100);
    lemma_div_step(year, 400);
    // a year divisible by 400 is divisible by 100, and one divisible by 100 by 4
    if year % 400 == 0 {
        lemma_fundamental_div_mod(year, 400);
        let k = year / 400;
        assert(year == (4 * k) * 100 + 0) by (nonlinear_arith) requires year == 400 * k + 0;
        lemma_fundamental_div_mod_converse(year, 100, 4 * k, 0);
    }
    if year % 100 == 0 {
        lemma_fundamental_div_mod(year, 100);
        let k = year / 100;
        assert(year == (25 * k) * 4 + 0) by (nonlinear_arith) requires year == 100 * k + 0;
        lemma_fundamental_div_mod_converse(year, 4, 25 * k, 0);
    }
}

/// A whole year holds 365 days, or 366 in a leap year.
pub proof fn lemma_days_in_year(year: int)
    ensures
        days_before_month(year, 12) + days_in_month(year, 12)
            == (if is_leap_year(year) { 366int } else { 365int }),
{
    reveal_with_fuel(days_before_month, 12);
}

/// The first day of the next month is `days_in_month` days after the first day of this one.
pub proof fn lemma_next_month_days(year: int, month: int)
    requires
        is_valid_month(month),
    ensures
        days_from_epoch(next_month(year, month).0, next_month(year, month).1)
            == days_from_epoch(year, month) + days_in_month(year, month),
{
    if month == 12 {
        lemma_days_in_year(year);
        lemma_leap_years_step(year);
    }
}


proof fn lemma_days_before_month_monotone(year: int, m1: int, m2: int)
    requires
        1 <= m1 < m2 <= 12,
    ensures
        days_before_month(year, m1) < days_before_month(year, m2),
    decreases m2,
{
    if m1 < m2 - 1 {
        lemma_days_before_month_monotone(year, m1, m2 - 1);
    }
}

proof fn lemma_year_start_after(y1: int, y2: int)
    requires
        y1 < y2,
    ensures
        days_from_epoch(y1, 12) < days_from_epoch(y2, 1),
    decreases y2 - y1,
{
    lemma_next_month_days(y1, 12);
    if y1 + 1 < y2 {
        lemma_days_before_month_monotone(y1 + 1, 1, 12);
        lemma_year_start_after(y1 + 1, y2);
    }
}

/// A month that comes earlier in the calendar starts on an earlier day.
pub proof fn lemma_days_from_epoch_monotone(y1: int, m1: int, y2: int, m2: int)
    requires
        is_valid_month(m1),
        is_valid_month(m2),
        month_precedes(y1, m1, y2, m2),
    ensures
        days_from_epoch(y1, m1) < days_from_epoch(y2, m2),
{
    if y1 == y2 {
        lemma_days_before_month_monotone(y1, m1, m2);
    } else {
        if m1 < 12 {
            lemma_days_before_month_monotone(y1, m1, 12);
        }
        lemma_year_start_after(y1, y2);
        if m2 > 1 {
            lemma_days_before_month_monotone(y2, 1, m2);
        }
    }
}

/// Months of the calendar, taken in order, start at strictly increasing Unix times; so the
/// order of months by (year, month) is the order of their first seconds.
pub proof fn lemma_month_start_order(y1: int, m1: int, y2: int, m2: int)
    requires
        is_valid_month(m1),
        is_valid_month(m2),
    ensures
        month_precedes(y1, m1, y2, m2) <==> month_start_seconds(y1, m1) < month_start_seconds(
            y2,
            m2,
        ),
        (y1 == y2 && m1 == m2) <==> month_start_seconds(y1, m1) == month_start_seconds(y2, m2),
{
    let d1 = days_from_epoch(y1, m1);
    let d2 = days_from_epoch(y2, m2);
    if month_precedes(y1, m1, y2, m2) {
        lemma_days_from_epoch_monotone(y1, m1, y2, m2);
    } else if month_precedes(y2, m2, y1, m1) {
        lemma_days_from_epoch_monotone(y2, m2, y1, m1);
    }
    assert(d1 < d2 <==> 86400 * d1 < 86400 * d2) by (nonlinear_arith);
    assert(d1 == d2 <==> 86400 * d1 == 86400 * d2) by (nonlinear_arith);
}

/// Each month lasts `days_in_month` days: the next month starts that many days of seconds
/// after this one, and so strictly later.
pub proof fn lemma_month_length(year: int, month: int)
    requires
        is_valid_month(month),
    ensures
        month_start_seconds(next_month(year, month).0, next_month(year, month).1)
            == month_start_seconds(year, month) + 86400 * days_in_month(year, month),
        month_start_seconds(next_month(year, month).0, next_month(year, month).1)
            > month_start_seconds(year, month),
{
    lemma_next_month_days(year, month);
    let d = days_from_epoch(year, month);
    let n = days_in_month(year, month);
    assert(86400 * (d + n) == 86400 * d + 86400 * n) by (nonlinear_arith);
}

/// At most one month holds a given second: the months that hold `secs` are one month.
pub proof fn lemma_month_of_second_unique(secs: int, y1: int, m1: int, y2: int, m2: int)
    requires
        is_valid_month(m1),
        is_valid_month(m2),
        month_start_seconds(y1, m1) <= secs < month_start_seconds(
            next_month(y1, m1).0,
            next_month(y1, m1).1,
        ),
        month_start_seconds(y2, m2) <= secs < month_start_seconds(
            next_month(y2, m2).0,
            next_month(y2, m2).1,
        ),
    ensures
        y1 == y2 && m1 == m2,
{
    if month_precedes(y1, m1, y2, m2) {
        let (ny, nm) = next_month(y1, m1);
        if !(ny == y2 && nm == m2) {
            lemma_month_start_order(ny, nm, y2, m2);
        }
    } else if month_precedes(y2, m2, y1, m1) {
        let (ny, nm) = next_month(y2, m2);
        if !(ny == y1 && nm == m1) {
            lemma_month_start_order(ny, nm, y1, m1);
        }
    }
}

}
