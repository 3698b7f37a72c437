use vstd::prelude::*;

use crate::times::{leap_year, month_length, tdiv, year_length};

verus! {

/// Day count of the proleptic Gregorian calendar: 365 per year plus one per
/// leap year, counted over years 1 to `y`.
pub open spec fn year_day_count(y: int) -> int {
    365 * y + y / 4 - y / 100 + y / 400
}

/// Days from 1970-01-01 to January 1 of `year`.
pub open spec fn days_before_year(year: int) -> int {
    year_day_count(year - 1) - 719162
}

/// Days from January 1 to the first day of month `mon` (0 to 11).
pub open spec fn days_before_month(mon: int, year: int) -> int
    decreases mon,
{
    if mon <= 0 {
        0
    } else {
        days_before_month(mon - 1, year) + month_length(mon, year)
    }
}

/// Splits a day count from January 1 of `year` into the year it falls in and
/// the day within that year, taking whole years off while they fit.
pub open spec fn split_years(dayno: int, year: int) -> (int, int)
    decreases dayno,
    when dayno >= 0
{
    if dayno >= year_length(year) {
        split_years(dayno - year_length(year), year + 1)
    } else {
        (year, dayno)
    }
}

/// Splits a day of the year, counted from month `mon` (0 to 11), into a month
/// and the day within it, taking whole months off while they fit.
pub open spec fn split_months(dayno: int, mon: int, year: int) -> (int, int)
    decreases 12 - mon,
{
    if mon < 12 && dayno >= month_length(mon + 1, year) {
        split_months(dayno - month_length(mon + 1, year), mon + 1, year)
    } else {
        (mon, dayno)
    }
}

/// Days from 1970-01-01 to a civil date, by the closed form that counts
/// January and February as months 13 and 14 of the year before.
pub open spec fn civil_days(year: int, month: int, day: int) -> int {
    let y = if month <= 2 {
        year - 1
    } else {
        year
    };
    let m = if month <= 2 {
        month + 12
    } else {
        month
    };
    365 * y + tdiv(y, 4) - tdiv(y, 100) + tdiv(y, 400) + tdiv(3 * (m + 1), 5) + 30 * m + day - 719561
}

/// `y / k` grows by one exactly when `y` is a multiple of `k`.
proof fn lemma_div_step(y: int, k: int)
    requires
        k > 0,
    ensures
        y / k - (y - 1) / k == if y % k == 0 {
            1int
        } else {
            0int
        },
{
    vstd::arithmetic::div_mod::lemma_fundamental_div_mod(y, k);
    let q = y / k;
    let r = y % k;
    if r == 0 {
        assert(y - 1 == (q - 1) * k + (k - 1)) by (nonlinear_arith)
            requires
                y == k * q + r,
                r == 0,
        ;
        vstd::arithmetic::div_mod::lemma_fundamental_div_mod_converse_div(y - 1, k, q - 1, k - 1);
    } else {
        assert(y - 1 == q * k + (r - 1)) by (nonlinear_arith)
            requires
                y == k * q + r,
        ;
        vstd::arithmetic::div_mod::lemma_fundamental_div_mod_converse_div(y - 1, k, q, r - 1);
    }
}

/// A multiple of `a * b` is a multiple of `b`.
proof fn lemma_multiple_of_factor(y: int, a: int, b: int)
    requires
        a > 0,
        b > 0,
        y % (a * b) == 0,
    ensures
        y % b == 0,
{
    assert(a * b > 0) by (nonlinear_arith)
        requires
            a > 0,
            b > 0,
    ;
    vstd::arithmetic::div_mod::lemma_fundamental_div_mod(y, a * b);
    let q = y / (a * b);
    assert(y == (q * a) * b + 0) by (nonlinear_arith)
        requires
            y == (a * b) * q + y % (a * b),
            y % (a * b) == 0,
    ;
    vstd::arithmetic::div_mod::lemma_fundamental_div_mod_converse_mod(y, b, q * a, 0);
}

/// Each year adds its own length to the day count.
pub proof fn lemma_year_day_count_step(y: int)
    ensures
        year_day_count(y) - year_day_count(y - 1) == year_length(y),
{
    lemma_div_step(y, 4);
    lemma_div_step(y, 100);
    lemma_div_step(y, 400);
    if y % 400 == 0 {
        lemma_multiple_of_factor(y, 4, 100);
        lemma_multiple_of_factor(y, 100, 4);
    }
    if y % 100 == 0 {
        lemma_multiple_of_factor(y, 25, 4);
    }
}

/// The day count grows with the year.
pub proof fn lemma_days_before_year_monotone(a: int, b: int)
    requires
        a <= b,
    ensures
        days_before_year(a) <= days_before_year(b),
    decreases b - a,
{
    if a < b {
        lemma_days_before_year_monotone(a, b - 1);
        lemma_year_day_count_step(b - 1);
    }
}

/// Taking whole years off keeps the total day count, and leaves a day within
/// the year reached.
pub proof fn lemma_split_years(dayno: int, year: int)
    requires
        dayno >= 0,
    ensures
        ({
            let (y, r) = split_years(dayno, year);
            &&& days_before_year(y) + r == days_before_year(year) + dayno
            &&& 0 <= r < year_length(y)
            &&& y >= year
        }),
    decreases dayno,
{
    lemma_year_day_count_step(year);
    if dayno >= year_length(year) {
        lemma_split_years(dayno - year_length(year), year + 1);
    }
}

/// At most one year is taken off per 365 days.
pub proof fn lemma_split_years_count(dayno: int, year: int)
    requires
        dayno >= 0,
    ensures
        split_years(dayno, year).0 <= year + dayno / 365,
    decreases dayno,
{
    if dayno >= year_length(year) {
        lemma_split_years_count(dayno - year_length(year), year + 1);
        assert((dayno - year_length(year)) / 365 <= dayno / 365 - 1) by {
            vstd::arithmetic::div_mod::lemma_div_is_ordered(dayno - year_length(year), dayno - 365, 365);
            vstd::arithmetic::div_mod::lemma_div_plus_one(dayno - 365, 365);
        }
    }
}

/// Taking whole months off keeps the day of the year, and leaves a day within
/// the month reached.
pub proof fn lemma_split_months(dayno: int, mon: int, year: int)
    requires
        0 <= mon <= 11,
        0 <= dayno,
        days_before_month(mon, year) + dayno < year_length(year),
    ensures
        ({
            let (m, r) = split_months(dayno, mon, year);
            &&& days_before_month(m, year) + r == days_before_month(mon, year) + dayno
            &&& 0 <= r < month_length(m + 1, year)
            &&& mon <= m <= 11
        }),
    decreases 12 - mon,
{
    if dayno >= month_length(mon + 1, year) {
        if mon == 11 {
            assert(days_before_month(12, year) == year_length(year)) by {
                reveal_with_fuel(days_before_month, 13);
            }
        }
        lemma_split_months(dayno - month_length(mon + 1, year), mon + 1, year);
    }
}

/// The closed form counts the days of the years and months before a date.
pub proof fn lemma_civil_days(year: int, mon: int, day: int)
    requires
        year >= 1,
        0 <= mon <= 11,
    ensures
        civil_days(year, mon + 1, day) == days_before_year(year) + days_before_month(mon, year) + day - 1,
{
    lemma_year_day_count_step(year);
    reveal_with_fuel(days_before_month, 12);
    assert(tdiv(year - 1, 4) == (year - 1) / 4);
    assert(tdiv(year - 1, 100) == (year - 1) / 100);
    assert(tdiv(year - 1, 400) == (year - 1) / 400);
    assert(tdiv(year, 4) == year / 4);
    assert(tdiv(year, 100) == year / 100);
    assert(tdiv(year, 400) == year / 400);
}

} // verus!
