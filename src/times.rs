use vstd::prelude::*;

use crate::snow_time::SnowTime;

verus! {

/// Division rounding toward zero, as Rust's `/` on signed integers does.
pub open spec fn tdiv(a: int, b: int) -> int {
    if a >= 0 {
        a / b
    } else {
        -((-a) / b)
    }
}

/// Remainder that takes the sign of the dividend, as Rust's `%` does.
pub open spec fn trem(a: int, b: int) -> int {
    a - b * tdiv(a, b)
}

/// A remainder toward zero vanishes exactly when the Euclidean one does.
pub proof fn lemma_trem_zero(a: int, b: int)
    requires
        b > 0,
    ensures
        (trem(a, b) == 0) == (a % b == 0),
{
    if a < 0 {
        let q = (-a) / b;
        let r = (-a) % b;
        vstd::arithmetic::div_mod::lemma_fundamental_div_mod(-a, b);
        assert(trem(a, b) == -r) by (nonlinear_arith)
            requires
                -a == b * q + r,
                trem(a, b) == a - b * (-q),
        ;
        if r == 0 {
            assert(a == (-q) * b + 0) by (nonlinear_arith)
                requires
                    -a == b * q + r,
                    r == 0,
            ;
            vstd::arithmetic::div_mod::lemma_fundamental_div_mod_converse_mod(a, b, -q, 0);
        } else {
            assert(a == (-q - 1) * b + (b - r)) by (nonlinear_arith)
                requires
                    -a == b * q + r,
            ;
            vstd::arithmetic::div_mod::lemma_fundamental_div_mod_converse_mod(a, b, -q - 1, b - r);
        }
    } else {
        vstd::arithmetic::div_mod::lemma_fundamental_div_mod(a, b);
    }
}

/// A remainder toward zero by 7 or by a year length stays below the divisor.
pub proof fn lemma_trem_small(a: int, b: int)
    requires
        0 < b,
    ensures
        -b < trem(a, b) < b,
{
    if a >= 0 {
        vstd::arithmetic::div_mod::lemma_fundamental_div_mod(a, b);
        vstd::arithmetic::div_mod::lemma_mod_pos_bound(a, b);
    } else {
        vstd::arithmetic::div_mod::lemma_fundamental_div_mod(-a, b);
        vstd::arithmetic::div_mod::lemma_mod_pos_bound(-a, b);
        let q = (-a) / b;
        assert(trem(a, b) == -((-a) % b)) by (nonlinear_arith)
            requires
                -a == b * q + (-a) % b,
                trem(a, b) == a - b * (-q),
        ;
    }
}

/// The weekday congruence gives a value from 0 to 6.
pub proof fn lemma_weekday_range(y: int, m: int, d: int)
    ensures
        0 <= weekday(y, m, d) < 7,
{
    let yy = if m < 3 {
        y - 1
    } else {
        y
    };
    vstd::arithmetic::div_mod::lemma_mod_bound(
        yy + tdiv(yy, 4) - tdiv(yy, 100) + tdiv(yy, 400) + weekday_offset(m) + d,
        7,
    );
}

/// A remainder toward zero, lifted by the divisor where it is negative, is
/// the Euclidean remainder.
pub proof fn lemma_trem_euclid(a: int, b: int)
    requires
        b > 0,
    ensures
        a % b == if trem(a, b) < 0 {
            trem(a, b) + b
        } else {
            trem(a, b)
        },
{
    lemma_trem_small(a, b);
    let r = trem(a, b);
    let q = tdiv(a, b);
    assert(a == q * b + r) by (nonlinear_arith)
        requires
            r == a - b * q,
    ;
    if r < 0 {
        assert(a == (q - 1) * b + (r + b)) by (nonlinear_arith)
            requires
                a == q * b + r,
        ;
        vstd::arithmetic::div_mod::lemma_fundamental_div_mod_converse_mod(a, b, q - 1, r + b);
    } else {
        vstd::arithmetic::div_mod::lemma_fundamental_div_mod_converse_mod(a, b, q, r);
    }
}

/// Whether `year` is a leap year of the Gregorian calendar.
pub open spec fn leap_year(year: int) -> bool {
    year % 400 == 0 || (year % 4 == 0 && year % 100 != 0)
}

/// Number of days in `year`.
pub open spec fn year_length(year: int) -> int {
    if leap_year(year) {
        366
    } else {
        365
    }
}

/// Number of days in `month` (1 to 12; any other value counts as a 31-day month).
pub open spec fn month_length(month: int, year: int) -> int {
    if month == 4 || month == 6 || month == 9 || month == 11 {
        30
    } else if month == 2 {
        if leap_year(year) {
            29
        } else {
            28
        }
    } else {
        31
    }
}

/// Offsets of the weekday congruence, indexed by month - 1.
pub open spec fn weekday_offset(month: int) -> int {
    if month == 1 {
        0
    } else if month == 2 {
        3
    } else if month == 3 {
        2
    } else if month == 4 {
        5
    } else if month == 5 {
        0
    } else if month == 6 {
        3
    } else if month == 7 {
        5
    } else if month == 8 {
        1
    } else if month == 9 {
        4
    } else if month == 10 {
        6
    } else if month == 11 {
        2
    } else {
        4
    }
}

/// The weekday congruence (0 = Sunday) for a date given as year, month 1..12
/// and day: the year terms divide toward zero, and the sum is reduced to 0..6.
pub open spec fn weekday(y: int, m: int, d: int) -> int {
    let yy = if m < 3 {
        y - 1
    } else {
        y
    };
    (yy + tdiv(yy, 4) - tdiv(yy, 100) + tdiv(yy, 400) + weekday_offset(m) + d) % 7
}

/// The time one year later; no other field changes.
pub open spec fn advance_year(t: SnowTime) -> SnowTime {
    SnowTime { tm_year: (t.tm_year + 1) as i32, ..t }
}

/// The time one month later, carrying into the year.
pub open spec fn advance_month(t: SnowTime) -> SnowTime {
    if t.tm_mon + 1 > 11 {
        advance_year(SnowTime { tm_mon: 0, ..t })
    } else {
        SnowTime { tm_mon: (t.tm_mon + 1) as i32, ..t }
    }
}

/// The time one day later, carrying into the month; weekday and day of the
/// year move along with it.
pub open spec fn advance_day(t: SnowTime) -> SnowTime {
    let t1 = SnowTime {
        tm_wday: trem(t.tm_wday + 1, 7) as i32,
        tm_mday: (t.tm_mday + 1) as i32,
        tm_yday: trem(t.tm_yday + 1, year_length(t.tm_year + 1900)) as i32,
        ..t
    };
    if t1.tm_mday > month_length(t1.tm_mon + 1, t1.tm_year + 1900) {
        advance_month(SnowTime { tm_mday: 1, ..t1 })
    } else {
        t1
    }
}

/// The time one hour later, carrying into the day.
pub open spec fn advance_hour(t: SnowTime) -> SnowTime {
    if t.tm_hour + 1 > 23 {
        advance_day(SnowTime { tm_hour: 0, ..t })
    } else {
        SnowTime { tm_hour: (t.tm_hour + 1) as i32, ..t }
    }
}

/// The time one minute later, carrying into the hour.
pub open spec fn advance_minute(t: SnowTime) -> SnowTime {
    if t.tm_min + 1 > 59 {
        advance_hour(SnowTime { tm_min: 0, ..t })
    } else {
        SnowTime { tm_min: (t.tm_min + 1) as i32, ..t }
    }
}

/// The fields that a year advance adds one to stay within `i32`.
pub open spec fn can_advance_year(t: SnowTime) -> bool {
    t.tm_year < i32::MAX
}

/// The fields that a month advance adds one to stay within `i32`.
pub open spec fn can_advance_month(t: SnowTime) -> bool {
    t.tm_mon < i32::MAX && can_advance_year(t)
}

/// The fields that a day advance adds one to stay within `i32`.
pub open spec fn can_advance_day(t: SnowTime) -> bool {
    &&& t.tm_wday < i32::MAX
    &&& t.tm_mday < i32::MAX
    &&& t.tm_yday < i32::MAX
    &&& t.tm_year < i32::MAX - 1900
    &&& can_advance_month(t)
}

/// The fields that an hour advance adds one to stay within `i32`.
pub open spec fn can_advance_hour(t: SnowTime) -> bool {
    t.tm_hour < i32::MAX && can_advance_day(t)
}

/// The fields that a minute advance adds one to stay within `i32`.
pub open spec fn can_advance_minute(t: SnowTime) -> bool {
    t.tm_min < i32::MAX && can_advance_hour(t)
}

/// Advance the year, but leave all other fields untouched.
/// This can result in an invalid day-of-month, day-of-year, or day-of-week!
pub fn adv_year(time: &mut SnowTime)
    requires
        can_advance_year(*old(time)),
    ensures
        *final(time) == advance_year(*old(time)),
{
    time.tm_year = time.tm_year + 1;
}

/// Advance the month, but leave the day (and hour, minute, second) untouched.
/// This can result in an invalid day-of-month!
pub fn adv_month(time: &mut SnowTime)
    requires
        can_advance_month(*old(time)),
    ensures
        *final(time) == advance_month(*old(time)),
{
    time.tm_mon = time.tm_mon + 1;
    if time.tm_mon > 11 {
        time.tm_mon = 0;
        adv_year(time);
    }
}

/// Advance the day, but leave the hour, minute, and second untouched.
pub fn adv_day(time: &mut SnowTime)
    requires
        can_advance_day(*old(time)),
    ensures
        *final(time) == advance_day(*old(time)),
{
    time.tm_wday = (time.tm_wday + 1) % 7;
    time.tm_mday = time.tm_mday + 1;
    let days_in_year: i32 = if is_leap_year(time.tm_year + 1900) {
        366
    } else {
        365
    };
    time.tm_yday = (time.tm_yday + 1) % days_in_year;
    if time.tm_mday > days_in_month(time.tm_mon + 1, time.tm_year + 1900) {
        time.tm_mday = 1;
        adv_month(time);
    }
}

/// Advance the hour, but leave the minute and second untouched.
pub fn adv_hour(time: &mut SnowTime)
    requires
        can_advance_hour(*old(time)),
    ensures
        *final(time) == advance_hour(*old(time)),
{
    time.tm_hour = time.tm_hour + 1;
    if time.tm_hour > 23 {
        time.tm_hour = 0;
        adv_day(time);
    }
}

/// Advance the minute, but leave the second untouched.
pub fn adv_minute(time: &mut SnowTime)
    requires
        can_advance_minute(*old(time)),
    ensures
        *final(time) == advance_minute(*old(time)),
{
    time.tm_min = time.tm_min + 1;
    if time.tm_min > 59 {
        time.tm_min = 0;
        adv_hour(time);
    }
}

/// Calculate the day of the week (0 = Sunday) of a date given as year, month
/// 1..12 and day of the month.
pub fn day_of_the_week(y: i32, m: i32, d: i32) -> (r: i32)
    requires
        1 <= m <= 12,
    ensures
        r == weekday(y as int, m as int, d as int),
        0 <= r < 7,
{
    let t: [i64; 12] = [0, 3, 2, 5, 0, 3, 5, 1, 4, 6, 2, 4];
    let mut y: i64 = y as i64;
    if m < 3 {
        y = y - 1;
    }
    let sum = y + y / 4 - y / 100 + y / 400 + t[(m - 1) as usize] + d as i64;
    let r = sum % 7;
    proof {
        lemma_trem_euclid(sum as int, 7);
        lemma_weekday_range(y as int, m as int, d as int);
    }
    if r < 0 {
        (r + 7) as i32
    } else {
        r as i32
    }
}

/// Whether a UTC offset in seconds is accepted: at most a full day either way.
pub open spec fn valid_utc_offset(offset: int) -> bool {
    -86400 <= offset <= 86400
}

/// Determine whether a UTC offset in seconds is accepted.
pub fn is_valid_utc_offset(offset: i32) -> (r: bool)
    ensures
        r == valid_utc_offset(offset as int),
{
    -86400 <= offset && offset <= 86400
}

/// Determine whether a year is a leap year.
pub fn is_leap_year(year: i32) -> (r: bool)
    ensures
        r == leap_year(year as int),
{
    proof {
        lemma_trem_zero(year as int, 400);
        lemma_trem_zero(year as int, 100);
        lemma_trem_zero(year as int, 4);
    }
    year % 400 == 0 || (year % 4 == 0 && year % 100 != 0)
}

/// Calculate the number of days of a month (1 to 12) in a year.
pub fn days_in_month(month: i32, year: i32) -> (r: i32)
    ensures
        r == month_length(month as int, year as int),
{
    let leap = is_leap_year(year);
    if month == 9 || month == 4 || month == 6 || month == 11 {
        30
    } else if month == 2 {
        if leap {
            29
        } else {
            28
        }
    } else {
        31
    }
}

} // verus!
