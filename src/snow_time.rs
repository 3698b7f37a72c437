use vstd::prelude::*;

use crate::civil::{
    civil_days, days_before_month, days_before_year, lemma_civil_days,
    lemma_days_before_year_monotone, lemma_split_months, lemma_split_years,
    lemma_split_years_count, split_months, split_years,
};
use crate::error::CrontabError;
use crate::times::{days_in_month, is_leap_year, is_valid_utc_offset, valid_utc_offset, year_length};

verus! {

/// A broken-down calendar instant.
///
/// `tm_wday` and `tm_yday` are derived fields: they agree with the date right
/// after `from_time_ts` and after day-level advances, but operations that move
/// only the hour, minute, month or year leave them as they were.
#[derive(Copy, Clone, PartialEq, Eq, Debug, Hash, Structural)]
pub struct SnowTime {
    /// Seconds after the minute - [0, 60]
    pub tm_sec: i32,
    /// Minutes after the hour - [0, 59]
    pub tm_min: i32,
    /// Hours after midnight - [0, 23]
    pub tm_hour: i32,
    /// Day of the month - [1, 31]
    pub tm_mday: i32,
    /// Months since January - [0, 11]
    pub tm_mon: i32,
    /// Years since 1900
    pub tm_year: i32,
    /// Days since Sunday - [0, 6]. 0 = Sunday, 1 = Monday, ..., 6 = Saturday.
    pub tm_wday: i32,
    /// Days since January 1 - [0, 365]
    pub tm_yday: i32,
    /// Daylight Saving Time flag; carried along, never used here.
    pub tm_isdst: i32,
    /// Seconds east of UTC; carried along, never used here.
    pub tm_utcoff: i32,
    /// Nanoseconds after the second; carried along, never used here.
    pub tm_nsec: i32,
}

/// The last second whose year still fits the `i32` year field.
pub const MAX_EPOCH_SECONDS: i64 = 67_767_976_233_532_799;

/// `a - b`, held at `i32::MIN` where it would go below.
pub open spec fn saturating_sub_i32(a: int, b: int) -> int {
    if a - b < i32::MIN {
        i32::MIN as int
    } else {
        a - b
    }
}

/// The broken-down UTC time of `ts` seconds after the epoch (for `ts >= 0`).
pub open spec fn epoch_time(ts: int) -> SnowTime {
    let dayclock = ts % 86400;
    let days = ts / 86400;
    let (year, yday) = split_years(days, 1970);
    let (mon, mday0) = split_months(yday, 0, year);
    SnowTime {
        tm_sec: (dayclock % 60) as i32,
        tm_min: ((dayclock % 3600) / 60) as i32,
        tm_hour: (dayclock / 3600) as i32,
        tm_mday: (mday0 + 1) as i32,
        tm_mon: mon as i32,
        tm_year: (year - 1900) as i32,
        tm_wday: ((days + 4) % 7) as i32,
        tm_yday: yday as i32,
        tm_isdst: 0,
        tm_utcoff: 0,
        tm_nsec: 0,
    }
}

/// Seconds after the epoch of a broken-down time read with the given UTC
/// offset added.
pub open spec fn epoch_seconds(t: SnowTime, utc_offset: int) -> int {
    civil_days(t.tm_year + 1900, t.tm_mon + 1, t.tm_mday as int) * 86400 + 3600 * t.tm_hour + 60
        * t.tm_min + t.tm_sec + utc_offset
}

/// Converting a timestamp to a broken-down time and back, with no UTC
/// offset, gives the timestamp again.
pub proof fn lemma_epoch_round_trip(ts: int)
    requires
        0 <= ts <= MAX_EPOCH_SECONDS,
    ensures
        epoch_seconds(epoch_time(ts), 0) == ts,
{
    let dayclock = ts % 86400;
    let days = ts / 86400;
    vstd::arithmetic::div_mod::lemma_fundamental_div_mod(ts, 86400);
    let (year, yday) = split_years(days, 1970);
    lemma_split_years(days, 1970);
    if year > i32::MAX {
        lemma_days_before_year_monotone(i32::MAX + 1, year);
    }
    lemma_split_months(yday, 0, year);
    let (mon, mday0) = split_months(yday, 0, year);
    lemma_civil_days(year, mon, mday0 + 1);
    let t = epoch_time(ts);
    assert(t.tm_year + 1900 == year);
    assert(t.tm_mon + 1 == mon + 1);
    assert(t.tm_mday == mday0 + 1);
    vstd::arithmetic::div_mod::lemma_fundamental_div_mod(dayclock, 3600);
    vstd::arithmetic::div_mod::lemma_fundamental_div_mod(dayclock % 3600, 60);
    vstd::arithmetic::div_mod::lemma_mod_mod(dayclock, 60, 60);
    assert(3600 * t.tm_hour + 60 * t.tm_min + t.tm_sec == dayclock);
    assert(civil_days(year, mon + 1, mday0 + 1) == days);
}

impl SnowTime {
    /// A time with every field zero.
    pub fn new() -> (r: SnowTime)
        ensures
            r == (SnowTime {
                tm_sec: 0,
                tm_min: 0,
                tm_hour: 0,
                tm_mday: 0,
                tm_mon: 0,
                tm_year: 0,
                tm_wday: 0,
                tm_yday: 0,
                tm_isdst: 0,
                tm_utcoff: 0,
                tm_nsec: 0,
            }),
    {
        SnowTime {
            tm_sec: 0,
            tm_min: 0,
            tm_hour: 0,
            tm_mday: 0,
            tm_mon: 0,
            tm_year: 0,
            tm_wday: 0,
            tm_yday: 0,
            tm_isdst: 0,
            tm_utcoff: 0,
            tm_nsec: 0,
        }
    }

    /// A time from a calendar year, month (1 to 12), day, hour, minute and
    /// second. The weekday and the day of the year are left at zero.
    pub fn get_tm(year: i32, month: i32, day: i32, hour: i32, minute: i32, second: i32) -> (r:
        SnowTime)
        ensures
            r == (SnowTime {
                tm_sec: second,
                tm_min: minute,
                tm_hour: hour,
                tm_mday: day,
                tm_mon: saturating_sub_i32(month as int, 1) as i32,
                tm_year: saturating_sub_i32(year as int, 1900) as i32,
                tm_wday: 0,
                tm_yday: 0,
                tm_isdst: 0,
                tm_utcoff: 0,
                tm_nsec: 0,
            }),
    {
        let mon: i32 = if month >= i32::MIN + 1 {
            month - 1
        } else {
            i32::MIN
        };
        let yr: i32 = if year >= i32::MIN + 1900 {
            year - 1900
        } else {
            i32::MIN
        };
        SnowTime {
            tm_sec: second,
            tm_min: minute,
            tm_hour: hour,
            tm_mday: day,
            tm_mon: mon,
            tm_year: yr,
            tm_wday: 0,
            tm_yday: 0,
            tm_isdst: 0,
            tm_utcoff: 0,
            tm_nsec: 0,
        }
    }

    /// The broken-down UTC time of `ts` seconds after 1970-01-01 00:00:00.
    pub fn from_time_ts(ts: i64) -> (tm: SnowTime)
        requires
            0 <= ts <= MAX_EPOCH_SECONDS,
        ensures
            tm == epoch_time(ts as int),
            0 <= tm.tm_sec <= 59,
            0 <= tm.tm_min <= 59,
            0 <= tm.tm_hour <= 23,
            1 <= tm.tm_mday <= 31,
            0 <= tm.tm_mon <= 11,
            70 <= tm.tm_year <= 70 + ts / 31_536_000,
            0 <= tm.tm_wday <= 6,
            0 <= tm.tm_yday <= 365,
    {
        let mut tm = SnowTime::new();
        let dayclock: i64 = ts % 86400;
        let mut dayno: i64 = ts / 86400;
        let ghost days = dayno as int;
        let ghost target = split_years(days, 1970);
        proof {
            lemma_split_years(days, 1970);
            lemma_split_years_count(days, 1970);
            lemma_split_months(split_years(days, 1970).1, 0, split_years(days, 1970).0);
            assert(days / 365 == ts / 31_536_000) by {
                vstd::arithmetic::div_mod::lemma_div_denominator(ts as int, 86400, 365);
            }
            if target.0 > i32::MAX {
                lemma_days_before_year_monotone(i32::MAX + 1, target.0);
            }
        }
        tm.tm_sec = (dayclock % 60) as i32;
        tm.tm_min = ((dayclock % 3600) / 60) as i32;
        tm.tm_hour = (dayclock / 3600) as i32;
        tm.tm_wday = ((dayno + 4) % 7) as i32;
        let mut year: i32 = 1970;
        loop
            invariant
                0 <= dayno,
                1970 <= year,
                split_years(dayno as int, year as int) == target,
                target.0 <= i32::MAX,
            ensures
                dayno < year_length(year as int),
            decreases dayno,
        {
            let yearsize: i64 = if is_leap_year(year) {
                366
            } else {
                365
            };
            if dayno >= yearsize {
                proof {
                    lemma_split_years(dayno - yearsize, year + 1);
                }
                dayno = dayno - yearsize;
                year = year + 1;
            } else {
                break;
            }
        }
        tm.tm_year = year - 1900;
        tm.tm_yday = dayno as i32;
        let ghost yday = dayno as int;
        let ghost month_target = split_months(yday, 0, year as int);
        let mut mon: i32 = 0;
        loop
            invariant
                0 <= dayno,
                0 <= mon <= 11,
                days_before_month(mon as int, year as int) + dayno == yday,
                0 <= yday < year_length(year as int),
                split_months(dayno as int, mon as int, year as int) == month_target,
            ensures
                dayno < crate::times::month_length(mon + 1, year as int),
            decreases 12 - mon,
        {
            let month_days = days_in_month(mon + 1, year) as i64;
            proof {
                lemma_split_months(dayno as int, mon as int, year as int);
            }
            if dayno >= month_days {
                proof {
                    lemma_split_months(dayno - month_days, mon + 1, year as int);
                }
                dayno = dayno - month_days;
                mon = mon + 1;
            } else {
                break;
            }
        }
        tm.tm_mon = mon;
        tm.tm_mday = dayno as i32 + 1;
        tm.tm_isdst = 0;
        tm
    }

    /// Seconds after the epoch of this time read with `utc_offset` seconds
    /// added; the offset must pass `is_valid_utc_offset`.
    pub fn to_time_ts(&self, utc_offset: i32) -> (r: Result<i64, CrontabError>)
        ensures
            r is Err <==> !valid_utc_offset(utc_offset as int),
            r is Err ==> r->Err_0 is FieldOutsideRange,
            r is Ok ==> r->Ok_0 == epoch_seconds(*self, utc_offset as int),
    {
        if !is_valid_utc_offset(utc_offset) {
            return Err(
                CrontabError::FieldOutsideRange { description: String::from_str("Invalid UTC offset value") },
            );
        }
        let tm = self;
        let mut y: i64 = tm.tm_year as i64 + 1900;
        let mut m: i64 = tm.tm_mon as i64 + 1;
        if m <= 2 {
            y = y - 1;
            m = m + 12;
        }
        let d = tm.tm_mday as i64;
        let h = tm.tm_hour as i64;
        let mi = tm.tm_min as i64;
        let s = tm.tm_sec as i64;
        Ok(
            (365 * y + y / 4 - y / 100 + y / 400 + 3 * (m + 1) / 5 + 30 * m + d - 719561) * 86400 + 3600
                * h + 60 * mi + s + utc_offset as i64,
        )
    }
}

} // verus!
