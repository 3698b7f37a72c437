use vstd::prelude::*;

use crate::error::CrontabError;
use crate::parsing::{ScheduleComponents, ScheduleView, cron_fields, failure_of, parse_cron, ParseFailure};
use crate::snow_time::SnowTime;
use crate::sorted::{find_value, increasing, insertion_point, lemma_insertion_point};
use crate::times::{
    adv_day, adv_hour, adv_minute, adv_month, advance_day, advance_hour, advance_minute,
    advance_month, day_of_the_week, days_in_month, lemma_trem_small, lemma_weekday_range,
    month_length, weekday, year_length,
};

verus! {

/// The year, counted from 1900, from which on the search gives up.
pub const HORIZON_YEAR: i32 = 200;

/// How one matching stage ended.
pub enum DateTimeMatch {
    /// The stage moved the time forward; matching starts over at the month.
    Missed,
    /// The field matches; the next stage goes on.
    ContinueMatching,
    /// The stage settled the answer.
    AnswerFound(SnowTime),
}

/// Minute, hour, day of the month and month lie in their documented ranges.
pub open spec fn in_range(t: SnowTime) -> bool {
    &&& 0 <= t.tm_min <= 59
    &&& 0 <= t.tm_hour <= 23
    &&& 1 <= t.tm_mday <= 31
    &&& 0 <= t.tm_mon <= 11
}

/// The fields that the search reads lie in their documented ranges, and the
/// fields that it advances have room to grow.
pub open spec fn searchable(t: SnowTime) -> bool {
    &&& in_range(t)
    &&& t.tm_year < i32::MAX - 1903
    &&& t.tm_wday < i32::MAX
    &&& t.tm_yday < i32::MAX
}

/// The position of a time in minute order: year, month, day, hour, minute.
pub open spec fn minute_key(t: SnowTime) -> int {
    (((t.tm_year * 12 + t.tm_mon) * 32 + t.tm_mday) * 24 + t.tm_hour) * 60 + t.tm_min
}

/// What is left of the search before the horizon.
pub open spec fn distance_to_horizon(t: SnowTime) -> int {
    if t.tm_year >= HORIZON_YEAR {
        0
    } else {
        horizon_key() - minute_key(t)
    }
}

/// The position in minute order of the first minute of the horizon year.
pub open spec fn horizon_key() -> int {
    HORIZON_YEAR * 552960
}

/// Whether `a` comes before `b` by year, then month, day, hour and minute.
pub open spec fn earlier(a: SnowTime, b: SnowTime) -> bool {
    ||| a.tm_year < b.tm_year
    ||| (a.tm_year == b.tm_year && a.tm_mon < b.tm_mon)
    ||| (a.tm_year == b.tm_year && a.tm_mon == b.tm_mon && a.tm_mday < b.tm_mday)
    ||| (a.tm_year == b.tm_year && a.tm_mon == b.tm_mon && a.tm_mday == b.tm_mday && a.tm_hour
        < b.tm_hour)
    ||| (a.tm_year == b.tm_year && a.tm_mon == b.tm_mon && a.tm_mday == b.tm_mday && a.tm_hour
        == b.tm_hour && a.tm_min < b.tm_min)
}

/// On times with fields in range, minute order is the order of the fields
/// from year down to minute.
pub proof fn lemma_key_order(a: SnowTime, b: SnowTime)
    requires
        in_range(a),
        in_range(b),
    ensures
        (minute_key(a) < minute_key(b)) == earlier(a, b),
        minute_key(a) >= a.tm_year * 552960,
        minute_key(a) < a.tm_year * 552960 + 552960,
{
}

/// Whether `u` is a real calendar minute that the schedule lists: its month,
/// day of the month, hour, minute and the weekday of its date are all
/// listed, and its day lies within its month.
pub open spec fn is_match(sc: ScheduleView, u: SnowTime) -> bool {
    &&& in_range(u)
    &&& u.tm_mday <= month_length(u.tm_mon + 1, u.tm_year + 1900)
    &&& sc.months.contains((u.tm_mon + 1) as u32)
    &&& sc.days.contains(u.tm_mday as u32)
    &&& sc.hours.contains(u.tm_hour as u32)
    &&& sc.minutes.contains(u.tm_min as u32)
    &&& sc.weekdays.contains(weekday_of(u) as u32)
}

/// No minute that the schedule lists has its position in minute order in
/// `lo..hi`.
pub open spec fn none_listed_between(sc: ScheduleView, lo: int, hi: int) -> bool {
    forall|u: SnowTime| #[trigger] is_match(sc, u) ==> minute_key(u) < lo || minute_key(u) >= hi
}

/// The month stage: keep a listed month, else jump to the next listed month
/// of the year (or the first one of the next year) with the earliest listed
/// day, hour and minute. Where that day lies past the end of the month the
/// pass starts over, and the day stage moves on to the next month.
pub open spec fn month_stage(sc: ScheduleView, t: SnowTime) -> (DateTimeMatch, SnowTime) {
    let months = sc.months;
    let test_month = t.tm_mon + 1;
    if months.contains(test_month as u32) {
        (DateTimeMatch::ContinueMatching, t)
    } else {
        let pos = insertion_point(months, test_month);
        if pos < months.len() {
            let t1 = SnowTime {
                tm_mon: (months[pos] - 1) as i32,
                tm_mday: sc.days[0] as i32,
                tm_hour: sc.hours[0] as i32,
                tm_min: sc.minutes[0] as i32,
                tm_sec: 0,
                ..t
            };
            if t1.tm_mday > month_length(t1.tm_mon + 1, t1.tm_year + 1900) {
                (DateTimeMatch::Missed, t1)
            } else if sc.weekdays.len() == 7 {
                (DateTimeMatch::AnswerFound(t1), t1)
            } else {
                (DateTimeMatch::ContinueMatching, t1)
            }
        } else {
            (
                DateTimeMatch::Missed,
                SnowTime {
                    tm_year: (t.tm_year + 1) as i32,
                    tm_mon: (months[0] - 1) as i32,
                    tm_mday: sc.days[0] as i32,
                    tm_hour: sc.hours[0] as i32,
                    tm_min: sc.minutes[0] as i32,
                    tm_sec: 0,
                    ..t
                },
            )
        }
    }
}

/// The time at midnight of the first day of the next month.
pub open spec fn next_month_start(t: SnowTime) -> SnowTime {
    advance_month(SnowTime { tm_mday: 1, tm_hour: 0, tm_min: 0, tm_sec: 0, ..t })
}

/// The day stage: keep a listed day that lies within the month, else jump
/// to the next listed day of the month with the earliest listed hour and
/// minute, or to the next month.
pub open spec fn day_stage(sc: ScheduleView, t: SnowTime) -> (DateTimeMatch, SnowTime) {
    let days = sc.days;
    let max_mday = month_length(t.tm_mon + 1, t.tm_year + 1900);
    if days.contains(t.tm_mday as u32) {
        if t.tm_mday <= max_mday {
            (DateTimeMatch::ContinueMatching, t)
        } else {
            (DateTimeMatch::Missed, next_month_start(t))
        }
    } else {
        let pos = insertion_point(days, t.tm_mday as int);
        if pos < days.len() && days[pos] <= max_mday {
            let t1 = SnowTime {
                tm_mday: days[pos] as i32,
                tm_hour: sc.hours[0] as i32,
                tm_min: sc.minutes[0] as i32,
                tm_sec: 0,
                ..t
            };
            if sc.weekdays.len() == 7 {
                (DateTimeMatch::AnswerFound(t1), t1)
            } else {
                (DateTimeMatch::ContinueMatching, t1)
            }
        } else {
            (DateTimeMatch::Missed, next_month_start(t))
        }
    }
}

/// The weekday of the date of `t`, by the weekday congruence.
pub open spec fn weekday_of(t: SnowTime) -> int {
    weekday(t.tm_year + 1900, t.tm_mon + 1, t.tm_mday as int)
}

/// Whether the weekday of the date of `t` is listed.
pub open spec fn weekday_listed(sc: ScheduleView, t: SnowTime) -> bool {
    sc.weekdays.contains(weekday_of(t) as u32)
}

/// The weekday stage: record the weekday; keep a date whose weekday is
/// listed, else move at midnight to the next listed day of the month that
/// lies within it, or to the next month.
pub open spec fn weekday_stage(sc: ScheduleView, t: SnowTime) -> (DateTimeMatch, SnowTime) {
    let t0 = SnowTime { tm_wday: weekday_of(t) as i32, ..t };
    if weekday_listed(sc, t) {
        (DateTimeMatch::ContinueMatching, t0)
    } else {
        let days = sc.days;
        let idx = insertion_point(days, t.tm_mday as int);
        let t1 = if idx + 1 < days.len() && days[idx + 1] <= month_length(
            t.tm_mon + 1,
            t.tm_year + 1900,
        ) {
            SnowTime { tm_mday: days[idx + 1] as i32, ..t0 }
        } else {
            advance_month(SnowTime { tm_mday: 1, ..t0 })
        };
        (DateTimeMatch::Missed, SnowTime { tm_hour: 0, tm_min: 0, tm_sec: 0, ..t1 })
    }
}

/// The hour stage: keep a listed hour, else answer with the next listed hour
/// of the day and the earliest listed minute, or move to the next day.
pub open spec fn hour_stage(sc: ScheduleView, t: SnowTime) -> (DateTimeMatch, SnowTime) {
    let hours = sc.hours;
    if hours.contains(t.tm_hour as u32) {
        (DateTimeMatch::ContinueMatching, t)
    } else {
        let pos = insertion_point(hours, t.tm_hour as int);
        if pos < hours.len() {
            (
                DateTimeMatch::AnswerFound(
                    SnowTime {
                        tm_hour: hours[pos] as i32,
                        tm_min: sc.minutes[0] as i32,
                        tm_sec: 0,
                        ..t
                    },
                ),
                t,
            )
        } else {
            (
                DateTimeMatch::Missed,
                advance_day(SnowTime { tm_hour: 0, tm_min: 0, tm_sec: 0, ..t }),
            )
        }
    }
}

/// The minute stage: answer with a listed minute or the next listed minute
/// of the hour, else move to the next hour.
pub open spec fn minute_stage(sc: ScheduleView, t: SnowTime) -> (DateTimeMatch, SnowTime) {
    let minutes = sc.minutes;
    if minutes.contains(t.tm_min as u32) {
        (DateTimeMatch::AnswerFound(SnowTime { tm_sec: 0, ..t }), t)
    } else {
        let pos = insertion_point(minutes, t.tm_min as int);
        if pos < minutes.len() {
            (DateTimeMatch::AnswerFound(SnowTime { tm_min: minutes[pos] as i32, tm_sec: 0, ..t }), t)
        } else {
            (DateTimeMatch::Missed, advance_hour(SnowTime { tm_min: 0, tm_sec: 0, ..t }))
        }
    }
}

/// One pass of the stages from month to minute: an answer, or `Missed` with
/// the time to start the next pass from.
pub open spec fn cascade(sc: ScheduleView, t: SnowTime) -> (DateTimeMatch, SnowTime) {
    let (r1, t1) = month_stage(sc, t);
    if !(r1 is ContinueMatching) {
        (r1, t1)
    } else {
        let (r2, t2) = day_stage(sc, t1);
        if !(r2 is ContinueMatching) {
            (r2, t2)
        } else {
            let (r3, t3) = weekday_stage(sc, t2);
            if r3 is Missed {
                (r3, t3)
            } else {
                let (r4, t4) = hour_stage(sc, t3);
                if !(r4 is ContinueMatching) {
                    (r4, t4)
                } else {
                    minute_stage(sc, t4)
                }
            }
        }
    }
}

/// In an increasing sequence, a listed value sits at its insertion point.
proof fn lemma_listed_at_insertion_point(s: Seq<u32>, x: u32)
    requires
        increasing(s),
        s.contains(x),
    ensures
        0 <= insertion_point(s, x as int) < s.len(),
        s[insertion_point(s, x as int)] == x,
{
    lemma_insertion_point(s, x as int);
    let j = choose|j: int| 0 <= j < s.len() && s[j] == x;
    let p = insertion_point(s, x as int);
    if j > p {
        assert(s[p] < s[j]);
    }
}

/// In an increasing sequence, every listed value from `x` on is at least
/// the element at the insertion point of `x`.
proof fn lemma_next_listed(s: Seq<u32>, x: int)
    requires
        increasing(s),
    ensures
        forall|y: u32|
            s.contains(y) && x <= y ==> insertion_point(s, x) < s.len() && s[insertion_point(s, x)]
                <= y,
{
    lemma_insertion_point(s, x);
    let p = insertion_point(s, x);
    assert forall|y: u32| s.contains(y) && x <= y implies p < s.len() && s[p] <= y by {
        let j = choose|j: int| 0 <= j < s.len() && s[j] == y;
        if j < p {
            assert(s[j] < x);
        }
        if j > p {
            assert(s[p] < s[j]);
        }
    }
}

/// In an increasing sequence, the first element is the least listed value.
proof fn lemma_first_listed(s: Seq<u32>)
    requires
        increasing(s),
        s.len() > 0,
    ensures
        forall|y: u32| s.contains(y) ==> s[0] <= y,
{
    assert forall|y: u32| s.contains(y) implies s[0] <= y by {
        let j = choose|j: int| 0 <= j < s.len() && s[j] == y;
        if j > 0 {
            assert(s[0] < s[j]);
        }
    }
}

/// Each element of an increasing sequence exceeds the first by at least its index.
proof fn lemma_increasing_lower(s: Seq<u32>, i: int)
    requires
        increasing(s),
        0 <= i < s.len(),
    ensures
        s[i] >= s[0] + i,
    decreases i,
{
    if i > 0 {
        lemma_increasing_lower(s, i - 1);
        assert(s[i - 1] < s[i]);
    }
}

/// Each element of an increasing sequence falls short of the last by at
/// least its distance from the end.
proof fn lemma_increasing_upper(s: Seq<u32>, i: int)
    requires
        increasing(s),
        0 <= i < s.len(),
    ensures
        s[i] + (s.len() - 1 - i) <= s[s.len() - 1],
    decreases s.len() - i,
{
    if i < s.len() - 1 {
        lemma_increasing_upper(s, i + 1);
        assert(s[i] < s[i + 1]);
    }
}

/// Seven weekdays listed are all of them.
proof fn lemma_full_weekdays(sc: ScheduleView)
    requires
        sc.wf(),
        sc.weekdays.len() == 7,
    ensures
        forall|d: u32| d < 7 ==> #[trigger] sc.weekdays.contains(d),
{
    let ws = sc.weekdays;
    assert forall|d: u32| d < 7 implies #[trigger] ws.contains(d) by {
        lemma_increasing_lower(ws, d as int);
        lemma_increasing_upper(ws, d as int);
        assert(ws[d as int] == d);
    }
}

/// The fields of a well-formed schedule are increasing.
proof fn lemma_wf_increasing(sc: ScheduleView)
    requires
        sc.wf(),
    ensures
        increasing(sc.minutes),
        increasing(sc.hours),
        increasing(sc.days),
        increasing(sc.months),
        increasing(sc.weekdays),
        1 <= sc.months[0] <= 12,
        1 <= sc.days[0] <= 31,
        sc.hours[0] <= 23,
        sc.minutes[0] <= 59,
        sc.months.contains(sc.months[0]),
        sc.days.contains(sc.days[0]),
        sc.hours.contains(sc.hours[0]),
        sc.minutes.contains(sc.minutes[0]),
        forall|y: u32| sc.months.contains(y) ==> sc.months[0] <= y,
        forall|y: u32| sc.days.contains(y) ==> sc.days[0] <= y,
        forall|y: u32| sc.hours.contains(y) ==> sc.hours[0] <= y,
        forall|y: u32| sc.minutes.contains(y) ==> sc.minutes[0] <= y,
{
    lemma_first_listed(sc.months);
    lemma_first_listed(sc.days);
    lemma_first_listed(sc.hours);
    lemma_first_listed(sc.minutes);
}

/// Moving to the start of the next month moves forward.
proof fn lemma_next_month_start(t: SnowTime)
    requires
        searchable(t),
        t.tm_year < HORIZON_YEAR + 2,
    ensures
        searchable(next_month_start(t)),
        minute_key(next_month_start(t)) > minute_key(t),
        next_month_start(t).tm_year <= t.tm_year + 1,
{
}

/// A day advance at midnight moves forward.
proof fn lemma_advance_day(t: SnowTime)
    requires
        searchable(t),
        t.tm_year < HORIZON_YEAR + 2,
    ensures
        searchable(advance_day(t)),
        minute_key(advance_day(t)) > minute_key(t) - t.tm_hour * 60 - t.tm_min,
        advance_day(t).tm_year <= t.tm_year + 1,
{
    lemma_trem_small(t.tm_wday + 1, 7);
    lemma_trem_small(t.tm_yday + 1, year_length(t.tm_year + 1900));
}

/// Two gaps without a listed minute that meet make one.
proof fn lemma_none_listed_join(sc: ScheduleView, lo: int, mid: int, hi: int)
    requires
        none_listed_between(sc, lo, mid),
        none_listed_between(sc, mid, hi),
    ensures
        none_listed_between(sc, lo, hi),
{
    assert forall|u: SnowTime| #[trigger] is_match(sc, u) implies minute_key(u) < lo || minute_key(
        u,
    ) >= hi by {
        assert(minute_key(u) < lo || minute_key(u) >= mid);
        assert(minute_key(u) < mid || minute_key(u) >= hi);
    }
}

/// What the month stage does to a searchable time: it moves forward past no
/// listed minute, answers only with a listed minute, and goes on only with a
/// listed month.
proof fn lemma_month_stage(sc: ScheduleView, t: SnowTime)
    requires
        sc.wf(),
        searchable(t),
        t.tm_year < HORIZON_YEAR,
    ensures
        ({
            let (r, t2) = month_stage(sc, t);
            &&& searchable(t2)
            &&& t2.tm_year <= t.tm_year + 1
            &&& minute_key(t2) >= minute_key(t)
            &&& none_listed_between(sc, minute_key(t), minute_key(t2))
            &&& (r is Missed ==> minute_key(t2) > minute_key(t))
            &&& (!(r is Missed) ==> t2.tm_year == t.tm_year && sc.months.contains(
                (t2.tm_mon + 1) as u32,
            ))
            &&& (r matches DateTimeMatch::AnswerFound(a) ==> a == t2 && is_match(sc, a) && a.tm_sec
                == 0)
        }),
{
    lemma_wf_increasing(sc);
    let months = sc.months;
    let test_month = t.tm_mon + 1;
    let (r, t2) = month_stage(sc, t);
    if !months.contains(test_month as u32) {
        lemma_insertion_point(months, test_month);
        lemma_next_listed(months, test_month);
        let pos = insertion_point(months, test_month);
        if pos < months.len() {
            assert(months[pos] != test_month);
            assert(months.contains(months[pos]));
            if sc.weekdays.len() == 7 {
                lemma_full_weekdays(sc);
                lemma_weekday_range(t2.tm_year + 1900, t2.tm_mon + 1, t2.tm_mday as int);
            }
        }
        assert forall|u: SnowTime| #[trigger] is_match(sc, u) implies minute_key(u) < minute_key(t)
            || minute_key(u) >= minute_key(t2) by {
            lemma_key_order(u, t);
            lemma_key_order(u, t2);
            assert(sc.months.contains((u.tm_mon + 1) as u32));
        }
    }
}

/// What the day stage does to a searchable time whose month is listed: it
/// moves forward past no listed minute, answers only with a listed minute,
/// and goes on only with a listed day that lies within the month.
proof fn lemma_day_stage(sc: ScheduleView, t: SnowTime)
    requires
        sc.wf(),
        searchable(t),
        t.tm_year < HORIZON_YEAR,
        sc.months.contains((t.tm_mon + 1) as u32),
    ensures
        ({
            let (r, t2) = day_stage(sc, t);
            &&& searchable(t2)
            &&& t2.tm_year <= t.tm_year + 1
            &&& minute_key(t2) >= minute_key(t)
            &&& none_listed_between(sc, minute_key(t), minute_key(t2))
            &&& (r is Missed ==> minute_key(t2) > minute_key(t))
            &&& (!(r is Missed) ==> t2.tm_year == t.tm_year && t2.tm_mon == t.tm_mon
                && sc.days.contains(t2.tm_mday as u32) && t2.tm_mday <= month_length(
                t2.tm_mon + 1,
                t2.tm_year + 1900,
            ))
            &&& (r matches DateTimeMatch::AnswerFound(a) ==> a == t2 && is_match(sc, a) && a.tm_sec
                == 0)
        }),
{
    lemma_wf_increasing(sc);
    let days = sc.days;
    let (r, t2) = day_stage(sc, t);
    lemma_next_month_start(t);
    lemma_next_listed(days, t.tm_mday as int);
    let pos = insertion_point(days, t.tm_mday as int);
    if !days.contains(t.tm_mday as u32) {
        lemma_insertion_point(days, t.tm_mday as int);
        if pos < days.len() {
            assert(days[pos] != t.tm_mday);
            assert(days.contains(days[pos]));
            if sc.weekdays.len() == 7 {
                lemma_full_weekdays(sc);
                lemma_weekday_range(t2.tm_year + 1900, t2.tm_mon + 1, t2.tm_mday as int);
            }
        }
    }
    assert forall|u: SnowTime| #[trigger] is_match(sc, u) implies minute_key(u) < minute_key(t)
        || minute_key(u) >= minute_key(t2) by {
        lemma_key_order(u, t);
        lemma_key_order(u, t2);
        assert(sc.days.contains(u.tm_mday as u32));
    }
}

/// What the weekday stage does to a searchable time whose month and day are
/// listed and whose day lies within the month: it goes on, unmoved, only
/// where the weekday is listed, and otherwise moves forward past no listed
/// minute.
proof fn lemma_weekday_stage(sc: ScheduleView, t: SnowTime)
    requires
        sc.wf(),
        searchable(t),
        t.tm_year < HORIZON_YEAR,
        sc.days.contains(t.tm_mday as u32),
        t.tm_mday <= month_length(t.tm_mon + 1, t.tm_year + 1900),
    ensures
        ({
            let (r, t2) = weekday_stage(sc, t);
            &&& searchable(t2)
            &&& t2.tm_year <= t.tm_year + 1
            &&& (r is Missed ==> minute_key(t2) > minute_key(t) && none_listed_between(
                sc,
                minute_key(t),
                minute_key(t2),
            ))
            &&& (!(r is Missed) ==> r is ContinueMatching && t2 == (SnowTime {
                tm_wday: weekday_of(t) as i32,
                ..t
            }) && weekday_listed(sc, t))
        }),
{
    lemma_wf_increasing(sc);
    lemma_listed_at_insertion_point(sc.days, t.tm_mday as u32);
    lemma_weekday_range(t.tm_year + 1900, t.tm_mon + 1, t.tm_mday as int);
    let days = sc.days;
    let idx = insertion_point(days, t.tm_mday as int);
    if idx + 1 < days.len() {
        assert(days[idx] < days[idx + 1]);
    }
    let (r, t2) = weekday_stage(sc, t);
    if r is Missed {
        assert forall|u: SnowTime| #[trigger] is_match(sc, u) implies minute_key(u) < minute_key(t)
            || minute_key(u) >= minute_key(t2) by {
            lemma_key_order(u, t);
            lemma_key_order(u, t2);
            if !(minute_key(u) < minute_key(t)) && u.tm_mday > t.tm_mday && u.tm_year == t.tm_year
                && u.tm_mon == t.tm_mon {
                let j = choose|j: int| 0 <= j < days.len() && days[j] == u.tm_mday as u32;
                assert(j > idx);
                if j > idx + 1 {
                    assert(days[idx + 1] < days[j]);
                }
            }
        }
    }
}

/// What the hour stage does to a searchable time whose date is real and
/// listed: it goes on, unmoved, only with a listed hour, answers with the
/// first listed minute of the next listed hour, or moves to the next day;
/// it passes no listed minute.
proof fn lemma_hour_stage(sc: ScheduleView, t: SnowTime)
    requires
        sc.wf(),
        searchable(t),
        t.tm_year < HORIZON_YEAR,
        sc.months.contains((t.tm_mon + 1) as u32),
        sc.days.contains(t.tm_mday as u32),
        t.tm_mday <= month_length(t.tm_mon + 1, t.tm_year + 1900),
        weekday_listed(sc, t),
    ensures
        ({
            let (r, t2) = hour_stage(sc, t);
            &&& (r is Missed ==> searchable(t2) && minute_key(t2) > minute_key(t)
                && none_listed_between(sc, minute_key(t), minute_key(t2)))
            &&& (r is ContinueMatching ==> t2 == t && sc.hours.contains(t.tm_hour as u32))
            &&& (r matches DateTimeMatch::AnswerFound(a) ==> is_match(sc, a) && a.tm_sec == 0
                && minute_key(a) > minute_key(t) && a.tm_year == t.tm_year && none_listed_between(
                sc,
                minute_key(t),
                minute_key(a),
            ))
        }),
{
    lemma_wf_increasing(sc);
    let hours = sc.hours;
    lemma_advance_day(SnowTime { tm_hour: 0, tm_min: 0, tm_sec: 0, ..t });
    lemma_next_listed(hours, t.tm_hour as int);
    let (r, t2) = hour_stage(sc, t);
    if !hours.contains(t.tm_hour as u32) {
        lemma_insertion_point(hours, t.tm_hour as int);
        let pos = insertion_point(hours, t.tm_hour as int);
        if pos < hours.len() {
            assert(hours[pos] != t.tm_hour);
            assert(hours.contains(hours[pos]));
            let a = r->AnswerFound_0;
            assert(weekday_of(a) == weekday_of(t));
            assert forall|u: SnowTime| #[trigger] is_match(sc, u) implies minute_key(u) < minute_key(
                t,
            ) || minute_key(u) >= minute_key(a) by {
                lemma_key_order(u, t);
                lemma_key_order(u, a);
                assert(sc.hours.contains(u.tm_hour as u32));
            }
        } else {
            assert forall|u: SnowTime| #[trigger] is_match(sc, u) implies minute_key(u) < minute_key(
                t,
            ) || minute_key(u) >= minute_key(t2) by {
                lemma_key_order(u, t);
                lemma_key_order(u, t2);
                assert(sc.hours.contains(u.tm_hour as u32));
            }
        }
    }
}

/// What the minute stage does to a searchable time whose date and hour are
/// real and listed: it answers with the first listed minute from the
/// current one on, or moves to the next hour; it passes no listed minute.
proof fn lemma_minute_stage(sc: ScheduleView, t: SnowTime)
    requires
        sc.wf(),
        searchable(t),
        t.tm_year < HORIZON_YEAR,
        sc.months.contains((t.tm_mon + 1) as u32),
        sc.days.contains(t.tm_mday as u32),
        t.tm_mday <= month_length(t.tm_mon + 1, t.tm_year + 1900),
        weekday_listed(sc, t),
        sc.hours.contains(t.tm_hour as u32),
    ensures
        ({
            let (r, t2) = minute_stage(sc, t);
            &&& !(r is ContinueMatching)
            &&& (r is Missed ==> searchable(t2) && minute_key(t2) > minute_key(t)
                && none_listed_between(sc, minute_key(t), minute_key(t2)))
            &&& (r matches DateTimeMatch::AnswerFound(a) ==> is_match(sc, a) && a.tm_sec == 0
                && minute_key(a) >= minute_key(t) && a.tm_year == t.tm_year && none_listed_between(
                sc,
                minute_key(t),
                minute_key(a),
            ))
        }),
{
    lemma_wf_increasing(sc);
    let minutes = sc.minutes;
    let t1 = SnowTime { tm_min: 0, tm_sec: 0, ..t };
    if t1.tm_hour + 1 > 23 {
        lemma_advance_day(SnowTime { tm_hour: 0, ..t1 });
    }
    lemma_next_listed(minutes, t.tm_min as int);
    let (r, t2) = minute_stage(sc, t);
    let end = match r {
        DateTimeMatch::AnswerFound(a) => a,
        _ => t2,
    };
    if let DateTimeMatch::AnswerFound(a) = r {
        assert(weekday_of(a) == weekday_of(t));
    }
    if !minutes.contains(t.tm_min as u32) {
        lemma_insertion_point(minutes, t.tm_min as int);
        let pos = insertion_point(minutes, t.tm_min as int);
        if pos < minutes.len() {
            assert(minutes[pos] != t.tm_min);
            assert(minutes.contains(minutes[pos]));
        }
    }
    assert forall|u: SnowTime| #[trigger] is_match(sc, u) implies minute_key(u) < minute_key(t)
        || minute_key(u) >= minute_key(end) by {
        lemma_key_order(u, t);
        lemma_key_order(u, end);
        assert(sc.minutes.contains(u.tm_min as u32));
    }
}

/// What one pass of the stages does to a searchable time: an answer that is
/// the first listed minute from the time on, or a later searchable time with
/// no listed minute before it.
pub proof fn lemma_cascade(sc: ScheduleView, t: SnowTime)
    requires
        sc.wf(),
        searchable(t),
        t.tm_year < HORIZON_YEAR,
    ensures
        ({
            let (r, t2) = cascade(sc, t);
            &&& !(r is ContinueMatching)
            &&& (r is Missed ==> searchable(t2) && minute_key(t2) > minute_key(t)
                && none_listed_between(sc, minute_key(t), minute_key(t2)))
            &&& (r matches DateTimeMatch::AnswerFound(a) ==> is_match(sc, a) && a.tm_sec == 0
                && minute_key(a) >= minute_key(t) && a.tm_year == t.tm_year && none_listed_between(
                sc,
                minute_key(t),
                minute_key(a),
            ))
        }),
{
    lemma_month_stage(sc, t);
    let (r1, t1) = month_stage(sc, t);
    if r1 is ContinueMatching {
        lemma_day_stage(sc, t1);
        let (r2, t2) = day_stage(sc, t1);
        lemma_none_listed_join(sc, minute_key(t), minute_key(t1), minute_key(t2));
        if r2 is ContinueMatching {
            lemma_weekday_stage(sc, t2);
            let (r3, t3) = weekday_stage(sc, t2);
            if !(r3 is Missed) {
                assert(weekday_of(t3) == weekday_of(t2));
                assert(minute_key(t3) == minute_key(t2));
                lemma_hour_stage(sc, t3);
                let (r4, t4) = hour_stage(sc, t3);
                if let DateTimeMatch::AnswerFound(a) = r4 {
                    lemma_none_listed_join(sc, minute_key(t), minute_key(t2), minute_key(a));
                }
                if r4 is Missed {
                    lemma_none_listed_join(sc, minute_key(t), minute_key(t2), minute_key(t4));
                }
                if r4 is ContinueMatching {
                    lemma_minute_stage(sc, t4);
                    let (r5, t5) = minute_stage(sc, t4);
                    if let DateTimeMatch::AnswerFound(a) = r5 {
                        lemma_none_listed_join(sc, minute_key(t), minute_key(t2), minute_key(a));
                    }
                    if r5 is Missed {
                        lemma_none_listed_join(sc, minute_key(t), minute_key(t2), minute_key(t5));
                    }
                }
            } else {
                lemma_none_listed_join(sc, minute_key(t), minute_key(t2), minute_key(t3));
            }
        }
    }
}

/// Moving forward from a searchable time before the horizon brings the
/// horizon closer.
pub proof fn lemma_distance_decreases(t: SnowTime, t2: SnowTime)
    requires
        searchable(t),
        searchable(t2),
        t.tm_year < HORIZON_YEAR,
        minute_key(t2) > minute_key(t),
    ensures
        0 <= distance_to_horizon(t2) < distance_to_horizon(t),
{
}

/// The first answer of the passes from `t` on, or `None` once the year
/// reaches the horizon.
pub open spec fn search(sc: ScheduleView, t: SnowTime) -> Option<SnowTime>
    decreases distance_to_horizon(t),
    when sc.wf() && (t.tm_year >= HORIZON_YEAR || searchable(t))
{
    if t.tm_year >= HORIZON_YEAR {
        None
    } else {
        let (r, t2) = cascade(sc, t);
        match r {
            DateTimeMatch::AnswerFound(a) => Some(a),
            _ => {
                proof {
                    lemma_cascade(sc, t);
                    lemma_distance_decreases(t, t2);
                }
                search(sc, t2)
            },
        }
    }
}

/// The next event of a schedule after `start`: the search from the minute
/// after `start`, with seconds dropped.
pub open spec fn next_event_time(sc: ScheduleView, start: SnowTime) -> Option<SnowTime> {
    search(sc, advance_minute(SnowTime { tm_sec: 0, ..start }))
}

/// A minute advance moves a searchable time forward, and leaves it
/// searchable or past the horizon.
proof fn lemma_advance_minute(t: SnowTime)
    requires
        searchable(t),
    ensures
        advance_minute(t).tm_year >= HORIZON_YEAR || searchable(advance_minute(t)),
        minute_key(advance_minute(t)) > minute_key(t),
        advance_minute(t).tm_year <= t.tm_year + 1,
{
    let t1 = SnowTime { tm_min: 0, ..t };
    if t.tm_min + 1 > 59 && t1.tm_hour + 1 > 23 {
        let t2 = SnowTime { tm_hour: 0, ..t1 };
        lemma_trem_small(t2.tm_wday + 1, 7);
        lemma_trem_small(t2.tm_yday + 1, year_length(t2.tm_year + 1900));
    }
}

/// Month stage.
fn try_month(times: &ScheduleComponents, time: &mut SnowTime) -> (r: DateTimeMatch)
    requires
        times.wf(),
        searchable(*old(time)),
        old(time).tm_year < HORIZON_YEAR,
    ensures
        (r, *final(time)) == month_stage(times@, *old(time)),
{
    proof {
        lemma_wf_increasing(times@);
    }
    // Months of the time are [0, 11], months of the schedule [1, 12].
    let test_month = (time.tm_mon + 1) as u32;
    match find_value(&times.months, test_month) {
        Ok(_) => DateTimeMatch::ContinueMatching,
        Err(pos) => {
            if pos < times.months.len() {
                let month = times.months[pos];
                time.tm_mon = (month - 1) as i32;
                time.tm_mday = times.days[0] as i32;
                time.tm_hour = times.hours[0] as i32;
                time.tm_min = times.minutes[0] as i32;
                time.tm_sec = 0;
                let max_mday = days_in_month(time.tm_mon + 1, time.tm_year + 1900);
                if time.tm_mday > max_mday {
                    // The first listed day is past the end of this month:
                    // start over, and the day stage moves to the next month.
                    return DateTimeMatch::Missed;
                }
                if times.weekdays.len() == 7 {
                    DateTimeMatch::AnswerFound(*time)
                } else {
                    DateTimeMatch::ContinueMatching
                }
            } else {
                // No listed month is left this year: take the first one of the next.
                time.tm_year = time.tm_year + 1;
                time.tm_mon = (times.months[0] - 1) as i32;
                time.tm_mday = times.days[0] as i32;
                time.tm_hour = times.hours[0] as i32;
                time.tm_min = times.minutes[0] as i32;
                time.tm_sec = 0;
                DateTimeMatch::Missed
            }
        },
    }
}

/// Day-of-month stage.
fn try_day(times: &ScheduleComponents, time: &mut SnowTime) -> (r: DateTimeMatch)
    requires
        times.wf(),
        searchable(*old(time)),
        old(time).tm_year < HORIZON_YEAR,
    ensures
        (r, *final(time)) == day_stage(times@, *old(time)),
{
    proof {
        lemma_wf_increasing(times@);
    }
    let max_mday = days_in_month(time.tm_mon + 1, time.tm_year + 1900);
    match find_value(&times.days, time.tm_mday as u32) {
        Ok(_) => {
            if time.tm_mday <= max_mday {
                return DateTimeMatch::ContinueMatching;
            }
        },
        Err(pos) => {
            if pos < times.days.len() && (times.days[pos] as i32) <= max_mday {
                time.tm_mday = times.days[pos] as i32;
                time.tm_hour = times.hours[0] as i32;
                time.tm_min = times.minutes[0] as i32;
                time.tm_sec = 0;
                if times.weekdays.len() == 7 {
                    return DateTimeMatch::AnswerFound(*time);
                } else {
                    return DateTimeMatch::ContinueMatching;
                }
            }
        },
    }
    // No listed day is left in this month.
    time.tm_mday = 1;
    time.tm_hour = 0;
    time.tm_min = 0;
    time.tm_sec = 0;
    adv_month(time);
    DateTimeMatch::Missed
}

/// Weekday stage; the day of the month is one that the schedule lists.
fn try_weekday(times: &ScheduleComponents, time: &mut SnowTime) -> (r: DateTimeMatch)
    requires
        times.wf(),
        searchable(*old(time)),
        old(time).tm_year < HORIZON_YEAR,
        times@.days.contains(old(time).tm_mday as u32),
    ensures
        (r, *final(time)) == weekday_stage(times@, *old(time)),
{
    proof {
        lemma_wf_increasing(times@);
        lemma_listed_at_insertion_point(times@.days, old(time).tm_mday as u32);
    }
    time.tm_wday = day_of_the_week(time.tm_year + 1900, time.tm_mon + 1, time.tm_mday);
    if find_value(&times.weekdays, time.tm_wday as u32).is_ok() {
        DateTimeMatch::ContinueMatching
    } else {
        let current_day_index = match find_value(&times.days, time.tm_mday as u32) {
            Ok(i) => i,
            Err(p) => p,
        };
        proof {
            let ip = insertion_point(times@.days, time.tm_mday as int);
            if current_day_index != ip {
                assert(times@.days[current_day_index as int] == times@.days[ip]);
            }
        }
        let n = times.days.len();
        assert(current_day_index < n);
        let max_mday = days_in_month(time.tm_mon + 1, time.tm_year + 1900);
        if current_day_index + 1 < n && (times.days[current_day_index + 1] as i32) <= max_mday {
            time.tm_mday = times.days[current_day_index + 1] as i32;
        } else {
            time.tm_mday = 1;
            adv_month(time);
        }
        time.tm_hour = 0;
        time.tm_min = 0;
        time.tm_sec = 0;
        DateTimeMatch::Missed
    }
}

/// Hour stage.
fn try_hour(times: &ScheduleComponents, time: &mut SnowTime) -> (r: DateTimeMatch)
    requires
        times.wf(),
        searchable(*old(time)),
        old(time).tm_year < HORIZON_YEAR,
    ensures
        (r, *final(time)) == hour_stage(times@, *old(time)),
{
    proof {
        lemma_wf_increasing(times@);
    }
    match find_value(&times.hours, time.tm_hour as u32) {
        Ok(_) => DateTimeMatch::ContinueMatching,
        Err(pos) => {
            if pos < times.hours.len() {
                let mut use_time = *time;
                use_time.tm_hour = times.hours[pos] as i32;
                use_time.tm_min = times.minutes[0] as i32;
                use_time.tm_sec = 0;
                DateTimeMatch::AnswerFound(use_time)
            } else {
                time.tm_hour = 0;
                time.tm_min = 0;
                time.tm_sec = 0;
                adv_day(time);
                DateTimeMatch::Missed
            }
        },
    }
}

/// Minute stage.
fn try_minute(times: &ScheduleComponents, time: &mut SnowTime) -> (r: DateTimeMatch)
    requires
        times.wf(),
        searchable(*old(time)),
        old(time).tm_year < HORIZON_YEAR,
    ensures
        (r, *final(time)) == minute_stage(times@, *old(time)),
{
    proof {
        lemma_wf_increasing(times@);
    }
    match find_value(&times.minutes, time.tm_min as u32) {
        Ok(_) => {
            let mut use_time = *time;
            use_time.tm_sec = 0;
            DateTimeMatch::AnswerFound(use_time)
        },
        Err(pos) => {
            if pos < times.minutes.len() {
                let mut use_time = *time;
                use_time.tm_min = times.minutes[pos] as i32;
                use_time.tm_sec = 0;
                DateTimeMatch::AnswerFound(use_time)
            } else {
                time.tm_min = 0;
                time.tm_sec = 0;
                adv_hour(time);
                DateTimeMatch::Missed
            }
        },
    }
}

/// Searches forward from the minute after `time` for the first instant that
/// the schedule lists, up to the horizon year.
pub fn calculate_next_event(times: &ScheduleComponents, time: &SnowTime) -> (r: Option<SnowTime>)
    requires
        times.wf(),
        searchable(*time),
    ensures
        r == next_event_time(times@, *time),
        is_first_match_after(times@, *time, r),
{
    proof {
        lemma_next_event_is_first_match(times@, *time);
    }
    let mut next_time = *time;
    // Minute resolution: always round up to the next minute.
    next_time.tm_sec = 0;
    proof {
        lemma_advance_minute(next_time);
    }
    adv_minute(&mut next_time);
    loop
        invariant
            times.wf(),
            next_time.tm_year >= HORIZON_YEAR || searchable(next_time),
            search(times@, next_time) == next_event_time(times@, *time),
            is_first_match_after(times@, *time, next_event_time(times@, *time)),
        decreases distance_to_horizon(next_time),
    {
        if next_time.tm_year >= HORIZON_YEAR {
            return None;
        }
        let ghost start = next_time;
        proof {
            lemma_cascade(times@, start);
            lemma_month_stage(times@, start);
            let (r, t2) = cascade(times@, start);
            if r is Missed {
                lemma_distance_decreases(start, t2);
            }
        }
        match try_month(times, &mut next_time) {
            DateTimeMatch::Missed => continue,
            DateTimeMatch::ContinueMatching => {},
            DateTimeMatch::AnswerFound(upcoming) => return Some(upcoming),
        }
        proof {
            lemma_day_stage(times@, next_time);
        }
        match try_day(times, &mut next_time) {
            DateTimeMatch::Missed => continue,
            DateTimeMatch::ContinueMatching => {},
            DateTimeMatch::AnswerFound(upcoming) => return Some(upcoming),
        }
        proof {
            lemma_weekday_stage(times@, next_time);
        }
        match try_weekday(times, &mut next_time) {
            DateTimeMatch::Missed => continue,
            _ => {},
        }
        proof {
            lemma_hour_stage(times@, next_time);
        }
        match try_hour(times, &mut next_time) {
            DateTimeMatch::Missed => continue,
            DateTimeMatch::ContinueMatching => {},
            DateTimeMatch::AnswerFound(upcoming) => return Some(upcoming),
        }
        proof {
            lemma_minute_stage(times@, next_time);
        }
        match try_minute(times, &mut next_time) {
            DateTimeMatch::Missed => continue,
            DateTimeMatch::ContinueMatching => return Some(next_time),
            DateTimeMatch::AnswerFound(upcoming) => return Some(upcoming),
        }
    }
}

/// Whether the search may start from `t`.
pub fn is_searchable(t: &SnowTime) -> (r: bool)
    ensures
        r == searchable(*t),
{
    0 <= t.tm_min && t.tm_min <= 59 && 0 <= t.tm_hour && t.tm_hour <= 23 && 1 <= t.tm_mday
        && t.tm_mday <= 31 && 0 <= t.tm_mon && t.tm_mon <= 11 && t.tm_year < i32::MAX - 1903
        && t.tm_wday < i32::MAX && t.tm_yday < i32::MAX
}

/// Represents a crontab schedule.
#[derive(Clone, Debug)]
pub struct SnowSchedule {
    /// The components parsed from a crontab schedule.
    pub schedule: ScheduleComponents,
}

impl SnowSchedule {
    /// Parse a crontab schedule.
    pub fn parse(crontab_schedule: &str) -> (r: Result<SnowSchedule, CrontabError>)
        ensures
            r is Ok <==> cron_fields(crontab_schedule@) is Ok,
            r matches Ok(s) ==> cron_fields(crontab_schedule@) == Ok::<ScheduleView, ParseFailure>(
                s.schedule@,
            ) && s.schedule.wf() && s.schedule.seconds@.len() == 0,
            r matches Err(e) ==> cron_fields(crontab_schedule@) == Err::<ScheduleView, ParseFailure>(
                failure_of(e),
            ),
    {
        let schedule = parse_cron(crontab_schedule)?;
        Ok(SnowSchedule { schedule: schedule })
    }

    /// The first real calendar minute after `start_time` that the schedule
    /// lists, with zero seconds, or `None` if there is none before the
    /// horizon year.
    pub fn next_event(&self, start_time: &SnowTime) -> (r: Option<SnowTime>)
        requires
            self.schedule.wf(),
            searchable(*start_time),
        ensures
            is_first_match_after(self.schedule@, *start_time, r),
            r == next_event_time(self.schedule@, *start_time),
    {
        calculate_next_event(&self.schedule, start_time)
    }
}

/// What the search from a time finds: the first listed minute from that time
/// on, before the horizon; or, where it finds nothing, there is no such
/// minute.
proof fn lemma_search(sc: ScheduleView, t: SnowTime)
    requires
        sc.wf(),
        in_range(t),
        t.tm_year >= HORIZON_YEAR || searchable(t),
    ensures
        search(sc, t) matches Some(a) ==> is_match(sc, a) && a.tm_sec == 0 && minute_key(a)
            >= minute_key(t) && a.tm_year < HORIZON_YEAR && none_listed_between(
            sc,
            minute_key(t),
            minute_key(a),
        ),
        search(sc, t) is None ==> none_listed_between(sc, minute_key(t), horizon_key()),
    decreases distance_to_horizon(t),
{
    if t.tm_year < HORIZON_YEAR {
        lemma_cascade(sc, t);
        let (r, t2) = cascade(sc, t);
        if r is Missed {
            lemma_distance_decreases(t, t2);
            lemma_search(sc, t2);
            if search(sc, t2) is Some {
                lemma_none_listed_join(
                    sc,
                    minute_key(t),
                    minute_key(t2),
                    minute_key(search(sc, t2)->0),
                );
            } else {
                lemma_key_order(t2, t2);
                if minute_key(t2) <= horizon_key() {
                    lemma_none_listed_join(sc, minute_key(t), minute_key(t2), horizon_key());
                }
            }
        }
    } else {
        lemma_key_order(t, t);
    }
}

/// No real calendar minute lies strictly between a time and the minute after it.
proof fn lemma_advance_minute_gap(sc: ScheduleView, t: SnowTime)
    requires
        searchable(t),
    ensures
        in_range(advance_minute(t)),
        none_listed_between(sc, minute_key(t) + 1, minute_key(advance_minute(t))),
{
    lemma_advance_minute(t);
    let t2 = advance_minute(t);
    assert forall|u: SnowTime| #[trigger] is_match(sc, u) implies minute_key(u) < minute_key(t) + 1
        || minute_key(u) >= minute_key(t2) by {
        lemma_key_order(t, u);
        lemma_key_order(u, t2);
    }
}

/// Whether `r` is the first minute after `start`, by year, month, day, hour
/// and minute, that is a real calendar minute the schedule lists and lies
/// before the horizon year, with zero seconds; or `None` where there is no
/// such minute.
pub open spec fn is_first_match_after(sc: ScheduleView, start: SnowTime, r: Option<SnowTime>) -> bool {
    match r {
        Some(a) => {
            &&& is_match(sc, a)
            &&& a.tm_sec == 0
            &&& earlier(start, a)
            &&& a.tm_year < HORIZON_YEAR
            &&& forall|u: SnowTime|
                #[trigger] is_match(sc, u) && earlier(start, u) && earlier(u, a) ==> false
        },
        None => forall|u: SnowTime|
            #[trigger] is_match(sc, u) && earlier(start, u) ==> u.tm_year >= HORIZON_YEAR,
    }
}

/// The next event of a schedule is the first listed real calendar minute
/// after the start and before the horizon year, and there is none exactly
/// when no such minute exists. Day of the month and weekday must both be
/// listed.
pub proof fn lemma_next_event_is_first_match(sc: ScheduleView, start: SnowTime)
    requires
        sc.wf(),
        searchable(start),
    ensures
        is_first_match_after(sc, start, next_event_time(sc, start)),
{
    let s0 = SnowTime { tm_sec: 0, ..start };
    lemma_advance_minute(s0);
    lemma_advance_minute_gap(sc, s0);
    let t0 = advance_minute(s0);
    lemma_search(sc, t0);
    lemma_key_order(start, s0);
    lemma_key_order(s0, start);
    match search(sc, t0) {
        Some(a) => {
            lemma_none_listed_join(sc, minute_key(s0) + 1, minute_key(t0), minute_key(a));
            lemma_key_order(start, a);
            assert forall|u: SnowTime|
                #[trigger] is_match(sc, u) && earlier(start, u) && earlier(u, a) implies false by {
                lemma_key_order(start, u);
                lemma_key_order(u, a);
            }
        },
        None => {
            lemma_key_order(t0, t0);
            if minute_key(t0) <= horizon_key() {
                lemma_none_listed_join(sc, minute_key(s0) + 1, minute_key(t0), horizon_key());
            }
            assert forall|u: SnowTime| #[trigger] is_match(sc, u) && earlier(start, u) implies u.tm_year
                >= HORIZON_YEAR by {
                lemma_key_order(start, u);
                lemma_key_order(u, u);
            }
        },
    }
}

/// A schedule that lists only February and only days of the month from 30
/// on has no next event, whatever the start: February never has such a day.
pub proof fn lemma_february_has_no_day_30(sc: ScheduleView, start: SnowTime)
    requires
        sc.wf(),
        sc.months == seq![2u32],
        forall|i: int| 0 <= i < sc.days.len() ==> sc.days[i] >= 30,
        searchable(start),
    ensures
        next_event_time(sc, start) is None,
{
    lemma_next_event_is_first_match(sc, start);
    if let Some(a) = next_event_time(sc, start) {
        assert(sc.months.contains((a.tm_mon + 1) as u32));
        assert(a.tm_mon == 1);
        let j = choose|j: int| 0 <= j < sc.days.len() && sc.days[j] == a.tm_mday as u32;
        assert(sc.days[j] >= 30);
    }
}

} // verus!
