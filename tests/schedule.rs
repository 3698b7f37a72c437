use snow_util::{calculate_next_execution_time, parse_cron, SnowSchedule, SnowTime};

/// Days from 1970-01-01 to a civil date.
fn days_from_civil(y: i64, m: i64, d: i64) -> i64 {
    let y = if m <= 2 { y - 1 } else { y };
    let era = if y >= 0 { y } else { y - 399 } / 400;
    let yoe = y - era * 400;
    let mp = (m + 9) % 12;
    let doy = (153 * mp + 2) / 5 + d - 1;
    let doe = yoe * 365 + yoe / 4 - yoe / 100 + doy;
    era * 146_097 + doe - 719_468
}

/// The civil date of a day count from 1970-01-01.
fn civil_from_days(z: i64) -> (i64, i64, i64) {
    let z = z + 719_468;
    let era = if z >= 0 { z } else { z - 146_096 } / 146_097;
    let doe = z - era * 146_097;
    let yoe = (doe - doe / 1460 + doe / 36_524 - doe / 146_096) / 365;
    let y = yoe + era * 400;
    let doy = doe - (365 * yoe + yoe / 4 - yoe / 100);
    let mp = (5 * doy + 2) / 153;
    let d = doy - (153 * mp + 2) / 5 + 1;
    let m = if mp < 10 { mp + 3 } else { mp - 9 };
    (if m <= 2 { y + 1 } else { y }, m, d)
}

/// Seconds after the epoch of a "YYYY-MM-DD HH:MM:SS" UTC time.
fn to_timestamp(date: &str) -> i64 {
    let n: Vec<i64> = date
        .split(|c: char| c == '-' || c == ' ' || c == ':')
        .map(|p| p.parse::<i64>().unwrap())
        .collect();
    days_from_civil(n[0], n[1], n[2]) * 86_400 + n[3] * 3600 + n[4] * 60 + n[5]
}

/// A timestamp as a "YYYY-MM-DD HH:MM:SS" UTC time.
fn to_datetime(ts: i64) -> String {
    let days = ts.div_euclid(86_400);
    let secs = ts.rem_euclid(86_400);
    let (y, m, d) = civil_from_days(days);
    format!(
        "{:04}-{:02}-{:02} {:02}:{:02}:{:02}",
        y,
        m,
        d,
        secs / 3600,
        secs % 3600 / 60,
        secs % 60
    )
}

#[test]
fn test_first_of_the_month() {
    let cron = SnowSchedule::parse("0 0 1 * *").unwrap();
    let from_ts = to_timestamp("2021-11-29 01:16:40");
    let next_execution = cron.next_event(&SnowTime::from_time_ts(from_ts)).unwrap();

    assert_eq!(
        to_datetime(next_execution.to_time_ts(0).unwrap()),
        "2021-12-01 00:00:00"
    );
}

#[test]
fn test_feb_28th() {
    let cron = SnowSchedule::parse("15 7 28 2 *").unwrap();
    let from_ts = to_timestamp("2021-11-29 01:16:40");
    let next_execution = cron.next_event(&SnowTime::from_time_ts(from_ts)).unwrap();

    assert_eq!(
        to_datetime(next_execution.to_time_ts(0).unwrap()),
        "2022-02-28 07:15:00"
    );
}

#[test]
fn test_feb_29th() {
    let cron = SnowSchedule::parse("15 7 29 2 *").unwrap();
    let from_ts = to_timestamp("2021-11-29 01:16:40");
    let next_execution = cron.next_event(&SnowTime::from_time_ts(from_ts)).unwrap();

    assert_eq!(
        to_datetime(next_execution.to_time_ts(0).unwrap()),
        "2024-02-29 07:15:00"
    );
}

#[test]
fn test_out_day_of_month_range() {
    let cron = SnowSchedule::parse("* * 30,31 2 *").unwrap();
    let from_ts = to_timestamp("2021-11-29 01:16:40");
    assert!(cron.next_event(&SnowTime::from_time_ts(from_ts)).is_none());

    let cron = SnowSchedule::parse("* * 31 4,6,9,11 *").unwrap();
    let from_ts = to_timestamp("2021-11-29 01:16:40");
    assert!(cron.next_event(&SnowTime::from_time_ts(from_ts)).is_none());
}

#[test]
fn test_next_year() {
    let cron = SnowSchedule::parse("* * * 1 *").unwrap();
    let from_ts = to_timestamp("2021-11-29 01:16:40");
    let next_execution = cron.next_event(&SnowTime::from_time_ts(from_ts)).unwrap();

    assert_eq!(
        to_datetime(next_execution.to_time_ts(0).unwrap()),
        "2022-01-01 00:00:00"
    );
}

#[test]
fn test_next_month() {
    let cron = SnowSchedule::parse("* * * 12 *").unwrap();
    let from_ts = to_timestamp("2021-11-29 01:16:40");
    let next_execution = cron.next_event(&SnowTime::from_time_ts(from_ts)).unwrap();
    assert_eq!(
        to_datetime(next_execution.to_time_ts(0).unwrap()),
        "2021-12-01 00:00:00"
    );

    let cron = SnowSchedule::parse("* * 25 * *").unwrap();
    let from_ts = to_timestamp("2021-11-29 01:16:40");
    let next_execution = cron.next_event(&SnowTime::from_time_ts(from_ts)).unwrap();
    assert_eq!(
        to_datetime(next_execution.to_time_ts(0).unwrap()),
        "2021-12-25 00:00:00"
    );
}

#[test]
fn test_next_day() {
    let cron = SnowSchedule::parse("55 2 30 * *").unwrap();
    let from_ts = to_timestamp("2021-11-29 01:16:40");
    let next_execution = cron.next_event(&SnowTime::from_time_ts(from_ts)).unwrap();
    assert_eq!(
        to_datetime(next_execution.to_time_ts(0).unwrap()),
        "2021-11-30 02:55:00"
    );

    let cron = SnowSchedule::parse("1 1 * * *").unwrap();
    let from_ts = to_timestamp("2021-11-29 01:16:40");
    let next_execution = cron.next_event(&SnowTime::from_time_ts(from_ts)).unwrap();
    assert_eq!(
        to_datetime(next_execution.to_time_ts(0).unwrap()),
        "2021-11-30 01:01:00"
    );
}

#[test]
fn test_next_hour() {
    let cron = SnowSchedule::parse("* 2 * * *").unwrap();
    let from_ts = to_timestamp("2021-11-29 01:16:40");
    let next_execution = cron.next_event(&SnowTime::from_time_ts(from_ts)).unwrap();
    assert_eq!(
        to_datetime(next_execution.to_time_ts(0).unwrap()),
        "2021-11-29 02:00:00"
    );

    let cron = SnowSchedule::parse("15 * * * *").unwrap();
    let from_ts = to_timestamp("2021-11-29 01:16:40");
    let next_execution = cron.next_event(&SnowTime::from_time_ts(from_ts)).unwrap();
    assert_eq!(
        to_datetime(next_execution.to_time_ts(0).unwrap()),
        "2021-11-29 02:15:00"
    );
}

#[test]
fn test_next_minutes() {
    let cron = SnowSchedule::parse("21 * * * *").unwrap();
    let from_ts = to_timestamp("2021-11-29 01:16:40");
    let next_execution = cron.next_event(&SnowTime::from_time_ts(from_ts)).unwrap();
    assert_eq!(
        to_datetime(next_execution.to_time_ts(0).unwrap()),
        "2021-11-29 01:21:00"
    );

    let cron = SnowSchedule::parse("*/5 * * * *").unwrap();
    let from_ts = to_timestamp("2021-11-29 01:16:40");
    let next_execution = cron.next_event(&SnowTime::from_time_ts(from_ts)).unwrap();
    assert_eq!(
        to_datetime(next_execution.to_time_ts(0).unwrap()),
        "2021-11-29 01:20:00"
    );
}

#[test]
fn test_next_weekday() {
    // Find next Tuesday
    let cron = SnowSchedule::parse("* * * * 2").unwrap();
    let from_ts = to_timestamp("2021-11-29 01:16:40"); // Monday
    let next_execution = cron.next_event(&SnowTime::from_time_ts(from_ts)).unwrap();
    assert_eq!(
        to_datetime(next_execution.to_time_ts(0).unwrap()),
        "2021-11-30 00:00:00"
    );

    // Find next Saturday
    let cron = SnowSchedule::parse("* * * * 6").unwrap();
    let from_ts = to_timestamp("2021-11-29 01:16:40"); // Monday
    let next_execution = cron.next_event(&SnowTime::from_time_ts(from_ts)).unwrap();
    assert_eq!(
        to_datetime(next_execution.to_time_ts(0).unwrap()),
        "2021-12-04 00:00:00"
    );

    // Find next Monday
    let cron = SnowSchedule::parse("0 1 * * 1").unwrap();
    let from_ts = to_timestamp("2021-11-29 01:16:40"); // Monday
    let next_execution = cron.next_event(&SnowTime::from_time_ts(from_ts)).unwrap();
    assert_eq!(
        to_datetime(next_execution.to_time_ts(0).unwrap()),
        "2021-12-06 01:00:00"
    );

    // Find next Friday, Feb 29th
    let cron = SnowSchedule::parse("0 8 29 2 5").unwrap();
    let from_ts = to_timestamp("2021-11-29 01:16:40"); // Monday
    let next_execution = cron.next_event(&SnowTime::from_time_ts(from_ts)).unwrap();
    assert_eq!(
        to_datetime(next_execution.to_time_ts(0).unwrap()),
        "2036-02-29 08:00:00"
    );
}

#[test]
fn february_thirtieth_is_never_reached() {
    let s = parse_cron("* * 30,31 2 *").unwrap();
    assert_eq!(s.months, vec![2]);
    assert_eq!(s.days, vec![30, 31]);
    let cron = SnowSchedule::parse("* * 30,31 2 *").unwrap();
    for ts in [0i64, 951_782_400, 1_638_148_600, 1_709_164_800, 4_000_000_000].iter() {
        assert!(cron.next_event(&SnowTime::from_time_ts(*ts)).is_none());
    }
}

#[test]
fn the_start_minute_itself_is_never_returned() {
    let cron = SnowSchedule::parse("* * * * *").unwrap();
    let start = to_timestamp("2021-11-29 01:16:00");
    let next = cron.next_event(&SnowTime::from_time_ts(start)).unwrap();
    assert_eq!(to_datetime(next.to_time_ts(0).unwrap()), "2021-11-29 01:17:00");
    assert_eq!(next.tm_sec, 0);
}

#[test]
fn day_and_weekday_restrictions_both_apply() {
    // The 13th that is a Friday.
    let cron = SnowSchedule::parse("0 0 13 * 5").unwrap();
    let next = cron
        .next_event(&SnowTime::from_time_ts(to_timestamp("2021-11-29 01:16:40")))
        .unwrap();
    assert_eq!(to_datetime(next.to_time_ts(0).unwrap()), "2022-05-13 00:00:00");
}

#[test]
fn the_search_stops_at_the_horizon() {
    let cron = SnowSchedule::parse("* * * * *").unwrap();
    assert!(cron
        .next_event(&SnowTime::from_time_ts(to_timestamp("2099-12-31 23:59:00")))
        .is_none());
    let next = cron
        .next_event(&SnowTime::from_time_ts(to_timestamp("2099-12-31 23:58:00")))
        .unwrap();
    assert_eq!(to_datetime(next.to_time_ts(0).unwrap()), "2099-12-31 23:59:00");
}

#[test]
fn next_execution_for_a_recurring_flow() {
    // "0 10 1 * *" in a zone 11 hours behind UTC, from 2022-02-10.
    assert_eq!(
        calculate_next_execution_time("0 10 1 * *", -39600, 1644466423),
        Some(1646089200)
    );
}

#[test]
fn next_execution_of_a_blank_schedule_is_zero() {
    assert_eq!(calculate_next_execution_time("", 0, 1644466423), Some(0));
    assert_eq!(calculate_next_execution_time("   ", 3600, 1644466423), Some(0));
}

#[test]
fn next_execution_fails_without_an_answer() {
    assert_eq!(calculate_next_execution_time("* * 30 2 *", 0, 1644466423), None);
    assert_eq!(calculate_next_execution_time("61 * * * *", 0, 1644466423), None);
    assert_eq!(calculate_next_execution_time("0 0 * * *", 90_000, 1644466423), None);
    assert_eq!(calculate_next_execution_time("0 0 * * *", 0, -5), None);
    assert_eq!(calculate_next_execution_time("0 0 * * *", 1, i64::MIN), None);
}

#[test]
fn next_execution_with_utc() {
    assert_eq!(
        calculate_next_execution_time("*/5 * * * *", 0, to_timestamp("2021-11-29 01:16:40")),
        Some(to_timestamp("2021-11-29 01:20:00"))
    );
}

#[test]
fn a_start_on_february_thirtieth_finds_nothing() {
    // A start on a day that the month does not have is moved past, not matched.
    let cron = SnowSchedule::parse("* * 30,31 2 *").unwrap();
    assert!(cron.next_event(&SnowTime::get_tm(2021, 2, 30, 0, 0, 0)).is_none());
    assert!(cron.next_event(&SnowTime::get_tm(2021, 2, 30, 23, 59, 0)).is_none());
}

#[test]
fn a_listed_day_past_the_month_end_does_not_skip_a_year() {
    let cron = SnowSchedule::parse("0 0 30 2,3 *").unwrap();
    let next = cron
        .next_event(&SnowTime::from_time_ts(to_timestamp("2021-12-15 00:00:00")))
        .unwrap();
    assert_eq!(to_datetime(next.to_time_ts(0).unwrap()), "2022-03-30 00:00:00");
}

#[test]
fn a_match_in_the_last_year_before_the_horizon_is_found() {
    let cron = SnowSchedule::parse("0 0 30 2,3 *").unwrap();
    let next = cron
        .next_event(&SnowTime::from_time_ts(to_timestamp("2098-12-15 00:00:00")))
        .unwrap();
    assert_eq!(to_datetime(next.to_time_ts(0).unwrap()), "2099-03-30 00:00:00");
}

#[test]
fn a_weekday_miss_never_lands_on_a_day_the_month_lacks() {
    // April 30 on a Sunday; April has no 31st.
    let cron = SnowSchedule::parse("0 0 30,31 4 0").unwrap();
    let next = cron
        .next_event(&SnowTime::from_time_ts(to_timestamp("2022-01-01 00:00:00")))
        .unwrap();
    assert_eq!(to_datetime(next.to_time_ts(0).unwrap()), "2023-04-30 00:00:00");
    assert_eq!((next.tm_mon, next.tm_mday), (3, 30));
}

#[test]
fn thirty_first_of_listed_months_is_found_where_it_exists() {
    let cron = SnowSchedule::parse("0 12 31 2,4,5 *").unwrap();
    let next = cron
        .next_event(&SnowTime::from_time_ts(to_timestamp("2021-11-29 01:16:40")))
        .unwrap();
    assert_eq!(to_datetime(next.to_time_ts(0).unwrap()), "2022-05-31 12:00:00");
}
