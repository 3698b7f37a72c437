use snow_util::{CrontabError, SnowTime, MAX_EPOCH_SECONDS};

#[test]
fn epoch_round_trip() {
    let stamps: [i64; 14] = [
        0,
        1,
        59,
        86_399,
        86_400,
        951_782_400,   // 2000-02-29
        951_868_799,   // 2000-02-29 23:59:59
        1_483_228_800, // 2017-01-01
        1_638_148_600, // 2021-11-29 01:16:40
        1_709_164_800, // 2024-02-29
        4_102_444_800, // 2100-01-01
        4_107_542_400, // 2100-03-01
        253_402_300_799,
        MAX_EPOCH_SECONDS,
    ];
    for ts in stamps.iter() {
        let tm = SnowTime::from_time_ts(*ts);
        assert_eq!(tm.to_time_ts(0).unwrap(), *ts);
    }
    let mut ts: i64 = 0;
    while ts < 5_000_000_000 {
        assert_eq!(SnowTime::from_time_ts(ts).to_time_ts(0).unwrap(), ts);
        ts += 7_777_777;
    }
}

#[test]
fn epoch_to_calendar_fields() {
    // 2021-11-29 01:16:40, a Monday, day 332 of the year.
    let tm = SnowTime::from_time_ts(1_638_148_600);
    assert_eq!(tm.tm_year, 121);
    assert_eq!(tm.tm_mon, 10);
    assert_eq!(tm.tm_mday, 29);
    assert_eq!(tm.tm_hour, 1);
    assert_eq!(tm.tm_min, 16);
    assert_eq!(tm.tm_sec, 40);
    assert_eq!(tm.tm_wday, 1);
    assert_eq!(tm.tm_yday, 332);

    // 2000-12-31 23:59:59 is day 365 of a leap year.
    let tm = SnowTime::from_time_ts(978_307_199);
    assert_eq!((tm.tm_year, tm.tm_mon, tm.tm_mday), (100, 11, 31));
    assert_eq!(tm.tm_yday, 365);

    // The last second that still fits.
    let tm = SnowTime::from_time_ts(MAX_EPOCH_SECONDS);
    assert_eq!(tm.tm_year, i32::MAX - 1900);
    assert_eq!((tm.tm_mon, tm.tm_mday, tm.tm_hour, tm.tm_min, tm.tm_sec), (11, 31, 23, 59, 59));
}

#[test]
fn to_epoch_applies_the_offset() {
    let tm = SnowTime::get_tm(2021, 12, 1, 0, 0, 0);
    assert_eq!(tm.to_time_ts(0).unwrap(), 1_638_316_800);
    assert_eq!(tm.to_time_ts(3600).unwrap(), 1_638_320_400);
    assert_eq!(tm.to_time_ts(-39600).unwrap(), 1_638_277_200);
}

#[test]
fn to_epoch_rejects_an_offset_beyond_a_day() {
    let tm = SnowTime::get_tm(2021, 12, 1, 0, 0, 0);
    assert!(matches!(
        tm.to_time_ts(86_401).unwrap_err(),
        CrontabError::FieldOutsideRange { .. }
    ));
    assert!(matches!(
        tm.to_time_ts(-90_000).unwrap_err(),
        CrontabError::FieldOutsideRange { .. }
    ));
}

#[test]
fn get_tm_stores_offsets_and_leaves_derived_fields_zero() {
    let tm = SnowTime::get_tm(2024, 2, 29, 7, 15, 3);
    assert_eq!(tm.tm_year, 124);
    assert_eq!(tm.tm_mon, 1);
    assert_eq!(tm.tm_mday, 29);
    assert_eq!((tm.tm_hour, tm.tm_min, tm.tm_sec), (7, 15, 3));
    assert_eq!((tm.tm_wday, tm.tm_yday), (0, 0));
    // The offsets saturate at the bottom of the range.
    let tm = SnowTime::get_tm(i32::MIN, i32::MIN, 1, 0, 0, 0);
    assert_eq!(tm.tm_year, i32::MIN);
    assert_eq!(tm.tm_mon, i32::MIN);
}

#[test]
fn new_is_all_zero() {
    let tm = SnowTime::new();
    assert_eq!(tm, SnowTime::get_tm(1900, 1, 0, 0, 0, 0));
}
