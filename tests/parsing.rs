use snow_util::{parse_cron, CrontabError, NumberError};

#[test]
fn test_every_mintue_cron() {
    let every_min_schedule = parse_cron("* * * * *").unwrap();
    let full_minutes: Vec<u32> = (0..=59).collect();
    let full_hours: Vec<u32> = (0..=23).collect();
    let full_days: Vec<u32> = (1..=31).collect();
    let full_months: Vec<u32> = (1..=12).collect();
    let full_weekdays: Vec<u32> = (0..=6).collect();

    assert!(every_min_schedule.months == full_months);
    assert!(every_min_schedule.days == full_days);
    assert!(every_min_schedule.hours == full_hours);
    assert!(every_min_schedule.minutes == full_minutes);
    assert!(every_min_schedule.weekdays == full_weekdays);
}

#[test]
fn test_invalid_patterns() {
    assert!(matches!(
        parse_cron("* * * * * *").unwrap_err(),
        CrontabError::ErrCronFormat { .. }
    ));
    assert!(matches!(
        parse_cron("* * 15").unwrap_err(),
        CrontabError::ErrCronFormat { .. }
    ));
    assert!(matches!(
        parse_cron("9 * * * * *").unwrap_err(),
        CrontabError::ErrCronFormat { .. }
    ));
}

#[test]
fn test_valid_range() {
    let test_schedule = parse_cron("40-59 9,18 25-31 4-8 1-5/2").unwrap();
    let minutes: Vec<u32> = (40..=59).collect();
    let hours: Vec<u32> = vec![9, 18];
    let days: Vec<u32> = (25..=31).collect();
    let months: Vec<u32> = (4..=8).collect();
    let weekdays: Vec<u32> = vec![1, 3, 5];

    assert!(test_schedule.months == months);
    assert!(test_schedule.days == days);
    assert!(test_schedule.hours == hours);
    assert!(test_schedule.minutes == minutes);
    assert!(test_schedule.weekdays == weekdays);
}

#[test]
fn test_valid_steps() {
    let test_schedule = parse_cron("40-59/4 3-18/5 1-31/4 4-8/3 1-5/2").unwrap();

    assert!(test_schedule.minutes == vec![40, 44, 48, 52, 56]);
    assert!(test_schedule.hours == vec![3, 8, 13, 18]);
    assert!(test_schedule.days == vec![1, 5, 9, 13, 17, 21, 25, 29]);
    assert!(test_schedule.months == vec![4, 7]);
    assert!(test_schedule.weekdays == vec![1, 3, 5]);
}

#[test]
fn test_outside_ranges() {
    assert!(matches!(
        parse_cron("65 * * * *").unwrap_err(),
        CrontabError::FieldOutsideRange { .. }
    ));
    assert!(matches!(
        parse_cron("* 25 * * *").unwrap_err(),
        CrontabError::FieldOutsideRange { .. }
    ));
    assert!(matches!(
        parse_cron("* * 32 * *").unwrap_err(),
        CrontabError::FieldOutsideRange { .. }
    ));
    assert!(matches!(
        parse_cron("* * * 13 *").unwrap_err(),
        CrontabError::FieldOutsideRange { .. }
    ));
    assert!(matches!(
        parse_cron("* * * * 8").unwrap_err(),
        CrontabError::FieldOutsideRange { .. }
    ));
}

#[test]
fn test_invalid_steps() {
    let result = parse_cron("*/2 *////343433 * * * ");
    assert!(matches!(result, Err(CrontabError::ErrParseInt { .. })));
}

#[test]
fn lists_are_sorted_and_deduplicated() {
    let s = parse_cron("30,5,5,10-12,11 */6 31,1 12,1 6,0").unwrap();
    assert_eq!(s.minutes, vec![5, 10, 11, 12, 30]);
    assert_eq!(s.hours, vec![0, 6, 12, 18]);
    assert_eq!(s.days, vec![1, 31]);
    assert_eq!(s.months, vec![1, 12]);
    assert_eq!(s.weekdays, vec![0, 6]);
    assert!(s.seconds.is_empty());
}

#[test]
fn extra_whitespace_between_fields_is_allowed() {
    let s = parse_cron("  0\t12  *\n* 1 ").unwrap();
    assert_eq!(s.minutes, vec![0]);
    assert_eq!(s.hours, vec![12]);
    assert_eq!(s.weekdays, vec![1]);
}

#[test]
fn a_step_without_range_covers_the_whole_field() {
    let s = parse_cron("5/20 * * * *").unwrap();
    assert_eq!(s.minutes, vec![0, 20, 40]);
}

#[test]
fn number_errors_carry_their_kind() {
    assert_eq!(
        parse_cron("x * * * *").unwrap_err(),
        CrontabError::ErrParseInt(NumberError::InvalidDigit)
    );
    assert_eq!(
        parse_cron("1- * * * *").unwrap_err(),
        CrontabError::ErrParseInt(NumberError::Empty)
    );
    assert_eq!(
        parse_cron("1,,2 * * * *").unwrap_err(),
        CrontabError::ErrParseInt(NumberError::Empty)
    );
    assert_eq!(
        parse_cron("99999999999 * * * *").unwrap_err(),
        CrontabError::ErrParseInt(NumberError::Overflow)
    );
    assert_eq!(
        parse_cron("+ * * * *").unwrap_err(),
        CrontabError::ErrParseInt(NumberError::InvalidDigit)
    );
    assert_eq!(
        parse_cron("-5 * * * *").unwrap_err(),
        CrontabError::ErrParseInt(NumberError::Empty)
    );
    // A leading plus sign is read as part of the number.
    assert_eq!(parse_cron("+7 * * * *").unwrap().minutes, vec![7]);
}

#[test]
fn range_errors_are_checked_on_bounds_and_steps() {
    assert!(matches!(
        parse_cron("* * 0 * *").unwrap_err(),
        CrontabError::FieldOutsideRange { .. }
    ));
    assert!(matches!(
        parse_cron("* * * 0-3 *").unwrap_err(),
        CrontabError::FieldOutsideRange { .. }
    ));
    // A step of zero selects nothing that could be walked.
    assert!(matches!(
        parse_cron("*/0 * * * *").unwrap_err(),
        CrontabError::FieldOutsideRange { .. }
    ));
    // A field must select at least one value.
    assert!(matches!(
        parse_cron("50-10 * * * *").unwrap_err(),
        CrontabError::FieldOutsideRange { .. }
    ));
    // An empty range next to a real one is fine.
    assert_eq!(parse_cron("50-10,3 * * * *").unwrap().minutes, vec![3]);
}

#[test]
fn the_first_failing_field_decides_the_error() {
    assert!(matches!(
        parse_cron("61 x * * *").unwrap_err(),
        CrontabError::FieldOutsideRange { .. }
    ));
    assert!(matches!(
        parse_cron("x 61 * * *").unwrap_err(),
        CrontabError::ErrParseInt(_)
    ));
}

#[test]
fn error_messages_name_their_kind() {
    let e = parse_cron("* *").unwrap_err();
    assert_eq!(e.message(), "<ErrCronFormat> Invalid format: * *");
    let e = parse_cron("x * * * *").unwrap_err();
    assert_eq!(e.message(), "<ErrParseInt> invalid digit found in string");
    let e = parse_cron("70 * * * *").unwrap_err();
    assert!(e.message().starts_with("<FieldOutsideRange> "));
}
