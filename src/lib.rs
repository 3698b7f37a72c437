//! A cron scheduler: parses five-field crontab schedules and finds the next
//! minute that a schedule lists, on a broken-down calendar time that converts
//! to and from seconds after the Unix epoch.
pub mod civil;
pub mod error;
pub mod parsing;
pub mod schedule;
pub mod snow_schedule;
pub mod snow_time;
pub mod sorted;
pub mod text;
pub mod times;

pub use error::{CrontabError, NumberError};
pub use parsing::{parse_cron, ScheduleComponents};
pub use schedule::calculate_next_execution_time;
pub use snow_schedule::SnowSchedule;
pub use snow_time::{SnowTime, MAX_EPOCH_SECONDS};
pub use times::{
    adv_day, adv_hour, adv_minute, adv_month, adv_year, day_of_the_week, days_in_month,
    is_leap_year, is_valid_utc_offset,
};
