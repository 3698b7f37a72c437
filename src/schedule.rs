use vstd::prelude::*;

use crate::parsing::cron_fields;
use crate::snow_schedule::{is_searchable, next_event_time, searchable, SnowSchedule};
use crate::snow_time::{epoch_seconds, epoch_time, SnowTime, MAX_EPOCH_SECONDS};
use crate::text::{split_words, to_chars, words};
use crate::times::valid_utc_offset;

verus! {

/// The next execution time, in seconds after the epoch, of a schedule read in
/// local time with `utc_offset` seconds east of UTC, after the instant `now`:
/// 0 for a blank schedule, `None` where no time can be given.
pub open spec fn next_execution(cron: Seq<char>, utc_offset: int, now: int) -> Option<int> {
    if words(cron).len() == 0 {
        Some(0)
    } else {
        let local = now - utc_offset;
        match cron_fields(cron) {
            Err(_) => None,
            Ok(sc) => if local < 0 || local > MAX_EPOCH_SECONDS || !searchable(epoch_time(local))
                || !valid_utc_offset(utc_offset) {
                None
            } else {
                match next_event_time(sc, epoch_time(local)) {
                    None => None,
                    Some(t) => Some(epoch_seconds(t, utc_offset)),
                }
            },
        }
    }
}

/// Computes when a flow with the schedule `cron` runs next: the local time
/// of `now` under `utc_offset` is searched for the next event, which is
/// converted back to seconds after the epoch under the same offset.
pub fn calculate_next_execution_time(cron: &str, utc_offset: i64, now: i64) -> (r: Option<i64>)
    ensures
        r matches Some(v) ==> next_execution(cron@, utc_offset as int, now as int) == Some(v as int),
        r is None ==> next_execution(cron@, utc_offset as int, now as int) is None,
{
    let chars = to_chars(cron);
    let fields = split_words(&chars);
    if fields.len() == 0 {
        return Some(0);
    }
    let local_time = match now.checked_sub(utc_offset) {
        Some(v) => v,
        None => {
            return None;
        },
    };
    let schedule = match SnowSchedule::parse(cron) {
        Ok(s) => s,
        Err(_) => {
            return None;
        },
    };
    if local_time < 0 || local_time > MAX_EPOCH_SECONDS || utc_offset < -86400 || utc_offset > 86400 {
        return None;
    }
    let start = SnowTime::from_time_ts(local_time);
    if !is_searchable(&start) {
        return None;
    }
    match schedule.next_event(&start) {
        None => None,
        Some(next) => match next.to_time_ts(utc_offset as i32) {
            Ok(v) => Some(v),
            Err(_) => None,
        },
    }
}

} // verus!
