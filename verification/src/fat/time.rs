use chrono::TimeZone;
use vstd::prelude::*;

verus! {

/// Whether `year` is a leap year of the proleptic Gregorian calendar.
pub open spec fn is_leap_year(year: int) -> bool {
    (year % 4 == 0 && year % 100 != 0) || year % 400 == 0
}

/// The number of days of `month` (1 to 12) in `year`.
pub open spec fn days_in_month(year: int, month: int) -> int {
    if month == 2 {
        if is_leap_year(year) { 29 } else { 28 }
    } else if month == 4 || month == 6 || month == 9 || month == 11 {
        30
    } else {
        31
    }
}

/// Whether the values name an existing date and time of day.
pub open spec fn is_valid_date_time(year: int, month: int, day: int, hour: int, min: int, sec: int) -> bool {
    &&& 1 <= month <= 12
    &&& 1 <= day <= days_in_month(year, month)
    &&& 0 <= hour < 24
    &&& 0 <= min < 60
    &&& 0 <= sec < 60
}

/// The number of days from 1970-01-01 to the given date of the proleptic Gregorian calendar.
pub open spec fn days_from_civil(year: int, month: int, day: int) -> int {
    let y = if month <= 2 { year - 1 } else { year };
    let era = y / 400;
    let year_of_era = y % 400;
    let shifted_month = if month > 2 { month - 3 } else { month + 9 };
    let day_of_year = (153 * shifted_month + 2) / 5 + day - 1;
    let day_of_era = year_of_era * 365 + year_of_era / 4 - year_of_era / 100 + day_of_year;
    era * 146097 + day_of_era - 719468
}

/// The number of non-leap seconds from 1970-01-01 00:00:00 UTC to the given date and time (UTC).
pub open spec fn unix_timestamp(year: int, month: int, day: int, hour: int, min: int, sec: int) -> int {
    days_from_civil(year, month, day) * 86400 + hour * 3600 + min * 60 + sec
}

/// Calls `chrono::Utc.with_ymd_and_hms` and takes the `timestamp` of the single result. chrono documents that it
/// uses the proleptic Gregorian calendar, that it returns no result on invalid input, and that the timestamp is the
/// number of non-leap seconds since 1970-01-01 00:00:00 UTC. The contract claims exactly that, for the years a FAT
/// date can name.
#[verifier::external_body]
fn utc_timestamp(year: u16, month: u16, day: u16, hour: u16, min: u16, sec: u16) -> (r: Option<i64>)
    requires
        1980 <= year <= 2107,
    ensures
        r is Some <==> is_valid_date_time(year as int, month as int, day as int, hour as int, min as int, sec as int),
        r matches Some(t) ==> t == unix_timestamp(year as int, month as int, day as int, hour as int, min as int, sec as int),
{
    match chrono::Utc.with_ymd_and_hms(
        i32::from(year), u32::from(month), u32::from(day), u32::from(hour), u32::from(min), u32::from(sec),
    ).single() {
        Some(datetime) => Some(datetime.timestamp()),
        None => None,
    }
}

/// The year encoded in a FAT date.
pub open spec fn fat_year(date: u16) -> int {
    date / 512 + 1980
}

/// The month encoded in a FAT date.
pub open spec fn fat_month(date: u16) -> int {
    ((date / 32) % 16) as int
}

/// The day encoded in a FAT date.
pub open spec fn fat_day(date: u16) -> int {
    (date % 32) as int
}

/// The hour encoded in a FAT time.
pub open spec fn fat_hour(time: u16) -> int {
    (time / 2048) as int
}

/// The minute encoded in a FAT time.
pub open spec fn fat_minute(time: u16) -> int {
    ((time / 32) % 64) as int
}

/// The second encoded in a FAT time (stored in units of two seconds).
pub open spec fn fat_second(time: u16) -> int {
    (time % 32) * 2
}

/// The Unix time of a FAT date and time, if it is a valid date and time.
pub open spec fn spec_fat_time_to_unix_time(date: u16, time: Option<u16>) -> Option<int> {
    let (hour, min, sec) = match time {
        Some(t) => (fat_hour(t), fat_minute(t), fat_second(t)),
        None => (0, 0, 0),
    };
    if is_valid_date_time(fat_year(date), fat_month(date), fat_day(date), hour, min, sec) {
        Some(unix_timestamp(fat_year(date), fat_month(date), fat_day(date), hour, min, sec))
    } else {
        None
    }
}

/// Converts a FAT date and an optional FAT time (midnight if absent) to Unix time. Returns `None` if they do not
/// name a valid date and time, or if the result does not fit into a `u32`.
pub fn fat_time_to_unix_time(date: u16, time: Option<u16>) -> (r: Option<u32>)
    ensures
        r is Some <==> (spec_fat_time_to_unix_time(date, time) matches Some(t) && 0 <= t <= u32::MAX),
        r matches Some(t) ==> spec_fat_time_to_unix_time(date, time) == Some(t as int),
{
    let year = date / 512 + 1980;
    let month = (date / 32) % 16;
    let day = date % 32;
    let (hour, minute, second) = match time {
        Some(t) => (t / 2048, (t / 32) % 64, (t % 32) * 2),
        None => (0u16, 0u16, 0u16),
    };
    match utc_timestamp(year, month, day, hour, minute, second) {
        Some(timestamp) => {
            if 0 <= timestamp && timestamp <= u32::MAX as i64 {
                Some(timestamp as u32)
            } else {
                None
            }
        },
        None => None,
    }
}

} // verus!
