//! Week-number arithmetic used only to pick a cache lifetime hint: data of
//! a week that already ended may be cached far longer than live data.

use vstd::prelude::*;

verus! {

/// Time-to-live, in seconds, applied to data of a past week: about two
/// months.
pub const LONG_CACHE_TTL_SECONDS: u64 = 60 * 60 * 24 * 30 * 2;

/// Day number (days since 1970-01-01) of the reference Monday from which
/// weeks are counted.
pub const WEEK_REFERENCE_DAY: u64 = 11;

/// The week number of a date given as days since 1970-01-01: whole weeks
/// elapsed since the reference Monday (rounded toward zero, as the
/// original day arithmetic rounds), plus one.
pub open spec fn spec_week_number(days: int) -> int {
    let diff = days - WEEK_REFERENCE_DAY;
    if diff >= 0 {
        diff / 7 + 1
    } else {
        -((-diff) / 7) + 1
    }
}

/// The week number of the date `days_since_epoch` days after 1970-01-01.
/// The bound on the argument covers every date chrono can represent.
pub fn get_week_number_from_date(days_since_epoch: i64) -> (r: i64)
    requires
        -100_000_000 <= days_since_epoch <= 100_000_000,
    ensures
        r == spec_week_number(days_since_epoch as int),
{
    if days_since_epoch >= 11 {
        let diff: u64 = (days_since_epoch - 11) as u64;
        (diff / 7) as i64 + 1
    } else {
        let diff: u64 = (11 - days_since_epoch) as u64;
        1 - (diff / 7) as i64
    }
}

/// Relies on chrono::Utc::now, NaiveDate::from_ymd_opt and
/// TimeDelta::num_days: the number of whole days from 1970-01-01 to the
/// current UTC date. chrono's NaiveDate spans the years -262143 to 262142
/// only, so the result stays far within the stated bound.
#[verifier::external_body]
pub fn current_day_number() -> (r: i64)
    ensures
        -100_000_000 <= r <= 100_000_000,
{
    let epoch = chrono::NaiveDate::from_ymd_opt(1970, 1, 1).unwrap();
    chrono::Utc::now().date_naive().signed_duration_since(epoch).num_days()
}

/// The week number of the current UTC date.
pub fn get_current_week_number() -> (r: i64)
    ensures
        exists|d: int| -100_000_000 <= d <= 100_000_000 && r == spec_week_number(d),
{
    let d = current_day_number();
    let r = get_week_number_from_date(d);
    proof {
        assert(-100_000_000 <= d as int <= 100_000_000 && r == spec_week_number(d as int));
    }
    r
}

/// The cache-time hint for a requested week, judged against the current
/// week: a week that already ended gets the long time-to-live; the current
/// or a future week, and the sentinel -1 for an unparsed week, get none.
pub open spec fn spec_cache_time(week_number: int, current_week: int) -> Option<u64> {
    if week_number < current_week && week_number != -1 {
        Option::Some(LONG_CACHE_TTL_SECONDS)
    } else {
        Option::None
    }
}

/// The cache-time hint for `week_number` when the current week is
/// `current_week`.
pub fn cache_time_for_weeks(week_number: i64, current_week: i64) -> (r: Option<u64>)
    ensures
        r == spec_cache_time(week_number as int, current_week as int),
{
    if week_number < current_week && week_number != -1 {
        Option::Some(LONG_CACHE_TTL_SECONDS)
    } else {
        Option::None
    }
}

/// The cache-time hint for `week_number` judged against the current UTC
/// week: the long time-to-live exactly when the requested week lies in the
/// past and is not the sentinel -1.
pub fn get_cache_time_from_week_number(week_number: i64) -> (r: Option<u64>)
    ensures
        week_number == -1 ==> r is None,
        (r matches Option::Some(t) ==> t == LONG_CACHE_TTL_SECONDS),
        exists|c: int| r == spec_cache_time(week_number as int, c),
{
    let current_week = get_current_week_number();
    let r = cache_time_for_weeks(week_number, current_week);
    proof {
        assert(r == spec_cache_time(week_number as int, current_week as int));
    }
    r
}

} // verus!
