use chrono::{Datelike, Duration, NaiveDate};
use std::time::{SystemTime, UNIX_EPOCH};
use vstd::prelude::*;

verus! {

/// The day number of the earliest date the calendar can represent
/// (January 1, 262144 BCE).
pub const MIN_DAY: i32 = -95746129;

/// The day number of the latest date the calendar can represent
/// (December 31, 262142 CE).
pub const MAX_DAY: i32 = 95745399;

/// A day number names a representable date.
pub open spec fn valid_day(day: int) -> bool {
    MIN_DAY <= day <= MAX_DAY
}

/// The day `n` days after `day` (before it, for negative `n`), when both
/// ends are representable dates.
pub open spec fn shifted_day(day: int, n: int) -> Option<i32> {
    if valid_day(day) && valid_day(day + n) {
        Some((day + n) as i32)
    } else {
        None
    }
}

/// Moves a date by a whole number of days with chrono's
/// `NaiveDate::checked_add_signed`, after rebuilding the date from its day
/// number with `NaiveDate::from_num_days_from_ce_opt`.  Both return `None`
/// exactly when the date is out of the representable range, and the shift is
/// plain day arithmetic, so the result is `shifted_day(day, n)`.
#[verifier::external_body]
pub(crate) fn checked_add_days(day: i32, n: i32) -> (moved: Option<i32>)
    ensures
        moved == shifted_day(day as int, n as int),
{
    let date = NaiveDate::from_num_days_from_ce_opt(day)?;
    let moved = date.checked_add_signed(Duration::days(n as i64))?;
    Some(moved.num_days_from_ce())
}

/// The day number of January 1, 1970, the Unix epoch.
pub const EPOCH_DAY: i32 = 719163;

/// The day on which an instant falls: `seconds` after the Unix epoch, or
/// before it when `after_epoch` is false, counted in whole UTC days.
pub open spec fn instant_day(after_epoch: bool, seconds: int) -> int {
    if after_epoch {
        EPOCH_DAY + seconds / 86400
    } else {
        EPOCH_DAY + (-seconds) / 86400
    }
}

/// A day number brought into the representable range.
pub open spec fn clamp_day(day: int) -> int {
    if day < MIN_DAY {
        MIN_DAY as int
    } else if day > MAX_DAY {
        MAX_DAY as int
    } else {
        day
    }
}

/// Reads the system clock with std's `SystemTime::now` and measures it
/// against the Unix epoch with `duration_since(UNIX_EPOCH)`: whether the
/// clock reads at or after the epoch, and the whole seconds (`as_secs`) of
/// the distance either way.  What the clock reads is not stated.
#[verifier::external_body]
fn read_clock() -> (reading: (bool, u64)) {
    match SystemTime::now().duration_since(UNIX_EPOCH) {
        Ok(elapsed) => (true, elapsed.as_secs()),
        Err(early) => (false, early.duration().as_secs()),
    }
}

/// The UTC day on which an instant falls, given as in `read_clock`; an
/// instant outside the representable dates gives the nearest one.
pub fn day_of_instant(after_epoch: bool, seconds: u64) -> (day: i32)
    ensures
        day == clamp_day(instant_day(after_epoch, seconds as int)),
        valid_day(day as int),
{
    let whole_days: u64 = seconds / 86400;
    if after_epoch {
        if whole_days > (MAX_DAY - EPOCH_DAY) as u64 {
            MAX_DAY
        } else {
            EPOCH_DAY + whole_days as i32
        }
    } else {
        let started_days: u64 = if seconds % 86400 == 0 {
            whole_days
        } else {
            whole_days + 1
        };
        assert((-(seconds as int)) / 86400 == -(started_days as int)) by (nonlinear_arith)
            requires
                whole_days == seconds / 86400,
                started_days == (if seconds % 86400 == 0 { whole_days as int } else { whole_days + 1 }),
        ;
        if started_days > (EPOCH_DAY - MIN_DAY) as u64 {
            MIN_DAY
        } else {
            EPOCH_DAY - started_days as i32
        }
    }
}

/// Today's date in UTC, read from the system clock.  What the clock says is
/// not stated; only that the result is a representable date.
pub fn nd_now() -> (today: i32)
    ensures
        valid_day(today as int),
{
    let (after_epoch, seconds) = read_clock();
    day_of_instant(after_epoch, seconds)
}

} // verus!
