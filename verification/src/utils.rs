//! Instants derived from the current time: the next quarter-hour mark, the
//! end of the day and the end of the week.

use vstd::prelude::*;
use crate::time::{
    SECONDS_PER_DAY, SLOT_SECONDS, Timestamp, can_step, day_start, grid_floor, in_range,
    weekday_from_monday,
};

verus! {

/// Second of the day of the last second of a day (23:59:59).
pub const LAST_SECOND_OF_DAY: i64 = 86_399;

/// Weekday, counted from Monday = 0, of the last working day of a week.
pub const LAST_WORKING_WEEKDAY: i64 = 4;

/// The first grid point after `t`: 18:12 gives 18:15, and 18:15 gives 18:30.
pub open spec fn next_15_mark_at(t: int) -> int {
    grid_floor(t) + 900
}

/// The last second (23:59:59) of the day that holds `t`.
pub open spec fn end_of_day_at(t: int) -> int {
    day_start(t) + 86_399
}

/// The end of the working week of the day that holds `t`: the last second
/// (23:59:59) of the Friday of the week, from Monday to Sunday, in which
/// that day lies. On a Saturday or Sunday that Friday is past.
pub open spec fn end_of_week_at(t: int) -> int {
    day_start(t) + (4 - weekday_from_monday(t)) * 86_400 + 86_399
}

/// Reads the wall clock with `chrono::Local::now` and hands back the local
/// date and time, without its zone, as seconds after the epoch. Trusted, and
/// nothing is claimed of the result: it differs from call to call.
#[verifier::external_body]
fn wall_clock_seconds() -> (r: i64) {
    chrono::Local::now().naive_local().and_utc().timestamp()
}

/// The current local time, moved into the range of instants that the engine
/// accepts should the clock be set outside of it.
pub fn now() -> (r: Timestamp)
    ensures
        in_range(r@),
{
    Timestamp { secs: wall_clock_seconds() }.clamp_to_range()
}

/// The first grid point after `date`: 18:12 gives 18:15.
pub fn next_15_mark(date: Timestamp) -> (r: Timestamp)
    requires
        can_step(date@),
    ensures
        r@ == next_15_mark_at(date@),
{
    Timestamp { secs: date.grid_floor().secs + SLOT_SECONDS }
}

/// The last second (23:59:59) of the day that holds `date`.
pub fn end_of_day_from(date: Timestamp) -> (r: Timestamp)
    requires
        can_step(date@),
    ensures
        r@ == end_of_day_at(date@),
{
    Timestamp { secs: date.day_start().secs + LAST_SECOND_OF_DAY }
}

/// The last second of the Friday of the week in which `date` lies.
pub fn end_of_week_from(date: Timestamp) -> (r: Timestamp)
    requires
        can_step(date@),
    ensures
        r@ == end_of_week_at(date@),
{
    let days_left: i64 = LAST_WORKING_WEEKDAY - date.weekday_from_monday();
    Timestamp { secs: date.day_start().secs + days_left * SECONDS_PER_DAY + LAST_SECOND_OF_DAY }
}

/// The first grid point after the current time.
pub fn now_next_15_mark() -> (r: Timestamp)
    ensures
        exists|clock: int| in_range(clock) && r@ == next_15_mark_at(clock),
{
    let clock = now();
    next_15_mark(clock)
}

/// The last second of the current day.
pub fn end_of_day() -> (r: Timestamp)
    ensures
        exists|clock: int| in_range(clock) && r@ == end_of_day_at(clock),
{
    let clock = now();
    end_of_day_from(clock)
}

/// The last second of the Friday of the current week.
pub fn end_of_week() -> (r: Timestamp)
    ensures
        exists|clock: int| in_range(clock) && r@ == end_of_week_at(clock),
{
    let clock = now();
    end_of_week_from(clock)
}

} // verus!
