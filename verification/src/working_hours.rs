//! Working days, working hours and the stepping order of working grid
//! cells.
//!
//! The practice works Monday to Friday, from 08:00 to 12:00 and from 13:00
//! to 17:00. Both spans are half open: 12:00 and 17:00 themselves are not
//! working instants.

use vstd::prelude::*;
use crate::appointment::{AppointmentType, duration_seconds};
use crate::time::{
    SECONDS_PER_DAY, SLOT_SECONDS, Timestamp, can_step, day_start, grid_floor, in_range, on_grid,
    second_of_day, weekday_from_monday,
};

verus! {

/// Second of the day at which the morning span starts (08:00).
pub const MORNING_START: i64 = 28_800;

/// Second of the day at which the morning span ends (12:00).
pub const MORNING_END: i64 = 43_200;

/// Second of the day at which the afternoon span starts (13:00).
pub const AFTERNOON_START: i64 = 46_800;

/// Second of the day at which the afternoon span ends (17:00).
pub const AFTERNOON_END: i64 = 61_200;

/// Number of working days at the start of each week (Monday to Friday).
pub const WORKING_DAYS_PER_WEEK: i64 = 5;

/// Whether instant `t` falls on a working day.
pub open spec fn is_working_day_at(t: int) -> bool {
    weekday_from_monday(t) < 5
}

/// Whether the time of day of instant `t` falls in one of the two working
/// spans.
pub open spec fn is_working_hour_at(t: int) -> bool {
    (28_800 <= second_of_day(t) < 43_200) || (46_800 <= second_of_day(t) < 61_200)
}

/// Whether instant `t` falls on a working day and in a working span.
#[verifier::opaque]
pub open spec fn is_working_at(t: int) -> bool {
    is_working_day_at(t) && is_working_hour_at(t)
}

/// Whether `t` is a grid point at which work is done: the start of a cell
/// that can be booked.
pub open spec fn is_working_cell(t: int) -> bool {
    on_grid(t) && is_working_at(t)
}

/// How many days after a day with weekday `weekday` the next working day
/// comes.
pub open spec fn days_to_next_working_day(weekday: int) -> int {
    if weekday == 4 {
        3
    } else if weekday == 5 {
        2
    } else {
        1
    }
}

/// Start of the morning span on the first working day after the day that
/// holds `t`.
pub open spec fn next_working_morning(t: int) -> int {
    day_start(t) + days_to_next_working_day(weekday_from_monday(t)) * 86_400 + 28_800
}

/// Moves `t`, if it is no working instant, forward to the start of the next
/// working span: on a working day before 08:00 to 08:00 of that day, in the
/// midday break to 13:00 of that day, and otherwise to 08:00 of the next
/// working day.
#[verifier::opaque]
pub open spec fn snap_to_working(t: int) -> int {
    if is_working_at(t) {
        t
    } else if is_working_day_at(t) && second_of_day(t) < 28_800 {
        day_start(t) + 28_800
    } else if is_working_day_at(t) && second_of_day(t) < 46_800 {
        day_start(t) + 46_800
    } else {
        next_working_morning(t)
    }
}

/// The step, in seconds, that a stepping hint stands for: the length of the
/// given type, or one grid cell without a type.
pub open spec fn step_seconds(hint: Option<AppointmentType>) -> int {
    match hint {
        Some(ty) => duration_seconds(ty),
        None => 900,
    }
}

/// The working slot that follows `t` at distance `step`: `t` is moved back
/// onto the grid, advanced by `step`, and then snapped forward to a working
/// instant.
pub open spec fn next_working_slot(t: int, step: int) -> int {
    snap_to_working(grid_floor(t) + step)
}

/// Questions about working time that a date-time can answer.
pub trait WorkingDayTimes: Sized {
    /// The instant that this value denotes, in seconds since the epoch.
    spec fn instant(&self) -> int;

    /// Whether this date-time falls on a working day.
    fn is_working_day(&self) -> (r: bool)
        ensures
            r == is_working_day_at(self.instant()),
    ;

    /// Whether the time of day falls in a working span.
    fn is_working_hour(&self) -> (r: bool)
        ensures
            r == is_working_hour_at(self.instant()),
    ;

    /// Whether this date-time falls on a working day and in a working span.
    fn is_working_day_and_hour(&self) -> (r: bool)
        ensures
            r == is_working_at(self.instant()),
    ;

    /// The working slot that follows this date-time: one grid cell on, or
    /// the length of `appointment_type` on where one is given.
    fn get_next_working_datetime(&self, appointment_type: Option<AppointmentType>) -> (r: Self)
        requires
            can_step(self.instant()),
        ensures
            r.instant() == next_working_slot(self.instant(), step_seconds(appointment_type)),
    ;

    /// The instant at which an appointment of type `appointment_type` that
    /// starts now would end. Nothing is moved onto the grid or into working
    /// time.
    fn calculate_end_time(self, appointment_type: AppointmentType) -> (r: Self)
        requires
            can_step(self.instant()),
        ensures
            r.instant() == self.instant() + duration_seconds(appointment_type),
    ;
}

impl WorkingDayTimes for Timestamp {
    open spec fn instant(&self) -> int {
        self@
    }

    fn is_working_day(&self) -> (r: bool) {
        self.weekday_from_monday() < WORKING_DAYS_PER_WEEK
    }

    fn is_working_hour(&self) -> (r: bool) {
        let second: i64 = self.second_of_day();
        (MORNING_START <= second && second < MORNING_END) || (AFTERNOON_START <= second && second
            < AFTERNOON_END)
    }

    fn is_working_day_and_hour(&self) -> (r: bool) {
        proof {
            reveal(is_working_at);
        }
        self.is_working_day() && self.is_working_hour()
    }

    fn get_next_working_datetime(&self, appointment_type: Option<AppointmentType>) -> (r: Self) {
        let step: i64 = match appointment_type {
            Some(ty) => ty.duration().secs,
            None => SLOT_SECONDS,
        };
        let current = Timestamp { secs: self.grid_floor().secs + step };
        proof {
            reveal(snap_to_working);
            reveal(is_working_at);
        }
        if current.is_working_day_and_hour() {
            return current;
        }
        let second: i64 = current.second_of_day();
        let midnight: i64 = current.day_start().secs;
        if current.is_working_day() && second < MORNING_START {
            Timestamp { secs: midnight + MORNING_START }
        } else if current.is_working_day() && second < AFTERNOON_START {
            Timestamp { secs: midnight + AFTERNOON_START }
        } else {
            let mut next = Timestamp { secs: midnight + MORNING_START };
            let mut days: i64 = 0;
            loop
                invariant_except_break
                    0 <= days < days_to_next_working_day(weekday_from_monday(current@)),
                    next@ == midnight + 28_800 + days * 86_400,
                invariant
                    midnight == day_start(current@),
                    -9_000_000_000_000_100_000 <= midnight <= 9_000_000_000_000_100_000,
                ensures
                    next@ == next_working_morning(current@),
                decreases days_to_next_working_day(weekday_from_monday(current@)) - days,
            {
                next = Timestamp { secs: next.secs + SECONDS_PER_DAY };
                days = days + 1;
                proof {
                    lemma_next_working_day(current@, days as int);
                }
                if next.is_working_day() {
                    break;
                }
            }
            next
        }
    }

    fn calculate_end_time(self, appointment_type: AppointmentType) -> (r: Self) {
        Timestamp { secs: self.secs + appointment_type.duration().secs }
    }
}

/// Walking forward day by day from the day that holds `t`, the first
/// working day is met after exactly `days_to_next_working_day` days.
pub proof fn lemma_next_working_day(t: int, k: int)
    requires
        1 <= k <= 3,
    ensures
        is_working_day_at(day_start(t) + k * 86_400 + 28_800) == is_working_day_at(
            day_start(t) + k * 86_400,
        ),
        k < days_to_next_working_day(weekday_from_monday(t)) ==> !is_working_day_at(
            day_start(t) + k * 86_400,
        ),
        k == days_to_next_working_day(weekday_from_monday(t)) ==> is_working_day_at(
            day_start(t) + k * 86_400,
        ),
        1 <= days_to_next_working_day(weekday_from_monday(t)) <= 3,
{
    let d = t / 86_400;
    assert(day_start(t) == d * 86_400);
    assert((d * 86_400 + k * 86_400) / 86_400 == d + k);
    assert((d * 86_400 + k * 86_400 + 28_800) / 86_400 == d + k);
}

/// Snapping never moves an instant back, moves it by less than four days,
/// lands on a working instant, and keeps a grid point on the grid.
pub proof fn lemma_snap_to_working(t: int)
    ensures
        is_working_at(snap_to_working(t)),
        t <= snap_to_working(t) < t + 4 * 86_400,
        on_grid(t) ==> on_grid(snap_to_working(t)),
        is_working_at(t) ==> snap_to_working(t) == t,
{
    reveal(snap_to_working);
    reveal(is_working_at);
    let d = t / 86_400;
    let s = t % 86_400;
    assert(t == d * 86_400 + s);
    let k = days_to_next_working_day(weekday_from_monday(t));
    lemma_next_working_day(t, k);
    assert((d * 86_400 + 28_800) / 86_400 == d);
    assert((d * 86_400 + 46_800) / 86_400 == d);
    assert((d * 86_400 + 28_800) % 86_400 == 28_800);
    assert((d * 86_400 + 46_800) % 86_400 == 46_800);
    assert((d * 86_400 + k * 86_400 + 28_800) % 86_400 == 28_800);
    assert((d * 86_400 + 28_800) % 900 == 0);
    assert((d * 86_400 + 46_800) % 900 == 0);
    assert((d * 86_400 + k * 86_400 + 28_800) % 900 == 0);
}

/// No instant between `t` and the instant to which `t` is snapped is a
/// working instant: snapping finds the earliest working instant from `t` on.
pub proof fn lemma_snap_to_working_is_earliest(t: int, u: int)
    requires
        t <= u < snap_to_working(t),
    ensures
        !is_working_at(u),
{
    reveal(snap_to_working);
    reveal(is_working_at);
    let d = t / 86_400;
    let s = t % 86_400;
    assert(t == d * 86_400 + s);
    let du = u / 86_400;
    let su = u % 86_400;
    assert(u == du * 86_400 + su);
    let k = days_to_next_working_day(weekday_from_monday(t));
    if is_working_day_at(t) && s < 28_800 {
        assert(du == d);
    } else if is_working_day_at(t) && s < 46_800 {
        assert(du == d);
    } else {
        assert(d <= du <= d + k);
        if du == d {
        } else if du == d + k {
        } else {
            lemma_next_working_day(t, du - d);
            assert(day_start(t) + (du - d) * 86_400 == du * 86_400);
            assert((du * 86_400) / 86_400 == du);
        }
    }
}

/// The slot that follows `t` at distance `step` is a working instant, is
/// the earliest working instant from `grid_floor(t) + step` on, and lies on
/// the grid when `step` is a whole number of cells.
pub proof fn lemma_next_working_slot(t: int, step: int)
    ensures
        is_working_at(next_working_slot(t, step)),
        grid_floor(t) + step <= next_working_slot(t, step) < grid_floor(t) + step + 4 * 86_400,
        step % 900 == 0 ==> is_working_cell(next_working_slot(t, step)),
        forall|u: int|
            grid_floor(t) + step <= u < next_working_slot(t, step) ==> !#[trigger] is_working_at(u),
{
    lemma_snap_to_working(grid_floor(t) + step);
    assert forall|u: int|
        grid_floor(t) + step <= u < next_working_slot(t, step) implies !#[trigger] is_working_at(
        u,
    ) by {
        lemma_snap_to_working_is_earliest(grid_floor(t) + step, u);
    }
    if step % 900 == 0 {
        assert((t - t % 900 + step) % 900 == 0);
    }
}

/// From a grid point, single-cell stepping visits every working cell: the
/// slot that follows a grid point `t` is the earliest working cell after `t`.
pub proof fn lemma_single_step_skips_no_cell(t: int, u: int)
    requires
        on_grid(t),
        t < u < next_working_slot(t, 900),
        on_grid(u),
    ensures
        !is_working_at(u),
{
    lemma_next_working_slot(t, 900);
    assert(u >= t + 900) by {
        assert(t % 900 == 0 && u % 900 == 0);
    }
}

/// Whether an instant falls in a working span depends on its time of day
/// alone: at `second` seconds after midnight of any day it does so exactly
/// from 08:00:00 to 11:59:59 and from 13:00:00 to 16:59:59.
pub proof fn lemma_working_hour_by_time_of_day(day: int, second: int)
    requires
        0 <= second < 86_400,
    ensures
        is_working_hour_at(day * 86_400 + second) <==> (28_800 <= second < 43_200) || (46_800
            <= second < 61_200),
{
    assert((day * 86_400 + second) % 86_400 == second);
}

/// How many working cells start in the closed window `[from, to]`.
pub open spec fn working_cells_between(from: int, to: int) -> int
    decreases (if from <= to {
        to - from + 1
    } else {
        0
    }),
{
    if to < from {
        0
    } else {
        (if is_working_cell(from) {
            1int
        } else {
            0int
        }) + working_cells_between(from + 1, to)
    }
}

/// The first working cell that does not start before `t`.
pub open spec fn first_working_cell(t: int) -> int {
    if is_working_cell(t) {
        t
    } else {
        next_working_slot(t, 900)
    }
}

/// The first working cell that does not start before `from`.
pub fn first_working_cell_from(from: Timestamp) -> (r: Timestamp)
    requires
        in_range(from@),
    ensures
        r@ == first_working_cell(from@),
        is_working_cell(r@),
        from@ <= r@ < from@ + 5 * 86_400,
        forall|t: int| from@ <= t < r@ ==> !is_working_cell(t),
{
    let first = if from.is_on_grid() && from.is_working_day_and_hour() {
        from
    } else {
        from.get_next_working_datetime(None)
    };
    proof {
        lemma_first_working_cell(from@);
    }
    first
}

/// The first working cell from `t` on is a working cell, comes within five
/// days, and no working cell starts between `t` and it.
pub proof fn lemma_first_working_cell(t: int)
    ensures
        is_working_cell(first_working_cell(t)),
        t <= first_working_cell(t) < t + 5 * 86_400,
        forall|u: int| t <= u < first_working_cell(t) ==> !is_working_cell(u),
{
    lemma_next_working_slot(t, 900);
    assert forall|u: int| t <= u < first_working_cell(t) implies !is_working_cell(u) by {
        if on_grid(u) && !is_working_cell(t) {
            if u >= grid_floor(t) + 900 {
            } else {
                assert(u == t) by {
                    assert(t % 900 == t - grid_floor(t));
                    assert(u % 900 == 0);
                }
            }
        }
    }
}

/// How many working cells start in the closed window `[from, to]`.
pub fn count_working_cells(from: Timestamp, to: Timestamp) -> (r: u64)
    requires
        in_range(from@),
        in_range(to@),
    ensures
        r == working_cells_between(from@, to@),
        r * 900 <= 3_000_000_000_000_000,
{
    let mut total: u64 = 0;
    let mut current = first_working_cell_from(from);
    proof {
        lemma_no_cells_skipped(from@, current@, to@);
    }
    while current.secs <= to.secs
        invariant
            in_range(from@),
            in_range(to@),
            is_working_cell(current@),
            from@ <= current@,
            total * 900 <= current@ - from@,
            total > 0 ==> (total - 1) * 900 <= to@ - from@,
            total + working_cells_between(current@, to@) == working_cells_between(from@, to@),
        decreases (if current@ <= to@ {
            to@ - current@ + 1
        } else {
            0
        }),
    {
        let next = current.get_next_working_datetime(None);
        proof {
            lemma_next_working_slot(current@, 900);
            assert(grid_floor(current@) == current@);
            assert forall|t: int| current@ + 1 <= t < next@ implies !is_working_cell(t) by {
                if on_grid(t) {
                    lemma_single_step_skips_no_cell(current@, t);
                }
            }
            lemma_no_cells_skipped(current@ + 1, next@, to@);
        }
        total = total + 1;
        current = next;
    }
    total
}

/// Counting working cells can leave out a stretch in which no working cell
/// starts.
pub proof fn lemma_no_cells_skipped(a: int, b: int, to: int)
    requires
        a <= b,
        forall|t: int| a <= t < b ==> !is_working_cell(t),
    ensures
        working_cells_between(a, to) == working_cells_between(b, to),
    decreases b - a,
{
    if a < b {
        lemma_no_cells_skipped(a + 1, b, to);
        if to < a {
            lemma_nothing_after_the_end(b, to);
            lemma_nothing_after_the_end(a + 1, to);
        }
    }
}

/// No working cell is counted in a window that ends before it starts.
pub proof fn lemma_nothing_after_the_end(a: int, to: int)
    requires
        to < a,
    ensures
        working_cells_between(a, to) == 0,
{
}

} // verus!
