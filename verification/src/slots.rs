//! Search for free time: the free grid cells of a window, and the starts at
//! which an appointment of a given type fits.

use vstd::prelude::*;
use crate::appointment::{AppointmentType, DoctorsAppointment, duration_seconds, slot_count};
use crate::calendar::{DoctorsCalendar, span_is_taken};
use crate::time::{
    Timestamp, can_step, grid_floor, in_range, instants, is_ascending,
    lemma_ascending_listing_is_unique, lemma_sublisting_is_no_longer, lists_exactly, on_grid,
};
use crate::utils::{end_of_week, end_of_week_at, next_15_mark_at, now_next_15_mark};
use crate::working_hours::{
    WorkingDayTimes, is_working_at, is_working_cell, is_working_day_at, lemma_next_working_slot,
    lemma_single_step_skips_no_cell,
};

verus! {

/// Whether the grid cell that starts at `t` can be booked: it is a working
/// cell, and no appointment among `booked` shares time with it.
pub open spec fn is_free_cell(booked: Seq<DoctorsAppointment>, t: int) -> bool {
    is_working_cell(t) && !span_is_taken(booked, t, t + 900)
}

/// Whether `t` starts a free cell inside the window `[from, to)`.
pub open spec fn is_free_cell_within(
    booked: Seq<DoctorsAppointment>,
    from: int,
    to: int,
    t: int,
) -> bool {
    from <= t < to && is_free_cell(booked, t)
}

/// The test that `is_free_cell_within` makes, as a predicate on instants.
pub open spec fn free_cell_test(booked: Seq<DoctorsAppointment>, from: int, to: int) -> spec_fn(
    int,
) -> bool {
    |t: int| is_free_cell_within(booked, from, to, t)
}

/// Whether an appointment of type `ty` fits at `t`: each of the cells that
/// it would cover, from `t` on, is a free cell inside the window
/// `[from, to)`.
pub open spec fn is_free_start(
    booked: Seq<DoctorsAppointment>,
    from: int,
    to: int,
    ty: AppointmentType,
    t: int,
) -> bool {
    forall|k: int|
        0 <= k < slot_count(ty) ==> #[trigger] is_free_cell_within(booked, from, to, t + 900 * k)
}

/// The test that `is_free_start` makes, as a predicate on instants.
pub open spec fn free_start_test(
    booked: Seq<DoctorsAppointment>,
    from: int,
    to: int,
    ty: AppointmentType,
) -> spec_fn(int) -> bool {
    |t: int| is_free_start(booked, from, to, ty, t)
}

/// Where a search starts: at `from`, or without one at the first grid point
/// after the time `clock`.
pub open spec fn search_start(from: Option<Timestamp>, clock: int) -> int {
    match from {
        Some(f) => f@,
        None => next_15_mark_at(clock),
    }
}

/// Where a search for type `ty` ends: one appointment length after `to`, so
/// that an appointment may start up to `to` itself; without a `to`, one
/// appointment length after the end of the working week of the time
/// `clock`.
pub open spec fn search_end(to: Option<Timestamp>, ty: AppointmentType, clock: int) -> int {
    match to {
        Some(t) => t@ + duration_seconds(ty),
        None => end_of_week_at(clock) + duration_seconds(ty),
    }
}

/// The window in which a search for type `appointment_type` looks, as
/// `(start, end)`: see `search_start` and `search_end`. A bound that is
/// absent is made from the current time.
pub fn search_window(
    from: Option<Timestamp>,
    to: Option<Timestamp>,
    appointment_type: AppointmentType,
) -> (r: (Timestamp, Timestamp))
    requires
        from matches Some(f) ==> in_range(f@),
        to matches Some(t) ==> in_range(t@),
    ensures
        can_step(r.0@),
        can_step(r.1@),
        from matches Some(f) ==> r.0@ == f@,
        to matches Some(t) ==> r.1@ == t@ + duration_seconds(appointment_type),
        exists|c1: int, c2: int|
            in_range(c1) && in_range(c2) && r.0@ == #[trigger] search_start(from, c1) && r.1@
                == #[trigger] search_end(to, appointment_type, c2),
{
    let start = match from {
        Some(f) => f,
        None => now_next_15_mark(),
    };
    let last = match to {
        Some(t) => t,
        None => end_of_week(),
    };
    let end = last.calculate_end_time(appointment_type);
    proof {
        let c1 = if from.is_some() {
            0
        } else {
            choose|c: int| in_range(c) && start@ == next_15_mark_at(c)
        };
        let c2 = if to.is_some() {
            0
        } else {
            choose|c: int| in_range(c) && last@ == end_of_week_at(c)
        };
        assert(start@ == search_start(from, c1));
        assert(end@ == search_end(to, appointment_type, c2));
    }
    (start, end)
}

/// Whether `t` is among the instants that `list` holds.
pub fn holds_instant(list: &Vec<Timestamp>, t: i64) -> (r: bool)
    ensures
        r == instants(list@).contains(t as int),
{
    let mut i: usize = 0;
    while i < list.len()
        invariant
            0 <= i <= list@.len(),
            forall|j: int| 0 <= j < i ==> instants(list@)[j] != t,
        decreases list@.len() - i,
    {
        if list[i].secs == t {
            assert(instants(list@)[i as int] == t);
            return true;
        }
        i = i + 1;
    }
    false
}

impl DoctorsCalendar {
    /// Whether a booked appointment shares time with the span `[from, to)`.
    pub fn is_span_taken(&self, from: i64, to: i64) -> (r: bool)
        requires
            self.wf(),
        ensures
            r == span_is_taken(self@, from as int, to as int),
    {
        let mut i: usize = 0;
        while i < self.appointments.len()
            invariant
                self.wf(),
                0 <= i <= self@.len(),
                forall|j: int| 0 <= j < i ==> !(#[trigger] self@[j]).meets(from as int, to as int),
            decreases self@.len() - i,
        {
            let booked = self.appointments[i];
            let booked_end: i64 = booked.date_time.secs + booked.appointment_type.duration().secs;
            if booked.date_time.secs < to && from < booked_end {
                assert(self@[i as int].meets(from as int, to as int));
                return true;
            }
            i = i + 1;
        }
        false
    }

    /// The free cells of the window `[from, to)`: every grid point in it
    /// that is a working cell and shares no time with a booked appointment,
    /// in ascending order.
    pub fn available_single_time_slots(&self, from: Timestamp, to: Timestamp) -> (r: Vec<
        Timestamp,
    >)
        requires
            self.wf(),
            can_step(from@),
            can_step(to@),
        ensures
            lists_exactly(instants(r@), free_cell_test(self@, from@, to@)),
    {
        let mut available: Vec<Timestamp> = Vec::new();
        let mut current = if from.is_on_grid() {
            from
        } else {
            from.get_next_working_datetime(None)
        };
        proof {
            lemma_next_working_slot(from@, 900);
            assert forall|t: int| from@ <= t < current@ implies !is_working_cell(t) by {
                if !on_grid(from@) {
                    assert(from@ % 900 != 0 && t % 900 == 0 ==> t >= from@ - from@ % 900 + 900);
                }
            }
            assert(instants(available@) =~= Seq::<int>::empty());
        }
        while current.secs < to.secs
            invariant
                self.wf(),
                can_step(from@),
                can_step(to@),
                on_grid(current@),
                from@ <= current@,
                is_ascending(instants(available@)),
                forall|t: int|
                    instants(available@).contains(t) <==> t < current@ && is_free_cell_within(
                        self@,
                        from@,
                        to@,
                        t,
                    ),
            decreases (if current@ < to@ { to@ - current@ } else { 0 }),
        {
            let ghost before = instants(available@);
            let mut free = false;
            if current.is_working_day_and_hour() {
                if !self.is_span_taken(current.secs, current.secs + 900) {
                    available.push(current);
                    free = true;
                }
            }
            let next = current.get_next_working_datetime(None);
            proof {
                lemma_next_working_slot(current@, 900);
                assert(grid_floor(current@) == current@);
                assert(next@ >= current@ + 900);
                let after = instants(available@);
                if free {
                    assert(after =~= before.push(current@));
                    assert forall|i: int, j: int| 0 <= i < j < after.len() implies after[i]
                        < after[j] by {
                        if j == after.len() - 1 {
                            assert(before.contains(before[i]));
                        }
                    }
                } else {
                    assert(after =~= before);
                }
                assert forall|t: int|
                    after.contains(t) <==> t < next@ && is_free_cell_within(
                        self@,
                        from@,
                        to@,
                        t,
                    ) by {
                    if after.contains(t) {
                        if free && t == current@ {
                        } else {
                            let i = choose|i: int| 0 <= i < after.len() && after[i] == t;
                            assert(before[i] == t);
                            assert(before.contains(t));
                        }
                    }
                    if t < next@ && is_free_cell_within(self@, from@, to@, t) {
                        if t < current@ {
                            assert(before.contains(t));
                            let i = choose|i: int| 0 <= i < before.len() && before[i] == t;
                            assert(after[i] == t);
                        } else if t == current@ {
                            assert(after[after.len() - 1] == t);
                        } else {
                            lemma_single_step_skips_no_cell(current@, t);
                        }
                    }
                }
            }
            current = next;
        }
        available
    }

    /// The starts at which an appointment of type `appointment_type` can be
    /// booked from `from` on and not after `to`, in ascending order: the
    /// free starts of the window that `search_window` gives.
    pub fn free_slots(
        &self,
        from: Option<Timestamp>,
        to: Option<Timestamp>,
        appointment_type: AppointmentType,
    ) -> (r: Vec<Timestamp>)
        requires
            self.wf(),
            from matches Some(f) ==> in_range(f@),
            to matches Some(t) ==> in_range(t@),
        ensures
            from matches Some(f) ==> to matches Some(t) ==> lists_exactly(
                instants(r@),
                free_start_test(self@, f@, t@ + duration_seconds(appointment_type), appointment_type),
            ),
            exists|c1: int, c2: int|
                in_range(c1) && in_range(c2) && lists_exactly(
                    instants(r@),
                    free_start_test(
                        self@,
                        #[trigger] search_start(from, c1),
                        #[trigger] search_end(to, appointment_type, c2),
                        appointment_type,
                    ),
                ),
    {
        let (start, end) = search_window(from, to, appointment_type);
        self.free_slots_between(start, end, appointment_type)
    }

    /// The starts at which an appointment of type `appointment_type` fits
    /// inside the window `[from, to)`: every instant from which each cell
    /// that the appointment would cover is a free cell of the window, in
    /// ascending order.
    pub fn free_slots_between(
        &self,
        from: Timestamp,
        to: Timestamp,
        appointment_type: AppointmentType,
    ) -> (r: Vec<Timestamp>)
        requires
            self.wf(),
            can_step(from@),
            can_step(to@),
        ensures
            lists_exactly(instants(r@), free_start_test(self@, from@, to@, appointment_type)),
    {
        let available = self.available_single_time_slots(from, to);
        match appointment_type {
            AppointmentType::UrgentDentalAppointment => {
                proof {
                    assert forall|t: int|
                        instants(available@).contains(t) <==> is_free_start(
                            self@,
                            from@,
                            to@,
                            appointment_type,
                            t,
                        ) by {
                        assert(is_free_cell_within(self@, from@, to@, t + 900 * 0)
                            == is_free_cell_within(self@, from@, to@, t));
                    }
                }
                available
            },
            AppointmentType::DentalCheckUp | AppointmentType::ImplantConsultation => {
                let cells: i64 = appointment_type.duration().secs / 900;
                let mut fitting: Vec<Timestamp> = Vec::new();
                let mut i: usize = 0;
                proof {
                    assert(instants(fitting@) =~= Seq::<int>::empty());
                }
                while i < available.len()
                    invariant
                        0 <= i <= available@.len(),
                        cells == slot_count(appointment_type),
                        can_step(from@),
                        can_step(to@),
                        lists_exactly(instants(available@), free_cell_test(self@, from@, to@)),
                        is_ascending(instants(fitting@)),
                        forall|t: int|
                            instants(fitting@).contains(t) <==> (exists|j: int|
                                0 <= j < i && instants(available@)[j] == t) && is_free_start(
                                self@,
                                from@,
                                to@,
                                appointment_type,
                                t,
                            ),
                    decreases available@.len() - i,
                {
                    let start = available[i];
                    let ghost before = instants(fitting@);
                    assert(instants(available@)[i as int] == start@);
                    assert(instants(available@).contains(start@));
                    let mut current: i64 = start.secs;
                    let mut fits = true;
                    let mut k: i64 = 0;
                    while k < cells
                        invariant_except_break
                            fits,
                            0 <= k <= cells,
                            current == start@ + 900 * k,
                            forall|m: int|
                                0 <= m < k ==> #[trigger] is_free_cell_within(
                                    self@,
                                    from@,
                                    to@,
                                    start@ + 900 * m,
                                ),
                        invariant
                            cells == slot_count(appointment_type),
                            can_step(from@),
                            can_step(to@),
                            from@ <= start@ < to@,
                            lists_exactly(instants(available@), free_cell_test(self@, from@, to@)),
                        ensures
                            fits == is_free_start(self@, from@, to@, appointment_type, start@),
                        decreases cells - k,
                    {
                        if !holds_instant(&available, current) {
                            fits = false;
                            assert(!is_free_cell_within(self@, from@, to@, start@ + 900 * k));
                            break;
                        }
                        current = current + 900;
                        k = k + 1;
                    }
                    if fits {
                        fitting.push(start);
                    }
                    proof {
                        let after = instants(fitting@);
                        let listed = instants(available@);
                        if fits {
                            assert(after =~= before.push(start@));
                            assert forall|a: int, b: int| 0 <= a < b < after.len() implies after[a]
                                < after[b] by {
                                if b == after.len() - 1 {
                                    assert(before.contains(before[a]));
                                    let j = choose|j: int| 0 <= j < i && listed[j] == before[a];
                                    assert(listed[j] < listed[i as int]);
                                }
                            }
                        } else {
                            assert(after =~= before);
                        }
                        assert forall|t: int|
                            after.contains(t) <==> (exists|j: int|
                                0 <= j < i + 1 && listed[j] == t) && is_free_start(
                                self@,
                                from@,
                                to@,
                                appointment_type,
                                t,
                            ) by {
                            if after.contains(t) {
                                if fits && t == start@ {
                                    assert(listed[i as int] == t);
                                } else {
                                    let m = choose|m: int| 0 <= m < after.len() && after[m] == t;
                                    assert(before[m] == t);
                                    assert(before.contains(t));
                                    let j = choose|j: int| 0 <= j < i && listed[j] == t;
                                    assert(0 <= j < i + 1 && listed[j] == t);
                                }
                            }
                            if (exists|j: int| 0 <= j < i + 1 && listed[j] == t) && is_free_start(
                                self@,
                                from@,
                                to@,
                                appointment_type,
                                t,
                            ) {
                                let j = choose|j: int| 0 <= j < i + 1 && listed[j] == t;
                                if j < i {
                                    assert(before.contains(t));
                                    let m = choose|m: int| 0 <= m < before.len() && before[m] == t;
                                    assert(after[m] == t);
                                } else {
                                    assert(after[after.len() - 1] == t);
                                }
                            }
                        }
                    }
                    i = i + 1;
                }
                proof {
                    let listed = instants(available@);
                    assert forall|t: int|
                        instants(fitting@).contains(t) <==> is_free_start(
                            self@,
                            from@,
                            to@,
                            appointment_type,
                            t,
                        ) by {
                        if is_free_start(self@, from@, to@, appointment_type, t) {
                            assert(is_free_cell_within(self@, from@, to@, t + 900 * 0));
                            assert(listed.contains(t));
                            let j = choose|j: int| 0 <= j < listed.len() && listed[j] == t;
                            assert(0 <= j < i && listed[j] == t);
                        }
                    }
                }
                fitting
            },
        }
    }
}

/// The working cells of the day that starts at the instant `day`, in
/// ascending order: sixteen from 08:00 on and sixteen from 13:00 on.
pub open spec fn working_cells_of_day(day: int) -> Seq<int> {
    Seq::new(
        32,
        |i: int|
            if i < 16 {
                day + 28_800 + 900 * i
            } else {
                day + 46_800 + 900 * (i - 16)
            },
    )
}

/// At `second` seconds after the midnight `day` of a working day a working
/// cell starts exactly when `second` is a whole number of quarter hours
/// within one of the two working spans.
pub proof fn lemma_working_cell_of_day(day: int, second: int)
    requires
        day % 86_400 == 0,
        0 <= second < 86_400,
    ensures
        is_working_cell(day + second) <==> is_working_day_at(day) && second % 900 == 0 && ((28_800
            <= second < 43_200) || (46_800 <= second < 61_200)),
{
    reveal(is_working_at);
    let d = day / 86_400;
    assert(day == d * 86_400);
    assert((d * 86_400 + second) / 86_400 == d);
    assert((d * 86_400 + second) % 86_400 == second);
    assert((d * 86_400 + second) % 900 == second % 900) by {
        assert(d * 86_400 == (d * 96) * 900);
        assert(((d * 96) * 900 + second) % 900 == second % 900) by (nonlinear_arith);
    }
}

/// With nothing booked, the free cells of a whole working day, from 00:00:00
/// up to 23:59:59, are the 32 working cells of that day.
pub proof fn lemma_empty_working_day_has_32_cells(day: int, listing: Seq<int>)
    requires
        day % 86_400 == 0,
        is_working_day_at(day),
        lists_exactly(
            listing,
            free_cell_test(Seq::<DoctorsAppointment>::empty(), day, day + 86_399),
        ),
    ensures
        listing == working_cells_of_day(day),
        listing.len() == 32,
{
    let cells = working_cells_of_day(day);
    let nothing = Seq::<DoctorsAppointment>::empty();
    assert forall|t: int| listing.contains(t) <==> cells.contains(t) by {
        assert(listing.contains(t) == free_cell_test(nothing, day, day + 86_399)(t));
        lemma_cell_of_empty_day(day, t);
    }
    lemma_ascending_listing_is_unique(listing, cells);
}

/// With nothing booked, an instant is a free cell of the day that starts at
/// `day` exactly when it is one of the working cells of that day.
proof fn lemma_cell_of_empty_day(day: int, t: int)
    requires
        day % 86_400 == 0,
        is_working_day_at(day),
    ensures
        working_cells_of_day(day).contains(t) <==> is_free_cell_within(
            Seq::<DoctorsAppointment>::empty(),
            day,
            day + 86_399,
            t,
        ),
{
    let cells = working_cells_of_day(day);
    let second = t - day;
    if cells.contains(t) {
        let i = choose|i: int| 0 <= i < cells.len() && cells[i] == t;
        lemma_working_cell_of_day(day, second);
        if i < 16 {
            assert(second == 28_800 + 900 * i);
        } else {
            assert(second == 46_800 + 900 * (i - 16));
        }
    }
    if day <= t < day + 86_399 {
        lemma_working_cell_of_day(day, second);
        if is_working_cell(t) {
            if second < 43_200 {
                let i = (second - 28_800) / 900;
                assert(0 <= i < 16);
                assert(cells[i] == t);
            } else {
                let i = 16 + (second - 46_800) / 900;
                assert(16 <= i < 32);
                assert(cells[i] == t);
            }
        }
    }
}

/// For the shortest appointment type the free starts of a window are its
/// free cells.
pub proof fn lemma_shortest_type_fits_every_free_cell(
    booked: Seq<DoctorsAppointment>,
    from: int,
    to: int,
    cells: Seq<int>,
    starts: Seq<int>,
)
    requires
        lists_exactly(cells, free_cell_test(booked, from, to)),
        lists_exactly(
            starts,
            free_start_test(booked, from, to, AppointmentType::UrgentDentalAppointment),
        ),
    ensures
        starts == cells,
{
    assert forall|t: int| starts.contains(t) <==> cells.contains(t) by {
        assert(starts.contains(t) == free_start_test(
            booked,
            from,
            to,
            AppointmentType::UrgentDentalAppointment,
        )(t));
        assert(cells.contains(t) == free_cell_test(booked, from, to)(t));
        assert(is_free_cell_within(booked, from, to, t + 900 * 0) == is_free_cell_within(
            booked,
            from,
            to,
            t,
        ));
    }
    lemma_ascending_listing_is_unique(starts, cells);
}

/// No working cell starts in the last second of a day or in the quarter
/// hour after the midnight that ends the day.
proof fn lemma_no_cell_around_midnight(day: int, t: int)
    requires
        day % 86_400 == 0,
        day + 86_399 <= t < day + 86_399 + 900,
    ensures
        !is_working_cell(t),
{
    if t == day + 86_399 {
        lemma_working_cell_of_day(day, 86_399);
    } else {
        lemma_working_cell_of_day(day + 86_400, t - day - 86_400);
    }
}

/// With nothing booked, the shortest type fits at an instant of a whole
/// working day, from 00:00:00 on and not after 23:59:59, exactly when the
/// instant is one of the working cells of that day.
proof fn lemma_shortest_start_of_empty_day(day: int, t: int)
    requires
        day % 86_400 == 0,
        is_working_day_at(day),
    ensures
        working_cells_of_day(day).contains(t) <==> is_free_start(
            Seq::<DoctorsAppointment>::empty(),
            day,
            day + 86_399 + 900,
            AppointmentType::UrgentDentalAppointment,
            t,
        ),
{
    let nothing = Seq::<DoctorsAppointment>::empty();
    lemma_cell_of_empty_day(day, t);
    if day + 86_399 <= t < day + 86_399 + 900 {
        lemma_no_cell_around_midnight(day, t);
    }
    assert(is_free_cell_within(nothing, day, day + 86_399 + 900, t + 900 * 0)
        == is_free_cell_within(nothing, day, day + 86_399 + 900, t));
}

/// With nothing booked, the free starts of the shortest type on a whole
/// working day, from 00:00:00 on and not after 23:59:59, are the 32 working
/// cells of that day: as many as the day has free cells.
pub proof fn lemma_empty_working_day_has_32_shortest_starts(day: int, starts: Seq<int>)
    requires
        day % 86_400 == 0,
        is_working_day_at(day),
        lists_exactly(
            starts,
            free_start_test(
                Seq::<DoctorsAppointment>::empty(),
                day,
                day + 86_399 + 900,
                AppointmentType::UrgentDentalAppointment,
            ),
        ),
    ensures
        starts == working_cells_of_day(day),
        starts.len() == 32,
{
    let cells = working_cells_of_day(day);
    let nothing = Seq::<DoctorsAppointment>::empty();
    let ty = AppointmentType::UrgentDentalAppointment;
    assert forall|t: int| starts.contains(t) <==> cells.contains(t) by {
        assert(starts.contains(t) == free_start_test(nothing, day, day + 86_399 + 900, ty)(t));
        lemma_shortest_start_of_empty_day(day, t);
    }
    lemma_ascending_listing_is_unique(starts, cells);
}

/// A window can be stretched at its end over instants at which no working
/// cell starts without a change to its free cells: so the free starts of
/// the shortest type up to 23:59:59 of a day are the free cells of that day.
pub proof fn lemma_idle_stretch_adds_no_cell(
    booked: Seq<DoctorsAppointment>,
    from: int,
    to: int,
    stretched: int,
    cells: Seq<int>,
    more: Seq<int>,
)
    requires
        to <= stretched,
        forall|t: int| to <= t < stretched ==> !is_working_cell(t),
        lists_exactly(cells, free_cell_test(booked, from, to)),
        lists_exactly(more, free_cell_test(booked, from, stretched)),
    ensures
        more == cells,
{
    assert forall|t: int| more.contains(t) <==> cells.contains(t) by {
        assert(more.contains(t) == free_cell_test(booked, from, stretched)(t));
        assert(cells.contains(t) == free_cell_test(booked, from, to)(t));
    }
    lemma_ascending_listing_is_unique(more, cells);
}

/// Every free start of a type is a free cell, so no type has more free
/// starts in a window than the window has free cells.
pub proof fn lemma_free_starts_are_free_cells(
    booked: Seq<DoctorsAppointment>,
    from: int,
    to: int,
    ty: AppointmentType,
    cells: Seq<int>,
    starts: Seq<int>,
)
    requires
        lists_exactly(cells, free_cell_test(booked, from, to)),
        lists_exactly(starts, free_start_test(booked, from, to, ty)),
    ensures
        forall|t: int| starts.contains(t) ==> cells.contains(t),
        starts.len() <= cells.len(),
{
    assert forall|t: int| starts.contains(t) implies cells.contains(t) by {
        assert(starts.contains(t) == free_start_test(booked, from, to, ty)(t));
        assert(cells.contains(t) == free_cell_test(booked, from, to)(t));
        assert(is_free_cell_within(booked, from, to, t + 900 * 0));
    }
    lemma_sublisting_is_no_longer(cells, starts);
}

/// For an appointment that starts on the grid, the cells with which it
/// shares time are the cells that it reserves: a grid cell is taken by the
/// appointment exactly when the cell is one of its slots.
pub proof fn lemma_taken_cells_are_reserved_slots(appointment: DoctorsAppointment, t: int)
    requires
        on_grid(appointment.start()),
        on_grid(t),
    ensures
        appointment.meets(t, t + 900) <==> appointment.slots().contains(t),
{
    let start = appointment.start();
    let cells = slot_count(appointment.appointment_type);
    if appointment.meets(t, t + 900) {
        let k = (t - start) / 900;
        assert(start % 900 == 0 && t % 900 == 0);
        assert(0 <= k < cells);
        assert(appointment.slots()[k] == t);
    }
    if appointment.slots().contains(t) {
        let k = choose|k: int| 0 <= k < appointment.slots().len() && appointment.slots()[k] == t;
        assert(t == start + 900 * k);
    }
}

} // verus!
