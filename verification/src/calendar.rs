//! The calendar: an ordered store of appointments that never overlap and
//! never leave working time.

use vstd::prelude::*;
use crate::appointment::{DoctorsAppointment, slot_count};
use crate::time::{Timestamp, instants};
use crate::working_hours::{WorkingDayTimes, is_working_at};

verus! {

/// Why a booking was refused.
#[derive(Debug, PartialEq, Eq, Structural, Clone, Copy)]
pub enum BookingError {
    /// A cell of the appointment falls on a non-working day or outside the
    /// working spans.
    OutsideWorkingHours,
    /// The appointment shares time with one that is already booked.
    Overlap,
}

impl BookingError {
    /// A sentence that names the reason.
    pub fn message(&self) -> (r: &'static str)
        ensures
            r@ == match *self {
                BookingError::OutsideWorkingHours => "Appointment is not within working hours"@,
                BookingError::Overlap => "Appointment overlaps with an existing appointment"@,
            },
    {
        match self {
            BookingError::OutsideWorkingHours => "Appointment is not within working hours",
            BookingError::Overlap => "Appointment overlaps with an existing appointment",
        }
    }
}

/// Whether every cell of `appointment` starts at a working instant.
pub open spec fn within_working_time(appointment: DoctorsAppointment) -> bool {
    forall|k: int|
        0 <= k < slot_count(appointment.appointment_type) ==> is_working_at(
            #[trigger] appointment.slots()[k],
        )
}

/// Whether an appointment among `booked` shares time with the span
/// `[from, to)`.
pub open spec fn span_is_taken(booked: Seq<DoctorsAppointment>, from: int, to: int) -> bool {
    exists|i: int| 0 <= i < booked.len() && (#[trigger] booked[i]).meets(from, to)
}

/// Whether an appointment among `booked` shares time with `appointment`.
pub open spec fn overlaps_booked(
    booked: Seq<DoctorsAppointment>,
    appointment: DoctorsAppointment,
) -> bool {
    span_is_taken(booked, appointment.start(), appointment.end())
}

/// Whether `booked` is a valid content of a calendar: every appointment
/// ends at a representable instant and stays within working time, and each
/// one ends before the next one starts.
pub open spec fn is_schedule(booked: Seq<DoctorsAppointment>) -> bool {
    &&& forall|i: int|
        0 <= i < booked.len() ==> (#[trigger] booked[i]).representable() && within_working_time(
            booked[i],
        )
    &&& forall|i: int, j: int|
        0 <= i < j < booked.len() ==> (#[trigger] booked[i]).end() <= (#[trigger] booked[j]).start()
}

/// The place in `booked` at which an appointment that starts at `t` is put
/// in: right after the last appointment that starts before `t`.
pub open spec fn place_of(booked: Seq<DoctorsAppointment>, t: int) -> int
    decreases booked.len(),
{
    if booked.len() == 0 {
        0
    } else if booked.last().start() < t {
        booked.len() as int
    } else {
        place_of(booked.drop_last(), t)
    }
}

/// The schedule `booked` with `appointment` put in at its place.
pub open spec fn booked_with(
    booked: Seq<DoctorsAppointment>,
    appointment: DoctorsAppointment,
) -> Seq<DoctorsAppointment> {
    booked.insert(place_of(booked, appointment.start()), appointment)
}

/// Whether an appointment starts inside the closed window `[from, to]`; a
/// bound that is absent does not restrict.
pub open spec fn starts_within(
    appointment: DoctorsAppointment,
    from: Option<Timestamp>,
    to: Option<Timestamp>,
) -> bool {
    &&& from matches Some(f) ==> f@ <= appointment.start()
    &&& to matches Some(t) ==> appointment.start() <= t@
}

/// The test that `starts_within` makes, as a predicate on appointments.
pub open spec fn window_test(from: Option<Timestamp>, to: Option<Timestamp>) -> spec_fn(
    DoctorsAppointment,
) -> bool {
    |a: DoctorsAppointment| starts_within(a, from, to)
}

/// The outcome that booking `appointment` into `booked` must have.
pub open spec fn booking_outcome(
    booked: Seq<DoctorsAppointment>,
    appointment: DoctorsAppointment,
) -> Result<(), BookingError> {
    if !within_working_time(appointment) {
        Err(BookingError::OutsideWorkingHours)
    } else if overlaps_booked(booked, appointment) {
        Err(BookingError::Overlap)
    } else {
        Ok(())
    }
}

/// The appointments of one doctor, in ascending order of start.
pub struct DoctorsCalendar {
    /// The booked appointments, ascending by start, none sharing time with
    /// another.
    pub appointments: Vec<DoctorsAppointment>,
}

impl View for DoctorsCalendar {
    type V = Seq<DoctorsAppointment>;

    open spec fn view(&self) -> Seq<DoctorsAppointment> {
        self.appointments@
    }
}

impl Default for DoctorsCalendar {
    fn default() -> (r: Self)
        ensures
            r@ == Seq::<DoctorsAppointment>::empty(),
            r.wf(),
    {
        Self::new()
    }
}

impl DoctorsCalendar {
    /// Whether the calendar holds a valid schedule.
    pub open spec fn wf(&self) -> bool {
        is_schedule(self@)
    }

    /// An empty calendar.
    pub fn new() -> (r: Self)
        ensures
            r@ == Seq::<DoctorsAppointment>::empty(),
            r.wf(),
    {
        Self { appointments: Vec::new() }
    }

    /// Books `appointment`, unless one of its cells lies outside working
    /// time or it shares time with a booked appointment. A refusal leaves
    /// the calendar as it was; the working-time test comes first.
    pub fn add_appointment(&mut self, appointment: DoctorsAppointment) -> (r: Result<
        (),
        BookingError,
    >)
        requires
            old(self).wf(),
            appointment.representable(),
        ensures
            final(self).wf(),
            r == booking_outcome(old(self)@, appointment),
            r.is_err() ==> final(self)@ == old(self)@,
            r.is_ok() ==> final(self)@ == booked_with(old(self)@, appointment),
    {
        let slots = appointment.to_reserved_time_slots();
        let mut k: usize = 0;
        assert(instants(slots@).len() == slots@.len());
        while k < slots.len()
            invariant
                *self == *old(self),
                self.wf(),
                0 <= k <= slots@.len(),
                instants(slots@) == appointment.slots(),
                slots@.len() == slot_count(appointment.appointment_type),
                forall|j: int| 0 <= j < k ==> is_working_at(#[trigger] appointment.slots()[j]),
            decreases slots@.len() - k,
        {
            assert(instants(slots@)[k as int] == slots@[k as int]@);
            if !slots[k].is_working_day_and_hour() {
                return Err(BookingError::OutsideWorkingHours);
            }
            k = k + 1;
        }
        let start: i64 = appointment.date_time.secs;
        let end: i64 = start + appointment.appointment_type.duration().secs;
        let mut i: usize = 0;
        while i < self.appointments.len()
            invariant
                *self == *old(self),
                self.wf(),
                within_working_time(appointment),
                start == appointment.start(),
                end == appointment.end(),
                0 <= i <= self@.len(),
                forall|j: int| 0 <= j < i ==> !(#[trigger] self@[j]).meets(start as int, end as int),
            decreases self@.len() - i,
        {
            let booked = self.appointments[i];
            let booked_end: i64 = booked.date_time.secs + booked.appointment_type.duration().secs;
            if booked.date_time.secs < end && start < booked_end {
                assert(self@[i as int].meets(appointment.start(), appointment.end()));
                return Err(BookingError::Overlap);
            }
            i = i + 1;
        }
        let mut place: usize = 0;
        while place < self.appointments.len() && self.appointments[place].date_time.secs < start
            invariant
                *self == *old(self),
                self.wf(),
                within_working_time(appointment),
                !overlaps_booked(self@, appointment),
                0 <= place <= self@.len(),
                forall|j: int| 0 <= j < place ==> (#[trigger] self@[j]).start() < start,
            decreases self@.len() - place,
        {
            place = place + 1;
        }
        proof {
            lemma_place_of(self@, start as int, place as int);
            lemma_booked_with(self@, appointment);
        }
        self.appointments.insert(place, appointment);
        Ok(())
    }

    /// The booked appointments that start inside the closed window
    /// `[from, to]`, in ascending order of start. A bound that is absent
    /// does not restrict.
    pub fn booked_appointments(&self, from: Option<Timestamp>, to: Option<Timestamp>) -> (r: Vec<
        DoctorsAppointment,
    >)
        ensures
            r@ == self@.filter(window_test(from, to)),
            self.wf() ==> is_schedule(r@),
    {
        let mut found: Vec<DoctorsAppointment> = Vec::new();
        let mut i: usize = 0;
        proof {
            reveal(Seq::filter);
            assert(self@.take(0) =~= Seq::<DoctorsAppointment>::empty());
        }
        while i < self.appointments.len()
            invariant
                0 <= i <= self@.len(),
                found@ == self@.take(i as int).filter(window_test(from, to)),
            decreases self@.len() - i,
        {
            let appointment = self.appointments[i];
            let after_from = match from {
                Some(f) => f.secs <= appointment.date_time.secs,
                None => true,
            };
            let before_to = match to {
                Some(t) => appointment.date_time.secs <= t.secs,
                None => true,
            };
            proof {
                reveal(Seq::filter);
                assert(self@.take(i + 1).drop_last() =~= self@.take(i as int));
                assert(self@.take(i + 1).last() == appointment);
            }
            if after_from && before_to {
                found.push(appointment);
            }
            i = i + 1;
        }
        proof {
            assert(self@.take(self@.len() as int) =~= self@);
            if self.wf() {
                lemma_selection_of_schedule(self@, window_test(from, to));
            }
        }
        found
    }
}

/// The appointments of a schedule that pass a test, taken in their order,
/// are a schedule again: they stay in ascending order of start.
pub proof fn lemma_selection_of_schedule(
    booked: Seq<DoctorsAppointment>,
    test: spec_fn(DoctorsAppointment) -> bool,
)
    requires
        is_schedule(booked),
    ensures
        is_schedule(booked.filter(test)),
        forall|a: DoctorsAppointment| booked.filter(test).contains(a) ==> booked.contains(a),
    decreases booked.len(),
{
    reveal(Seq::filter);
    if booked.len() > 0 {
        let shorter = booked.drop_last();
        lemma_schedule_without_last(booked);
        lemma_selection_of_schedule(shorter, test);
        let kept = shorter.filter(test);
        let chosen = booked.filter(test);
        assert forall|a: DoctorsAppointment| chosen.contains(a) implies booked.contains(a) by {
            let i = choose|i: int| 0 <= i < chosen.len() && chosen[i] == a;
            if i < kept.len() {
                assert(kept[i] == a);
                assert(kept.contains(a));
                assert(shorter.contains(a));
                let j = choose|j: int| 0 <= j < shorter.len() && shorter[j] == a;
                assert(booked[j] == a);
            } else {
                assert(booked[booked.len() - 1] == a);
            }
        }
        if test(booked.last()) {
            assert forall|i: int, j: int| 0 <= i < j < chosen.len() implies (#[trigger] chosen[i]).end()
                <= (#[trigger] chosen[j]).start() by {
                if j == chosen.len() - 1 {
                    assert(kept[i] == chosen[i]);
                    assert(kept.contains(kept[i]));
                    assert(shorter.contains(kept[i]));
                    let m = choose|m: int| 0 <= m < shorter.len() && shorter[m] == kept[i];
                    assert(booked[m] == kept[i]);
                    assert(booked[m].end() <= booked[booked.len() - 1].start());
                } else {
                    assert(kept[i] == chosen[i]);
                    assert(kept[j] == chosen[j]);
                }
            }
            assert forall|i: int| 0 <= i < chosen.len() implies (#[trigger] chosen[i]).representable()
                && within_working_time(chosen[i]) by {
                if i < kept.len() {
                    assert(kept[i] == chosen[i]);
                }
            }
        }
    }
}

/// A schedule without its last appointment is a schedule.
pub proof fn lemma_schedule_without_last(booked: Seq<DoctorsAppointment>)
    requires
        is_schedule(booked),
        booked.len() > 0,
    ensures
        is_schedule(booked.drop_last()),
{
    let shorter = booked.drop_last();
    assert forall|i: int| 0 <= i < shorter.len() implies (#[trigger] shorter[i]).representable()
        && within_working_time(shorter[i]) by {
        assert(shorter[i] == booked[i]);
    }
    assert forall|i: int, j: int| 0 <= i < j < shorter.len() implies (#[trigger] shorter[i]).end()
        <= (#[trigger] shorter[j]).start() by {
        assert(shorter[i] == booked[i]);
        assert(shorter[j] == booked[j]);
    }
}

/// In a schedule, the place of an appointment that starts at `t` is the one
/// place with only earlier starts before it and no earlier start from it on.
pub proof fn lemma_place_of(booked: Seq<DoctorsAppointment>, t: int, place: int)
    requires
        is_schedule(booked),
        0 <= place <= booked.len(),
        forall|j: int| 0 <= j < place ==> (#[trigger] booked[j]).start() < t,
        place < booked.len() ==> booked[place].start() >= t,
    ensures
        place_of(booked, t) == place,
    decreases booked.len(),
{
    if booked.len() == 0 {
    } else if booked.last().start() < t {
        if place < booked.len() - 1 {
            assert(booked[place].end() <= booked[booked.len() - 1].start());
        }
    } else {
        let shorter = booked.drop_last();
        lemma_schedule_without_last(booked);
        assert(place < booked.len());
        assert forall|j: int| 0 <= j < place implies (#[trigger] shorter[j]).start() < t by {
            assert(shorter[j] == booked[j]);
        }
        if place < shorter.len() {
            assert(shorter[place] == booked[place]);
        }
        lemma_place_of(shorter, t, place);
    }
}

/// What a successful booking leaves is a schedule again, and holds the new
/// appointment and every appointment that was booked before, and no other.
pub proof fn lemma_booked_with(booked: Seq<DoctorsAppointment>, appointment: DoctorsAppointment)
    requires
        is_schedule(booked),
        appointment.representable(),
        booking_outcome(booked, appointment).is_ok(),
    ensures
        is_schedule(booked_with(booked, appointment)),
        booked_with(booked, appointment).len() == booked.len() + 1,
        booked_with(booked, appointment).contains(appointment),
        forall|a: DoctorsAppointment|
            booked_with(booked, appointment).contains(a) <==> a == appointment || booked.contains(
                a,
            ),
{
    let t = appointment.start();
    let place = place_of(booked, t);
    lemma_place_of_bounds(booked, t);
    let after = booked_with(booked, appointment);
    booked.insert_ensures(place, appointment);
    assert forall|a: int, b: int| 0 <= a < b < after.len() implies (#[trigger] after[a]).end()
        <= (#[trigger] after[b]).start() by {
        if b < place {
        } else if a > place {
            assert(after[a] == booked[a - 1]);
            assert(after[b] == booked[b - 1]);
        } else if a == place {
            assert(after[b] == booked[b - 1]);
            assert(!booked[b - 1].meets(appointment.start(), appointment.end()));
            assert(booked[place].start() >= t);
            assert(booked[place].start() <= booked[b - 1].start());
        } else if b == place {
            assert(!booked[a].meets(appointment.start(), appointment.end()));
        } else {
            assert(after[b] == booked[b - 1]);
        }
    }
    assert forall|a: int| 0 <= a < after.len() implies (#[trigger] after[a]).representable()
        && within_working_time(after[a]) by {
        if a < place {
        } else if a == place {
        } else {
            assert(after[a] == booked[a - 1]);
        }
    }
    assert forall|a: DoctorsAppointment|
        after.contains(a) <==> a == appointment || booked.contains(a) by {
        if after.contains(a) {
            let i = choose|i: int| 0 <= i < after.len() && after[i] == a;
            if i < place {
                assert(booked[i] == a);
            } else if i > place {
                assert(booked[i - 1] == a);
            }
        }
        if a == appointment {
            assert(after[place] == a);
        }
        if booked.contains(a) {
            let i = choose|i: int| 0 <= i < booked.len() && booked[i] == a;
            if i < place {
                assert(after[i] == a);
            } else {
                assert(after[i + 1] == a);
            }
        }
    }
}

/// The place of an instant in a schedule has only earlier starts before it
/// and no earlier start from it on.
pub proof fn lemma_place_of_bounds(booked: Seq<DoctorsAppointment>, t: int)
    requires
        is_schedule(booked),
    ensures
        0 <= place_of(booked, t) <= booked.len(),
        forall|j: int| 0 <= j < place_of(booked, t) ==> (#[trigger] booked[j]).start() < t,
        forall|j: int| place_of(booked, t) <= j < booked.len() ==> (#[trigger] booked[j]).start() >= t,
    decreases booked.len(),
{
    if booked.len() == 0 {
    } else if booked.last().start() < t {
        assert forall|j: int| 0 <= j < booked.len() implies (#[trigger] booked[j]).start() < t by {
            if j < booked.len() - 1 {
                assert(booked[j].end() <= booked[booked.len() - 1].start());
            }
        }
    } else {
        let shorter = booked.drop_last();
        lemma_schedule_without_last(booked);
        lemma_place_of_bounds(shorter, t);
        assert forall|j: int| 0 <= j < place_of(booked, t) implies (#[trigger] booked[j]).start()
            < t by {
            assert(shorter[j] == booked[j]);
        }
        assert forall|j: int| place_of(booked, t) <= j < booked.len() implies (
        #[trigger] booked[j]).start() >= t by {
            if j < shorter.len() {
                assert(shorter[j] == booked[j]);
            }
        }
    }
}

/// Two appointments that have a cell in common share time.
pub proof fn lemma_common_cell_is_shared_time(first: DoctorsAppointment, second: DoctorsAppointment)
    requires
        exists|i: int, j: int|
            0 <= i < slot_count(first.appointment_type) && 0 <= j < slot_count(
                second.appointment_type,
            ) && #[trigger] first.slots()[i] == #[trigger] second.slots()[j],
    ensures
        first.meets(second.start(), second.end()),
        second.meets(first.start(), first.end()),
{
    let (i, j) = choose|i: int, j: int|
        0 <= i < slot_count(first.appointment_type) && 0 <= j < slot_count(
            second.appointment_type,
        ) && #[trigger] first.slots()[i] == #[trigger] second.slots()[j];
    assert(first.start() + 900 * i == second.start() + 900 * j);
}

/// Once an appointment is booked, an appointment that shares time with it
/// and stays within working time is refused as overlapping, whichever of
/// the two starts first and whichever is the longer.
pub proof fn lemma_overlapping_booking_is_refused(
    booked: Seq<DoctorsAppointment>,
    first: DoctorsAppointment,
    second: DoctorsAppointment,
)
    requires
        is_schedule(booked),
        first.representable(),
        booking_outcome(booked, first).is_ok(),
        within_working_time(second),
        second.meets(first.start(), first.end()),
    ensures
        booking_outcome(booked_with(booked, first), second) == Err::<(), BookingError>(
            BookingError::Overlap,
        ),
{
    lemma_booked_with(booked, first);
    let after = booked_with(booked, first);
    let place = choose|i: int| 0 <= i < after.len() && after[i] == first;
    assert(after[place].meets(second.start(), second.end()));
}

/// Once an appointment is booked, an appointment that stays within working
/// time and has a cell in common with it is refused as overlapping.
pub proof fn lemma_booking_on_a_reserved_cell_is_refused(
    booked: Seq<DoctorsAppointment>,
    first: DoctorsAppointment,
    second: DoctorsAppointment,
)
    requires
        is_schedule(booked),
        first.representable(),
        booking_outcome(booked, first).is_ok(),
        within_working_time(second),
        exists|i: int, j: int|
            0 <= i < slot_count(first.appointment_type) && 0 <= j < slot_count(
                second.appointment_type,
            ) && #[trigger] first.slots()[i] == #[trigger] second.slots()[j],
    ensures
        booking_outcome(booked_with(booked, first), second) == Err::<(), BookingError>(
            BookingError::Overlap,
        ),
{
    lemma_common_cell_is_shared_time(first, second);
    lemma_overlapping_booking_is_refused(booked, first, second);
}

} // verus!
