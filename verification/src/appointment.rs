//! Appointment categories and single appointments.

use vstd::prelude::*;
use crate::time::{Duration, Timestamp, instants};

verus! {

/// The bookable categories of appointment.
#[derive(Debug, PartialEq, Eq, Structural, PartialOrd, Ord, Clone, Copy, Hash)]
pub enum AppointmentType {
    /// A routine check-up of 30 minutes.
    DentalCheckUp,
    /// A consultation of 90 minutes.
    ImplantConsultation,
    /// An urgent visit of 15 minutes.
    UrgentDentalAppointment,
}

/// Number of 15-minute grid cells that an appointment of type `ty` covers.
pub open spec fn slot_count(ty: AppointmentType) -> int {
    match ty {
        AppointmentType::DentalCheckUp => 2,
        AppointmentType::ImplantConsultation => 6,
        AppointmentType::UrgentDentalAppointment => 1,
    }
}

/// Length in seconds of an appointment of type `ty`.
pub open spec fn duration_seconds(ty: AppointmentType) -> int {
    slot_count(ty) * 900
}

/// The label under which type `ty` is shown.
pub open spec fn display_label(ty: AppointmentType) -> Seq<char> {
    match ty {
        AppointmentType::DentalCheckUp => "Check-up"@,
        AppointmentType::ImplantConsultation => "Implant Consultation"@,
        AppointmentType::UrgentDentalAppointment => "Urgent Appointment"@,
    }
}

/// The appointment types from the longest to the shortest.
pub open spec fn types_longest_first() -> Seq<AppointmentType> {
    seq![
        AppointmentType::ImplantConsultation,
        AppointmentType::DentalCheckUp,
        AppointmentType::UrgentDentalAppointment,
    ]
}

impl AppointmentType {
    /// How long an appointment of this type lasts.
    pub fn duration(&self) -> (r: Duration)
        ensures
            r@ == duration_seconds(*self),
    {
        match self {
            AppointmentType::DentalCheckUp => Duration { secs: 1_800 },
            AppointmentType::ImplantConsultation => Duration { secs: 5_400 },
            AppointmentType::UrgentDentalAppointment => Duration { secs: 900 },
        }
    }

    /// The label under which this type is shown.
    pub fn display_name(&self) -> (r: &'static str)
        ensures
            r@ == display_label(*self),
    {
        match self {
            AppointmentType::DentalCheckUp => "Check-up",
            AppointmentType::ImplantConsultation => "Implant Consultation",
            AppointmentType::UrgentDentalAppointment => "Urgent Appointment",
        }
    }

    /// How many 15-minute grid cells an appointment of this type covers.
    pub fn duration_in_time_slots(&self) -> (r: u8)
        ensures
            r == slot_count(*self),
            r * 900 == duration_seconds(*self),
    {
        match self {
            AppointmentType::DentalCheckUp => 2,
            AppointmentType::ImplantConsultation => 6,
            AppointmentType::UrgentDentalAppointment => 1,
        }
    }
}

/// Walks the appointment types from the longest to the shortest.
pub struct AppointmentTypeIter {
    /// The type that the next step yields, if any is left.
    pub next: Option<AppointmentType>,
}

impl View for AppointmentTypeIter {
    type V = Seq<AppointmentType>;

    /// The types still to come, in the order in which they come.
    open spec fn view(&self) -> Seq<AppointmentType> {
        match self.next {
            Some(AppointmentType::ImplantConsultation) => types_longest_first(),
            Some(AppointmentType::DentalCheckUp) => types_longest_first().skip(1),
            Some(AppointmentType::UrgentDentalAppointment) => types_longest_first().skip(2),
            None => Seq::empty(),
        }
    }
}

impl AppointmentTypeIter {
    /// A walk that starts at the longest type.
    pub fn new() -> (r: Self)
        ensures
            r@ == types_longest_first(),
    {
        AppointmentTypeIter { next: Some(AppointmentType::ImplantConsultation) }
    }

    /// Yields the next type of the walk, or `None` once all have been yielded.
    pub fn next(&mut self) -> (r: Option<AppointmentType>)
        ensures
            old(self)@.len() == 0 ==> r.is_none() && final(self)@ == old(self)@,
            old(self)@.len() > 0 ==> r == Some(old(self)@[0]) && final(self)@ == old(self)@.skip(1),
    {
        let result = self.next;
        self.next = match result {
            Some(AppointmentType::ImplantConsultation) => Some(AppointmentType::DentalCheckUp),
            Some(AppointmentType::DentalCheckUp) => Some(
                AppointmentType::UrgentDentalAppointment,
            ),
            Some(AppointmentType::UrgentDentalAppointment) => None,
            None => None,
        };
        proof {
            assert(types_longest_first().skip(1).skip(1) =~= types_longest_first().skip(2));
            assert(types_longest_first().skip(2).skip(1) =~= Seq::<AppointmentType>::empty());
        }
        result
    }
}

/// The walk from the longest type visits every type once, each strictly
/// longer than the one after it.
pub proof fn lemma_types_longest_first()
    ensures
        types_longest_first().len() == 3,
        forall|ty: AppointmentType| types_longest_first().contains(ty),
        forall|i: int, j: int|
            0 <= i < j < 3 ==> duration_seconds(#[trigger] types_longest_first()[i])
                > duration_seconds(#[trigger] types_longest_first()[j]),
{
    assert(types_longest_first()[0] == AppointmentType::ImplantConsultation);
    assert(types_longest_first()[1] == AppointmentType::DentalCheckUp);
    assert(types_longest_first()[2] == AppointmentType::UrgentDentalAppointment);
    assert forall|ty: AppointmentType| types_longest_first().contains(ty) by {
        match ty {
            AppointmentType::ImplantConsultation => {
                assert(types_longest_first()[0] == ty);
            },
            AppointmentType::DentalCheckUp => {
                assert(types_longest_first()[1] == ty);
            },
            AppointmentType::UrgentDentalAppointment => {
                assert(types_longest_first()[2] == ty);
            },
        }
    }
}

/// One appointment: when it starts and of which type it is.
#[derive(Debug, PartialEq, Eq, Structural, PartialOrd, Ord, Clone, Copy, Hash)]
pub struct DoctorsAppointment {
    /// The instant at which the appointment starts.
    pub date_time: Timestamp,
    /// The category, which fixes the length.
    pub appointment_type: AppointmentType,
}

impl DoctorsAppointment {
    /// The instant at which the appointment starts.
    pub open spec fn start(self) -> int {
        self.date_time@
    }

    /// The instant at which the appointment ends; it occupies `[start, end)`.
    pub open spec fn end(self) -> int {
        self.date_time@ + duration_seconds(self.appointment_type)
    }

    /// Whether the end of the appointment is an instant that a timestamp can
    /// hold.
    pub open spec fn representable(self) -> bool {
        self.end() <= i64::MAX
    }

    /// The instants at which the 15-minute cells of the appointment start, in
    /// ascending order.
    pub open spec fn slots(self) -> Seq<int> {
        Seq::new(slot_count(self.appointment_type) as nat, |k: int| self.start() + 900 * k)
    }

    /// Whether the occupied span meets the span `[from, to)`.
    pub open spec fn meets(self, from: int, to: int) -> bool {
        self.start() < to && from < self.end()
    }

    /// An appointment of type `appointment_type` that starts at `date_time`.
    pub fn new(date_time: Timestamp, appointment_type: AppointmentType) -> (r: Self)
        ensures
            r.date_time == date_time,
            r.appointment_type == appointment_type,
    {
        Self { date_time, appointment_type }
    }

    /// Whether the end of the appointment is an instant that a timestamp can
    /// hold.
    pub fn is_representable(&self) -> (r: bool)
        ensures
            r == self.representable(),
    {
        self.date_time.secs <= i64::MAX - self.appointment_type.duration().secs
    }

    /// The cells that the appointment occupies: one timestamp every 15
    /// minutes from the start up to, and without, the end.
    pub fn to_reserved_time_slots(self) -> (r: Vec<Timestamp>)
        requires
            self.representable(),
        ensures
            instants(r@) == self.slots(),
    {
        let mut time_slots: Vec<Timestamp> = Vec::new();
        let end: i64 = self.date_time.secs + self.appointment_type.duration().secs;
        let mut current: i64 = self.date_time.secs;
        while current < end
            invariant
                end == self.end(),
                self.start() <= current <= end,
                (current - self.start()) % 900 == 0,
                time_slots@.len() * 900 == current - self.start(),
                forall|k: int| 0 <= k < time_slots@.len() ==> (#[trigger] time_slots@[k])@ == self.start() + 900 * k,
            decreases end - current,
        {
            time_slots.push(Timestamp { secs: current });
            current = current + 900;
        }
        proof {
            assert(instants(time_slots@) =~= self.slots());
        }
        time_slots
    }
}

} // verus!
