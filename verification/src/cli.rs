//! What the command-line menus decide: which action or appointment type a
//! selection stands for, which date a typed text gives, and which
//! percentages are accepted. Prompting and printing are left to the caller.

use vstd::prelude::*;
use crate::appointment::AppointmentType;
use crate::civil::{DateParseError, civil_reading};
use crate::time::{Timestamp, grid_floor, nearest_in_range};

verus! {

/// The actions that the main menu offers.
#[derive(Debug, Clone, Copy, PartialEq, Eq, Structural)]
pub enum Action {
    /// Set the start of the window that is looked at.
    SetFromDate,
    /// Set the end of the window that is looked at.
    SetToDate,
    /// Fill the window with random appointments.
    FillRandom,
    /// List the booked appointments of the window.
    BookedAppointments,
    /// Book an appointment.
    AddNewAppointment,
    /// List the free starts of the window for a type.
    ListFreeTimeSlots,
    /// List the optimized free starts of the window for a type.
    ListOptimizedFreeTimeSlots,
    /// Leave the program.
    Quit,
}

/// The actions of the main menu in the order in which it shows them.
pub open spec fn main_menu_actions() -> Seq<Action> {
    seq![
        Action::AddNewAppointment,
        Action::BookedAppointments,
        Action::ListFreeTimeSlots,
        Action::ListOptimizedFreeTimeSlots,
        Action::FillRandom,
        Action::SetFromDate,
        Action::SetToDate,
        Action::Quit,
    ]
}

/// The line that the main menu shows for `action`.
pub open spec fn action_label(action: Action) -> Seq<char> {
    match action {
        Action::AddNewAppointment => "Add new appointment"@,
        Action::BookedAppointments => "Booked appointments"@,
        Action::ListFreeTimeSlots => "List free time slots"@,
        Action::ListOptimizedFreeTimeSlots => "List optimized free time slots"@,
        Action::FillRandom => "Fill random"@,
        Action::SetFromDate => "Set `From` date"@,
        Action::SetToDate => "Set `To` date"@,
        Action::Quit => "Quit"@,
    }
}

/// The appointment types in the order in which the type menu shows them.
pub open spec fn type_menu_types() -> Seq<AppointmentType> {
    seq![
        AppointmentType::UrgentDentalAppointment,
        AppointmentType::DentalCheckUp,
        AppointmentType::ImplantConsultation,
    ]
}

impl Action {
    /// The line that the main menu shows for this action.
    pub fn label(&self) -> (r: &'static str)
        ensures
            r@ == action_label(*self),
    {
        match self {
            Action::AddNewAppointment => "Add new appointment",
            Action::BookedAppointments => "Booked appointments",
            Action::ListFreeTimeSlots => "List free time slots",
            Action::ListOptimizedFreeTimeSlots => "List optimized free time slots",
            Action::FillRandom => "Fill random",
            Action::SetFromDate => "Set `From` date",
            Action::SetToDate => "Set `To` date",
            Action::Quit => "Quit",
        }
    }
}

/// The actions of the main menu in the order in which it shows them.
pub fn main_menu_entries() -> (r: Vec<Action>)
    ensures
        r@ == main_menu_actions(),
{
    let mut entries: Vec<Action> = Vec::new();
    entries.push(Action::AddNewAppointment);
    entries.push(Action::BookedAppointments);
    entries.push(Action::ListFreeTimeSlots);
    entries.push(Action::ListOptimizedFreeTimeSlots);
    entries.push(Action::FillRandom);
    entries.push(Action::SetFromDate);
    entries.push(Action::SetToDate);
    entries.push(Action::Quit);
    proof {
        assert(entries@ =~= main_menu_actions());
    }
    entries
}

/// The action that the line `selection` of the main menu stands for.
pub fn action_of_selection(selection: usize) -> (r: Option<Action>)
    ensures
        selection < main_menu_actions().len() ==> r == Some(main_menu_actions()[selection as int]),
        selection >= main_menu_actions().len() ==> r.is_none(),
{
    let entries = main_menu_entries();
    if selection < entries.len() {
        Some(entries[selection])
    } else {
        None
    }
}

/// The appointment types in the order in which the type menu shows them.
pub fn type_menu_entries() -> (r: Vec<AppointmentType>)
    ensures
        r@ == type_menu_types(),
{
    let mut entries: Vec<AppointmentType> = Vec::new();
    entries.push(AppointmentType::UrgentDentalAppointment);
    entries.push(AppointmentType::DentalCheckUp);
    entries.push(AppointmentType::ImplantConsultation);
    proof {
        assert(entries@ =~= type_menu_types());
    }
    entries
}

/// The appointment type that the line `selection` of the type menu stands
/// for.
pub fn type_of_selection(selection: usize) -> (r: Option<AppointmentType>)
    ensures
        selection < type_menu_types().len() ==> r == Some(type_menu_types()[selection as int]),
        selection >= type_menu_types().len() ==> r.is_none(),
{
    let entries = type_menu_entries();
    if selection < entries.len() {
        Some(entries[selection])
    } else {
        None
    }
}

/// The date and time that the typed `text` gives: `text` is read as
/// `YYYY-MM-DD HH:MM`, taken into the range of instants that the engine
/// accepts, and moved back onto the 15-minute grid. On failure the error
/// holds the parser's account of what is wrong with `text`.
pub fn date_of_input(text: &str) -> (r: Result<Timestamp, DateParseError>)
    ensures
        r.is_ok() == civil_reading(text@).is_some(),
        r matches Ok(t) ==> civil_reading(text@) matches Some(secs) && t@ == grid_floor(
            nearest_in_range(secs as int),
        ),
{
    match Timestamp::parse(text) {
        Ok(moment) => {
            Ok(moment.clamp_to_range().grid_floor())
        },
        Err(error) => Err(error),
    }
}

/// The percentage that the number `value` gives as a target of filling:
/// the numbers from 1 to 100 are accepted.
pub fn percentage_of_input(value: i32) -> (r: Option<u8>)
    ensures
        1 <= value <= 100 ==> r == Some(value as u8),
        !(1 <= value <= 100) ==> r.is_none(),
{
    if 1 <= value && value <= 100 {
        Some(value as u8)
    } else {
        None
    }
}

} // verus!
