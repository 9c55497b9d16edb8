//! Tests for the appointment engine.
use appointment_booking::appointment::{AppointmentType, DoctorsAppointment};
use appointment_booking::calendar::DoctorsCalendar;
use appointment_booking::time::{Duration, Timestamp};
use appointment_booking::working_hours::WorkingDayTimes;

fn at(year: i32, month: u32, day: u32, hour: u32, minute: u32, second: u32) -> Timestamp {
    Timestamp::from_ymd_hms(year, month, day, hour, minute, second).unwrap()
}

#[test]
// Test the is_working_day function
fn test_is_working_day() {
    let date = at(2024, 2, 1, 8, 0, 0);
    assert!(date.is_working_day());

    let date = at(2024, 2, 2, 8, 0, 0);
    assert!(date.is_working_day());

    let date = at(2024, 2, 3, 8, 0, 0);
    assert!(!date.is_working_day());

    let date = at(2024, 2, 4, 8, 0, 0);
    assert!(!date.is_working_day());

    let date = at(2024, 2, 5, 8, 0, 0);
    assert!(date.is_working_day());

    let date = at(2024, 2, 6, 8, 0, 0);
    assert!(date.is_working_day());

    let date = at(2024, 2, 7, 8, 0, 0);
    assert!(date.is_working_day());
}

#[test]
// Test the is_working_hour method
fn test_is_working_hour() {
    let date = at(2024, 2, 1, 7, 59, 59);
    assert!(!date.is_working_hour());

    let date = at(2024, 2, 1, 8, 0, 0);
    assert!(date.is_working_hour());

    let date = at(2024, 2, 1, 11, 59, 59);
    assert!(date.is_working_hour());

    let date = at(2024, 2, 1, 12, 0, 0);
    assert!(!date.is_working_hour());

    let date = at(2024, 2, 1, 12, 59, 59);
    assert!(!date.is_working_hour());

    let date = at(2024, 2, 1, 13, 0, 0);
    assert!(date.is_working_hour());

    let date = at(2024, 2, 1, 16, 59, 59);
    assert!(date.is_working_hour());

    let date = at(2024, 2, 1, 17, 00, 00);
    assert!(!date.is_working_hour());
}

// Test get next working datetime function
#[test]
fn test_get_next_working_datetime() {
    let date = at(2024, 2, 1, 7, 45, 00);
    let next = date.get_next_working_datetime(None);
    assert_eq!(next, at(2024, 2, 1, 8, 0, 0));

    let date = at(2024, 2, 1, 12, 0, 0);
    let next = date.get_next_working_datetime(None);
    assert_eq!(next, at(2024, 2, 1, 13, 0, 0));

    let date = at(2024, 2, 1, 17, 0, 0);
    let next = date.get_next_working_datetime(None);
    assert_eq!(next, at(2024, 2, 2, 8, 0, 0));
}

// Test the calculate_end_time function
#[test]
fn test_calculate_end_time() {
    let date = at(2024, 2, 1, 8, 0, 0);
    let end_time = date.calculate_end_time(AppointmentType::DentalCheckUp);
    assert_eq!(end_time, at(2024, 2, 1, 8, 30, 0));

    let date = at(2024, 2, 1, 8, 0, 0);
    let end_time = date.calculate_end_time(AppointmentType::ImplantConsultation);
    assert_eq!(end_time, at(2024, 2, 1, 9, 30, 0));

    let date = at(2024, 2, 1, 8, 0, 0);
    let end_time = date.calculate_end_time(AppointmentType::UrgentDentalAppointment);
    assert_eq!(end_time, at(2024, 2, 1, 8, 15, 0));
}

// Test the to_reserved_time_slots function
#[test]
fn test_to_reserved_time_slots() {
    let appointment =
        DoctorsAppointment::new(at(2024, 2, 1, 8, 0, 0), AppointmentType::DentalCheckUp);
    let reserved_time_slots = appointment.to_reserved_time_slots();
    assert_eq!(reserved_time_slots.len(), 2);
    assert_eq!(reserved_time_slots[0], at(2024, 2, 1, 8, 0, 0));
    assert_eq!(reserved_time_slots[1], at(2024, 2, 1, 8, 15, 0));

    let appointment =
        DoctorsAppointment::new(at(2024, 2, 1, 8, 0, 0), AppointmentType::ImplantConsultation);

    let reserved_time_slots = appointment.to_reserved_time_slots();
    assert_eq!(reserved_time_slots.len(), 6);
    assert_eq!(reserved_time_slots[0], at(2024, 2, 1, 8, 0, 0));
    assert_eq!(reserved_time_slots[1], at(2024, 2, 1, 8, 15, 0));
    assert_eq!(reserved_time_slots[2], at(2024, 2, 1, 8, 30, 0));
}

// Test the creation of a new DoctorsCalendar
#[test]
fn test_new_doctors_calendar() {
    let calendar = DoctorsCalendar::new();
    assert!(calendar.appointments.is_empty());
}

// Test the add_appointment function
#[test]
fn test_add_appointment() {
    let mut calendar = DoctorsCalendar::new();

    let appointment =
        DoctorsAppointment::new(at(2024, 2, 1, 8, 0, 0), AppointmentType::DentalCheckUp);

    let result = calendar.add_appointment(appointment);
    assert!(result.is_ok());
    assert_eq!(calendar.appointments.len(), 1);

    let appointment =
        DoctorsAppointment::new(at(2024, 2, 1, 8, 15, 0), AppointmentType::DentalCheckUp);

    let result = calendar.add_appointment(appointment);
    assert!(result.is_err());
    assert_eq!(calendar.appointments.len(), 1);
}

// Test the booked_appointments function
#[test]
fn test_booked_appointments() {
    let mut calendar = DoctorsCalendar::new();

    let appointment =
        DoctorsAppointment::new(at(2024, 2, 1, 8, 0, 0), AppointmentType::DentalCheckUp);

    let _ = calendar.add_appointment(appointment);

    let booked_appointments = calendar.booked_appointments(None, None);
    assert_eq!(booked_appointments.len(), 1);
    assert_eq!(booked_appointments[0].date_time, appointment.date_time);

    let booked_appointments = calendar.booked_appointments(
        Some(appointment.date_time.minus(Duration::minutes(15))),
        Some(appointment.date_time.plus(Duration::minutes(15))),
    );
    assert_eq!(booked_appointments.len(), 1);
    assert_eq!(booked_appointments[0].date_time, appointment.date_time);

    let booked_appointments = calendar.booked_appointments(
        Some(appointment.date_time.plus(Duration::minutes(15))),
        Some(appointment.date_time.plus(Duration::minutes(45))),
    );
    assert_eq!(booked_appointments.len(), 0);

    // Add more appointments
    let appointment =
        DoctorsAppointment::new(at(2024, 2, 1, 13, 0, 0), AppointmentType::DentalCheckUp);

    let _ = calendar.add_appointment(appointment);

    let appointment =
        DoctorsAppointment::new(at(2024, 2, 1, 14, 0, 0), AppointmentType::DentalCheckUp);

    let _ = calendar.add_appointment(appointment);

    let appointment =
        DoctorsAppointment::new(at(2024, 2, 2, 8, 0, 0), AppointmentType::DentalCheckUp);

    let _ = calendar.add_appointment(appointment);

    // Get booked appointments for the whole day
    let booked_appointments = calendar
        .booked_appointments(Some(at(2024, 2, 1, 0, 0, 0)), Some(at(2024, 2, 1, 23, 59, 59)));
    assert_eq!(booked_appointments.len(), 3);

    // Get booked appointments for the whole day and turn them into reserved time
    // slots
    let reserved_time_slots = booked_appointments
        .iter()
        .flat_map(|appointment| appointment.to_reserved_time_slots())
        .collect::<Vec<Timestamp>>();

    // Turn the reserved time slots into a stings of the format "YYYY-MM-DD
    // HH:MM:SS"
    let reserved_time_slots = reserved_time_slots
        .iter()
        .map(|time_slot| time_slot.to_string())
        .collect::<Vec<String>>();

    assert_eq!(reserved_time_slots.len(), 6);
}

fn book_the_worked_day(calendar: &mut DoctorsCalendar) {
    // Add many appointments first then check what is available
    let appointment =
        DoctorsAppointment::new(at(2024, 2, 1, 8, 0, 0), AppointmentType::DentalCheckUp);
    calendar.add_appointment(appointment).unwrap();

    let appointment =
        DoctorsAppointment::new(at(2024, 2, 1, 8, 30, 0), AppointmentType::DentalCheckUp);
    calendar.add_appointment(appointment).unwrap();

    // Different appointment type
    let appointment =
        DoctorsAppointment::new(at(2024, 2, 1, 10, 0, 0), AppointmentType::ImplantConsultation);
    calendar.add_appointment(appointment).unwrap();

    let appointment =
        DoctorsAppointment::new(at(2024, 2, 1, 11, 30, 0), AppointmentType::ImplantConsultation);

    // Appointment not allowed to be added. Middle of break
    assert!(calendar.add_appointment(appointment).is_err());

    // Long appointment type
    let appointment =
        DoctorsAppointment::new(at(2024, 2, 1, 13, 0, 0), AppointmentType::ImplantConsultation);
    calendar.add_appointment(appointment).unwrap();

    // Short appointment type
    let appointment =
        DoctorsAppointment::new(at(2024, 2, 1, 15, 0, 0), AppointmentType::UrgentDentalAppointment);
    calendar.add_appointment(appointment).unwrap();
}

// Test available_time_slots
#[test]
fn test_available_time_slots() {
    let mut calendar = DoctorsCalendar::new();

    let from = at(2024, 2, 1, 0, 0, 0);
    let to = at(2024, 2, 1, 23, 59, 59);

    let available_time_slots = calendar.available_single_time_slots(from, to);
    assert_eq!(available_time_slots.len(), 32);

    let from = at(2024, 2, 1, 8, 0, 0);
    let to = at(2024, 2, 1, 12, 0, 0);

    let available_time_slots = calendar.available_single_time_slots(from, to);
    assert_eq!(available_time_slots.len(), 16);

    // Test multiple days
    let from = at(2024, 2, 1, 0, 0, 0);
    let to = at(2024, 2, 2, 23, 59, 59);

    let available_time_slots = calendar.available_single_time_slots(from, to);
    assert_eq!(available_time_slots.len(), 64);

    book_the_worked_day(&mut calendar);

    let from = at(2024, 2, 1, 0, 0, 0);
    let to = at(2024, 2, 1, 23, 59, 59);

    let available_time_slots = calendar.available_single_time_slots(from, to);
    let available_time_slots = available_time_slots
        .iter()
        .map(|time_slot| time_slot.to_string())
        .collect::<Vec<String>>();
    assert_eq!(available_time_slots.len(), 15);
}

// Test the free_slots function
#[test]
fn test_free_slots() {
    let calendar = DoctorsCalendar::new();

    let from = at(2024, 2, 1, 0, 0, 0);
    let to = at(2024, 2, 1, 23, 59, 59);

    let free_slots_urg =
        calendar.free_slots(Some(from), Some(to), AppointmentType::UrgentDentalAppointment);
    let free_slots_urg = free_slots_urg
        .iter()
        .map(|time_slot| time_slot.to_string())
        .collect::<Vec<String>>();
    assert_eq!(free_slots_urg.len(), 32);

    // Test for multiple days
    let from = at(2024, 2, 1, 0, 0, 0);
    let to = at(2024, 2, 2, 23, 59, 59);

    let free_slots_urg =
        calendar.free_slots(Some(from), Some(to), AppointmentType::UrgentDentalAppointment);
    let free_slots_urg = free_slots_urg
        .iter()
        .map(|time_slot| time_slot.to_string())
        .collect::<Vec<String>>();
    assert_eq!(free_slots_urg.len(), 64);

    // Whole week
    let from = at(2024, 2, 1, 0, 0, 0);
    let to = at(2024, 2, 7, 23, 59, 59);

    let free_slots_urg =
        calendar.free_slots(Some(from), Some(to), AppointmentType::UrgentDentalAppointment);
    let free_slots_urg = free_slots_urg
        .iter()
        .map(|time_slot| time_slot.to_string())
        .collect::<Vec<String>>();
    assert_eq!(free_slots_urg.len(), 160);

    let mut calendar = DoctorsCalendar::new();

    book_the_worked_day(&mut calendar);

    let from = at(2024, 2, 1, 0, 0, 0);
    let to = at(2024, 2, 1, 23, 59, 59);

    let available_time_slots = calendar.available_single_time_slots(from, to);
    let available_time_slots = available_time_slots
        .iter()
        .map(|time_slot| time_slot.to_string())
        .collect::<Vec<String>>();
    assert_eq!(available_time_slots.len(), 15);

    // Test the free_slots function
    let from = at(2024, 2, 1, 0, 0, 0);
    let to = at(2024, 2, 1, 23, 59, 59);

    let free_slots_dental =
        calendar.free_slots(Some(from), Some(to), AppointmentType::DentalCheckUp);
    let free_slots_dental = free_slots_dental
        .iter()
        .map(|time_slot| time_slot.to_string())
        .collect::<Vec<String>>();
    assert_eq!(free_slots_dental.len(), 11);

    let free_slots_implant =
        calendar.free_slots(Some(from), Some(to), AppointmentType::ImplantConsultation);
    let free_slots_implant = free_slots_implant
        .iter()
        .map(|time_slot| time_slot.to_string())
        .collect::<Vec<String>>();
    assert_eq!(free_slots_implant.len(), 2);

    let free_slots_urg =
        calendar.free_slots(Some(from), Some(to), AppointmentType::UrgentDentalAppointment);
    let free_slots_urg = free_slots_urg
        .iter()
        .map(|time_slot| time_slot.to_string())
        .collect::<Vec<String>>();
    assert_eq!(free_slots_urg.len(), 15);
}

// Test the free_slots_optimized function
#[test]
fn test_free_slots_optimized() {
    let mut calendar = DoctorsCalendar::new();

    let appointment =
        DoctorsAppointment::new(at(2024, 2, 1, 8, 0, 0), AppointmentType::DentalCheckUp);
    calendar.add_appointment(appointment).unwrap();

    let appointment =
        DoctorsAppointment::new(at(2024, 2, 1, 11, 30, 0), AppointmentType::DentalCheckUp);
    calendar.add_appointment(appointment).unwrap();

    let appointment =
        DoctorsAppointment::new(at(2024, 2, 1, 14, 0, 0), AppointmentType::UrgentDentalAppointment);
    calendar.add_appointment(appointment).unwrap();

    let appointment =
        DoctorsAppointment::new(at(2024, 2, 1, 15, 45, 0), AppointmentType::DentalCheckUp);
    calendar.add_appointment(appointment).unwrap();

    let from = at(2024, 2, 1, 0, 0, 0);
    let to = at(2024, 2, 1, 23, 59, 59);

    let free_slots_optimized =
        calendar.free_slots_optimized(Some(from), Some(to), AppointmentType::ImplantConsultation);
    let free_slots_optimized = free_slots_optimized
        .iter()
        .map(|time_slot| time_slot.to_string())
        .collect::<Vec<String>>();

    assert_eq!(free_slots_optimized.len(), 4);

    let free_slots_optimized =
        calendar.free_slots_optimized(Some(from), Some(to), AppointmentType::DentalCheckUp);
    let free_slots_optimized = free_slots_optimized
        .iter()
        .map(|time_slot| time_slot.to_string())
        .collect::<Vec<String>>();

    assert_eq!(free_slots_optimized.len(), 8);

    let free_slots_optimized = calendar.free_slots_optimized(
        Some(from),
        Some(to),
        AppointmentType::UrgentDentalAppointment,
    );
    let free_slots_optimized = free_slots_optimized
        .iter()
        .map(|time_slot| time_slot.to_string())
        .collect::<Vec<String>>();

    assert_eq!(free_slots_optimized.len(), 8);
}

// Test fill_random function
#[test]
fn test_fill_random() {
    let mut calendar = DoctorsCalendar::new();

    let from = at(2024, 2, 1, 0, 0, 0);
    let to = at(2024, 2, 1, 23, 59, 59);

    calendar.fill_random(from, to, AppointmentType::UrgentDentalAppointment, 90);

    // Get list of booked appointments
    let booked_appointments = calendar.booked_appointments(Some(from), Some(to));

    assert_eq!(booked_appointments.len(), 28);

    let mut calendar = DoctorsCalendar::new();

    calendar.fill_random(from, to, AppointmentType::UrgentDentalAppointment, 100);

    let booked_appointments = calendar.booked_appointments(Some(from), Some(to));

    assert_eq!(booked_appointments.len(), 32);

    let mut calendar = DoctorsCalendar::new();

    calendar.fill_random(from, to, AppointmentType::DentalCheckUp, 20);

    let booked_appointments = calendar.booked_appointments(Some(from), Some(to));

    assert_eq!(booked_appointments.len(), 3);

    let from = at(2024, 2, 1, 0, 0, 0);
    let to = at(2024, 2, 2, 23, 59, 59);

    let mut calendar = DoctorsCalendar::new();

    calendar.fill_random(from, to, AppointmentType::DentalCheckUp, 40);

    let booked_appointments = calendar.booked_appointments(Some(from), Some(to));

    assert_eq!(booked_appointments.len(), 12);
}
