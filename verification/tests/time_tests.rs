//! Tests for instants, civil dates, working time and the grid.
use appointment_booking::appointment::AppointmentType;
use appointment_booking::time::{Duration, Timestamp};
use appointment_booking::utils::{
    end_of_day, end_of_day_from, end_of_week, end_of_week_from, next_15_mark, now,
    now_next_15_mark,
};
use appointment_booking::working_hours::WorkingDayTimes;
use chrono::{Datelike, NaiveDate, Timelike};

fn moment(year: i32, month: u32, day: u32, hour: u32, minute: u32, second: u32) -> Timestamp {
    Timestamp::from_ymd_hms(year, month, day, hour, minute, second).unwrap()
}

#[test]
fn civil_date_gives_known_seconds() {
    assert_eq!(moment(1970, 1, 1, 0, 0, 0).seconds(), 0);
    assert_eq!(moment(1970, 1, 2, 0, 0, 1).seconds(), 86_401);
    assert_eq!(moment(2024, 2, 1, 8, 0, 0).seconds(), 1_706_774_400);
    assert_eq!(moment(1969, 12, 31, 23, 59, 59).seconds(), -1);
    assert_eq!(moment(2024, 2, 29, 12, 30, 15).seconds(), 1_709_209_815);
}

#[test]
fn civil_date_that_does_not_exist_is_refused() {
    assert_eq!(Timestamp::from_ymd_hms(2024, 2, 30, 8, 0, 0), None);
    assert_eq!(Timestamp::from_ymd_hms(2023, 2, 29, 8, 0, 0), None);
    assert_eq!(Timestamp::from_ymd_hms(2024, 13, 1, 8, 0, 0), None);
    assert_eq!(Timestamp::from_ymd_hms(2024, 2, 1, 24, 0, 0), None);
    assert_eq!(Timestamp::from_ymd_hms(2024, 2, 1, 8, 60, 0), None);
    assert_eq!(Timestamp::from_ymd_hms(2024, 2, 1, 8, 0, 60), None);
}

#[test]
fn timestamp_is_shown_as_date_and_time() {
    assert_eq!(moment(2024, 2, 1, 8, 0, 0).to_string(), "2024-02-01 08:00:00");
    assert_eq!(moment(1969, 12, 31, 23, 59, 59).to_string(), "1969-12-31 23:59:59");
    assert_eq!(Timestamp::from_seconds(0).to_string(), "1970-01-01 00:00:00");
    assert_eq!(Timestamp::from_seconds(i64::MAX).to_string(), "");
}

#[test]
fn text_is_read_as_date_and_minute() {
    assert_eq!(Timestamp::parse("2024-02-01 08:07"), Ok(moment(2024, 2, 1, 8, 7, 0)));
    assert_eq!(Timestamp::parse("1970-01-01 00:00"), Ok(Timestamp::from_seconds(0)));
    assert!(Timestamp::parse("2024-02-01").is_err());
    assert!(Timestamp::parse("2024-02-30 08:00").is_err());
    assert!(Timestamp::parse("tomorrow").is_err());
    assert!(!Timestamp::parse("tomorrow").unwrap_err().message.is_empty());
    assert_eq!(
        Timestamp::parse("2024-02-01").unwrap_err().message,
        "premature end of input"
    );
}

#[test]
fn day_arithmetic_agrees_with_the_calendar() {
    let first = NaiveDate::from_ymd_opt(1969, 1, 1).unwrap();
    for offset in 0..25_000u64 {
        let date = first.checked_add_days(chrono::Days::new(offset)).unwrap();
        let civil = date.and_hms_opt(13, 37, 11).unwrap();
        let stamp =
            Timestamp::from_ymd_hms(date.year(), date.month(), date.day(), 13, 37, 11).unwrap();
        assert_eq!(stamp.seconds(), civil.and_utc().timestamp());
        assert_eq!(stamp.weekday_from_monday(), i64::from(date.weekday().num_days_from_monday()));
        assert_eq!(stamp.second_of_day(), i64::from(civil.num_seconds_from_midnight()));
        assert_eq!(
            stamp.day_number(),
            i64::from(date.num_days_from_ce()) - 719_163
        );
        assert_eq!(stamp.is_working_day(), date.weekday().num_days_from_monday() < 5);
    }
}

#[test]
fn working_hours_depend_on_the_time_of_day_alone() {
    for day in [-400i64, -1, 0, 1, 19_754, 19_757] {
        for second in 0..86_400i64 {
            let stamp = Timestamp::from_seconds(day * 86_400 + second);
            let expected = (28_800..43_200).contains(&second) || (46_800..61_200).contains(&second);
            assert_eq!(stamp.is_working_hour(), expected);
            assert_eq!(stamp.is_working_hour(), stamp.is_working_hour());
        }
    }
}

#[test]
fn working_day_and_hour_is_the_conjunction() {
    // Thursday at work, Thursday at lunch, Saturday morning
    assert!(moment(2024, 2, 1, 9, 0, 0).is_working_day_and_hour());
    assert!(!moment(2024, 2, 1, 12, 30, 0).is_working_day_and_hour());
    assert!(!moment(2024, 2, 3, 9, 0, 0).is_working_day_and_hour());
    assert!(moment(2024, 2, 3, 9, 0, 0).is_working_hour());
    assert!(!moment(2024, 2, 3, 9, 0, 0).is_working_day());
}

#[test]
fn grid_tests_and_ranges() {
    assert!(moment(2024, 2, 1, 8, 15, 0).is_on_grid());
    assert!(!moment(2024, 2, 1, 8, 15, 1).is_on_grid());
    assert!(!moment(2024, 2, 1, 8, 7, 0).is_on_grid());
    assert!(Timestamp::from_seconds(-900).is_on_grid());
    assert!(!Timestamp::from_seconds(-1).is_on_grid());
    assert!(Timestamp::from_seconds(1_000_000_000_000_000).is_in_range());
    assert!(!Timestamp::from_seconds(1_000_000_000_000_001).is_in_range());
    assert!(Timestamp::from_seconds(-1_000_000_000_000_000).is_in_range());
    assert!(!Timestamp::from_seconds(-1_000_000_000_000_001).is_in_range());
    assert!(Timestamp::from_seconds(9_000_000_000_000_000_000).is_steppable());
    assert!(!Timestamp::from_seconds(9_000_000_000_000_000_001).is_steppable());
    assert_eq!(
        Timestamp::from_seconds(i64::MAX).clamp_to_range(),
        Timestamp::from_seconds(1_000_000_000_000_000)
    );
    assert_eq!(
        Timestamp::from_seconds(i64::MIN).clamp_to_range(),
        Timestamp::from_seconds(-1_000_000_000_000_000)
    );
    assert_eq!(Timestamp::from_seconds(42).clamp_to_range(), Timestamp::from_seconds(42));
}

#[test]
fn spans_are_counted_in_seconds() {
    assert_eq!(Duration::minutes(15).num_seconds(), 900);
    assert_eq!(Duration::minutes(15).num_minutes(), 15);
    assert_eq!(Duration::minutes(-15).num_minutes(), -15);
    assert_eq!(Duration::days(1).num_seconds(), 86_400);
    assert_eq!(Duration { secs: 119 }.num_minutes(), 1);
    assert_eq!(Duration { secs: -119 }.num_minutes(), -1);
    let start = moment(2024, 2, 1, 8, 0, 0);
    assert_eq!(start.plus(Duration::minutes(45)), moment(2024, 2, 1, 8, 45, 0));
    assert_eq!(start.minus(Duration::minutes(45)), moment(2024, 2, 1, 7, 15, 0));
    assert_eq!(moment(2024, 2, 1, 9, 30, 0).since(start), Duration::minutes(90));
}

#[test]
fn next_slot_moves_onto_the_grid_first() {
    let next = moment(2024, 2, 1, 8, 7, 42).get_next_working_datetime(None);
    assert_eq!(next, moment(2024, 2, 1, 8, 15, 0));
    let next = moment(2024, 2, 1, 8, 15, 0).get_next_working_datetime(None);
    assert_eq!(next, moment(2024, 2, 1, 8, 30, 0));
    let next = moment(2024, 2, 1, 11, 45, 0).get_next_working_datetime(None);
    assert_eq!(next, moment(2024, 2, 1, 13, 0, 0));
    let next = moment(2024, 2, 1, 16, 45, 0).get_next_working_datetime(None);
    assert_eq!(next, moment(2024, 2, 2, 8, 0, 0));
    let next = moment(2024, 2, 1, 0, 0, 0).get_next_working_datetime(None);
    assert_eq!(next, moment(2024, 2, 1, 8, 0, 0));
}

#[test]
fn next_slot_steps_by_the_length_of_the_type() {
    let start = moment(2024, 2, 1, 8, 0, 0);
    assert_eq!(
        start.get_next_working_datetime(Some(AppointmentType::UrgentDentalAppointment)),
        moment(2024, 2, 1, 8, 15, 0)
    );
    assert_eq!(
        start.get_next_working_datetime(Some(AppointmentType::DentalCheckUp)),
        moment(2024, 2, 1, 8, 30, 0)
    );
    assert_eq!(
        start.get_next_working_datetime(Some(AppointmentType::ImplantConsultation)),
        moment(2024, 2, 1, 9, 30, 0)
    );
    // 11:00 and 90 minutes is 12:30, in the break
    assert_eq!(
        moment(2024, 2, 1, 11, 0, 0)
            .get_next_working_datetime(Some(AppointmentType::ImplantConsultation)),
        moment(2024, 2, 1, 13, 0, 0)
    );
    // 16:00 and 90 minutes is 17:30, past the end of the day
    assert_eq!(
        moment(2024, 2, 1, 16, 0, 0)
            .get_next_working_datetime(Some(AppointmentType::ImplantConsultation)),
        moment(2024, 2, 2, 8, 0, 0)
    );
}

#[test]
fn next_slot_skips_the_weekend() {
    // Friday evening, Saturday morning, Saturday noon, Sunday night
    assert_eq!(
        moment(2024, 2, 2, 17, 0, 0).get_next_working_datetime(None),
        moment(2024, 2, 5, 8, 0, 0)
    );
    assert_eq!(
        moment(2024, 2, 3, 7, 0, 0).get_next_working_datetime(None),
        moment(2024, 2, 5, 8, 0, 0)
    );
    assert_eq!(
        moment(2024, 2, 3, 12, 15, 0).get_next_working_datetime(None),
        moment(2024, 2, 5, 8, 0, 0)
    );
    assert_eq!(
        moment(2024, 2, 4, 23, 45, 0).get_next_working_datetime(None),
        moment(2024, 2, 5, 8, 0, 0)
    );
    // Sunday 23:50 steps into Monday 00:05, before the morning
    assert_eq!(
        moment(2024, 2, 4, 23, 50, 0).get_next_working_datetime(None),
        moment(2024, 2, 5, 8, 0, 0)
    );
}

#[test]
fn next_slot_is_always_a_working_grid_point() {
    let start = moment(2024, 1, 29, 0, 0, 0).seconds();
    let mut previous = Timestamp::from_seconds(start - 1);
    let mut visited = 0;
    for second in (start..start + 14 * 86_400).step_by(431) {
        let next = Timestamp::from_seconds(second).get_next_working_datetime(None);
        assert!(next.is_working_day_and_hour());
        assert!(next.is_on_grid());
        assert!(next.seconds() > second - 900);
        assert!(next.seconds() >= previous.seconds());
        previous = next;
        visited += 1;
    }
    assert!(visited > 2_000);
}

#[test]
fn stepping_visits_every_working_cell_of_a_week() {
    let mut current = moment(2024, 1, 29, 0, 0, 0);
    let end = moment(2024, 2, 4, 23, 59, 59);
    let mut cells = 0;
    loop {
        current = current.get_next_working_datetime(None);
        if current > end {
            break;
        }
        cells += 1;
    }
    assert_eq!(cells, 5 * 32);
    assert_eq!(current, moment(2024, 2, 5, 8, 0, 0));
}

#[test]
fn end_time_is_not_moved_into_working_time() {
    let end = moment(2024, 2, 2, 16, 30, 0).calculate_end_time(AppointmentType::ImplantConsultation);
    assert_eq!(end, moment(2024, 2, 2, 18, 0, 0));
    let end = moment(2024, 2, 1, 23, 59, 59).calculate_end_time(AppointmentType::DentalCheckUp);
    assert_eq!(end, moment(2024, 2, 2, 0, 29, 59));
}

#[test]
fn next_quarter_hour_mark() {
    assert_eq!(next_15_mark(moment(2024, 2, 1, 18, 12, 0)), moment(2024, 2, 1, 18, 15, 0));
    assert_eq!(next_15_mark(moment(2024, 2, 1, 18, 15, 0)), moment(2024, 2, 1, 18, 30, 0));
    assert_eq!(next_15_mark(moment(2024, 2, 1, 18, 14, 59)), moment(2024, 2, 1, 18, 15, 0));
    assert_eq!(next_15_mark(moment(2024, 2, 1, 18, 46, 0)), moment(2024, 2, 1, 19, 0, 0));
    assert_eq!(next_15_mark(moment(2024, 2, 1, 23, 50, 0)), moment(2024, 2, 2, 0, 0, 0));
}

#[test]
fn end_of_day_and_week_from_a_date() {
    let thursday = moment(2024, 2, 1, 10, 20, 30);
    assert_eq!(end_of_day_from(thursday), moment(2024, 2, 1, 23, 59, 59));
    assert_eq!(end_of_day_from(moment(2024, 2, 1, 0, 0, 0)), moment(2024, 2, 1, 23, 59, 59));
    assert_eq!(end_of_week_from(thursday), moment(2024, 2, 2, 23, 59, 59));
    assert_eq!(end_of_week_from(moment(2024, 1, 29, 0, 0, 0)), moment(2024, 2, 2, 23, 59, 59));
    assert_eq!(end_of_week_from(moment(2024, 2, 2, 23, 59, 59)), moment(2024, 2, 2, 23, 59, 59));
    // on a Sunday the working week has ended
    assert_eq!(end_of_week_from(moment(2024, 2, 4, 12, 0, 0)), moment(2024, 2, 2, 23, 59, 59));
}

#[test]
fn clock_based_marks_are_consistent() {
    let before = now();
    let mark = now_next_15_mark();
    let day_end = end_of_day();
    let week_end = end_of_week();
    let after = now();
    assert!(before.is_in_range());
    assert!(before.seconds() > 1_700_000_000);
    assert!(mark.is_on_grid());
    assert!(mark.seconds() > before.seconds());
    assert!(mark.seconds() <= after.seconds() + 900);
    assert_eq!(day_end.second_of_day(), 86_399);
    assert!(day_end.seconds() >= before.seconds());
    assert!(day_end.seconds() < after.seconds() + 86_400);
    assert_eq!(week_end.second_of_day(), 86_399);
    assert_eq!(week_end.weekday_from_monday(), 4);
}
