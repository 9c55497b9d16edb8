//! Civil dates and times: the passage between year, month, day, hour,
//! minute, second and the seconds that a timestamp counts.
//!
//! The proleptic Gregorian calendar is the business of the `chrono` crate.
//! What `chrono` computes is named here and not spelled out; the arithmetic
//! on top of it is verified.

use vstd::prelude::*;
use crate::time::Timestamp;

verus! {

/// The number that `chrono` gives to the first day of 1970, counting days
/// from 0001-01-01 as day 1.
pub const EPOCH_DAY_FROM_CE: i64 = 719_163;

/// The count of days from 0001-01-01 (day 1) to the civil date `year`-
/// `month`-`day` in the proleptic Gregorian calendar, or `None` where no
/// such date exists or `chrono` cannot hold it.
pub uninterp spec fn civil_day_number(year: i32, month: u32, day: u32) -> Option<i32>;

/// The text `YYYY-MM-DD HH:MM:SS` of the instant `secs` seconds after the
/// epoch, or `None` where `chrono` cannot hold that instant.
pub uninterp spec fn civil_text(secs: i64) -> Option<Seq<char>>;

/// The instant, in seconds after the epoch, that `text` denotes when read
/// as `YYYY-MM-DD HH:MM`, or `None` where `text` does not read so.
pub uninterp spec fn civil_reading(text: Seq<char>) -> Option<i64>;

/// Calls `chrono::NaiveDate::from_ymd_opt` and hands back the date as its
/// day count, taken with `chrono::Datelike::num_days_from_ce`. Trusted: the
/// result is the named day number of the three arguments.
#[verifier::external_body]
fn day_number_of_date(year: i32, month: u32, day: u32) -> (r: Option<i32>)
    ensures
        r == civil_day_number(year, month, day),
{
    match chrono::NaiveDate::from_ymd_opt(year, month, day) {
        Some(date) => Some(chrono::Datelike::num_days_from_ce(&date)),
        None => None,
    }
}

/// Calls `chrono::DateTime::from_timestamp` and hands back the date-time as
/// the text that `chrono` displays for it without a zone. Trusted: the
/// result is the named text of `secs`.
#[verifier::external_body]
fn text_of_seconds(secs: i64) -> (r: Option<String>)
    ensures
        r.is_some() == civil_text(secs).is_some(),
        r matches Some(text) ==> civil_text(secs) == Some(text@),
{
    match chrono::DateTime::from_timestamp(secs, 0) {
        Some(moment) => Some(moment.naive_utc().to_string()),
        None => None,
    }
}

/// The error with which `chrono` refuses a text that it cannot read as a
/// date and time. Trusted: nothing is known of what it holds.
#[verifier::external_type_specification]
#[verifier::external_body]
pub struct ExParseError(chrono::ParseError);

/// Why a text could not be read as a date and time.
#[derive(Debug, PartialEq, Eq)]
pub struct DateParseError {
    /// The parser's account of what is wrong with the text.
    pub message: String,
}

/// Calls `chrono::NaiveDateTime::parse_from_str` with the format
/// `%Y-%m-%d %H:%M` and hands back the date-time as seconds after the
/// epoch, or the parser's error. Trusted: success and the seconds are the
/// named reading of `text`.
#[verifier::external_body]
fn seconds_of_text(text: &str) -> (r: Result<i64, chrono::ParseError>)
    ensures
        r.is_ok() == civil_reading(text@).is_some(),
        r matches Ok(secs) ==> civil_reading(text@) == Some(secs),
{
    match chrono::NaiveDateTime::parse_from_str(text, "%Y-%m-%d %H:%M") {
        Ok(moment) => Ok(moment.and_utc().timestamp()),
        Err(error) => Err(error),
    }
}

/// Hands back the sentence that `chrono::ParseError` displays. Trusted, and
/// nothing is claimed of the sentence.
#[verifier::external_body]
fn text_of_parse_error(error: &chrono::ParseError) -> (r: String) {
    error.to_string()
}

/// The instant of the civil date and time given, or `None` where the date
/// does not exist or the time of day is out of bounds.
pub open spec fn civil_timestamp(
    year: i32,
    month: u32,
    day: u32,
    hour: u32,
    minute: u32,
    second: u32,
) -> Option<Timestamp> {
    match civil_day_number(year, month, day) {
        Some(days) => if hour < 24 && minute < 60 && second < 60 {
            Some(
                Timestamp {
                    secs: ((days - 719_163) * 86_400 + hour * 3_600 + minute * 60 + second) as i64,
                },
            )
        } else {
            None
        },
        None => None,
    }
}

impl Timestamp {
    /// The instant of the civil date `year`-`month`-`day` at `hour`:`minute`:
    /// `second`, or `None` where the date does not exist or the time of day
    /// is out of bounds.
    pub fn from_ymd_hms(year: i32, month: u32, day: u32, hour: u32, minute: u32, second: u32) -> (r:
        Option<Timestamp>)
        ensures
            r == civil_timestamp(year, month, day, hour, minute, second),
            r matches Some(t) ==> civil_day_number(year, month, day) matches Some(days) && t@ == (
            days - 719_163) * 86_400 + hour * 3_600 + minute * 60 + second,
    {
        match day_number_of_date(year, month, day) {
            Some(days) => {
                if hour < 24 && minute < 60 && second < 60 {
                    let days_from_epoch: i64 = days as i64 - EPOCH_DAY_FROM_CE;
                    let second_of_day: i64 = hour as i64 * 3_600 + minute as i64 * 60
                        + second as i64;
                    Some(Timestamp { secs: days_from_epoch * 86_400 + second_of_day })
                } else {
                    None
                }
            },
            None => None,
        }
    }

    /// The text `YYYY-MM-DD HH:MM:SS` of this instant; the empty text where
    /// the instant lies outside the years that the calendar can name.
    pub fn to_string(&self) -> (r: String)
        ensures
            r@ == match civil_text(self.secs) {
                Some(text) => text,
                None => Seq::<char>::empty(),
            },
    {
        match text_of_seconds(self.secs) {
            Some(text) => text,
            None => String::new(),
        }
    }

    /// Reads `text` as `YYYY-MM-DD HH:MM`. On failure the error holds the
    /// parser's own account of what is wrong.
    pub fn parse(text: &str) -> (r: Result<Timestamp, DateParseError>)
        ensures
            r.is_ok() == civil_reading(text@).is_some(),
            r matches Ok(t) ==> civil_reading(text@) == Some(t.secs),
    {
        match seconds_of_text(text) {
            Ok(secs) => Ok(Timestamp { secs }),
            Err(error) => Err(DateParseError { message: text_of_parse_error(&error) }),
        }
    }
}

} // verus!
