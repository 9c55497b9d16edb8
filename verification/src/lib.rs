//! Appointment calendar engine for a single resource: a 15-minute time grid,
//! working-hours rules, validated booking, free-slot search, a per-hour
//! slot optimizer and a randomized filler.

pub mod appointment;
pub mod calendar;
pub mod civil;
pub mod cli;
pub mod filler;
pub mod optimizer;
pub mod slots;
pub mod time;
pub mod utils;
pub mod working_hours;
