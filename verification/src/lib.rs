//! WorkLog: the logic of a desktop work-hours log.
//!
//! Dates are day numbers of the proleptic Gregorian calendar; hours are held
//! in hundredths of an hour.

pub mod dates;
pub mod calendar;
pub mod text;
pub mod models;
pub mod query;
pub mod numbers;
pub mod store;
pub mod groups;
pub mod links;
pub mod tray;
pub mod validate;
