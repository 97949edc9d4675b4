//! A chore board: a fixed list of recurring household tasks, a queue that
//! says when each task falls due next, the list of tasks due now, and the
//! record of who completed what.  Dates are day numbers in the proleptic
//! Gregorian calendar, counted so that January 1 of year 1 is day 1.

pub mod calendar;
pub mod claims;
pub mod laws;
pub mod model;
pub mod parse;
pub mod report;
pub mod schedule;
pub mod text;
