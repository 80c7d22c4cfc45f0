//! Gregorian date arithmetic: leap years, month lengths, day-by-day
//! advancement, and counting the whole days between two calendar dates.

pub mod count;
pub mod date;
pub mod laws;
