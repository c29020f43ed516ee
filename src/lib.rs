//! Departure-board engine: which trains leave a station within the display
//! window, from a static timetable reconciled with a live delay feed.

pub mod date;
pub mod departure;
pub mod expand;
pub mod realtime;
pub mod board;
pub mod schedule;
