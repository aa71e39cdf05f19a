//! An in-process calendar of named, time-bounded events.
//!
//! [`Event`] is a validated time span with a name and a 128-bit identifier;
//! [`EventCalendar`] keeps events in chronological order and finds them by
//! identifier.

pub mod calendar;
pub mod event;
pub mod time;

pub use calendar::EventCalendar;
pub use event::{Event, EventError, EventView};
pub use time::{Date, DateTime, Time};
