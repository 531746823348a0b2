//! Packs date-ranged events into the rows of a calendar grid so that no two
//! events in one row share a day.
//!
//! [`CalendarCols::from_events`] places the events in the order of their
//! first days, each in the first row that is free on its first day, and
//! [`CalendarCols::rows`] reads the grid day by day. The module `laws` proves
//! what holds of every grid built this way.

pub mod date;
pub mod event;
pub mod grid;
pub mod laws;
pub mod layout;
pub mod order;
pub mod packing;
pub mod palette;
pub mod row;

pub use crate::date::Date;
pub use crate::event::{Certainty, Event, RowEntry};
pub use crate::grid::CalendarCols;
