//! Events, and what a row of the grid holds for one day of an event.

use crate::date::Date;
use vstd::prelude::*;

verus! {

/// How firmly an event stands.
#[derive(Clone, Copy, Debug, PartialEq, Eq, Structural)]
pub enum Certainty {
    Sure,
    Possible,
}

/// An event that lasts from `start` to `end`, both days included.
///
/// Nothing asks that `start <= end`: an event whose `end` lies before its
/// `start` covers no day.
#[derive(Debug, PartialEq, Eq)]
pub struct Event {
    pub title: String,
    pub start: Date,
    pub end: Date,
    pub certainty: Certainty,
}

/// An event as a mathematical value, its dates as day numbers.
pub struct EventView {
    pub title: Seq<char>,
    pub start: int,
    pub end: int,
    pub certainty: Certainty,
}

impl EventView {
    /// Whether the event covers `day`.
    pub open spec fn covers(self, day: int) -> bool {
        self.start <= day <= self.end
    }
}

impl View for Event {
    type V = EventView;

    open spec fn view(&self) -> EventView {
        EventView {
            title: self.title@,
            start: self.start@,
            end: self.end@,
            certainty: self.certainty,
        }
    }
}

impl Clone for Event {
    fn clone(&self) -> (copy: Self)
        ensures
            copy@ == self@,
    {
        Event {
            title: self.title.clone(),
            start: self.start,
            end: self.end,
            certainty: self.certainty,
        }
    }
}

/// What a row holds on one day: the event that covers the day, its colour,
/// and whether the day is the event's first.
#[derive(Debug, PartialEq, Eq)]
pub struct RowEntry {
    pub first: bool,
    pub color: String,
    pub event: Event,
}

/// A row entry as a mathematical value.
pub struct EntryView {
    pub first: bool,
    pub color: Seq<char>,
    pub event: EventView,
}

impl View for RowEntry {
    type V = EntryView;

    open spec fn view(&self) -> EntryView {
        EntryView { first: self.first, color: self.color@, event: self.event@ }
    }
}

impl Clone for RowEntry {
    fn clone(&self) -> (copy: Self)
        ensures
            copy@ == self@,
    {
        RowEntry { first: self.first, color: self.color.clone(), event: self.event.clone() }
    }
}

/// The entry that stands for `event` on `day`.
pub open spec fn entry_on(event: EventView, color: Seq<char>, day: int) -> EntryView {
    EntryView { first: day == event.start, color, event }
}

} // verus!
