//! Why events that are placed in the order of their first days never meet in
//! a row.

use crate::event::{entry_on, EntryView, EventView};
use crate::layout::{
    fill, first_free_row, layout, lemma_first_free_row, occupied, with_free_row,
};
use crate::order::{count, ordered_by_start};
use crate::palette::color_of;
use vstd::prelude::*;

verus! {

/// The row that the event at `position` is put in when `events` are placed
/// one after the other.
pub open spec fn row_of(events: Seq<EventView>, position: int) -> int {
    first_free_row(layout(events.take(position)).rows, events[position].start)
}

/// Whether the event at `position` was put in `row` and covers `day`.
pub open spec fn placed_on(events: Seq<EventView>, position: int, row: int, day: int) -> bool {
    &&& 0 <= position < events.len()
    &&& row_of(events, position) == row
    &&& events[position].covers(day)
}

/// Whether each event has its entry, in its row, on every day it covers.
pub open spec fn holds_each_event(events: Seq<EventView>) -> bool {
    let rows = layout(events).rows;
    forall|position: int, day: int|
        0 <= position < events.len() && #[trigger] events[position].covers(day) ==> {
            let row = row_of(events, position);
            &&& 0 <= row < rows.len()
            &&& rows[row].contains_key(day)
            &&& rows[row][day] == entry_on(events[position], color_of(position), day)
        }
}

/// Whether each entry is that of an event that was put in the entry's row
/// and covers the entry's day.
pub open spec fn holds_only_events(events: Seq<EventView>) -> bool {
    let rows = layout(events).rows;
    forall|row: int, day: int|
        0 <= row < rows.len() && #[trigger] rows[row].contains_key(day) ==> exists|position: int|
            placed_on(events, position, row, day)
}

/// What placing the last of `events` does to the rows that hold the others:
/// it adds the event's entries to the event's row, on days that the row had
/// no entry on, and changes nothing else.
pub open spec fn last_is_added(events: Seq<EventView>) -> bool {
    let before = layout(events.drop_last()).rows;
    let after = layout(events).rows;
    let event = events.last();
    let row = row_of(events, events.len() - 1);
    &&& 0 <= row <= before.len()
    &&& after.len() == if row == before.len() {
        before.len() + 1
    } else {
        before.len()
    }
    &&& forall|r: int| 0 <= r < row ==> (#[trigger] before[r]).contains_key(event.start)
    &&& forall|r: int, day: int|
        0 <= r < before.len() && #[trigger] before[r].contains_key(day) ==> {
            &&& after[r].contains_key(day)
            &&& after[r][day] == before[r][day]
            &&& !(r == row && event.covers(day))
        }
    &&& forall|day: int| #[trigger]
        event.covers(day) ==> after[row].contains_key(day) && after[row][day] == entry_on(
            event,
            color_of(events.len() - 1),
            day,
        )
    &&& forall|r: int, day: int|
        0 <= r < after.len() && #[trigger] after[r].contains_key(day) ==> (r < before.len()
            && before[r].contains_key(day)) || (r == row && event.covers(day))
}

/// The rows of the earlier events are chosen as if the later were not there.
pub proof fn lemma_row_of_prefix(events: Seq<EventView>, position: int)
    requires
        0 <= position < events.len() - 1,
    ensures
        row_of(events, position) == row_of(events.drop_last(), position),
{
    assert(events.take(position) =~= events.drop_last().take(position));
}

/// Events placed in the order of their first days keep all their entries,
/// and nothing else is in the rows.
pub proof fn lemma_layout_packs(events: Seq<EventView>)
    requires
        ordered_by_start(events),
    ensures
        holds_each_event(events),
        holds_only_events(events),
        events.len() > 0 ==> last_is_added(events),
    decreases events.len(), 1int,
{
    if events.len() > 0 {
        lemma_last_is_added(events);
        let others = events.drop_last();
        let last = events.len() - 1;
        let before = layout(others).rows;
        let after = layout(events).rows;
        let event = events.last();
        let row = row_of(events, last);
        assert(ordered_by_start(others));
        lemma_layout_packs(others);
        assert forall|position: int, day: int|
            0 <= position < events.len() && #[trigger] events[position].covers(day) implies ({
            let r = row_of(events, position);
            &&& 0 <= r < after.len()
            &&& after[r].contains_key(day)
            &&& after[r][day] == entry_on(events[position], color_of(position), day)
        }) by {
            if position < last {
                lemma_row_of_prefix(events, position);
                assert(others[position].covers(day));
                let r = row_of(others, position);
                assert(before[r].contains_key(day));
            }
        }
        assert forall|r: int, day: int|
            0 <= r < after.len() && #[trigger] after[r].contains_key(day) implies exists|
            position: int,
        | placed_on(events, position, r, day) by {
            if r < before.len() && before[r].contains_key(day) {
                let position = choose|position: int| placed_on(others, position, r, day);
                lemma_row_of_prefix(events, position);
                assert(placed_on(events, position, r, day));
            } else {
                assert(placed_on(events, last, r, day));
            }
        }
    }
}

/// Placing the last event changes no entry of the others.
pub proof fn lemma_last_is_added(events: Seq<EventView>)
    requires
        ordered_by_start(events),
        events.len() > 0,
    ensures
        last_is_added(events),
    decreases events.len(), 0int,
{
    let others = events.drop_last();
    let last = events.len() - 1;
    let before = layout(others).rows;
    let after = layout(events).rows;
    let event = events.last();
    let row = row_of(events, last);
    assert(events.take(last) =~= others);
    assert(ordered_by_start(others));
    lemma_layout_packs(others);
    lemma_first_free_row(before, event.start);
    // The row has no entry from the event's first day on.
    assert forall|day: int| day >= event.start && row < before.len() implies !before[row].contains_key(
        day,
    ) by {
        if before[row].contains_key(day) {
            let position = choose|position: int| placed_on(others, position, row, day);
            assert(others[position].start <= event.start) by {
                assert(events[position].start <= events[last].start);
            }
            assert(others[position].covers(event.start));
        }
    }
    assert forall|r: int, day: int|
        0 <= r < before.len() && #[trigger] before[r].contains_key(day) implies ({
        &&& after[r].contains_key(day)
        &&& after[r][day] == before[r][day]
        &&& !(r == row && event.covers(day))
    }) by {
        if r == row {
            assert(day < event.start);
        }
    }
}

/// The number of events that cover `day`.
pub open spec fn active(events: Seq<EventView>, day: int) -> nat {
    count(events, |e: EventView| e.covers(day))
}

/// No more rows have an entry on a day than there are rows.
pub proof fn lemma_occupied_bound(rows: Seq<Map<int, EntryView>>, day: int)
    ensures
        occupied(rows, day) <= rows.len(),
    decreases rows.len(),
{
    if rows.len() > 0 {
        lemma_occupied_bound(rows.drop_last(), day);
    }
}

/// Where every row has an entry on a day, all rows are counted.
pub proof fn lemma_occupied_all(rows: Seq<Map<int, EntryView>>, day: int)
    requires
        forall|r: int| 0 <= r < rows.len() ==> (#[trigger] rows[r]).contains_key(day),
    ensures
        occupied(rows, day) == rows.len(),
    decreases rows.len(),
{
    if rows.len() > 0 {
        let rest = rows.drop_last();
        assert forall|r: int| 0 <= r < rest.len() implies (#[trigger] rest[r]).contains_key(
            day,
        ) by {
            assert(rows[r].contains_key(day));
        }
        lemma_occupied_all(rest, day);
    }
}

/// A changed row counts by what it now holds.
pub proof fn lemma_occupied_update(
    rows: Seq<Map<int, EntryView>>,
    row: int,
    entries: Map<int, EntryView>,
    day: int,
)
    requires
        0 <= row < rows.len(),
    ensures
        occupied(rows.update(row, entries), day) + (if rows[row].contains_key(day) {
            1nat
        } else {
            0nat
        }) == occupied(rows, day) + (if entries.contains_key(day) {
            1nat
        } else {
            0nat
        }),
    decreases rows.len(),
{
    let changed = rows.update(row, entries);
    if row == rows.len() - 1 {
        assert(changed.drop_last() =~= rows.drop_last());
    } else {
        lemma_occupied_update(rows.drop_last(), row, entries, day);
        assert(changed.drop_last() =~= rows.drop_last().update(row, entries));
    }
}

/// On each day as many rows have an entry as events cover the day.
pub proof fn lemma_occupied_is_active(events: Seq<EventView>, day: int)
    requires
        ordered_by_start(events),
    ensures
        occupied(layout(events).rows, day) == active(events, day),
    decreases events.len(),
{
    if events.len() > 0 {
        let others = events.drop_last();
        let event = events.last();
        let before = layout(others).rows;
        let row = first_free_row(before, event.start);
        let free = with_free_row(before, event.start);
        assert(ordered_by_start(others));
        lemma_occupied_is_active(others, day);
        lemma_last_is_added(events);
        assert(events.take(events.len() - 1) =~= others);
        lemma_first_free_row(before, event.start);
        if row == before.len() {
            assert(free.drop_last() =~= before);
        } else {
            assert(before[row].contains_key(day) ==> !event.covers(day));
        }
        lemma_occupied_update(
            free,
            row,
            fill(free[row], event, color_of(events.len() - 1)),
            day,
        );
    }
}

/// A day on which every row has an entry, where events that each cover a
/// day were placed in the order of their first days.
pub proof fn lemma_full_day(events: Seq<EventView>) -> (day: int)
    requires
        ordered_by_start(events),
        forall|i: int| 0 <= i < events.len() ==> (#[trigger] events[i]).start <= events[i].end,
        events.len() > 0,
    ensures
        layout(events).rows.len() > 0,
        occupied(layout(events).rows, day) == layout(events).rows.len(),
    decreases events.len(),
{
    let others = events.drop_last();
    let event = events.last();
    let before = layout(others).rows;
    let after = layout(events).rows;
    let row = row_of(events, events.len() - 1);
    assert(ordered_by_start(others));
    lemma_last_is_added(events);
    assert(event.covers(event.start));
    if row == before.len() {
        assert forall|r: int| 0 <= r < after.len() implies (#[trigger] after[r]).contains_key(
            event.start,
        ) by {
            if r < row {
                assert(before[r].contains_key(event.start));
            }
        }
        lemma_occupied_all(after, event.start);
        event.start
    } else {
        assert forall|i: int| 0 <= i < others.len() implies (#[trigger] others[i]).start
            <= others[i].end by {
            assert(events[i].start <= events[i].end);
        }
        let day = lemma_full_day(others);
        lemma_occupied_is_active(others, day);
        lemma_occupied_is_active(events, day);
        lemma_occupied_bound(after, day);
        day
    }
}

} // verus!
