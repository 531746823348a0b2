//! What holds of every grid that is built from events.

use crate::event::{entry_on, EntryView, EventView};
use crate::layout::{
    build, fill, first_day, first_free_row, is_first_day, is_first_free_row, later, layout,
    lemma_first_free_row, occupied, place, rows_by_day, with_free_row, GridView,
};
use crate::order::{
    lemma_count_two, lemma_count_two_witnesses, lemma_ordered_is_unique, lemma_sorted_count,
    lemma_sorted_from, lemma_sorted_has, lemma_sorted_ordered, lemma_sorted_starting_on,
    lemma_take_ordered, sorted_by_start, starting_on,
};
use crate::packing::{
    active, lemma_full_day, lemma_layout_packs, lemma_occupied_bound, lemma_occupied_is_active,
    placed_on, row_of,
};
use crate::palette::color_of;
use vstd::prelude::*;

verus! {

/// Whether no event that covers a day is among `events` twice.
pub open spec fn no_event_twice(events: Seq<EventView>) -> bool {
    forall|i: int, j: int|
        0 <= i < j < events.len() && events[i] == events[j] ==> events[i].end < events[i].start
}

/// Whether `row` has, on every day that `event` covers, the entry of the
/// event in the given colour, marked as first on the event's first day only.
pub open spec fn row_holds(grid: GridView, row: int, event: EventView, color: Seq<char>) -> bool {
    &&& 0 <= row < grid.rows.len()
    &&& forall|day: int| #[trigger]
        event.covers(day) ==> grid.rows[row].contains_key(day) && grid.rows[row][day] == entry_on(
            event,
            color,
            day,
        )
}

/// Every entry of the grid is that of one of the events, stands on a day
/// that the event covers, and is marked as first on the event's first day
/// only. So an event that ends before it starts has no entry.
pub proof fn lemma_entry_is_of_event(events: Seq<EventView>, row: int, day: int) -> (i: int)
    requires
        0 <= row < build(events).rows.len(),
        build(events).rows[row].contains_key(day),
    ensures
        0 <= i < events.len(),
        events[i].covers(day),
        build(events).rows[row][day].event == events[i],
        build(events).rows[row][day].first == (day == events[i].start),
{
    let sorted = sorted_by_start(events);
    lemma_sorted_ordered(events);
    lemma_layout_packs(sorted);
    let position = choose|position: int| placed_on(sorted, position, row, day);
    assert(sorted[position].covers(day));
    lemma_sorted_from(events, position)
}

/// Two rows that both have an entry on a day hold different events there,
/// unless an event that covers a day was given twice.
pub proof fn lemma_rows_hold_different_events(
    events: Seq<EventView>,
    row1: int,
    row2: int,
    day: int,
)
    requires
        no_event_twice(events),
        0 <= row1 < build(events).rows.len(),
        0 <= row2 < build(events).rows.len(),
        row1 != row2,
        build(events).rows[row1].contains_key(day),
        build(events).rows[row2].contains_key(day),
    ensures
        build(events).rows[row1][day].event != build(events).rows[row2][day].event,
{
    let sorted = sorted_by_start(events);
    lemma_sorted_ordered(events);
    lemma_layout_packs(sorted);
    let first = choose|position: int| placed_on(sorted, position, row1, day);
    let second = choose|position: int| placed_on(sorted, position, row2, day);
    assert(sorted[first].covers(day));
    assert(sorted[second].covers(day));
    if sorted[first] == sorted[second] {
        let same = |e: EventView| e == sorted[first];
        if first < second {
            lemma_count_two(sorted, same, first, second);
        } else {
            lemma_count_two(sorted, same, second, first);
        }
        lemma_sorted_count(events, same);
        let twice = lemma_count_two_witnesses(events, same);
        assert(events[twice.0] == events[twice.1]);
    }
}

/// Events that are placed in one row share no day: the earlier placed ends
/// before the later placed starts.
pub proof fn lemma_row_events_apart(events: Seq<EventView>, earlier: int, later: int)
    requires
        0 <= earlier < later < events.len(),
        row_of(sorted_by_start(events), earlier) == row_of(sorted_by_start(events), later),
    ensures
        sorted_by_start(events)[earlier].end < sorted_by_start(events)[later].start,
{
    let sorted = sorted_by_start(events);
    lemma_sorted_count(events, |e: EventView| true);
    lemma_sorted_ordered(events);
    let others = sorted.take(later);
    let start = sorted[later].start;
    assert(sorted[earlier].start <= sorted[later].start);
    lemma_take_ordered(sorted, later);
    lemma_layout_packs(others);
    lemma_first_free_row(layout(others).rows, start);
    assert(others.take(earlier) =~= sorted.take(earlier));
    assert(row_of(others, earlier) == row_of(sorted, earlier));
    if sorted[earlier].end >= start {
        assert(others[earlier].covers(start));
    }
}

/// Each event that covers a day has one row that holds its entries on all
/// its days, in the colour of its place in the order of first days. Where
/// the event was given once only, no other row holds it on any day.
pub proof fn lemma_event_has_its_row(events: Seq<EventView>, i: int) -> (found: (int, int))
    requires
        0 <= i < events.len(),
        events[i].start <= events[i].end,
    ensures
        0 <= found.0 < events.len(),
        sorted_by_start(events).len() == events.len(),
        sorted_by_start(events)[found.0] == events[i],
        found.1 == row_of(sorted_by_start(events), found.0),
        row_holds(build(events), found.1, events[i], color_of(found.0)),
        (forall|j: int| 0 <= j < events.len() && j != i ==> events[j] != events[i]) ==> forall|
            row: int,
            day: int,
        |
            0 <= row < build(events).rows.len() && #[trigger] build(events).rows[row].contains_key(
                day,
            ) && build(events).rows[row][day].event == events[i] ==> row == found.1,
{
    let sorted = sorted_by_start(events);
    let event = events[i];
    let same = |e: EventView| e == event;
    lemma_sorted_count(events, same);
    lemma_sorted_ordered(events);
    lemma_layout_packs(sorted);
    let position = lemma_sorted_has(events, i);
    let home = row_of(sorted, position);
    assert(event.covers(event.start));
    assert(sorted[position].covers(event.start));
    assert(row_holds(build(events), home, event, color_of(position))) by {
        assert forall|day: int| #[trigger] event.covers(day) implies build(
            events,
        ).rows[home].contains_key(day) && build(events).rows[home][day] == entry_on(
            event,
            color_of(position),
            day,
        ) by {
            assert(sorted[position].covers(day));
        }
    }
    if forall|j: int| 0 <= j < events.len() && j != i ==> events[j] != events[i] {
        assert forall|row: int, day: int|
            0 <= row < build(events).rows.len() && #[trigger] build(events).rows[row].contains_key(
                day,
            ) && build(events).rows[row][day].event == event implies row == home by {
            let other = choose|other: int| placed_on(sorted, other, row, day);
            assert(sorted[other].covers(day));
            assert(sorted[other] == event);
            if other != position {
                if other < position {
                    lemma_count_two(sorted, same, other, position);
                } else {
                    lemma_count_two(sorted, same, position, other);
                }
                let twice = lemma_count_two_witnesses(events, same);
                assert(events[twice.0] == event && events[twice.1] == event);
            }
        }
    }
    (position, home)
}

/// An event that ends before it starts adds no entry: where every row has
/// an entry on its first day it adds an empty row, and it moves the last day
/// on to its `end` where that is later.
pub proof fn lemma_backward_event_adds_no_entry(grid: GridView, event: EventView, color: Seq<char>)
    requires
        event.end < event.start,
    ensures
        place(grid, event, color).rows == with_free_row(grid.rows, event.start),
        place(grid, event, color).last_day == Some(later(grid.last_day, event.end)),
{
    let rows = with_free_row(grid.rows, event.start);
    let row = first_free_row(grid.rows, event.start);
    lemma_first_free_row(grid.rows, event.start);
    assert(fill(rows[row], event, color) =~= rows[row]);
    assert(place(grid, event, color).rows =~= rows);
}

/// The last day of the events placed one after the other is the latest
/// `end` among them, whether they cover a day or not.
pub proof fn lemma_layout_last_day(events: Seq<EventView>)
    ensures
        events.len() == 0 ==> layout(events).last_day is None,
        events.len() > 0 ==> layout(events).last_day is Some,
        events.len() > 0 ==> forall|i: int|
            0 <= i < events.len() ==> (#[trigger] events[i]).end <= layout(events).last_day.unwrap(),
        events.len() > 0 ==> exists|i: int|
            0 <= i < events.len() && (#[trigger] events[i]).end == layout(
                events,
            ).last_day.unwrap(),
    decreases events.len(),
{
    if events.len() > 0 {
        let others = events.drop_last();
        let last = layout(events).last_day.unwrap();
        lemma_layout_last_day(others);
        assert forall|i: int| 0 <= i < events.len() implies (#[trigger] events[i]).end <= last by {
            if i < others.len() {
                assert(others[i].end <= last);
            }
        }
        if last == events.last().end {
            assert(events[events.len() - 1].end == last);
        } else {
            let i = choose|i: int|
                0 <= i < others.len() && (#[trigger] others[i]).end == layout(
                    others,
                ).last_day.unwrap();
            assert(events[i].end == last);
        }
    }
}

/// The last day of the grid is the latest `end` among the events, whether
/// they cover a day or not; a grid of no events has no last day.
pub proof fn lemma_last_day_is_latest_end(events: Seq<EventView>)
    ensures
        events.len() == 0 ==> build(events).last_day is None,
        events.len() > 0 ==> build(events).last_day is Some,
        events.len() > 0 ==> forall|i: int|
            0 <= i < events.len() ==> (#[trigger] events[i]).end <= build(events).last_day.unwrap(),
        events.len() > 0 ==> exists|i: int|
            0 <= i < events.len() && (#[trigger] events[i]).end == build(
                events,
            ).last_day.unwrap(),
{
    let sorted = sorted_by_start(events);
    lemma_sorted_count(events, |e: EventView| true);
    lemma_layout_last_day(sorted);
    if events.len() > 0 {
        let last = build(events).last_day.unwrap();
        assert forall|i: int| 0 <= i < events.len() implies (#[trigger] events[i]).end <= last by {
            let position = lemma_sorted_has(events, i);
            assert(sorted[position].end <= last);
        }
        let position = choose|position: int|
            0 <= position < sorted.len() && (#[trigger] sorted[position]).end == last;
        let i = lemma_sorted_from(events, position);
        assert(events[i].end == last);
    }
}

/// Whether `day` is the earliest first day among the events that cover a day.
pub open spec fn is_earliest_start(events: Seq<EventView>, day: int) -> bool {
    &&& exists|i: int|
        0 <= i < events.len() && (#[trigger] events[i]).start == day && events[i].start
            <= events[i].end
    &&& forall|i: int|
        0 <= i < events.len() && (#[trigger] events[i]).start <= events[i].end ==> day
            <= events[i].start
}

/// The earliest first day among the events that cover a day, where one does.
pub proof fn lemma_earliest_start(events: Seq<EventView>, covering: int) -> (day: int)
    requires
        0 <= covering < events.len(),
        events[covering].start <= events[covering].end,
    ensures
        is_earliest_start(events, day),
    decreases events.len(),
{
    let others = events.drop_last();
    let last = events.last();
    if exists|i: int| 0 <= i < others.len() && (#[trigger] others[i]).start <= others[i].end {
        let other = choose|i: int|
            0 <= i < others.len() && (#[trigger] others[i]).start <= others[i].end;
        let before = lemma_earliest_start(others, other);
        let i = choose|i: int|
            0 <= i < others.len() && (#[trigger] others[i]).start == before && others[i].start
                <= others[i].end;
        let day = if last.start <= last.end && last.start < before {
            last.start
        } else {
            before
        };
        assert(events[events.len() - 1] == last);
        assert(events[i] == others[i]);
        assert forall|j: int|
            0 <= j < events.len() && (#[trigger] events[j]).start <= events[j].end implies day
            <= events[j].start by {
            if j < others.len() {
                assert(others[j].start <= others[j].end);
            }
        }
        day
    } else {
        if covering < others.len() {
            assert(others[covering].start <= others[covering].end);
        }
        assert(events[covering].start == last.start);
        assert forall|j: int|
            0 <= j < events.len() && (#[trigger] events[j]).start
                <= events[j].end implies last.start <= events[j].start by {
            if j < others.len() {
                assert(others[j].start <= others[j].end);
            }
        }
        last.start
    }
}

/// The first place in `events` of an event that covers a day, where one does.
pub proof fn lemma_first_covering(events: Seq<EventView>, covering: int) -> (first: int)
    requires
        0 <= covering < events.len(),
        events[covering].start <= events[covering].end,
    ensures
        0 <= first <= covering,
        events[first].start <= events[first].end,
        forall|i: int| 0 <= i < first ==> (#[trigger] events[i]).end < events[i].start,
    decreases covering,
{
    if exists|i: int| 0 <= i < covering && (#[trigger] events[i]).start <= events[i].end {
        let i = choose|i: int| 0 <= i < covering && (#[trigger] events[i]).start <= events[i].end;
        lemma_first_covering(events, i)
    } else {
        covering
    }
}

/// The first row begins with the earliest first day among the events that
/// cover a day: no row has an entry on an earlier day.
pub proof fn lemma_first_day_is_earliest_start(events: Seq<EventView>, day: int)
    requires
        is_earliest_start(events, day),
    ensures
        first_day(build(events)) == Some(day),
        forall|row: int, d: int|
            0 <= row < build(events).rows.len() && #[trigger] build(events).rows[row].contains_key(
                d,
            ) ==> day <= d,
{
    let sorted = sorted_by_start(events);
    let grid = build(events);
    lemma_sorted_ordered(events);
    lemma_layout_packs(sorted);
    let i = choose|i: int|
        0 <= i < events.len() && (#[trigger] events[i]).start == day && events[i].start
            <= events[i].end;
    let covering = lemma_sorted_has(events, i);
    let first = lemma_first_covering(sorted, covering);
    let from = lemma_sorted_from(events, first);
    assert(events[from].start <= events[from].end);
    assert(sorted[first].start <= sorted[covering].start);
    assert(sorted[first].start == day);
    // Nothing was placed before the first event that covers a day.
    let others = sorted.take(first);
    lemma_take_ordered(sorted, first);
    lemma_layout_packs(others);
    let before = layout(others).rows;
    assert forall|row: int, d: int| 0 <= row < before.len() implies !(
    #[trigger] before[row].contains_key(d)) by {
        if before[row].contains_key(d) {
            let k = choose|k: int| placed_on(others, k, row, d);
            assert(others[k].covers(d));
            assert(sorted[k].end < sorted[k].start);
        }
    }
    lemma_first_free_row(before, day);
    assert(is_first_free_row(before, day, 0));
    assert(row_of(sorted, first) == 0);
    assert(sorted[first].covers(day));
    assert forall|row: int, d: int|
        0 <= row < grid.rows.len() && #[trigger] grid.rows[row].contains_key(d) implies day
        <= d by {
        let k = choose|k: int| placed_on(sorted, k, row, d);
        assert(sorted[k].covers(d));
        let j = lemma_sorted_from(events, k);
        assert(events[j].start <= events[j].end);
    }
    assert(is_first_day(grid, day));
    let chosen = choose|d: int| is_first_day(grid, d);
    assert(is_first_day(grid, chosen));
    assert(chosen == day);
}

/// Every entry stands on a day between the first day of the first row and
/// the last day of the grid, so the grid read day by day shows it.
pub proof fn lemma_entry_is_within_days(events: Seq<EventView>, row: int, day: int)
    requires
        0 <= row < build(events).rows.len(),
        build(events).rows[row].contains_key(day),
    ensures
        first_day(build(events)) is Some,
        build(events).last_day is Some,
        first_day(build(events)).unwrap() <= day <= build(events).last_day.unwrap(),
{
    let i = lemma_entry_is_of_event(events, row, day);
    let first = lemma_earliest_start(events, i);
    lemma_first_day_is_earliest_start(events, first);
    lemma_last_day_is_latest_end(events);
    assert(events[i].end <= build(events).last_day.unwrap());
}

/// Where no event covers a day, no row has an entry and the grid read day
/// by day is empty.
pub proof fn lemma_no_covered_day_no_first_day(events: Seq<EventView>)
    requires
        forall|i: int| 0 <= i < events.len() ==> (#[trigger] events[i]).end < events[i].start,
    ensures
        forall|row: int, day: int|
            0 <= row < build(events).rows.len() ==> !(#[trigger] build(
                events,
            ).rows[row].contains_key(day)),
        first_day(build(events)) is None,
        rows_by_day(build(events)) == Seq::<(int, nat, Seq<Option<EntryView>>)>::empty(),
{
    let grid = build(events);
    assert forall|row: int, day: int| 0 <= row < grid.rows.len() implies !(
    #[trigger] grid.rows[row].contains_key(day)) by {
        if grid.rows[row].contains_key(day) {
            let i = lemma_entry_is_of_event(events, row, day);
        }
    }
    assert forall|day: int| !is_first_day(grid, day) by {
        if is_first_day(grid, day) {
            assert(grid.rows[0].contains_key(day));
        }
    }
}

/// On each day as many rows have an entry as events cover the day.
pub proof fn lemma_occupied_counts_events(events: Seq<EventView>, day: int)
    ensures
        occupied(build(events).rows, day) == active(events, day),
        active(events, day) <= build(events).rows.len(),
{
    lemma_sorted_ordered(events);
    lemma_occupied_is_active(sorted_by_start(events), day);
    lemma_sorted_count(events, |e: EventView| e.covers(day));
    lemma_occupied_bound(build(events).rows, day);
}

/// Where every event covers a day, the grid has as many rows as the most
/// events that cover one day: no day is covered by more events than there
/// are rows, and the returned day is covered by as many.
pub proof fn lemma_row_count_is_most_active(events: Seq<EventView>) -> (day: int)
    requires
        forall|i: int| 0 <= i < events.len() ==> (#[trigger] events[i]).start <= events[i].end,
    ensures
        forall|d: int| active(events, d) <= build(events).rows.len(),
        events.len() == 0 ==> build(events).rows.len() == 0,
        events.len() > 0 ==> active(events, day) == build(events).rows.len(),
{
    let sorted = sorted_by_start(events);
    assert forall|d: int| active(events, d) <= build(events).rows.len() by {
        lemma_occupied_counts_events(events, d);
    }
    lemma_sorted_count(events, |e: EventView| true);
    if events.len() > 0 {
        lemma_sorted_ordered(events);
        assert forall|position: int| 0 <= position < sorted.len() implies (
        #[trigger] sorted[position]).start <= sorted[position].end by {
            let i = lemma_sorted_from(events, position);
            assert(events[i].start <= events[i].end);
        }
        let day = lemma_full_day(sorted);
        lemma_occupied_counts_events(events, day);
        day
    } else {
        0
    }
}

/// The grid depends on the order of the events only among those that start
/// on one day: two sequences that agree, for each day, on the events that
/// start on it and on their order give one grid.
pub proof fn lemma_order_matters_within_days_only(a: Seq<EventView>, b: Seq<EventView>)
    requires
        forall|day: int| starting_on(a, day) == starting_on(b, day),
    ensures
        sorted_by_start(a) == sorted_by_start(b),
        build(a) == build(b),
{
    lemma_sorted_ordered(a);
    lemma_sorted_ordered(b);
    assert forall|day: int|
        starting_on(sorted_by_start(a), day) == starting_on(sorted_by_start(b), day) by {
        lemma_sorted_starting_on(a, day);
        lemma_sorted_starting_on(b, day);
    }
    lemma_ordered_is_unique(sorted_by_start(a), sorted_by_start(b));
}

} // verus!
