//! The grid as a mathematical value, and the placing of events in it.

use crate::event::{entry_on, EntryView, EventView};
use crate::order::sorted_by_start;
use crate::palette::color_of;
use vstd::prelude::*;

verus! {

/// A grid as a mathematical value: each row maps the days it holds to their
/// entries, and `last_day` is the latest `end` of the events placed so far.
pub struct GridView {
    pub rows: Seq<Map<int, EntryView>>,
    pub last_day: Option<int>,
}

/// The grid that no event was placed in.
pub open spec fn empty_grid() -> GridView {
    GridView { rows: Seq::empty(), last_day: None }
}

/// Whether `row` is the first row without an entry on `day`, or the number of
/// rows where every row has one.
pub open spec fn is_first_free_row(rows: Seq<Map<int, EntryView>>, day: int, row: int) -> bool {
    &&& 0 <= row <= rows.len()
    &&& forall|r: int| 0 <= r < row ==> (#[trigger] rows[r]).contains_key(day)
    &&& row < rows.len() ==> !rows[row].contains_key(day)
}

/// The index of the first row without an entry on `day`; the number of rows
/// where every row has one.
pub open spec fn first_free_row(rows: Seq<Map<int, EntryView>>, day: int) -> int
    decreases rows.len(),
{
    if rows.len() == 0 || !rows[0].contains_key(day) {
        0
    } else {
        1 + first_free_row(rows.drop_first(), day)
    }
}

/// `first_free_row` is the one index that `is_first_free_row` holds of.
pub proof fn lemma_first_free_row(rows: Seq<Map<int, EntryView>>, day: int)
    ensures
        is_first_free_row(rows, day, first_free_row(rows, day)),
        forall|row: int| is_first_free_row(rows, day, row) ==> row == first_free_row(rows, day),
    decreases rows.len(),
{
    if rows.len() == 0 || !rows[0].contains_key(day) {
        assert forall|row: int| is_first_free_row(rows, day, row) implies row == 0 by {
            if row > 0 {
                assert(rows[0].contains_key(day));
            }
        }
    } else {
        let rest = rows.drop_first();
        lemma_first_free_row(rest, day);
        let found = first_free_row(rest, day);
        assert forall|r: int| 0 <= r < 1 + found implies (#[trigger] rows[r]).contains_key(day) by {
            if r > 0 {
                assert(rest[r - 1].contains_key(day));
            }
        }
        assert(found < rest.len() ==> rows[1 + found] == rest[found]);
        assert forall|row: int| is_first_free_row(rows, day, row) implies row == 1 + found by {
            assert(row > 0);
            assert forall|r: int| 0 <= r < row - 1 implies (#[trigger] rest[r]).contains_key(day) by {
                assert(rows[r + 1].contains_key(day));
            }
            assert(row - 1 < rest.len() ==> rest[row - 1] == rows[row]);
            assert(is_first_free_row(rest, day, row - 1));
        }
    }
}

/// `row` with the entries of `event` on the days from its `start` to `upto`.
pub open spec fn fill_upto(
    row: Map<int, EntryView>,
    event: EventView,
    color: Seq<char>,
    upto: int,
) -> Map<int, EntryView> {
    Map::new(
        |day: int| row.contains_key(day) || event.start <= day <= upto,
        |day: int|
            if event.start <= day <= upto {
                entry_on(event, color, day)
            } else {
                row[day]
            },
    )
}

/// `row` with one entry of `event` on each day that the event covers.
pub open spec fn fill(row: Map<int, EntryView>, event: EventView, color: Seq<char>) -> Map<
    int,
    EntryView,
> {
    fill_upto(row, event, color, event.end)
}

/// The later of `last` and `day`; `day` where there is no `last`.
pub open spec fn later(last: Option<int>, day: int) -> int {
    match last {
        Some(l) => if l >= day {
            l
        } else {
            day
        },
        None => day,
    }
}

/// The rows in which an event that starts on `day` finds its row: `rows`,
/// with an empty row added where every row has an entry on `day`.
pub open spec fn with_free_row(rows: Seq<Map<int, EntryView>>, day: int) -> Seq<
    Map<int, EntryView>,
> {
    if first_free_row(rows, day) == rows.len() {
        rows.push(Map::empty())
    } else {
        rows
    }
}

/// The grid after `event` is placed in it: the event goes to the first row
/// that is free on its first day, a new row where there is none, and
/// `last_day` moves on to the event's `end` where that is later.
pub open spec fn place(grid: GridView, event: EventView, color: Seq<char>) -> GridView {
    let row = first_free_row(grid.rows, event.start);
    let rows = with_free_row(grid.rows, event.start);
    GridView {
        rows: rows.update(row, fill(rows[row], event, color)),
        last_day: Some(later(grid.last_day, event.end)),
    }
}

/// The grid after the events are placed one after the other, each in the
/// colour of its position.
pub open spec fn layout(events: Seq<EventView>) -> GridView
    decreases events.len(),
{
    if events.len() == 0 {
        empty_grid()
    } else {
        place(layout(events.drop_last()), events.last(), color_of(events.len() - 1))
    }
}

/// The grid of `events`: they are placed in the order of their first days,
/// those that start on one day in the order they were given in.
pub open spec fn build(events: Seq<EventView>) -> GridView {
    layout(sorted_by_start(events))
}

/// Whether `day` is the earliest day that the first row has an entry on.
pub open spec fn is_first_day(grid: GridView, day: int) -> bool {
    &&& grid.rows.len() > 0
    &&& grid.rows[0].contains_key(day)
    &&& forall|d: int| grid.rows[0].contains_key(d) ==> day <= d
}

/// The earliest day that the first row has an entry on; `None` where the
/// grid has no row or its first row no entry.
pub open spec fn first_day(grid: GridView) -> Option<int> {
    if exists|day: int| is_first_day(grid, day) {
        Some(choose|day: int| is_first_day(grid, day))
    } else {
        None
    }
}

/// The number of rows that have an entry on `day`.
pub open spec fn occupied(rows: Seq<Map<int, EntryView>>, day: int) -> nat
    decreases rows.len(),
{
    if rows.len() == 0 {
        0
    } else {
        occupied(rows.drop_last(), day) + if rows.last().contains_key(day) {
            1nat
        } else {
            0nat
        }
    }
}

/// What each row holds on `day`, row by row.
pub open spec fn cells_on(rows: Seq<Map<int, EntryView>>, day: int) -> Seq<Option<EntryView>> {
    Seq::new(
        rows.len(),
        |r: int|
            if rows[r].contains_key(day) {
                Some(rows[r][day])
            } else {
                None
            },
    )
}

/// The grid on `day`: the day, the number of rows with an entry on it, and
/// what each row holds on it.
pub open spec fn day_row(grid: GridView, day: int) -> (int, nat, Seq<Option<EntryView>>) {
    (day, occupied(grid.rows, day), cells_on(grid.rows, day))
}

/// The grid day by day, from the first day of its first row to its last day.
/// Empty where one of the two is missing or the last day is the earlier.
pub open spec fn rows_by_day(grid: GridView) -> Seq<(int, nat, Seq<Option<EntryView>>)> {
    match (first_day(grid), grid.last_day) {
        (Some(first), Some(last)) => Seq::new(
            if first <= last {
                (last - first + 1) as nat
            } else {
                0nat
            },
            |i: int| day_row(grid, first + i),
        ),
        _ => Seq::empty(),
    }
}

} // verus!
