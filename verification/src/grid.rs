//! The grid of a calendar: rows of events that share no day, built in one
//! pass over the events.

use crate::date::{is_day_number, Date};
use crate::event::{entry_on, EntryView, Event, RowEntry};
use crate::layout::{
    build, cells_on, day_row, empty_grid, fill_upto, first_day, first_free_row, is_first_day,
    is_first_free_row, layout, lemma_first_free_row, occupied, place, rows_by_day, with_free_row,
    GridView,
};
use crate::order::{sort_by_start, views};
use crate::palette::color_at;
use crate::row::first_key;
use std::collections::BTreeMap;
use vstd::prelude::*;

verus! {

/// A row as a mathematical value: the entries by day number.
pub open spec fn row_view(row: Map<i32, RowEntry>) -> Map<int, EntryView> {
    Map::new(
        |day: int| i32::MIN <= day <= i32::MAX && row.contains_key(day as i32),
        |day: int| row[day as i32]@,
    )
}

/// The rows as mathematical values.
pub open spec fn rows_view(cols: Seq<BTreeMap<i32, RowEntry>>) -> Seq<Map<int, EntryView>> {
    Seq::new(cols.len(), |r: int| row_view(cols[r]@))
}

/// Whether every day that a row has an entry on is the number of a date.
pub open spec fn days_are_dates(cols: Seq<BTreeMap<i32, RowEntry>>) -> bool {
    forall|r: int, day: i32|
        0 <= r < cols.len() && (#[trigger] cols[r]@.contains_key(day)) ==> is_day_number(
            day as int,
        )
}

/// What a row holds, or not, as a mathematical value.
pub open spec fn cell_view(cell: Option<RowEntry>) -> Option<EntryView> {
    match cell {
        Some(entry) => Some(entry@),
        None => None,
    }
}

/// One day of the grid as a mathematical value.
pub open spec fn day_row_view(row: (Date, usize, Vec<Option<RowEntry>>)) -> (
    int,
    nat,
    Seq<Option<EntryView>>,
) {
    (row.0@, row.1 as nat, row.2@.map_values(|cell: Option<RowEntry>| cell_view(cell)))
}

/// The days of the grid as mathematical values.
pub open spec fn day_rows_view(rows: Seq<(Date, usize, Vec<Option<RowEntry>>)>) -> Seq<
    (int, nat, Seq<Option<EntryView>>),
> {
    rows.map_values(|row: (Date, usize, Vec<Option<RowEntry>>)| day_row_view(row))
}

/// The rows of a calendar grid, and the last day that any of its events
/// ends on.
#[derive(Debug)]
pub struct CalendarCols {
    cols: Vec<BTreeMap<i32, RowEntry>>,
    last_day: Option<Date>,
}

impl CalendarCols {
    #[verifier::type_invariant]
    closed spec fn keeps_dates(self) -> bool {
        days_are_dates(self.cols@)
    }
}

impl View for CalendarCols {
    type V = GridView;

    closed spec fn view(&self) -> GridView {
        GridView {
            rows: rows_view(self.cols@),
            last_day: match self.last_day {
                Some(day) => Some(day@),
                None => None,
            },
        }
    }
}

impl Clone for CalendarCols {
    fn clone(&self) -> (copy: Self)
        ensures
            copy@ == self@,
    {
        proof {
            use_type_invariant(self);
        }
        let mut cols: Vec<BTreeMap<i32, RowEntry>> = Vec::new();
        let mut r: usize = 0;
        while r < self.cols.len()
            invariant
                r <= self.cols@.len(),
                cols@.len() == r,
                forall|i: int| 0 <= i < r ==> (#[trigger] cols@[i])@ == self.cols@[i]@,
            decreases self.cols@.len() - r,
        {
            cols.push(self.cols[r].clone());
            r += 1;
        }
        proof {
            assert(rows_view(cols@) =~= rows_view(self.cols@));
        }
        CalendarCols { cols, last_day: self.last_day }
    }
}

/// The first row without an entry on `date`; where every row has one, a new
/// empty row is added and is the one returned.
fn find_free_row(cols: &mut Vec<BTreeMap<i32, RowEntry>>, date: &Date) -> (row: usize)
    ensures
        row == first_free_row(rows_view(old(cols)@), date@),
        final(cols)@ == (if row == old(cols)@.len() {
            old(cols)@.push(final(cols)@[row as int])
        } else {
            old(cols)@
        }),
        rows_view(final(cols)@) == with_free_row(rows_view(old(cols)@), date@),
        row < final(cols)@.len(),
        days_are_dates(old(cols)@) ==> days_are_dates(final(cols)@),
{
    let day: i32 = date.days();
    let mut row: usize = 0;
    while row < cols.len() && cols[row].contains_key(&day)
        invariant
            row <= cols@.len(),
            cols@ == old(cols)@,
            day == date@,
            forall|r: int| 0 <= r < row ==> (#[trigger] rows_view(cols@)[r]).contains_key(day as int),
        decreases cols@.len() - row,
    {
        row += 1;
    }
    proof {
        lemma_first_free_row(rows_view(cols@), day as int);
        assert(is_first_free_row(rows_view(cols@), day as int, row as int));
    }
    if row == cols.len() {
        cols.push(BTreeMap::new());
        proof {
            assert(row_view(Map::<i32, RowEntry>::empty()) =~= Map::<int, EntryView>::empty());
            assert(rows_view(cols@) =~= rows_view(old(cols)@).push(Map::empty()));
        }
    }
    row
}

impl CalendarCols {
    /// The grid of the events: they are placed in the order of their first
    /// days, each in the first row that is free on its first day.
    pub fn from_events(events: Vec<Event>) -> (grid: CalendarCols)
        ensures
            grid@ == build(views(events@)),
    {
        let sorted = sort_by_start(events);
        let mut rows = CalendarCols { cols: Vec::new(), last_day: None };
        let mut position: usize = 0;
        proof {
            assert(sorted.len() <= usize::MAX);
            assert(rows@.rows =~= empty_grid().rows);
            assert(views(sorted@).take(0) =~= Seq::empty());
        }
        for event in it: sorted
            invariant
                position == it.index(),
                it.seq() == sorted@,
                sorted@.len() <= usize::MAX,
                rows@ == layout(views(sorted@).take(position as int)),
        {
            proof {
                let placed = views(sorted@).take(position + 1);
                assert(placed.drop_last() =~= views(sorted@).take(position as int));
                assert(placed.last() == event@);
            }
            let color = color_at(position);
            rows = rows.insert_event_chronological(event, color);
            position += 1;
        }
        proof {
            assert(views(sorted@).take(sorted@.len() as int) =~= views(sorted@));
        }
        rows
    }

    /// The grid with `event` placed in it, in the given colour. The event
    /// starts no earlier than the events placed before it.
    fn insert_event_chronological(self, event: Event, color: String) -> (grid: CalendarCols)
        ensures
            grid@ == place(self@, event@, color@),
    {
        proof {
            use_type_invariant(&self);
        }
        let ghost before = self@;
        let mut cols = self.cols;
        let row = find_free_row(&mut cols, &event.start);
        let ghost free = cols@;
        let ghost free_row = row_view(cols@[row as int]@);
        let end: i32 = event.end.days();
        let mut day: Date = event.start;
        let mut more: bool = day.days() <= end;
        let mut first: bool = true;
        proof {
            assert(row_view(cols@[row as int]@) =~= fill_upto(
                free_row,
                event@,
                color@,
                event.start@ - 1,
            ));
        }
        while more
            invariant
                end == event.end@,
                is_day_number(end as int),
                row < cols@.len(),
                cols@.len() == free.len(),
                forall|r: int| 0 <= r < cols@.len() && r != row ==> cols@[r] == free[r],
                days_are_dates(cols@),
                more ==> event.start@ <= day@ <= end,
                first == (day@ == event.start@),
                row_view(cols@[row as int]@) == fill_upto(
                    free_row,
                    event@,
                    color@,
                    if more {
                        day@ - 1
                    } else {
                        end as int
                    },
                ),
            decreases
                    (if more {
                        end - day@ + 1
                    } else {
                        0
                    }),
        {
            let ghost filled = cols@[row as int]@;
            let entry = RowEntry { first, color: color.clone(), event: event.clone() };
            cols[row].insert(day.days(), entry);
            proof {
                let now = cols@[row as int]@;
                assert(now == filled.insert(day@ as i32, entry));
                assert(entry@ == entry_on(event@, color@, day@));
                assert(row_view(filled) == fill_upto(free_row, event@, color@, day@ - 1));
                let a = row_view(now);
                let b = fill_upto(free_row, event@, color@, day@);
                assert forall|d: int| a.contains_key(d) <==> b.contains_key(d) by {
                    let was = fill_upto(free_row, event@, color@, day@ - 1);
                    assert(row_view(filled).contains_key(d) <==> was.contains_key(d));
                }
                assert forall|d: int| a.contains_key(d) implies a[d] == b[d] by {
                    if d != day@ {
                        assert(row_view(filled).contains_key(d));
                        let was = fill_upto(free_row, event@, color@, day@ - 1);
                        assert(row_view(filled)[d] == was[d]);
                    }
                }
                assert(a =~= b);
            }
            match day.succ() {
                Some(next) => {
                    if next.days() <= end {
                        day = next;
                        first = false;
                    } else {
                        more = false;
                    }
                },
                None => {
                    more = false;
                },
            }
        }
        let last_day = match self.last_day {
            Some(last) => if last.days() >= end {
                last
            } else {
                event.end
            },
            None => event.end,
        };
        let grid = CalendarCols { cols, last_day: Some(last_day) };
        proof {
            assert(grid@.rows =~= place(before, event@, color@).rows);
        }
        grid
    }

    /// The first day of the first row and the last day of the grid; `None`
    /// where one of the two is missing.
    fn day_span(&self) -> (span: Option<(Date, Date)>)
        ensures
            span is Some <==> first_day(self@) is Some && self@.last_day is Some,
            span matches Some((first, last)) ==> first_day(self@) == Some(first@)
                && self@.last_day == Some(last@),
    {
        proof {
            use_type_invariant(self);
        }
        if self.cols.len() == 0 {
            return None;
        }
        let key = match first_key(&self.cols[0]) {
            Some(key) => key,
            None => {
                proof {
                    assert forall|day: int| !is_first_day(self@, day) by {
                        if self@.rows[0].contains_key(day) {
                            assert(self.cols@[0]@.dom().contains(day as i32));
                        }
                    }
                }
                return None;
            },
        };
        proof {
            assert(self.cols@[0]@.contains_key(key));
            assert(is_first_day(self@, key as int)) by {
                assert forall|d: int| self@.rows[0].contains_key(d) implies key <= d by {
                    assert(self.cols@[0]@.contains_key(d as i32));
                }
            }
            assert forall|day: int| is_first_day(self@, day) implies day == key by {
                assert(self@.rows[0].contains_key(key as int));
            }
        }
        let first = match Date::from_days(key) {
            Some(first) => first,
            None => {
                return None;
            },
        };
        match self.last_day {
            Some(last) => Some((first, last)),
            None => None,
        }
    }

    /// The grid on `day`: the day, the number of rows with an entry on it,
    /// and a copy of what each row holds on it.
    fn day_row(&self, day: Date) -> (out: (Date, usize, Vec<Option<RowEntry>>))
        ensures
            day_row_view(out) == day_row(self@, day@),
    {
        let key: i32 = day.days();
        let mut count: usize = 0;
        let mut cells: Vec<Option<RowEntry>> = Vec::new();
        let mut r: usize = 0;
        while r < self.cols.len()
            invariant
                r <= self.cols@.len(),
                key == day@,
                count <= r,
                count == occupied(self@.rows.take(r as int), key as int),
                cells@.map_values(|cell: Option<RowEntry>| cell_view(cell)) == cells_on(
                    self@.rows.take(r as int),
                    key as int,
                ),
            decreases self.cols@.len() - r,
        {
            let ghost seen = cells@.map_values(|cell: Option<RowEntry>| cell_view(cell));
            let cell = match self.cols[r].get(&key) {
                Some(entry) => {
                    count += 1;
                    Some(entry.clone())
                },
                None => None,
            };
            cells.push(cell);
            r += 1;
            proof {
                let rows = self@.rows.take(r as int);
                assert(rows.drop_last() =~= self@.rows.take(r - 1));
                assert(rows.last() == self@.rows[r - 1]);
                assert(cells@.map_values(|cell: Option<RowEntry>| cell_view(cell)) =~= seen.push(
                    cell_view(cell),
                ));
                assert(seen.push(cell_view(cell)) =~= cells_on(rows, key as int));
            }
        }
        proof {
            assert(self@.rows.take(r as int) =~= self@.rows);
        }
        (day, count, cells)
    }

    /// The grid day by day, from the first day of its first row to its last
    /// day: for each day the number of rows with an entry on it, and a copy
    /// of what each row holds on it.
    pub fn rows(&self) -> (out: Vec<(Date, usize, Vec<Option<RowEntry>>)>)
        ensures
            day_rows_view(out@) == rows_by_day(self@),
    {
        let mut out: Vec<(Date, usize, Vec<Option<RowEntry>>)> = Vec::new();
        let (first, last) = match self.day_span() {
            Some(span) => span,
            None => {
                proof {
                    assert(day_rows_view(out@) =~= rows_by_day(self@));
                }
                return out;
            },
        };
        let end: i32 = last.days();
        let mut day: Date = first;
        let mut more: bool = day.days() <= end;
        proof {
            assert(day_rows_view(out@) =~= Seq::new(0nat, |i: int| day_row(self@, first@ + i)));
        }
        while more
            invariant
                end == last@,
                is_day_number(end as int),
                more ==> first@ <= day@ <= end,
                !more ==> out@.len() == (if first@ <= end {
                    end - first@ + 1
                } else {
                    0
                }),
                more ==> out@.len() == day@ - first@,
                day_rows_view(out@) == Seq::new(
                    out@.len(),
                    |i: int| day_row(self@, first@ + i),
                ),
            decreases
                    (if more {
                        end - day@ + 1
                    } else {
                        0
                    }),
        {
            let ghost seen = day_rows_view(out@);
            let row = self.day_row(day);
            out.push(row);
            proof {
                assert(day_rows_view(out@) =~= seen.push(day_row_view(row)));
                assert(seen.push(day_row_view(row)) =~= Seq::new(
                    out@.len(),
                    |i: int| day_row(self@, first@ + i),
                ));
            }
            match day.succ() {
                Some(next) => {
                    if next.days() <= end {
                        day = next;
                    } else {
                        more = false;
                    }
                },
                None => {
                    more = false;
                },
            }
        }
        out
    }

    /// The number of rows.
    pub fn num_cols(&self) -> (rows: usize)
        ensures
            rows == self@.rows.len(),
    {
        self.cols.len()
    }

    /// The last day that an event of the grid ends on; `None` where the grid
    /// has no event.
    pub fn last_day(&self) -> (last: Option<Date>)
        ensures
            last is Some == self@.last_day is Some,
            last matches Some(day) ==> self@.last_day == Some(day@),
    {
        self.last_day
    }
}

} // verus!
