use calendar_cols::{CalendarCols, Certainty, Date, Event, RowEntry};
use chrono::{Datelike, NaiveDate};

fn date(year: i32, month: u32, day: u32) -> Date {
    let naive = NaiveDate::from_ymd_opt(year, month, day).unwrap();
    Date::from_days(naive.num_days_from_ce()).unwrap()
}

fn jan(day: u32) -> Date {
    date(2024, 1, day)
}

fn event(title: &str, start: Date, end: Date) -> Event {
    Event { title: title.to_string(), start, end, certainty: Certainty::Sure }
}

fn entry(first: bool, color: &str, event: &Event) -> Option<RowEntry> {
    Some(RowEntry { first, color: color.to_string(), event: event.clone() })
}

const COLORS: [&str; 7] =
    ["#AAE9E5", "#87C7F1", "#FEB7D3", "#FFEDA9", "#EACFFF", "#DEE6C8", "#A8D0C6"];

#[test]
fn empty_input_gives_empty_grid() {
    let grid = CalendarCols::from_events(Vec::new());
    assert_eq!(grid.num_cols(), 0);
    assert_eq!(grid.last_day(), None);
    assert_eq!(grid.rows(), vec![]);
}

#[test]
fn three_events_fill_two_rows() {
    let a = event("A", jan(1), jan(3));
    let b = event("B", jan(2), jan(4));
    let c = event("C", jan(1), jan(1));
    let grid = CalendarCols::from_events(vec![a.clone(), b.clone(), c.clone()]);
    assert_eq!(grid.num_cols(), 2);
    assert_eq!(grid.last_day(), Some(jan(4)));
    let rows = grid.rows();
    assert_eq!(
        rows,
        vec![
            (jan(1), 2, vec![entry(true, COLORS[0], &a), entry(true, COLORS[1], &c)]),
            (jan(2), 2, vec![entry(false, COLORS[0], &a), entry(true, COLORS[2], &b)]),
            (jan(3), 2, vec![entry(false, COLORS[0], &a), entry(false, COLORS[2], &b)]),
            (jan(4), 1, vec![None, entry(false, COLORS[2], &b)]),
        ]
    );
}

#[test]
fn single_day_event_is_marked_first() {
    let only = event("only", jan(5), jan(5));
    let grid = CalendarCols::from_events(vec![only.clone()]);
    assert_eq!(grid.num_cols(), 1);
    assert_eq!(grid.last_day(), Some(jan(5)));
    assert_eq!(grid.rows(), vec![(jan(5), 1, vec![entry(true, COLORS[0], &only)])]);
}

#[test]
fn later_days_of_an_event_are_not_marked_first() {
    let long = event("long", jan(10), jan(13));
    let grid = CalendarCols::from_events(vec![long.clone()]);
    let rows = grid.rows();
    assert_eq!(rows.len(), 4);
    for (offset, (day, count, cells)) in rows.iter().enumerate() {
        assert_eq!(*day, jan(10 + offset as u32));
        assert_eq!(*count, 1);
        assert_eq!(cells, &vec![entry(offset == 0, COLORS[0], &long)]);
    }
}

#[test]
fn backward_event_has_no_entry_but_moves_the_last_day() {
    let a = event("A", jan(1), jan(2));
    let backward = event("backward", jan(20), jan(10));
    let grid = CalendarCols::from_events(vec![a.clone(), backward]);
    assert_eq!(grid.num_cols(), 1);
    assert_eq!(grid.last_day(), Some(jan(10)));
    let rows = grid.rows();
    assert_eq!(rows.len(), 10);
    assert_eq!(rows[0], (jan(1), 1, vec![entry(true, COLORS[0], &a)]));
    assert_eq!(rows[1], (jan(2), 1, vec![entry(false, COLORS[0], &a)]));
    for (offset, row) in rows.iter().enumerate().skip(2) {
        assert_eq!(*row, (jan(1 + offset as u32), 0, vec![None]));
    }
}

#[test]
fn backward_event_before_the_last_day_changes_nothing_seen() {
    let a = event("A", jan(1), jan(5));
    let backward = event("backward", jan(9), jan(3));
    let with = CalendarCols::from_events(vec![a.clone(), backward]);
    let without = CalendarCols::from_events(vec![a]);
    assert_eq!(with.num_cols(), 1);
    assert_eq!(with.last_day(), Some(jan(5)));
    assert_eq!(with.rows(), without.rows());
}

#[test]
fn backward_event_adds_an_empty_row_where_its_first_day_is_taken() {
    let a = event("A", jan(1), jan(3));
    let backward = event("backward", jan(2), jan(1));
    let grid = CalendarCols::from_events(vec![a.clone(), backward]);
    assert_eq!(grid.num_cols(), 2);
    assert_eq!(grid.last_day(), Some(jan(3)));
    assert_eq!(
        grid.rows(),
        vec![
            (jan(1), 1, vec![entry(true, COLORS[0], &a), None]),
            (jan(2), 1, vec![entry(false, COLORS[0], &a), None]),
            (jan(3), 1, vec![entry(false, COLORS[0], &a), None]),
        ]
    );
}

#[test]
fn only_backward_events_give_no_rows_by_day() {
    let grid = CalendarCols::from_events(vec![event("backward", jan(4), jan(2))]);
    assert_eq!(grid.num_cols(), 1);
    assert_eq!(grid.last_day(), Some(jan(2)));
    assert_eq!(grid.rows(), vec![]);
}

#[test]
fn events_are_placed_by_first_day_whatever_their_order() {
    let a = event("A", jan(1), jan(3));
    let b = event("B", jan(2), jan(4));
    let c = event("C", jan(5), jan(6));
    let forward = CalendarCols::from_events(vec![a.clone(), b.clone(), c.clone()]);
    let backward = CalendarCols::from_events(vec![c.clone(), b.clone(), a.clone()]);
    assert_eq!(forward.rows(), backward.rows());
    assert_eq!(forward.num_cols(), 2);
    assert_eq!(forward.last_day(), backward.last_day());
    let rows = forward.rows();
    assert_eq!(rows[4], (jan(5), 1, vec![entry(true, COLORS[2], &c), None]));
}

#[test]
fn events_of_one_day_keep_their_order() {
    let x = event("X", jan(1), jan(1));
    let y = event("Y", jan(1), jan(1));
    let xy = CalendarCols::from_events(vec![x.clone(), y.clone()]);
    assert_eq!(
        xy.rows(),
        vec![(jan(1), 2, vec![entry(true, COLORS[0], &x), entry(true, COLORS[1], &y)])]
    );
    let yx = CalendarCols::from_events(vec![y.clone(), x.clone()]);
    assert_eq!(
        yx.rows(),
        vec![(jan(1), 2, vec![entry(true, COLORS[0], &y), entry(true, COLORS[1], &x)])]
    );
}

#[test]
fn building_twice_gives_the_same_grid() {
    let events = vec![
        event("A", jan(3), jan(8)),
        event("B", jan(1), jan(4)),
        event("C", jan(4), jan(4)),
        event("D", jan(9), jan(7)),
    ];
    let once = CalendarCols::from_events(events.clone());
    let twice = CalendarCols::from_events(events);
    assert_eq!(once.num_cols(), twice.num_cols());
    assert_eq!(once.last_day(), twice.last_day());
    assert_eq!(once.rows(), twice.rows());
}

#[test]
fn no_two_rows_show_one_event_on_a_day() {
    let events = vec![
        event("A", jan(1), jan(10)),
        event("B", jan(2), jan(3)),
        event("C", jan(3), jan(6)),
        event("D", jan(4), jan(5)),
        event("E", jan(6), jan(9)),
        event("F", jan(7), jan(7)),
    ];
    let grid = CalendarCols::from_events(events);
    for (_, _, cells) in grid.rows() {
        for (i, first) in cells.iter().enumerate() {
            for second in cells.iter().skip(i + 1) {
                if let (Some(first), Some(second)) = (first, second) {
                    assert_ne!(first.event, second.event);
                }
            }
        }
    }
}

#[test]
fn a_row_that_is_free_on_the_first_day_is_free_on_all_days() {
    // B ends while A goes on; C starts in the gap behind B and reaches past
    // the end of A, D starts behind A in the first row.
    let a = event("A", jan(1), jan(6));
    let b = event("B", jan(2), jan(3));
    let c = event("C", jan(4), jan(9));
    let d = event("D", jan(7), jan(8));
    let grid = CalendarCols::from_events(vec![a.clone(), b.clone(), c.clone(), d.clone()]);
    assert_eq!(grid.num_cols(), 2);
    let rows = grid.rows();
    assert_eq!(rows.len(), 9);
    let title = |cell: &Option<RowEntry>| cell.as_ref().map(|entry| entry.event.title.clone());
    let titles: Vec<(Option<String>, Option<String>)> =
        rows.iter().map(|(_, _, cells)| (title(&cells[0]), title(&cells[1]))).collect();
    let s = |name: &str| Some(name.to_string());
    assert_eq!(
        titles,
        vec![
            (s("A"), None),
            (s("A"), s("B")),
            (s("A"), s("B")),
            (s("A"), s("C")),
            (s("A"), s("C")),
            (s("A"), s("C")),
            (s("D"), s("C")),
            (s("D"), s("C")),
            (None, s("C")),
        ]
    );
}

#[test]
fn every_day_of_every_event_is_in_one_row() {
    let events = vec![
        event("A", jan(1), jan(10)),
        event("B", jan(2), jan(3)),
        event("C", jan(3), jan(6)),
        event("D", jan(4), jan(5)),
        event("E", jan(6), jan(9)),
    ];
    let grid = CalendarCols::from_events(events.clone());
    let rows = grid.rows();
    for e in &events {
        let mut home = None;
        for (day, _, cells) in &rows {
            let holding: Vec<usize> = cells
                .iter()
                .enumerate()
                .filter(|(_, cell)| cell.as_ref().map_or(false, |entry| &entry.event == e))
                .map(|(row, _)| row)
                .collect();
            if e.start <= *day && *day <= e.end {
                assert_eq!(holding.len(), 1);
                assert_eq!(*home.get_or_insert(holding[0]), holding[0]);
                let held = cells[holding[0]].as_ref().unwrap();
                assert_eq!(held.first, *day == e.start);
            } else {
                assert_eq!(holding.len(), 0);
            }
        }
    }
}

#[test]
fn as_many_rows_as_events_on_the_fullest_day() {
    let events = vec![
        event("A", jan(1), jan(4)),
        event("B", jan(2), jan(5)),
        event("C", jan(3), jan(3)),
        event("D", jan(5), jan(8)),
        event("E", jan(6), jan(6)),
    ];
    let grid = CalendarCols::from_events(events);
    assert_eq!(grid.num_cols(), 3);
    let fullest = grid.rows().iter().map(|(_, count, _)| *count).max();
    assert_eq!(fullest, Some(3));
}

#[test]
fn count_tells_the_rows_with_an_entry() {
    let a = event("A", jan(1), jan(2));
    let b = event("B", jan(2), jan(2));
    let c = event("C", jan(4), jan(4));
    let grid = CalendarCols::from_events(vec![a, b, c]);
    let counts: Vec<usize> = grid.rows().iter().map(|(_, count, _)| *count).collect();
    assert_eq!(counts, vec![1, 2, 0, 1]);
    for (_, count, cells) in grid.rows() {
        assert_eq!(cells.len(), grid.num_cols());
        assert_eq!(cells.iter().filter(|cell| cell.is_some()).count(), count);
    }
}

#[test]
fn colors_go_round_the_palette() {
    let events: Vec<Event> =
        (1..=9).map(|day| event(&format!("e{}", day), jan(day), jan(day))).collect();
    let grid = CalendarCols::from_events(events);
    assert_eq!(grid.num_cols(), 1);
    let colors: Vec<String> = grid
        .rows()
        .into_iter()
        .map(|(_, _, mut cells)| cells.remove(0).unwrap().color)
        .collect();
    let expected: Vec<String> = (0..9).map(|i| COLORS[i % 7].to_string()).collect();
    assert_eq!(colors, expected);
}

#[test]
fn colors_follow_the_order_of_first_days() {
    let late = event("late", jan(9), jan(9));
    let early = event("early", jan(2), jan(2));
    let grid = CalendarCols::from_events(vec![late.clone(), early.clone()]);
    let rows = grid.rows();
    assert_eq!(rows[0], (jan(2), 1, vec![entry(true, COLORS[0], &early)]));
    assert_eq!(rows[7], (jan(9), 1, vec![entry(true, COLORS[1], &late)]));
}

#[test]
fn last_day_is_the_latest_end() {
    let grid = CalendarCols::from_events(vec![
        event("A", jan(1), jan(20)),
        event("B", jan(5), jan(6)),
        event("C", jan(7), jan(12)),
    ]);
    assert_eq!(grid.last_day(), Some(jan(20)));
    assert_eq!(grid.rows().len(), 20);
}

#[test]
fn an_event_over_the_turn_of_a_year_keeps_all_its_days() {
    let turn = event("turn", date(2023, 12, 30), date(2024, 1, 2));
    let grid = CalendarCols::from_events(vec![turn]);
    let days: Vec<Date> = grid.rows().into_iter().map(|(day, _, _)| day).collect();
    assert_eq!(days, vec![date(2023, 12, 30), date(2023, 12, 31), jan(1), jan(2)]);
}

#[test]
fn certainty_is_kept() {
    let mut maybe = event("maybe", jan(1), jan(1));
    maybe.certainty = Certainty::Possible;
    let grid = CalendarCols::from_events(vec![maybe.clone()]);
    let rows = grid.rows();
    assert_eq!(rows[0].2[0].as_ref().unwrap().event.certainty, Certainty::Possible);
    assert_eq!(rows[0].2[0].as_ref().unwrap().event, maybe);
}

#[test]
fn an_event_on_the_last_date_is_placed() {
    let last = Date::from_days(NaiveDate::MAX.num_days_from_ce()).unwrap();
    let eve = Date::from_days(NaiveDate::MAX.num_days_from_ce() - 1).unwrap();
    let end = event("end", eve, last);
    let grid = CalendarCols::from_events(vec![end.clone()]);
    assert_eq!(
        grid.rows(),
        vec![
            (eve, 1, vec![entry(true, COLORS[0], &end)]),
            (last, 1, vec![entry(false, COLORS[0], &end)]),
        ]
    );
}

#[test]
fn a_copy_of_the_grid_reads_the_same() {
    let grid = CalendarCols::from_events(vec![
        event("A", jan(1), jan(3)),
        event("B", jan(2), jan(4)),
        event("C", jan(9), jan(6)),
    ]);
    let copy = grid.clone();
    assert_eq!(copy.num_cols(), grid.num_cols());
    assert_eq!(copy.last_day(), grid.last_day());
    assert_eq!(copy.rows(), grid.rows());
}

#[test]
fn many_events_of_one_day_each_get_a_row() {
    let events: Vec<Event> = (0..20).map(|i| event(&format!("e{}", i), jan(3), jan(3))).collect();
    let grid = CalendarCols::from_events(events.clone());
    assert_eq!(grid.num_cols(), 20);
    let rows = grid.rows();
    assert_eq!(rows.len(), 1);
    assert_eq!(rows[0].1, 20);
    for (i, cell) in rows[0].2.iter().enumerate() {
        assert_eq!(*cell, entry(true, COLORS[i % 7], &events[i]));
    }
}
