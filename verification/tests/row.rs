use calendar_cols::row::first_key;
use calendar_cols::{Certainty, Date, Event, RowEntry};
use std::collections::BTreeMap;

fn entry(day: i32) -> RowEntry {
    let date = Date::from_days(day).unwrap();
    RowEntry {
        first: true,
        color: "#AAE9E5".to_string(),
        event: Event { title: "e".to_string(), start: date, end: date, certainty: Certainty::Sure },
    }
}

#[test]
fn first_key_of_an_empty_row_is_none() {
    let row: BTreeMap<i32, RowEntry> = BTreeMap::new();
    assert_eq!(first_key(&row), None);
}

#[test]
fn first_key_is_the_least_day() {
    let mut row: BTreeMap<i32, RowEntry> = BTreeMap::new();
    for day in [40, -3, 17, 2] {
        row.insert(day, entry(day));
    }
    assert_eq!(first_key(&row), Some(-3));
}
