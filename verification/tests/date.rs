use calendar_cols::date::{MAX_DAYS, MIN_DAYS};
use calendar_cols::Date;
use chrono::{Datelike, NaiveDate};

#[test]
fn day_numbers_are_those_of_the_calendar() {
    assert_eq!(NaiveDate::MIN.num_days_from_ce(), MIN_DAYS);
    assert_eq!(NaiveDate::MAX.num_days_from_ce(), MAX_DAYS);
    assert_eq!(NaiveDate::from_num_days_from_ce_opt(MIN_DAYS), Some(NaiveDate::MIN));
    assert_eq!(NaiveDate::from_num_days_from_ce_opt(MAX_DAYS), Some(NaiveDate::MAX));
    assert_eq!(NaiveDate::from_num_days_from_ce_opt(MIN_DAYS - 1), None);
    assert_eq!(NaiveDate::from_num_days_from_ce_opt(MAX_DAYS + 1), None);
}

#[test]
fn from_days_takes_the_dates_of_the_calendar() {
    assert_eq!(Date::from_days(1).unwrap().days(), 1);
    assert_eq!(Date::from_days(0).unwrap().days(), 0);
    assert_eq!(Date::from_days(-365).unwrap().days(), -365);
    assert_eq!(Date::from_days(MIN_DAYS).unwrap().days(), MIN_DAYS);
    assert_eq!(Date::from_days(MAX_DAYS).unwrap().days(), MAX_DAYS);
    assert_eq!(Date::from_days(MIN_DAYS - 1), None);
    assert_eq!(Date::from_days(MAX_DAYS + 1), None);
    assert_eq!(Date::from_days(i32::MIN), None);
    assert_eq!(Date::from_days(i32::MAX), None);
}

#[test]
fn from_days_agrees_with_the_calendar() {
    for days in [i32::MIN, MIN_DAYS - 1, MIN_DAYS, -1, 0, 1, 738_886, MAX_DAYS, MAX_DAYS + 1] {
        assert_eq!(
            Date::from_days(days).is_some(),
            NaiveDate::from_num_days_from_ce_opt(days).is_some()
        );
    }
}

#[test]
fn succ_is_the_next_day() {
    assert_eq!(Date::from_days(10).unwrap().succ(), Date::from_days(11));
    assert_eq!(Date::from_days(-1).unwrap().succ(), Date::from_days(0));
    assert_eq!(Date::from_days(MIN_DAYS).unwrap().succ(), Date::from_days(MIN_DAYS + 1));
    assert_eq!(Date::from_days(MAX_DAYS - 1).unwrap().succ(), Date::from_days(MAX_DAYS));
}

#[test]
fn succ_of_the_last_date_is_none() {
    assert_eq!(Date::from_days(MAX_DAYS).unwrap().succ(), None);
}

#[test]
fn succ_goes_over_the_end_of_february() {
    let number = |year: i32, month: u32, day: u32| {
        NaiveDate::from_ymd_opt(year, month, day).unwrap().num_days_from_ce()
    };
    let leap = Date::from_days(number(2024, 2, 28)).unwrap();
    assert_eq!(leap.succ().unwrap().days(), number(2024, 2, 29));
    let plain = Date::from_days(number(2023, 2, 28)).unwrap();
    assert_eq!(plain.succ().unwrap().days(), number(2023, 3, 1));
}

#[test]
fn dates_are_ordered_by_day_number() {
    let early = Date::from_days(100).unwrap();
    let late = Date::from_days(101).unwrap();
    assert!(early < late);
    assert!(early <= early);
    assert_eq!(early.max(late), late);
    assert_ne!(early, late);
}
