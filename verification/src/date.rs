//! Calendar days, counted as chrono counts them.

use chrono::Datelike;
use chrono::NaiveDate;
use vstd::prelude::*;

verus! {

/// Day number of the first date that chrono represents (1 January of the year -262143).
pub const MIN_DAYS: i32 = -95_746_129;

/// Day number of the last date that chrono represents (31 December of the year 262142).
pub const MAX_DAYS: i32 = 95_745_399;

/// Whether `days` is the day number of a date that chrono represents.
pub open spec fn is_day_number(days: int) -> bool {
    MIN_DAYS <= days <= MAX_DAYS
}

/// A day of the proleptic Gregorian calendar, held as its day number:
/// 1 January of the year 1 is day 1, the day before it day 0.
#[derive(Clone, Copy, Debug, PartialEq, Eq, PartialOrd, Ord, Hash)]
pub struct Date {
    days: i32,
}

/// `NaiveDate::succ_opt`, on day numbers: the argument is turned into a date
/// by `NaiveDate::from_num_days_from_ce_opt` and the next date back into its
/// number by `Datelike::num_days_from_ce`. The contract claims that the next
/// date's number is one more, and that there is a next date exactly for the
/// numbers of chrono's dates but the last.
#[verifier::external_body]
fn day_after(days: i32) -> (next: Option<i32>)
    ensures
        next is Some <==> MIN_DAYS <= days < MAX_DAYS,
        next matches Some(n) ==> n == days + 1,
{
    let date = NaiveDate::from_num_days_from_ce_opt(days)?;
    let next = date.succ_opt()?;
    Some(next.num_days_from_ce())
}

impl View for Date {
    type V = int;

    closed spec fn view(&self) -> int {
        self.days as int
    }
}

impl Date {
    #[verifier::type_invariant]
    closed spec fn in_range(self) -> bool {
        is_day_number(self.days as int)
    }

    /// The date with the given day number, if chrono has such a date.
    pub fn from_days(days: i32) -> (date: Option<Date>)
        ensures
            date is Some <==> is_day_number(days as int),
            date matches Some(d) ==> d@ == days,
    {
        if MIN_DAYS <= days && days <= MAX_DAYS {
            Some(Date { days })
        } else {
            None
        }
    }

    /// The day number.
    pub fn days(&self) -> (days: i32)
        ensures
            days == self@,
            is_day_number(days as int),
    {
        proof {
            use_type_invariant(self);
        }
        self.days
    }

    /// The next day, if chrono has one.
    pub fn succ(&self) -> (next: Option<Date>)
        ensures
            next is Some <==> self@ < MAX_DAYS,
            next matches Some(d) ==> d@ == self@ + 1,
    {
        proof {
            use_type_invariant(self);
        }
        match day_after(self.days) {
            Some(days) => Some(Date { days }),
            None => None,
        }
    }
}

} // verus!
