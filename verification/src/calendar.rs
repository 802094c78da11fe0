//! Calendar days as day counts, and the two places where the date utility is consulted.

use chrono::{Datelike, Local, NaiveDate};
use vstd::prelude::*;

verus! {

/// The day count of the date that `chrono` reads from `text` under the pattern `%Y-%m-%d`,
/// or `None` where it rejects the text. Day 1 of the count is 0001-01-01.
pub uninterp spec fn parsed_day(text: Seq<char>) -> Option<i32>;

/// The bounds between which every day count of a `chrono` date lies.
pub open spec fn day_in_range(day: int) -> bool {
    -100_000_000 < day < 100_000_000
}

/// Calls `chrono::NaiveDate::parse_from_str` with the pattern `%Y-%m-%d` and converts the date
/// with `num_days_from_ce`.
///
/// Trusted: the result is the named function of the text alone, and a day count that
/// `chrono` hands out lies strictly between -100,000,000 and 100,000,000 (its dates end at
/// the years -262143 and 262142).
#[verifier::external_body]
pub(crate) fn parse_day(text: &str) -> (day: Option<i32>)
    ensures
        day == parsed_day(text@),
        day matches Some(n) ==> day_in_range(n as int),
{
    match NaiveDate::parse_from_str(text, "%Y-%m-%d") {
        Ok(date) => Some(date.num_days_from_ce()),
        Err(_) => None,
    }
}

/// Calls `chrono::Local::now`, takes its `date_naive` and renders it with `to_string`.
///
/// Trusted: whatever the clock shows, the rendered date is one that `parse_from_str`
/// accepts under `%Y-%m-%d`.
#[verifier::external_body]
fn clock_text() -> (text: String)
    ensures
        parsed_day(text@) is Some,
{
    Local::now().date_naive().to_string()
}

/// What a [`Date`] stands for: a date text and the day count that it denotes.
pub struct DateView {
    pub text: Seq<char>,
    pub day: int,
}

impl DateView {
    /// The text denotes the day, and the day lies within the calendar's bounds.
    pub open spec fn consistent(self) -> bool {
        &&& day_in_range(self.day)
        &&& parsed_day(self.text) == Some(self.day as i32)
    }
}

/// A date text that the calendar accepts, together with its day count.
pub struct Date {
    text: String,
    day: i32,
}

impl View for Date {
    type V = DateView;

    closed spec fn view(&self) -> DateView {
        DateView { text: self.text@, day: self.day as int }
    }
}

impl Date {
    #[verifier::type_invariant]
    spec fn well_formed(&self) -> bool {
        self@.consistent()
    }

    /// Reads a date text. `None` comes back exactly for a text that the calendar rejects.
    pub fn parse(text: &str) -> (date: Option<Date>)
        ensures
            date is Some <==> parsed_day(text@) is Some,
            date matches Some(d) ==> d@.text == text@ && d@.consistent(),
    {
        match parse_day(text) {
            Some(day) => Some(Date { text: text.to_owned(), day }),
            None => None,
        }
    }

    /// The local date that the system clock shows at the time of the call.
    pub fn today() -> (date: Date)
        ensures
            date@.consistent(),
    {
        let text = clock_text();
        match parse_day(text.as_str()) {
            Some(day) => Date { text, day },
            None => vstd::pervasive::unreached(),
        }
    }

    /// The day count of the date.
    pub fn day(&self) -> (day: i32)
        ensures
            day as int == self@.day,
            self@.consistent(),
    {
        proof {
            use_type_invariant(self);
        }
        self.day
    }

    /// The date as text.
    pub fn text(&self) -> (text: &str)
        ensures
            text@ == self@.text,
            self@.consistent(),
    {
        proof {
            use_type_invariant(self);
        }
        self.text.as_str()
    }
}

/// ISO weekday number of a day count: Monday is 1, Sunday is 7. Day 1 of the count,
/// 0001-01-01, is a Monday, and the weekdays come round every seven days.
pub open spec fn weekday_of(day: int) -> int {
    (day - 1) % 7 + 1
}

/// Computes the ISO weekday number of a day count.
pub fn weekday_number(day: i32) -> (weekday: u8)
    ensures
        weekday as int == weekday_of(day as int),
        1 <= weekday <= 7,
{
    // One less than a multiple of seven that lifts every `i32` above zero.
    let shifted: i64 = day as i64 + 2_147_483_652;
    let rest: i64 = shifted % 7;
    (rest + 1) as u8
}

} // verus!
