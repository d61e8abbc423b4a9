use vstd::prelude::*;
use crate::error::ReconcileError;

verus! {

/// The first day that the calendar library can hold: 1 January of the year -262143.
pub const FIRST_DAY: i32 = -95_746_129;

/// The last day that the calendar library can hold: 31 December of the year 262142.
pub const LAST_DAY: i32 = 95_745_399;

/// A calendar date, held as the number of its day in the proleptic Gregorian
/// calendar, where 1 January of the year 1 is day 1.
#[derive(Clone, Copy, Debug, PartialEq, Eq, Structural)]
pub struct Date {
    pub days: i32,
}

/// Declares `chrono::format::ParseError`, the error of chrono's parsers, as an opaque type.
#[verifier::external_type_specification]
#[verifier::external_body]
pub struct ExDateParseError(chrono::format::ParseError);

/// The day number that `chrono::NaiveDate::parse_and_remainder` reads from the
/// start of a text under the format `%Y-%m-%d`, or `None` where it rejects the text.
pub uninterp spec fn date_from_text(text: Seq<char>) -> Option<int>;

/// Calls `chrono::NaiveDate::parse_and_remainder` with the format `%Y-%m-%d`
/// and hands back the day number of the date it read
/// (`chrono::Datelike::num_days_from_ce`). Trusted: the outcome is the named
/// result for this text.
#[verifier::external_body]
fn read_calendar_date(text: &str) -> (r: Result<Date, chrono::format::ParseError>)
    ensures
        match r {
            Ok(d) => date_from_text(text@) == Some(d.days as int),
            Err(_) => date_from_text(text@).is_none(),
        },
{
    match chrono::NaiveDate::parse_and_remainder(text, "%Y-%m-%d") {
        Ok((date, _)) => Ok(Date { days: chrono::Datelike::num_days_from_ce(&date) }),
        Err(e) => Err(e),
    }
}

/// Calls `chrono::NaiveDate::from_num_days_from_ce_opt` and then
/// `chrono::NaiveDate::checked_add_days` with one day. Trusted: the result is
/// the following day number, and there is none where the day or its successor
/// lies outside chrono's range.
#[verifier::external_body]
fn following_calendar_day(day: i32) -> (r: Option<i32>)
    ensures
        r == (if FIRST_DAY <= day < LAST_DAY {
            Some((day + 1) as i32)
        } else {
            None
        }),
{
    match chrono::NaiveDate::from_num_days_from_ce_opt(day) {
        Some(date) => match date.checked_add_days(chrono::Days::new(1)) {
            Some(next) => Some(chrono::Datelike::num_days_from_ce(&next)),
            None => None,
        },
        None => None,
    }
}

impl Date {
    /// What reading a text as a date gives.
    pub open spec fn parsed(text: Seq<char>) -> Result<Date, ReconcileError> {
        match date_from_text(text) {
            Some(n) => Ok(Date { days: n as i32 }),
            None => Err(ReconcileError::ParseFailure),
        }
    }

    /// The day after this one, where the calendar still holds it.
    pub open spec fn successor(self) -> Option<Date> {
        if FIRST_DAY <= self.days < LAST_DAY {
            Some(Date { days: (self.days + 1) as i32 })
        } else {
            None
        }
    }

    /// Whether this date is strictly before the other.
    pub open spec fn before(self, other: Date) -> bool {
        self.days < other.days
    }

    /// Reads a date written as year, month and day (`2024-03-05`).
    pub fn parse(text: &str) -> (r: Result<Date, ReconcileError>)
        ensures
            r == Date::parsed(text@),
    {
        match read_calendar_date(text) {
            Ok(d) => Ok(d),
            Err(_) => Err(ReconcileError::ParseFailure),
        }
    }

    /// The following calendar day.
    pub fn next_day(&self) -> (r: Option<Date>)
        ensures
            r == self.successor(),
    {
        match following_calendar_day(self.days) {
            Some(n) => Some(Date { days: n }),
            None => None,
        }
    }

    /// Whether this date lies strictly before the other.
    pub fn is_before(&self, other: &Date) -> (r: bool)
        ensures
            r == self.before(*other),
    {
        self.days < other.days
    }
}

} // verus!
