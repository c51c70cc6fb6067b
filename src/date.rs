//! Calendar dates and ages.

use vstd::prelude::*;
use chrono::Datelike;

verus! {

/// A calendar date as year, month (1 to 12) and day of month.
#[derive(Clone, Copy, Debug, PartialEq, Eq, Structural)]
pub struct Date {
    pub year: i32,
    pub month: u32,
    pub day: u32,
}

/// What chrono reads from a `YYYY-MM-DD` text: year, month and day, or
/// `None` when the text is no valid date in that format.
pub uninterp spec fn ymd_of(s: Seq<char>) -> Option<(int, int, int)>;

/// Relies on chrono's `NaiveDate::parse_from_str` with the format
/// `%Y-%m-%d`: the outcome depends on the text alone, and a `NaiveDate`
/// always has a month in 1..=12 and a day in 1..=31.
#[verifier::external_body]
pub(crate) fn parse_date(s: &str) -> (r: Option<Date>)
    ensures
        r is None <==> ymd_of(s@) is None,
        r matches Some(d) ==> ymd_of(s@) == Some((d.year as int, d.month as int, d.day as int)),
        r matches Some(d) ==> 1 <= d.month <= 12 && 1 <= d.day <= 31,
{
    match chrono::NaiveDate::parse_from_str(s, "%Y-%m-%d") {
        Ok(d) => Some(Date { year: d.year(), month: d.month(), day: d.day() }),
        Err(_) => None,
    }
}

/// Relies on chrono's `Local::now().date_naive()`: today's date on the
/// local clock and time zone. Only that it is a calendar date is assumed.
#[verifier::external_body]
pub(crate) fn today() -> (r: Date)
    ensures
        1 <= r.month <= 12,
        1 <= r.day <= 31,
{
    let d = chrono::Local::now().date_naive();
    Date { year: d.year(), month: d.month(), day: d.day() }
}

/// Whether `(a.month, a.day)` comes before `(b.month, b.day)` in the calendar year.
pub open spec fn precedes_in_year(a: Date, b: Date) -> bool {
    a.month < b.month || (a.month == b.month && a.day < b.day)
}

/// Whole years from `birth` to `on`: the difference of the years, less one
/// when the birthday has not yet come round in the year of `on`.
pub open spec fn age_on(birth: Date, on: Date) -> int {
    on.year - birth.year - (if precedes_in_year(on, birth) { 1int } else { 0int })
}

/// Computes `age_on(birth, on)`.
pub fn age_in_years(birth: Date, on: Date) -> (r: i64)
    ensures
        r == age_on(birth, on),
{
    let before = on.month < birth.month || (on.month == birth.month && on.day < birth.day);
    let years = on.year as i64 - birth.year as i64;
    if before {
        years - 1
    } else {
        years
    }
}

} // verus!
