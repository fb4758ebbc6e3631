//! Calendar dates as the queries read them, and the calls into the date
//! library: reading a date or a clock time from text, the day of the week,
//! and the date a number of days later.

use chrono::Datelike;
use vstd::prelude::*;

verus! {

/// The format in which a task's date is written: month, day and two-digit
/// year, separated by slashes. The date library decides which century a
/// two-digit year belongs to.
pub const DATE_FORMAT: &'static str = "%m/%d/%y";

/// The format in which a task's time is written: hour on the twelve-hour
/// clock, minute, and `am` or `pm`.
pub const TIME_FORMAT: &'static str = "%I:%M%p";

/// A calendar date: year, month (1 to 12) and day of the month (from 1).
#[derive(Clone, Copy, Debug, PartialEq, Eq, Structural)]
pub struct Date {
    pub year: i32,
    pub month: u32,
    pub day: u32,
}

/// Whether `year` has a 29th of February in the Gregorian calendar.
pub open spec fn is_leap_year(year: int) -> bool {
    year % 4 == 0 && (year % 100 != 0 || year % 400 == 0)
}

/// The number of days of `month` in `year`.
pub open spec fn days_in_month(year: int, month: int) -> int {
    if month == 2 {
        if is_leap_year(year) {
            29
        } else {
            28
        }
    } else if month == 4 || month == 6 || month == 9 || month == 11 {
        30
    } else {
        31
    }
}

/// What the date library reads from `text` under `format`: the date, or
/// `None` where it rejects the text.
pub uninterp spec fn date_of_text(text: Seq<char>, format: Seq<char>) -> Option<Date>;

/// Whether the date library reads a clock time from `text` under `format`.
pub uninterp spec fn is_time_text(text: Seq<char>, format: Seq<char>) -> bool;

/// The number of days from the Monday of its week to `date`, as the date
/// library counts them.
pub uninterp spec fn days_from_monday(date: Date) -> int;

/// The date that the date library finds `days` days after `date`.
pub uninterp spec fn days_later(date: Date, days: int) -> Date;

/// The date that a task's date text stands for, if it stands for one.
pub open spec fn task_date(text: Seq<char>) -> Option<Date> {
    date_of_text(text, DATE_FORMAT@)
}

/// Whether `text` is a clock time in the form tasks use.
pub open spec fn is_task_time(text: Seq<char>) -> bool {
    is_time_text(text, TIME_FORMAT@)
}

/// The Sunday that ends the week of `today`, which starts on Monday.
pub open spec fn sunday_of(today: Date) -> Date {
    days_later(today, 6 - days_from_monday(today))
}

impl Date {
    /// Whether this is a day of the Gregorian calendar in the years 1 to 9999.
    pub open spec fn is_calendar_date(self) -> bool {
        &&& 1 <= self.year <= 9999
        &&& 1 <= self.month <= 12
        &&& 1 <= self.day <= days_in_month(self.year as int, self.month as int)
    }

    /// Whether `self` is `other` or an earlier day.
    pub open spec fn on_or_before(self, other: Date) -> bool {
        ||| self.year < other.year
        ||| self.year == other.year && self.month < other.month
        ||| self.year == other.year && self.month == other.month && self.day <= other.day
    }

    /// Decides `is_calendar_date`.
    pub fn is_valid(&self) -> (r: bool)
        ensures
            r == self.is_calendar_date(),
    {
        if self.year < 1 || self.year > 9999 || self.month < 1 || self.month > 12 {
            return false;
        }
        let leap = self.year % 4 == 0 && (self.year % 100 != 0 || self.year % 400 == 0);
        let length: u32 = if self.month == 2 {
            if leap {
                29
            } else {
                28
            }
        } else if self.month == 4 || self.month == 6 || self.month == 9 || self.month == 11 {
            30
        } else {
            31
        };
        1 <= self.day && self.day <= length
    }

    /// The date with these numbers, where the calendar has such a day.
    pub fn new(year: i32, month: u32, day: u32) -> (made: Option<Date>)
        ensures
            made == if (Date { year, month, day }).is_calendar_date() {
                Some(Date { year, month, day })
            } else {
                None
            },
    {
        let date = Date { year, month, day };
        if date.is_valid() {
            Some(date)
        } else {
            None
        }
    }

    /// Decides `on_or_before`.
    pub fn is_on_or_before(&self, other: &Date) -> (r: bool)
        ensures
            r == self.on_or_before(*other),
    {
        self.year < other.year || (self.year == other.year && (self.month < other.month || (
        self.month == other.month && self.day <= other.day)))
    }
}

/// The order of dates is transitive.
pub proof fn lemma_date_order_transitive(a: Date, b: Date, c: Date)
    requires
        a.on_or_before(b),
        b.on_or_before(c),
    ensures
        a.on_or_before(c),
{
}

/// `chrono::NaiveDate::parse_from_str`: the date that the library reads from
/// `text` under `format`, by year, month and day; `None` where it reports an
/// error. The result depends on the two texts alone.
#[verifier::external_body]
fn read_date(text: &str, format: &str) -> (date: Option<Date>)
    ensures
        date == date_of_text(text@, format@),
{
    match chrono::NaiveDate::parse_from_str(text, format) {
        Ok(d) => Some(Date { year: d.year(), month: d.month(), day: d.day() }),
        Err(_) => None,
    }
}

/// `chrono::NaiveTime::parse_from_str`: whether the library reads a clock
/// time from `text` under `format`. The result depends on the two texts
/// alone.
#[verifier::external_body]
fn reads_time(text: &str, format: &str) -> (accepted: bool)
    ensures
        accepted == is_time_text(text@, format@),
{
    chrono::NaiveTime::parse_from_str(text, format).is_ok()
}

/// `chrono::Datelike::weekday` and `chrono::Weekday::num_days_from_monday`
/// on the `chrono::NaiveDate` that `NaiveDate::from_ymd_opt` makes of a
/// calendar date: 0 for a Monday up to 6 for a Sunday.
#[verifier::external_body]
fn weekday_index(date: Date) -> (index: u32)
    requires
        date.is_calendar_date(),
    ensures
        index == days_from_monday(date),
        index <= 6,
{
    chrono::NaiveDate::from_ymd_opt(date.year, date.month, date.day)
        .unwrap()
        .weekday()
        .num_days_from_monday()
}

/// `chrono::NaiveDate::checked_add_days` on the `chrono::NaiveDate` that
/// `NaiveDate::from_ymd_opt` makes of a calendar date. From a year up to
/// 9999 no sixteen-bit number of days leads out of the library's range.
#[verifier::external_body]
fn add_days(date: Date, days: u16) -> (later: Date)
    requires
        date.is_calendar_date(),
    ensures
        later == days_later(date, days as int),
{
    let d = chrono::NaiveDate::from_ymd_opt(date.year, date.month, date.day)
        .unwrap()
        .checked_add_days(chrono::Days::new(u64::from(days)))
        .unwrap();
    Date { year: d.year(), month: d.month(), day: d.day() }
}

/// The date that a task's date text stands for, if the date library reads
/// one from it.
pub fn parse_date(text: &str) -> (date: Option<Date>)
    ensures
        date == task_date(text@),
{
    read_date(text, DATE_FORMAT)
}

/// Whether the date library reads `text` as a clock time in the form tasks
/// use.
pub fn parse_time(text: &str) -> (accepted: bool)
    ensures
        accepted == is_task_time(text@),
{
    reads_time(text, TIME_FORMAT)
}

/// The Sunday that ends the week of `today`.
pub fn week_end(today: Date) -> (sunday: Date)
    requires
        today.is_calendar_date(),
    ensures
        sunday == sunday_of(today),
{
    let index: u32 = weekday_index(today);
    let ahead: u16 = (6 - index) as u16;
    add_days(today, ahead)
}

} // verus!
