//! Calendar dates, and the day arithmetic and date parsing that `chrono`
//! provides.

use chrono::{Datelike, NaiveDate, TimeDelta};
use vstd::prelude::*;

verus! {

/// A date of the proleptic Gregorian calendar.
#[derive(Clone, Copy, Debug, PartialEq, Eq, Structural)]
pub struct CalendarDate {
    pub year: i32,
    pub month: u32,
    pub day: u32,
}

/// Whether `year` is a leap year.
pub open spec fn is_leap_year(year: int) -> bool {
    year % 4 == 0 && (year % 100 != 0 || year % 400 == 0)
}

/// The number of days of `month` in `year`.
pub open spec fn days_in_month(year: int, month: int) -> int {
    if month == 2 {
        if is_leap_year(year) {
            29
        } else {
            28
        }
    } else if month == 4 || month == 6 || month == 9 || month == 11 {
        30
    } else {
        31
    }
}

/// Whether `year`, `month` and `day` name a day that exists, in a year that
/// `chrono` can hold.
pub open spec fn is_calendar_date(year: int, month: int, day: int) -> bool {
    &&& -262143 <= year <= 262142
    &&& 1 <= month <= 12
    &&& 1 <= day <= days_in_month(year, month)
}

/// The days of `year` that lie before its month `month`.
pub open spec fn days_before_month(year: int, month: int) -> int
    decreases month,
{
    if month <= 1 {
        0
    } else {
        days_before_month(year, month - 1) + days_in_month(year, month - 1)
    }
}

/// The days from the start of the year 1 to the start of `year`; below zero
/// for a year before the year 1.
pub open spec fn days_before_year(year: int) -> int {
    let y = year - 1;
    365 * y + y / 4 - y / 100 + y / 400
}

/// The number of the day `date`, given as year, month and day, where the days
/// are numbered in their order and 1 January of the year 1 is day 1.
pub open spec fn day_number(date: (int, int, int)) -> int {
    days_before_year(date.0) + days_before_month(date.0, date.1) + date.2
}

/// Whether `date`, given as year, month and day, is a day that exists, in a
/// year that `chrono` can hold.
pub open spec fn is_date(date: (int, int, int)) -> bool {
    is_calendar_date(date.0, date.1, date.2)
}

/// Whether the day with the number `n` lies in a year that `chrono` can hold.
pub open spec fn in_day_range(n: int) -> bool {
    day_number((-262143, 1, 1)) <= n <= day_number((262142, 12, 31))
}

/// The day with the number `n`, as year, month and day.
pub open spec fn date_of_day(n: int) -> (int, int, int) {
    choose|date: (int, int, int)| is_date(date) && day_number(date) == n
}

/// The date `days` days after the date `base`, as year, month and day;
/// `None` where that day lies in no year that `chrono` can hold.
pub open spec fn day_after(base: (int, int, int), days: int) -> Option<(int, int, int)> {
    if in_day_range(day_number(base) + days) {
        Some(date_of_day(day_number(base) + days))
    } else {
        None
    }
}

/// Whether the date `a` is an earlier day than the date `b`.
pub open spec fn earlier(a: (int, int, int), b: (int, int, int)) -> bool {
    ||| a.0 < b.0
    ||| a.0 == b.0 && a.1 < b.1
    ||| a.0 == b.0 && a.1 == b.1 && a.2 < b.2
}

/// A year has 365 days, and one more if it is a leap year.
proof fn lemma_year_length(year: int)
    ensures
        days_before_year(year + 1) - days_before_year(year) == if is_leap_year(year) {
            366int
        } else {
            365int
        },
{
}

/// The days before a year are no more than those before a later year.
proof fn lemma_years_grow(a: int, b: int)
    requires
        a <= b,
    ensures
        days_before_year(a) <= days_before_year(b),
    decreases b - a,
{
    if a < b {
        lemma_years_grow(a, b - 1);
        lemma_year_length(b - 1);
    }
}

/// A day of a year has at least one and at most all days of the year up to
/// itself, and the days of a month come before those of a later month.
proof fn lemma_within_year(year: int, month: int, day: int, later: int)
    requires
        1 <= month <= later <= 12,
        1 <= day <= days_in_month(year, month),
    ensures
        days_before_month(year, month) >= 0,
        days_before_month(year, month) + day <= days_before_year(year + 1) - days_before_year(year),
        month < later ==> days_before_month(year, month) + day <= days_before_month(year, later),
{
    reveal_with_fuel(days_before_month, 13);
    lemma_year_length(year);
}

/// An earlier day has a smaller number.
pub proof fn lemma_day_number_ordered(a: (int, int, int), b: (int, int, int))
    requires
        is_date(a),
        is_date(b),
        earlier(a, b),
    ensures
        day_number(a) < day_number(b),
{
    lemma_within_year(a.0, a.1, a.2, 12);
    lemma_within_year(b.0, b.1, b.2, 12);
    if a.0 < b.0 {
        lemma_years_grow(a.0 + 1, b.0);
    } else if a.1 < b.1 {
        lemma_within_year(a.0, a.1, a.2, b.1);
    }
}

/// Two days with the same number are the same day.
pub proof fn lemma_day_number_names_one(a: (int, int, int), b: (int, int, int))
    requires
        is_date(a),
        is_date(b),
        day_number(a) == day_number(b),
    ensures
        a == b,
{
    if earlier(a, b) {
        lemma_day_number_ordered(a, b);
    } else if earlier(b, a) {
        lemma_day_number_ordered(b, a);
    }
}

/// The number of a day in a year that `chrono` can hold is in range.
pub proof fn lemma_day_in_range(a: (int, int, int))
    requires
        is_date(a),
    ensures
        in_day_range(day_number(a)),
{
    let first = (-262143int, 1int, 1int);
    let last = (262142int, 12int, 31int);
    if earlier(first, a) {
        lemma_day_number_ordered(first, a);
    }
    if earlier(a, last) {
        lemma_day_number_ordered(a, last);
    }
}

/// The day that has the number of the date `a`, more `days`, is the date
/// `b` if `b` has that number.
pub proof fn lemma_day_after(a: (int, int, int), days: int, b: (int, int, int))
    requires
        is_date(b),
        day_number(b) == day_number(a) + days,
    ensures
        day_after(a, days) == Some(b),
{
    lemma_day_in_range(b);
    lemma_day_number_names_one(date_of_day(day_number(b)), b);
}

/// The day from which serial day numbers count: 30 December 1899.
pub open spec fn epoch() -> (int, int, int) {
    (1899, 12, 30)
}

/// The date `days` days after the epoch.
pub open spec fn day_after_epoch(days: int) -> Option<(int, int, int)> {
    day_after(epoch(), days)
}

/// The date that `chrono` reads from `text` by the format `format`, as year,
/// month and day: what `NaiveDate::parse_from_str` returns. `None` where it
/// fails.
pub uninterp spec fn parsed_date(text: Seq<char>, format: Seq<char>) -> Option<(int, int, int)>;

impl CalendarDate {
    /// This date as year, month and day.
    pub open spec fn triple(self) -> (int, int, int) {
        (self.year as int, self.month as int, self.day as int)
    }

    /// Whether this date is `other` or an earlier day.
    pub open spec fn not_after(self, other: CalendarDate) -> bool {
        ||| self.year < other.year
        ||| self.year == other.year && self.month < other.month
        ||| self.year == other.year && self.month == other.month && self.day <= other.day
    }

    /// Tells whether this date is `other` or an earlier day.
    pub fn is_not_after(&self, other: &CalendarDate) -> (b: bool)
        ensures
            b == self.not_after(*other),
    {
        self.year < other.year || (self.year == other.year && self.month < other.month) || (
        self.year == other.year && self.month == other.month && self.day <= other.day)
    }
}

/// The number of days of `month` in `year`.
fn month_length(year: i32, month: u32) -> (n: u32)
    ensures
        n == days_in_month(year as int, month as int),
{
    if month == 2 {
        if year % 4 == 0 && (year % 100 != 0 || year % 400 == 0) {
            29
        } else {
            28
        }
    } else if month == 4 || month == 6 || month == 9 || month == 11 {
        30
    } else {
        31
    }
}

/// The date of `year`, `month` and `day`, if that is a day that exists, in a
/// year that `chrono` can hold.
pub(crate) fn date_from_ymd(year: i32, month: u32, day: u32) -> (r: Option<CalendarDate>)
    ensures
        r == if is_calendar_date(year as int, month as int, day as int) {
            Some((CalendarDate { year, month, day }))
        } else {
            None
        },
{
    if -262143 <= year && year <= 262142 && 1 <= month && month <= 12 && 1 <= day && day
        <= month_length(year, month) {
        Some(CalendarDate { year, month, day })
    } else {
        None
    }
}

/// Calls `NaiveDate::checked_add_signed` on the date `base` with `days`
/// whole days, made by `TimeDelta::try_days`. By its documentation it gives
/// the date that many days later, and nothing where that date, or the span,
/// is out of range: the range of the dates is wider in days than that of the
/// spans it refuses.
#[verifier::external_body]
pub(crate) fn date_plus_days(base: &CalendarDate, days: i64) -> (r: Option<CalendarDate>)
    requires
        is_date(base.triple()),
    ensures
        match r {
            Some(d) => is_date(d.triple()) && day_number(d.triple()) == day_number(base.triple())
                + days,
            None => !in_day_range(day_number(base.triple()) + days),
        },
{
    let start = NaiveDate::from_ymd_opt(base.year, base.month, base.day)?;
    let span = TimeDelta::try_days(days)?;
    let d = start.checked_add_signed(span)?;
    Some(CalendarDate { year: d.year(), month: d.month(), day: d.day() })
}

/// The day from which serial day numbers count.
pub fn epoch_date() -> (d: CalendarDate)
    ensures
        d.triple() == epoch(),
        is_date(d.triple()),
{
    CalendarDate { year: 1899, month: 12, day: 30 }
}

/// The date `days` days after the epoch, if it lies in a year that `chrono`
/// can hold.
pub fn date_after_epoch(days: i64) -> (r: Option<CalendarDate>)
    ensures
        match r {
            Some(d) => day_after_epoch(days as int) == Some(d.triple()),
            None => day_after_epoch(days as int) is None,
        },
{
    let base = epoch_date();
    let r = date_plus_days(&base, days);
    proof {
        if let Some(d) = r {
            lemma_day_after(epoch(), days as int, d.triple());
        }
    }
    r
}

/// Calls `NaiveDate::parse_from_str`. The result is named
/// `parsed_date(text, format)`; `None` stands for its error. Nothing more is
/// claimed of it.
#[verifier::external_body]
pub(crate) fn parse_date_by(text: &str, format: &str) -> (r: Option<CalendarDate>)
    ensures
        match r {
            Some(d) => parsed_date(text@, format@) == Some(d.triple()),
            None => parsed_date(text@, format@) is None,
        },
{
    match NaiveDate::parse_from_str(text, format) {
        Ok(d) => Some(CalendarDate { year: d.year(), month: d.month(), day: d.day() }),
        Err(_) => None,
    }
}

} // verus!
