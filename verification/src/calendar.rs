//! Calendar dates and times of day.
//!
//! Dates are those of the proleptic Gregorian calendar from year -9999 to year
//! 9999. The arithmetic on them is done by the `jiff` crate; this module says
//! what that arithmetic means. Its yardstick is the day number, the count of
//! days since the first of January of year zero: moving a date by `n` days
//! moves its day number by `n`, and the day of the week is the day number
//! modulo seven.

use vstd::prelude::*;

verus! {

/// The error type of `jiff`. Nothing is known of an error but that it is
/// one.
#[verifier::external_type_specification]
#[verifier::external_body]
pub struct ExJiffError(jiff::Error);

/// Whether `year` has a 29th of February.
pub open spec fn is_leap_year(year: int) -> bool {
    year % 4 == 0 && (year % 100 != 0 || year % 400 == 0)
}

/// The number of days of `month` in `year`.
pub open spec fn days_in_month(year: int, month: int) -> int {
    if month == 2 {
        if is_leap_year(year) {
            29
        } else {
            28
        }
    } else if month == 4 || month == 6 || month == 9 || month == 11 {
        30
    } else {
        31
    }
}

/// Whether the triple names a day of the calendar.
pub open spec fn is_date(year: int, month: int, day: int) -> bool {
    &&& -9999 <= year <= 9999
    &&& 1 <= month <= 12
    &&& 1 <= day <= days_in_month(year, month)
}

/// Whether the triple names a time of day.
pub open spec fn is_time(hour: int, minute: int, second: int) -> bool {
    &&& 0 <= hour <= 23
    &&& 0 <= minute <= 59
    &&& 0 <= second <= 59
}

/// The number of days between the first of January of year zero and the first
/// of January of `year`.
pub open spec fn days_before_year(year: int) -> int {
    365 * year + (year - 1) / 4 - (year - 1) / 100 + (year - 1) / 400 + 1
}

/// The number of days of `year` that lie before the first of `month`.
pub open spec fn days_before_month(year: int, month: int) -> int {
    let common: int = if month <= 1 {
        0
    } else if month == 2 {
        31
    } else if month == 3 {
        59
    } else if month == 4 {
        90
    } else if month == 5 {
        120
    } else if month == 6 {
        151
    } else if month == 7 {
        181
    } else if month == 8 {
        212
    } else if month == 9 {
        243
    } else if month == 10 {
        273
    } else if month == 11 {
        304
    } else {
        334
    };
    if month > 2 && is_leap_year(year) {
        common + 1
    } else {
        common
    }
}

/// The number of days from the first of January of year zero to the given
/// day.
pub open spec fn day_number(year: int, month: int, day: int) -> int {
    days_before_year(year) + days_before_month(year, month) + day - 1
}

/// The day number of the first day of the calendar.
pub open spec fn first_day_number() -> int {
    day_number(-9999, 1, 1)
}

/// The day number of the last day of the calendar.
pub open spec fn last_day_number() -> int {
    day_number(9999, 12, 31)
}

/// The number of days from a day that falls on weekday `from` to the next
/// later day that falls on weekday `to`, between one and seven. Weekdays are
/// counted from Monday, which is zero.
pub open spec fn days_until(from: int, to: int) -> int {
    (to - from + 6) % 7 + 1
}

/// A day of the calendar.
#[derive(Debug, Clone, Copy, PartialEq, Eq, Structural)]
pub struct CivilDate {
    pub year: i16,
    pub month: i8,
    pub day: i8,
}

/// A time of day, to the second.
#[derive(Debug, Clone, Copy, PartialEq, Eq, Structural)]
pub struct CivilTime {
    pub hour: i8,
    pub minute: i8,
    pub second: i8,
}

/// A day and a time on that day.
#[derive(Debug, Clone, Copy, PartialEq, Eq, Structural)]
pub struct CivilDateTime {
    pub date: CivilDate,
    pub time: CivilTime,
}

impl CivilDate {
    /// The date exists in the calendar.
    pub open spec fn wf(self) -> bool {
        is_date(self.year as int, self.month as int, self.day as int)
    }

    /// The number of days from the first of January of year zero to this day.
    pub open spec fn day_number(self) -> int {
        day_number(self.year as int, self.month as int, self.day as int)
    }

    /// The day of the week, counted from Monday, which is zero.
    pub open spec fn weekday(self) -> int {
        (self.day_number() + 5) % 7
    }

    /// This date is `days` days after `earlier`.
    pub open spec fn is_days_after(self, earlier: CivilDate, days: int) -> bool {
        self.wf() && self.day_number() == earlier.day_number() + days
    }

    /// The date with the given year, month and day of the month, if there is
    /// such a day.
    pub fn new(year: i16, month: i8, day: i8) -> (r: Option<CivilDate>)
        ensures
            r == if is_date(year as int, month as int, day as int) {
                Some(CivilDate { year, month, day })
            } else {
                None
            },
    {
        match date_new(year, month, day) {
            Ok(date) => Some(date),
            Err(_) => None,
        }
    }

    /// The year.
    pub fn year(&self) -> (r: i16)
        ensures
            r == self.year,
    {
        self.year
    }

    /// The month of the year, from 1.
    pub fn month(&self) -> (r: i8)
        ensures
            r == self.month,
    {
        self.month
    }

    /// The day of the month, from 1.
    pub fn day(&self) -> (r: i8)
        ensures
            r == self.day,
    {
        self.day
    }
}

impl CivilDateTime {
    /// The year.
    pub fn year(&self) -> (r: i16)
        ensures
            r == self.date.year,
    {
        self.date.year
    }

    /// The month of the year, from 1.
    pub fn month(&self) -> (r: i8)
        ensures
            r == self.date.month,
    {
        self.date.month
    }

    /// The day of the month, from 1.
    pub fn day(&self) -> (r: i8)
        ensures
            r == self.date.day,
    {
        self.date.day
    }

    /// The hour of the day.
    pub fn hour(&self) -> (r: i8)
        ensures
            r == self.time.hour,
    {
        self.time.hour
    }

    /// The minute of the hour.
    pub fn minute(&self) -> (r: i8)
        ensures
            r == self.time.minute,
    {
        self.time.minute
    }

    /// The second of the minute.
    pub fn second(&self) -> (r: i8)
        ensures
            r == self.time.second,
    {
        self.time.second
    }
}

impl CivilTime {
    /// The time exists on the clock.
    pub open spec fn wf(self) -> bool {
        is_time(self.hour as int, self.minute as int, self.second as int)
    }

    /// The time with the given hour, minute and second, if there is such a
    /// time.
    pub fn new(hour: i8, minute: i8, second: i8) -> (r: Option<CivilTime>)
        ensures
            r == if is_time(hour as int, minute as int, second as int) {
                Some(CivilTime { hour, minute, second })
            } else {
                None
            },
    {
        match time_new(hour, minute, second) {
            Ok(time) => Some(time),
            Err(_) => None,
        }
    }

    /// The hour of the day.
    pub fn hour(&self) -> (r: i8)
        ensures
            r == self.hour,
    {
        self.hour
    }

    /// The minute of the hour.
    pub fn minute(&self) -> (r: i8)
        ensures
            r == self.minute,
    {
        self.minute
    }

    /// The second of the minute.
    pub fn second(&self) -> (r: i8)
        ensures
            r == self.second,
    {
        self.second
    }
}

/// The number of days from `date` to the first day after it that falls on
/// `weekday`, where `nth` is positive, and to the last day before it that
/// does, where `nth` is negative. The number is negative for a day before
/// `date`.
pub open spec fn nth_weekday_offset(date: CivilDate, nth: int, weekday: int) -> int {
    if nth > 0 {
        days_until(date.weekday(), weekday)
    } else {
        -days_until(weekday, date.weekday())
    }
}

/// The date whose day number is `n`.
pub open spec fn date_of_day_number(n: int) -> CivilDate {
    choose|date: CivilDate| date.wf() && date.day_number() == n
}

/// The date that lies `days` days after `date`, or before it where `days` is
/// negative, if the calendar reaches that far.
pub open spec fn date_plus_days(date: CivilDate, days: int) -> Option<CivilDate> {
    if first_day_number() <= date.day_number() + days <= last_day_number() {
        Some(date_of_day_number(date.day_number() + days))
    } else {
        None
    }
}

/// The day after `date`, by the rules of the calendar: the next day of the
/// month, or the first of the next month, or the first of January of the next
/// year.
pub open spec fn next_day(date: CivilDate) -> CivilDate {
    if date.day < days_in_month(date.year as int, date.month as int) {
        CivilDate { year: date.year, month: date.month, day: (date.day + 1) as i8 }
    } else if date.month < 12 {
        CivilDate { year: date.year, month: (date.month + 1) as i8, day: 1 }
    } else {
        CivilDate { year: (date.year + 1) as i16, month: 1, day: 1 }
    }
}

/// A year has 365 days, and one more if it is a leap year.
pub proof fn lemma_days_before_year_step(year: int)
    ensures
        days_before_year(year + 1) == days_before_year(year) + 365 + if is_leap_year(year) {
            1int
        } else {
            0int
        },
{
}

/// Later years start on later days.
pub proof fn lemma_days_before_year_monotonic(a: int, b: int)
    requires
        a <= b,
    ensures
        days_before_year(a) + 365 * (b - a) <= days_before_year(b),
    decreases b - a,
{
    if a < b {
        lemma_days_before_year_monotonic(a, b - 1);
        lemma_days_before_year_step(b - 1);
    }
}

/// The day numbers of a year lie between the first of January of that year
/// and the first of January of the next.
pub proof fn lemma_day_number_in_year(date: CivilDate)
    requires
        date.wf(),
    ensures
        days_before_year(date.year as int) <= date.day_number() < days_before_year(
            date.year + 1,
        ),
{
    lemma_days_before_year_step(date.year as int);
}

/// The day number of a date lies between those of the first and the last day
/// of the calendar.
pub proof fn lemma_day_number_range(date: CivilDate)
    requires
        date.wf(),
    ensures
        first_day_number() <= date.day_number() <= last_day_number(),
{
    lemma_day_number_in_year(date);
    lemma_days_before_year_monotonic(-9999, date.year as int);
    lemma_days_before_year_monotonic(date.year + 1, 10000);
    lemma_days_before_year_step(9999);
}

/// A date that comes later in the calendar has a larger day number.
pub proof fn lemma_day_number_order(a: CivilDate, b: CivilDate)
    requires
        a.wf(),
        b.wf(),
        a.year < b.year || (a.year == b.year && (a.month < b.month || (a.month == b.month
            && a.day < b.day))),
    ensures
        a.day_number() < b.day_number(),
{
    if a.year < b.year {
        lemma_day_number_in_year(a);
        lemma_day_number_in_year(b);
        lemma_days_before_year_monotonic(a.year + 1, b.year as int);
    }
}

/// No two dates share a day number.
pub proof fn lemma_day_number_injective(a: CivilDate, b: CivilDate)
    requires
        a.wf(),
        b.wf(),
        a.day_number() == b.day_number(),
    ensures
        a == b,
{
    if a.year < b.year || (a.year == b.year && (a.month < b.month || (a.month == b.month && a.day
        < b.day))) {
        lemma_day_number_order(a, b);
    } else if a != b {
        lemma_day_number_order(b, a);
    }
}

/// A date is the date of its day number.
pub proof fn lemma_date_of_day_number(date: CivilDate)
    requires
        date.wf(),
    ensures
        date_of_day_number(date.day_number()) == date,
{
    lemma_day_number_injective(date, date_of_day_number(date.day_number()));
}

/// The day number counts days: the day after a date has the next day number.
pub proof fn lemma_next_day(date: CivilDate)
    requires
        date.wf(),
        date != (CivilDate { year: 9999, month: 12, day: 31 }),
    ensures
        next_day(date).is_days_after(date, 1),
{
    lemma_days_before_year_step(date.year as int);
}

/// Every day number between those of the first and the last day of the
/// calendar is the day number of a date.
pub proof fn lemma_day_number_onto(n: int)
    requires
        first_day_number() <= n <= last_day_number(),
    ensures
        date_of_day_number(n).wf(),
        date_of_day_number(n).day_number() == n,
    decreases n - first_day_number(),
{
    if n == first_day_number() {
        let first = CivilDate { year: -9999i16, month: 1, day: 1 };
        assert(first.wf() && first.day_number() == n);
    } else {
        lemma_day_number_onto(n - 1);
        let before = date_of_day_number(n - 1);
        let last = CivilDate { year: 9999, month: 12, day: 31 };
        assert(before != last);
        lemma_next_day(before);
        assert(next_day(before).wf() && next_day(before).day_number() == n);
    }
}

/// Moving a date by a number of days moves its day number by that number.
pub proof fn lemma_date_plus_days(date: CivilDate, days: int)
    requires
        date.wf(),
    ensures
        date_plus_days(date, days) matches Some(moved) ==> moved.is_days_after(date, days),
        date_plus_days(date, 0) == Some(date),
{
    lemma_day_number_range(date);
    lemma_date_of_day_number(date);
    if first_day_number() <= date.day_number() + days <= last_day_number() {
        lemma_day_number_onto(date.day_number() + days);
    }
}

/// Tomorrow is the next day of the calendar.
pub proof fn lemma_date_plus_one_day(date: CivilDate)
    requires
        date.wf(),
        date != (CivilDate { year: 9999, month: 12, day: 31 }),
    ensures
        date_plus_days(date, 1) == Some(next_day(date)),
{
    lemma_next_day(date);
    lemma_day_number_range(next_day(date));
    lemma_date_of_day_number(next_day(date));
}

/// Going `days_until` days forward from a day whose weekday is `from % 7`
/// leads to a day whose weekday is `to`, and so does going `days_until` days
/// back with the weekdays exchanged. Both distances are between one and seven.
pub proof fn lemma_days_until(from: int, to: int)
    requires
        0 <= to <= 6,
    ensures
        1 <= days_until(from % 7, to) <= 7,
        (from + days_until(from % 7, to)) % 7 == to,
        1 <= days_until(to, from % 7) <= 7,
        (from - days_until(to, from % 7)) % 7 == to,
{
}

/// Calls `jiff::civil::Date::new`.
///
/// Trusted: the call succeeds exactly for the triples that name a day of the
/// calendar, and the date it builds has the year, month and day it was given.
#[verifier::external_body]
pub(crate) fn date_new(year: i16, month: i8, day: i8) -> (r: Result<CivilDate, jiff::Error>)
    ensures
        r is Ok <==> is_date(year as int, month as int, day as int),
        r matches Ok(date) ==> date == (CivilDate { year, month, day }),
{
    let date = jiff::civil::Date::new(year, month, day)?;
    Ok(CivilDate { year: date.year(), month: date.month(), day: date.day() })
}

/// Calls `jiff::civil::Time::new` with no fraction of a second.
///
/// Trusted: the call succeeds exactly for hours up to 23 and minutes and
/// seconds up to 59, none of them negative, and the time it builds has the
/// hour, minute and second it was given.
#[verifier::external_body]
pub(crate) fn time_new(hour: i8, minute: i8, second: i8) -> (r: Result<CivilTime, jiff::Error>)
    ensures
        r is Ok <==> is_time(hour as int, minute as int, second as int),
        r matches Ok(time) ==> time == (CivilTime { hour, minute, second }),
{
    let time = jiff::civil::Time::new(hour, minute, second, 0)?;
    Ok(CivilTime { hour: time.hour(), minute: time.minute(), second: time.second() })
}

/// Calls `jiff::civil::Date::checked_add` with a span of `days` days.
///
/// Trusted: the result is the day that lies `days` days after `date`, and the
/// call fails exactly when that day is past the end of the calendar.
#[verifier::external_body]
pub(crate) fn date_checked_add_days(date: CivilDate, days: u8) -> (r: Result<
    CivilDate,
    jiff::Error,
>)
    requires
        date.wf(),
    ensures
        r is Ok <==> date.day_number() + days <= last_day_number(),
        r matches Ok(later) ==> later.is_days_after(date, days as int),
{
    let start = jiff::civil::Date::new(date.year, date.month, date.day)?;
    let end = start.checked_add(jiff::Span::new().days(days))?;
    Ok(CivilDate { year: end.year(), month: end.month(), day: end.day() })
}

/// Calls `jiff::civil::Date::checked_sub` with a span of `days` days.
///
/// Trusted: the result is the day that lies `days` days before `date`, and
/// the call fails exactly when that day is before the start of the calendar.
#[verifier::external_body]
pub(crate) fn date_checked_sub_days(date: CivilDate, days: u8) -> (r: Result<
    CivilDate,
    jiff::Error,
>)
    requires
        date.wf(),
    ensures
        r is Ok <==> first_day_number() <= date.day_number() - days,
        r matches Ok(earlier) ==> earlier.is_days_after(date, -(days as int)),
{
    let start = jiff::civil::Date::new(date.year, date.month, date.day)?;
    let end = start.checked_sub(jiff::Span::new().days(days))?;
    Ok(CivilDate { year: end.year(), month: end.month(), day: end.day() })
}

/// Calls `jiff::civil::Date::nth_weekday` for the first weekday after a date
/// (`nth` is 1) or the last one before it (`nth` is -1).
///
/// Trusted: the result is the nearest day after `date`, or before it, that
/// falls on the weekday numbered `weekday` from Monday. That day is never
/// `date` itself and at most seven days away. The call fails exactly when
/// that day lies beyond the calendar.
#[verifier::external_body]
pub(crate) fn date_nth_weekday(date: CivilDate, nth: i32, weekday: i8) -> (r: Result<
    CivilDate,
    jiff::Error,
>)
    requires
        date.wf(),
        nth == 1 || nth == -1,
        0 <= weekday <= 6,
    ensures
        r is Ok <==> first_day_number() <= date.day_number() + nth_weekday_offset(
            date,
            nth as int,
            weekday as int,
        ) <= last_day_number(),
        r matches Ok(found) ==> found.is_days_after(
            date,
            nth_weekday_offset(date, nth as int, weekday as int),
        ),
{
    let start = jiff::civil::Date::new(date.year, date.month, date.day)?;
    let target = jiff::civil::Weekday::from_monday_zero_offset(weekday)?;
    let end = start.nth_weekday(nth, target)?;
    Ok(CivilDate { year: end.year(), month: end.month(), day: end.day() })
}

} // verus!
