use vstd::prelude::*;
use chrono::Datelike;

verus! {

/// A day of the Gregorian calendar.
#[derive(Clone, Copy, Debug, PartialEq, Eq, Structural)]
pub struct Date {
    pub year: i32,
    pub month: u32,
    pub day: u32,
}

pub open spec fn is_leap_year(year: int) -> bool {
    year % 4 == 0 && (year % 100 != 0 || year % 400 == 0)
}

pub open spec fn days_in_year(year: int) -> int {
    if is_leap_year(year) { 366 } else { 365 }
}

pub open spec fn days_in_month(year: int, month: int) -> int {
    if month == 2 {
        if is_leap_year(year) { 29 } else { 28 }
    } else if month == 4 || month == 6 || month == 9 || month == 11 {
        30
    } else {
        31
    }
}

/// Days of the year that lie before the first of `month`.
pub open spec fn days_before_month(year: int, month: int) -> int
    decreases month,
{
    if month <= 1 {
        0
    } else {
        days_before_month(year, month - 1) + days_in_month(year, month - 1)
    }
}

/// The calendar has a day `day` in month `month` of year `year`.
pub open spec fn valid_ymd(year: int, month: int, day: int) -> bool {
    1 <= month <= 12 && 1 <= day <= days_in_month(year, month)
}

/// The years that the calendar arithmetic underneath can hold.
pub open spec fn year_in_calendar(year: int) -> bool {
    -262143 <= year <= 262142
}

impl Date {
    /// The day exists.
    pub open spec fn wf(&self) -> bool {
        valid_ymd(self.year as int, self.month as int, self.day as int) && year_in_calendar(self.year as int)
    }

    /// The number of the day in its year, from 1.
    pub open spec fn ordinal_spec(&self) -> int {
        days_before_month(self.year as int, self.month as int) + self.day
    }

    /// The day `day` of month `month` of year `year`, if the calendar has it.
    pub fn from_ymd_opt(year: i32, month: u32, day: u32) -> (r: Option<Date>)
        ensures
            r == (if valid_ymd(year as int, month as int, day as int) && year_in_calendar(year as int) {
                Some(Date { year, month, day })
            } else {
                None
            }),
    {
        if year < -262143 || year > 262142 {
            return None;
        }
        calendar_day(year, month, day)
    }

    /// Day `ordinal` of year `year`, if the year has that many days.
    pub fn from_yo_opt(year: i32, ordinal: u32) -> (r: Option<Date>)
        ensures
            match r {
                Some(d) => d.wf() && d.year == year && d.ordinal_spec() == ordinal,
                None => true,
            },
            r is Some <==> year_in_calendar(year as int) && 1 <= ordinal <= days_in_year(year as int),
    {
        if year < -262143 || year > 262142 {
            return None;
        }
        let r = calendar_day_of_year(year, ordinal);
        proof {
            if let Some(d) = r {
                lemma_ordinal_range(d);
            }
        }
        r
    }

    /// The number of the day in its year, from 1.
    pub fn ordinal(&self) -> (n: u32)
        requires
            self.wf(),
        ensures
            n == self.ordinal_spec(),
            1 <= n <= 366,
    {
        proof {
            lemma_ordinal_range(*self);
        }
        calendar_ordinal(*self)
    }
}

pub proof fn lemma_days_before_month(year: int)
    ensures
        days_before_month(year, 1) == 0,
        days_before_month(year, 2) == 31,
        days_before_month(year, 3) == 59 + days_in_year(year) - 365,
        days_before_month(year, 4) == 90 + days_in_year(year) - 365,
        days_before_month(year, 5) == 120 + days_in_year(year) - 365,
        days_before_month(year, 6) == 151 + days_in_year(year) - 365,
        days_before_month(year, 7) == 181 + days_in_year(year) - 365,
        days_before_month(year, 8) == 212 + days_in_year(year) - 365,
        days_before_month(year, 9) == 243 + days_in_year(year) - 365,
        days_before_month(year, 10) == 273 + days_in_year(year) - 365,
        days_before_month(year, 11) == 304 + days_in_year(year) - 365,
        days_before_month(year, 12) == 334 + days_in_year(year) - 365,
        days_before_month(year, 13) == days_in_year(year),
{
    reveal_with_fuel(days_before_month, 14);
}

pub proof fn lemma_ordinal_range(d: Date)
    requires
        d.wf(),
    ensures
        1 <= d.ordinal_spec() <= days_in_year(d.year as int),
{
    lemma_days_before_month(d.year as int);
}

/// Two days of one year with the same number in the year are the same day.
pub proof fn lemma_ordinal_injective(a: Date, b: Date)
    requires
        a.wf(),
        b.wf(),
        a.year == b.year,
        a.ordinal_spec() == b.ordinal_spec(),
    ensures
        a == b,
{
    lemma_days_before_month(a.year as int);
}

/// `chrono::NaiveDate::from_ymd_opt`, and `year`, `month` and `day` of the
/// date it made: the date with these three numbers if the proleptic
/// Gregorian calendar has that day, nothing otherwise.
#[verifier::external_body]
fn calendar_day(year: i32, month: u32, day: u32) -> (r: Option<Date>)
    requires
        year_in_calendar(year as int),
    ensures
        r == (if valid_ymd(year as int, month as int, day as int) {
            Some(Date { year, month, day })
        } else {
            None
        }),
{
    chrono::NaiveDate::from_ymd_opt(year, month, day).map(
        |d| Date { year: d.year(), month: d.month(), day: d.day() },
    )
}

/// `chrono::NaiveDate::from_yo_opt`: the day with number `ordinal` in
/// `year`, counted from 1, if the year has that many days.
#[verifier::external_body]
fn calendar_day_of_year(year: i32, ordinal: u32) -> (r: Option<Date>)
    requires
        year_in_calendar(year as int),
    ensures
        match r {
            Some(d) => d.wf() && d.year == year && d.ordinal_spec() == ordinal,
            None => !(1 <= ordinal <= days_in_year(year as int)),
        },
{
    chrono::NaiveDate::from_yo_opt(year, ordinal).map(
        |d| Date { year: d.year(), month: d.month(), day: d.day() },
    )
}

/// `chrono::Datelike::ordinal` of the `NaiveDate` with the numbers of
/// `date`: the number of the day in its year, counted from 1.
#[verifier::external_body]
fn calendar_ordinal(date: Date) -> (n: u32)
    requires
        date.wf(),
    ensures
        n == date.ordinal_spec(),
{
    chrono::NaiveDate::from_ymd_opt(date.year, date.month, date.day).unwrap().ordinal()
}

/// std `SystemTime::elapsed`, asked of `UNIX_EPOCH`: the whole seconds from
/// the begin of 1970 to the time on the clock, or nothing where the clock
/// stands before 1970. What it answers depends on when it is asked.
#[verifier::external_body]
fn clock_seconds() -> (r: Option<u64>)
{
    std::time::UNIX_EPOCH.elapsed().ok().map(|d| d.as_secs())
}

/// The days from the begin of 1970 to the begin of `year`, for a year from
/// 1970 on.
pub open spec fn days_to_year(year: int) -> int
    decreases year,
{
    if year <= 1970 {
        0
    } else {
        days_to_year(year - 1) + days_in_year(year - 1)
    }
}

/// The days from the first day of 1970 to `date`, a day of 1970 or later.
pub open spec fn epoch_day(date: Date) -> int {
    days_to_year(date.year as int) + date.ordinal_spec() - 1
}

/// The days from the first day of 1970 to the first day that the calendar
/// does not hold.
pub open spec fn calendar_end() -> int {
    days_to_year(262143)
}

/// `chrono::DateTime::from_timestamp`, and `year`, `month` and `day` of its
/// date in universal time: the day of the proleptic Gregorian calendar that
/// lies `seconds` seconds after the begin of 1970, a day being 86400
/// seconds; nothing where that day lies after the year 262142, the last
/// that the calendar holds.
#[verifier::external_body]
fn date_at(seconds: i64) -> (r: Option<Date>)
    requires
        seconds >= 0,
    ensures
        match r {
            Some(d) => d.wf() && d.year >= 1970 && epoch_day(d) == seconds / 86400,
            None => seconds / 86400 >= calendar_end(),
        },
{
    chrono::DateTime::from_timestamp(seconds, 0).map(|t| t.naive_utc().date()).map(
        |d| Date { year: d.year(), month: d.month(), day: d.day() },
    )
}

/// `r` is the day of universal time that lies `seconds` seconds after the
/// begin of 1970, with the seconds since its midnight, or nothing where the
/// calendar does not hold that day.
pub open spec fn is_moment(seconds: int, r: Option<(Date, u32)>) -> bool {
    match r {
        Some((day, second)) => day.wf() && day.year >= 1970 && epoch_day(day) == seconds / 86400 && second == seconds
            % 86400,
        None => seconds / 86400 >= calendar_end() || seconds > i64::MAX,
    }
}

/// The day of universal time that lies `seconds` seconds after the begin
/// of 1970, and the seconds since its midnight.
pub fn moment(seconds: u64) -> (r: Option<(Date, u32)>)
    ensures
        is_moment(seconds as int, r),
{
    if seconds > i64::MAX as u64 {
        return None;
    }
    match date_at(seconds as i64) {
        Some(day) => Some((day, (seconds % 86400) as u32)),
        None => None,
    }
}

/// The day on the clock, in universal time, and the seconds since its
/// midnight; nothing where the clock stands before 1970 or past what the
/// calendar holds.
pub fn now() -> (r: Option<(Date, u32)>)
    ensures
        r matches Some((day, second)) ==> day.wf() && day.year >= 1970 && second < 86400 && exists|seconds: int|
            0 <= seconds && #[trigger] is_moment(seconds, r),
{
    match clock_seconds() {
        Some(seconds) => {
            let r = moment(seconds);
            assert(is_moment(seconds as int, r));
            r
        },
        None => None,
    }
}

/// The day on the clock, in universal time; nothing where the clock stands
/// before 1970 or past what the calendar holds.
pub fn today() -> (r: Option<Date>)
    ensures
        r matches Some(day) ==> day.wf() && day.year >= 1970,
{
    match now() {
        Some((day, second)) => Some(day),
        None => None,
    }
}

} // verus!
