//! The calendar model: Gregorian dates with a successor operation and a
//! weekday derivation, minute-resolution clock times, and signed durations
//! counted in whole minutes.
use vstd::prelude::*;

verus! {

/// Largest year the library models; the file formats write years with four
/// digits, so nothing beyond it can be named in any input.
pub const MAX_YEAR: u32 = 9999;

/// A Gregorian calendar date.
#[derive(Clone, Copy, Debug, PartialEq, Eq, Structural, Hash)]
pub struct Date {
    pub year: u32,
    pub month: u32,
    pub day: u32,
}

/// A clock time within one day, at minute resolution.
#[derive(Clone, Copy, Debug, PartialEq, Eq, Structural, Hash)]
pub struct ClockTime {
    pub hour: u32,
    pub minute: u32,
}

/// A signed span of time, counted in whole minutes.
#[derive(Clone, Copy, Debug, PartialEq, Eq, Structural, Hash)]
pub struct Duration {
    pub minutes: i64,
}

pub open spec fn is_leap_year(y: int) -> bool {
    (y % 4 == 0 && y % 100 != 0) || y % 400 == 0
}

pub open spec fn spec_days_in_month(y: int, m: int) -> int {
    if m == 2 {
        if is_leap_year(y) {
            29
        } else {
            28
        }
    } else if m == 4 || m == 6 || m == 9 || m == 11 {
        30
    } else {
        31
    }
}

impl Date {
    /// The dates the library models: years 0 through 9999, months and days
    /// as the Gregorian calendar has them.
    pub open spec fn valid(self) -> bool {
        &&& self.year <= MAX_YEAR
        &&& 1 <= self.month <= 12
        &&& 1 <= self.day <= spec_days_in_month(self.year as int, self.month as int)
    }

    /// A strictly monotone embedding of the calendar order into the
    /// integers: later dates have larger ranks.  (Months are padded to 31
    /// slots, years to 372, so the embedding is injective on valid dates.)
    pub open spec fn rank(self) -> int {
        self.year * 372 + (self.month - 1) * 31 + (self.day - 1)
    }

    /// The calendar successor of a valid date.
    pub open spec fn spec_succ(self) -> Date {
        if self.day < spec_days_in_month(self.year as int, self.month as int) {
            Date { year: self.year, month: self.month, day: (self.day + 1) as u32 }
        } else if self.month < 12 {
            Date { year: self.year, month: (self.month + 1) as u32, day: 1 }
        } else {
            Date { year: (self.year + 1) as u32, month: 1, day: 1 }
        }
    }

    /// Weekday as a number, Monday = 0 through Sunday = 6.  The formula is
    /// the standard civil-calendar day count (years shifted by one whole
    /// 400-year era to keep every intermediate value non-negative), taken
    /// modulo the week.
    pub open spec fn spec_weekday(self) -> int {
        let y = if self.month <= 2 {
            self.year + 400 - 1
        } else {
            self.year + 400
        };
        let era = y / 400;
        let yoe = y - era * 400;
        let mp = if self.month > 2 {
            self.month - 3
        } else {
            self.month + 9
        };
        let doy = (153 * mp + 2) / 5 + self.day - 1;
        let doe = yoe * 365 + yoe / 4 - yoe / 100 + doy;
        (era * 146097 + doe + 2) % 7
    }

    /// Saturdays and Sundays.
    pub open spec fn spec_is_weekend(self) -> bool {
        self.spec_weekday() >= 5
    }

    /// The date made of the given fields, when they name a valid date.
    pub fn from_ymd_opt(year: u32, month: u32, day: u32) -> (r: Option<Date>)
        ensures
            ({
                let d = Date { year, month, day };
                if d.valid() {
                    r == Some(d)
                } else {
                    r is None
                }
            }),
    {
        let d = Date { year, month, day };
        if year <= MAX_YEAR && 1 <= month && month <= 12 && 1 <= day && day <= days_in_month(
            year,
            month,
        ) {
            Some(d)
        } else {
            None
        }
    }

    /// Whether the fields name a date the library models.
    pub fn is_valid(&self) -> (r: bool)
        ensures
            r == self.valid(),
    {
        self.year <= MAX_YEAR && 1 <= self.month && self.month <= 12 && 1 <= self.day && self.day
            <= days_in_month(self.year, self.month)
    }

    /// The rank as a machine integer; used to compare and to measure dates.
    pub fn rank_of(&self) -> (r: u32)
        requires
            self.valid(),
        ensures
            r == self.rank(),
    {
        self.year * 372 + (self.month - 1) * 31 + (self.day - 1)
    }

    /// Calendar order, decided through the rank embedding.
    pub fn le(&self, other: &Date) -> (r: bool)
        requires
            self.valid(),
            other.valid(),
        ensures
            r == (self.rank() <= other.rank()),
    {
        self.rank_of() <= other.rank_of()
    }

    /// The next calendar day.
    pub fn succ(&self) -> (r: Date)
        requires
            self.valid(),
            !(self.year == MAX_YEAR && self.month == 12 && self.day == 31),
        ensures
            r == self.spec_succ(),
            r.valid(),
            r.rank() > self.rank(),
    {
        if self.day < days_in_month(self.year, self.month) {
            Date { year: self.year, month: self.month, day: self.day + 1 }
        } else if self.month < 12 {
            Date { year: self.year, month: self.month + 1, day: 1 }
        } else {
            Date { year: self.year + 1, month: 1, day: 1 }
        }
    }

    /// Weekday as a number, Monday = 0 through Sunday = 6.
    pub fn weekday(&self) -> (r: u32)
        requires
            self.valid(),
        ensures
            r == self.spec_weekday(),
    {
        let y: u32 = if self.month <= 2 {
            self.year + 400 - 1
        } else {
            self.year + 400
        };
        let era: u32 = y / 400;
        let yoe: u32 = y - era * 400;
        let mp: u32 = if self.month > 2 {
            self.month - 3
        } else {
            self.month + 9
        };
        let doy: u32 = (153 * mp + 2) / 5 + self.day - 1;
        let doe: u32 = yoe * 365 + yoe / 4 - yoe / 100 + doy;
        (era * 146097 + doe + 2) % 7
    }

    /// Whether the date falls on a Saturday or a Sunday.
    pub fn is_weekend(&self) -> (r: bool)
        requires
            self.valid(),
        ensures
            r == self.spec_is_weekend(),
    {
        self.weekday() >= 5
    }
}

/// Two valid dates with equal ranks are the same date.
pub proof fn lemma_rank_injective(a: Date, b: Date)
    requires
        a.valid(),
        b.valid(),
        a.rank() == b.rank(),
    ensures
        a == b,
{
}

/// The length of the given month of the given year.
pub fn days_in_month(year: u32, month: u32) -> (r: u32)
    requires
        1 <= month <= 12,
    ensures
        r == spec_days_in_month(year as int, month as int),
{
    if month == 2 {
        if (year % 4 == 0 && year % 100 != 0) || year % 400 == 0 {
            29
        } else {
            28
        }
    } else if month == 4 || month == 6 || month == 9 || month == 11 {
        30
    } else {
        31
    }
}

impl ClockTime {
    pub open spec fn valid(self) -> bool {
        self.hour < 24 && self.minute < 60
    }

    /// Minutes since midnight; the order of clock times within a day.
    pub open spec fn spec_minute_of_day(self) -> int {
        self.hour * 60 + self.minute
    }

    pub fn minute_of_day(&self) -> (r: u32)
        requires
            self.valid(),
        ensures
            r == self.spec_minute_of_day(),
    {
        self.hour * 60 + self.minute
    }
}

impl View for Duration {
    type V = int;

    open spec fn view(&self) -> int {
        self.minutes as int
    }
}

impl Duration {
    /// A duration of the given number of minutes.
    pub fn minutes(minutes: i64) -> (r: Duration)
        ensures
            r@ == minutes as int,
    {
        Duration { minutes }
    }

    /// A duration of the given number of hours.
    pub fn hours(hours: i64) -> (r: Duration)
        requires
            i64::MIN <= hours * 60 <= i64::MAX,
        ensures
            r@ == hours * 60,
    {
        Duration { minutes: hours * 60 }
    }

    /// The zero duration.
    pub fn zero() -> (r: Duration)
        ensures
            r@ == 0,
    {
        Duration { minutes: 0 }
    }

    pub fn num_minutes(&self) -> (r: i64)
        ensures
            r == self@,
    {
        self.minutes
    }

    /// The sum of two durations.
    pub fn plus(&self, other: &Duration) -> (r: Duration)
        requires
            i64::MIN <= self@ + other@ <= i64::MAX,
        ensures
            r@ == self@ + other@,
    {
        Duration { minutes: self.minutes + other.minutes }
    }

    /// Half of a non-negative duration, rounded towards zero.
    pub fn half(&self) -> (r: Duration)
        requires
            self@ >= 0,
        ensures
            r@ == self@ / 2,
    {
        Duration { minutes: self.minutes / 2 }
    }
}

} // verus!
