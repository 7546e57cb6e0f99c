//! Commit timestamps: a local date and time to the second, without offset.
use vstd::prelude::*;

verus! {

/// Earliest year that chrono's `NaiveDate` represents.
pub const MIN_YEAR: i32 = -262143;

/// Latest year that chrono's `NaiveDate` represents.
pub const MAX_YEAR: i32 = 262142;

/// A local date and time, as `git log --format=%ci` reports it with its
/// offset dropped.
#[derive(Debug, Clone, Copy, PartialEq, Eq, Structural)]
pub struct Timestamp {
    pub year: i32,
    pub month: u32,
    pub day: u32,
    pub hour: u32,
    pub minute: u32,
    pub second: u32,
}

pub open spec fn is_leap_year(y: int) -> bool {
    (y % 4 == 0 && y % 100 != 0) || y % 400 == 0
}

pub open spec fn days_in_month(y: int, m: int) -> int {
    if m == 2 {
        if is_leap_year(y) {
            29
        } else {
            28
        }
    } else if m == 4 || m == 6 || m == 9 || m == 11 {
        30
    } else {
        31
    }
}

/// A day of the proleptic Gregorian calendar within chrono's year range.
pub open spec fn valid_date(y: int, m: int, d: int) -> bool {
    MIN_YEAR <= y <= MAX_YEAR && 1 <= m <= 12 && 1 <= d <= days_in_month(y, m)
}

/// A time of day to the second, leap seconds excluded.
pub open spec fn valid_time(h: int, m: int, s: int) -> bool {
    0 <= h < 24 && 0 <= m < 60 && 0 <= s < 60
}

impl Timestamp {
    pub open spec fn wf(&self) -> bool {
        valid_date(self.year as int, self.month as int, self.day as int) && valid_time(
            self.hour as int,
            self.minute as int,
            self.second as int,
        )
    }

    /// Chronological order: the most significant field that differs decides.
    pub open spec fn spec_le(&self, other: Timestamp) -> bool {
        if self.year != other.year {
            self.year < other.year
        } else if self.month != other.month {
            self.month < other.month
        } else if self.day != other.day {
            self.day < other.day
        } else if self.hour != other.hour {
            self.hour < other.hour
        } else if self.minute != other.minute {
            self.minute < other.minute
        } else {
            self.second <= other.second
        }
    }

    /// Whether `self` is no later than `other`.
    pub fn le(&self, other: &Timestamp) -> (r: bool)
        ensures
            r == self.spec_le(*other),
    {
        if self.year != other.year {
            self.year < other.year
        } else if self.month != other.month {
            self.month < other.month
        } else if self.day != other.day {
            self.day < other.day
        } else if self.hour != other.hour {
            self.hour < other.hour
        } else if self.minute != other.minute {
            self.minute < other.minute
        } else {
            self.second <= other.second
        }
    }
}

/// `spec_le` is a total order.
pub proof fn lemma_le_total_order(a: Timestamp, b: Timestamp, c: Timestamp)
    ensures
        a.spec_le(a),
        a.spec_le(b) || b.spec_le(a),
        a.spec_le(b) && b.spec_le(a) ==> a == b,
        a.spec_le(b) && b.spec_le(c) ==> a.spec_le(c),
{
}

/// Relies on chrono::NaiveDate::from_ymd_opt, which gives `None` exactly for
/// a day that does not exist or a year outside its range.
#[verifier::external_body]
fn date_exists(year: i32, month: u32, day: u32) -> (r: bool)
    ensures
        r == valid_date(year as int, month as int, day as int),
{
    chrono::NaiveDate::from_ymd_opt(year, month, day).is_some()
}

/// Relies on chrono::NaiveTime::from_hms_opt, which gives `None` exactly for
/// an hour above 23, a minute above 59 or a second above 59.
#[verifier::external_body]
fn time_exists(hour: u32, minute: u32, second: u32) -> (r: bool)
    ensures
        r == valid_time(hour as int, minute as int, second as int),
{
    chrono::NaiveTime::from_hms_opt(hour, minute, second).is_some()
}

/// The timestamp of the given fields, when they name an existing date and time.
pub fn make_timestamp(year: i32, month: u32, day: u32, hour: u32, minute: u32, second: u32) -> (r:
    Option<Timestamp>)
    ensures
        r is Some <==> valid_date(year as int, month as int, day as int) && valid_time(
            hour as int,
            minute as int,
            second as int,
        ),
        r matches Some(t) ==> t == (Timestamp { year, month, day, hour, minute, second }),
{
    if date_exists(year, month, day) && time_exists(hour, minute, second) {
        Some(Timestamp { year, month, day, hour, minute, second })
    } else {
        None
    }
}

} // verus!
