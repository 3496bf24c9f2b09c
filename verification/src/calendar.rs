//! Calendar dates as plain values, with the handful of chrono calls the
//! rest of the library needs (date validation, weekday, day arithmetic,
//! UTC timestamps and day differences).

use vstd::prelude::*;
use chrono::{Datelike, NaiveDate, TimeZone, Utc};

verus! {

/// Earliest year chrono's `NaiveDate` represents.
pub const MIN_YEAR: i32 = -262143;

/// Latest year chrono's `NaiveDate` represents.
pub const MAX_YEAR: i32 = 262142;

/// Bound on the magnitude of any Unix timestamp (seconds) of a representable date.
pub const TIMESTAMP_LIMIT: i64 = 10_000_000_000_000;

/// Proleptic Gregorian leap year.
pub open spec fn is_leap_year(year: int) -> bool {
    (year % 4 == 0 && year % 100 != 0) || year % 400 == 0
}

pub open spec fn days_in_month(year: int, month: int) -> int {
    if month == 2 {
        if is_leap_year(year) { 29 } else { 28 }
    } else if month == 4 || month == 6 || month == 9 || month == 11 {
        30
    } else {
        31
    }
}

/// A calendar day that exists and lies in chrono's representable range.
pub open spec fn valid_ymd(year: int, month: int, day: int) -> bool {
    &&& MIN_YEAR <= year <= MAX_YEAR
    &&& 1 <= month <= 12
    &&& 1 <= day <= days_in_month(year, month)
}

/// Chronological order of (year, month, day) triples.
pub open spec fn date_lt(a: (int, int, int), b: (int, int, int)) -> bool {
    ||| a.0 < b.0
    ||| a.0 == b.0 && a.1 < b.1
    ||| a.0 == b.0 && a.1 == b.1 && a.2 < b.2
}

pub open spec fn date_le(a: (int, int, int), b: (int, int, int)) -> bool {
    date_lt(a, b) || a == b
}

/// Days from 1970-01-01 to the proleptic Gregorian date (negative before).
/// Years are counted from March, so that February ends each counted year.
pub open spec fn day_number(date: (int, int, int)) -> int {
    let yy = if date.1 <= 2 {
        date.0 - 1
    } else {
        date.0
    };
    let mp = if date.1 > 2 {
        date.1 - 3
    } else {
        date.1 + 9
    };
    march_year_start(yy) + month_start(mp) + date.2 - 1 - 719468
}

/// Days before the March-based year `yy` (from year 0).
pub open spec fn march_year_start(yy: int) -> int {
    365 * yy + yy / 4 - yy / 100 + yy / 400
}

/// Days before month `mp` (March = 0, ..., February = 11) in a March-based year.
pub open spec fn month_start(mp: int) -> int {
    (153 * mp + 2) / 5
}

/// The weekday of a date, Monday = 0 through Sunday = 6 (1970-01-01 was a
/// Thursday).
pub open spec fn weekday_from_monday(date: (int, int, int)) -> int {
    (day_number(date) + 3) % 7
}

/// Unix time in seconds of `date` at `hour`:00:00 UTC.
pub open spec fn utc_timestamp(date: (int, int, int), hour: int) -> int {
    day_number(date) * 86400 + hour * 3600
}

/// Whole days from `earlier` to `later`.
pub open spec fn days_between(later: (int, int, int), earlier: (int, int, int)) -> int {
    day_number(later) - day_number(earlier)
}

/// A valid calendar date (year, month, day).
#[derive(Debug, Clone, Copy, PartialEq, Eq, Structural)]
pub struct Date {
    year: i32,
    month: u32,
    day: u32,
}

impl View for Date {
    type V = (int, int, int);

    closed spec fn view(&self) -> (int, int, int) {
        (self.year as int, self.month as int, self.day as int)
    }
}

impl Date {
    #[verifier::type_invariant]
    closed spec fn wf(self) -> bool {
        valid_ymd(self.year as int, self.month as int, self.day as int)
    }

    /// The date for `year`-`month`-`day`, or `None` when no such day exists
    /// (or the year is out of range).
    pub fn from_ymd_opt(year: i32, month: u32, day: u32) -> (r: Option<Date>)
        ensures
            r is Some <==> valid_ymd(year as int, month as int, day as int),
            r matches Some(d) ==> d@ == (year as int, month as int, day as int),
    {
        match chrono_from_ymd(year, month, day) {
            Some(t) => Some(Date { year: t.0, month: t.1, day: t.2 }),
            None => None,
        }
    }

    pub fn year(&self) -> (r: i32)
        ensures
            r as int == self@.0,
            valid_ymd(self@.0, self@.1, self@.2),
    {
        proof {
            use_type_invariant(self);
        }
        self.year
    }

    pub fn month(&self) -> (r: u32)
        ensures
            r as int == self@.1,
            valid_ymd(self@.0, self@.1, self@.2),
    {
        proof {
            use_type_invariant(self);
        }
        self.month
    }

    pub fn day(&self) -> (r: u32)
        ensures
            r as int == self@.2,
            valid_ymd(self@.0, self@.1, self@.2),
    {
        proof {
            use_type_invariant(self);
        }
        self.day
    }

    /// Strictly earlier than `other`.
    pub fn is_before(&self, other: &Date) -> (r: bool)
        ensures
            r == date_lt(self@, other@),
    {
        self.year < other.year || (self.year == other.year && (self.month < other.month || (
        self.month == other.month && self.day < other.day)))
    }

    /// Same calendar day as `other`.
    pub fn same_day(&self, other: &Date) -> (r: bool)
        ensures
            r == (self@ == other@),
    {
        self.year == other.year && self.month == other.month && self.day == other.day
    }
}

/// Whole days a contract expiring on `expiry` has left as of `today`:
/// `expiry - today` in days, floored at zero.
pub fn days_to_expiry(expiry: &Date, today: &Date) -> (r: u64)
    ensures
        r as int == if days_between(expiry@, today@) > 0 {
            days_between(expiry@, today@)
        } else {
            0
        },
        r > 0 <==> date_lt(today@, expiry@),
{
    proof {
        use_type_invariant(expiry);
        use_type_invariant(today);
        lemma_day_number_compare(today@, expiry@);
    }
    let days = chrono_days_between(expiry, today);
    if days > 0 {
        days as u64
    } else {
        0
    }
}

/// `NaiveDate::from_ymd_opt`: `Some` exactly for an existing calendar day
/// whose year is within chrono's range, and then the date holds the given
/// year, month and day (read back through `year()`, `month()`, `day()`).
#[verifier::external_body]
fn chrono_from_ymd(year: i32, month: u32, day: u32) -> (r: Option<(i32, u32, u32)>)
    ensures
        r is Some <==> valid_ymd(year as int, month as int, day as int),
        r matches Some(t) ==> t == (year, month, day),
{
    match NaiveDate::from_ymd_opt(year, month, day) {
        Some(d) => Some((d.year(), d.month(), d.day())),
        None => None,
    }
}

/// `Datelike::weekday` then `Weekday::num_days_from_monday`: the weekday of
/// `date` in the proleptic Gregorian calendar, Monday = 0 through Sunday = 6.
#[verifier::external_body]
pub(crate) fn chrono_weekday(date: &Date) -> (r: u32)
    ensures
        r as int == weekday_from_monday(date@),
{
    NaiveDate::from_ymd_opt(date.year, date.month, date.day).unwrap().weekday().num_days_from_monday()
}

/// `NaiveDate + TimeDelta::days(days)`, used only where the sum stays inside
/// the month (every month has at least 28 days): the result is the same
/// month, `days` later.
#[verifier::external_body]
pub(crate) fn chrono_add_days(date: &Date, days: u32) -> (r: Date)
    requires
        date@.2 + days <= 28,
    ensures
        r@ == (date@.0, date@.1, date@.2 + days),
{
    let d = NaiveDate::from_ymd_opt(date.year, date.month, date.day).unwrap()
        + chrono::TimeDelta::days(days as i64);
    Date { year: d.year(), month: d.month(), day: d.day() }
}

/// `NaiveDate::and_hms_opt(hour, 0, 0)` then `Utc.from_utc_datetime`, read
/// as a Unix timestamp: the second at which `date` reaches `hour`:00 UTC,
/// i.e. its day number times 86400 plus the hour's seconds.
#[verifier::external_body]
pub(crate) fn chrono_utc_timestamp(date: &Date, hour: u32) -> (r: i64)
    requires
        hour < 24,
    ensures
        r as int == utc_timestamp(date@, hour as int),
{
    let naive = NaiveDate::from_ymd_opt(date.year, date.month, date.day).unwrap().and_hms_opt(
        hour,
        0,
        0,
    ).unwrap();
    Utc.from_utc_datetime(&naive).timestamp()
}

/// `(later - earlier).num_days()` on two `NaiveDate`s: the signed number of
/// whole days between them, the difference of their day numbers.
#[verifier::external_body]
fn chrono_days_between(later: &Date, earlier: &Date) -> (r: i64)
    ensures
        r as int == days_between(later@, earlier@),
{
    let a = NaiveDate::from_ymd_opt(later.year, later.month, later.day).unwrap();
    let b = NaiveDate::from_ymd_opt(earlier.year, earlier.month, earlier.day).unwrap();
    (a - b).num_days()
}

/// Every representable date lies within 10^8 days of the epoch, so its
/// timestamps stay within `TIMESTAMP_LIMIT`.
pub proof fn lemma_day_number_bounds(date: (int, int, int), hour: int)
    requires
        valid_ymd(date.0, date.1, date.2),
        0 <= hour < 24,
    ensures
        -100_000_000 <= day_number(date) <= 100_000_000,
        -TIMESTAMP_LIMIT <= utc_timestamp(date, hour) <= TIMESTAMP_LIMIT,
{
}

/// Within one month, moving `k` days on moves the day number by `k`.
pub proof fn lemma_day_number_within_month(date: (int, int, int), k: int)
    ensures
        day_number((date.0, date.1, date.2 + k)) == day_number(date) + k,
{
}

/// One March-based year is 365 days, 366 when the February it ends with has
/// a 29th.
proof fn lemma_march_year_length(yy: int)
    ensures
        march_year_start(yy + 1) - march_year_start(yy) == if is_leap_year(yy + 1) {
            366int
        } else {
            365int
        },
{
}

proof fn lemma_march_years_ascend(j: int, k: int)
    requires
        j < k,
    ensures
        march_year_start(j) + 365 <= march_year_start(k),
    decreases k - j,
{
    lemma_march_year_length(j);
    if j + 1 < k {
        lemma_march_years_ascend(j + 1, k);
        lemma_march_year_length(j + 1);
    }
}

/// A valid day's offset inside its March-based year: before the next month,
/// and before the end of that year.
proof fn lemma_day_in_march_year(date: (int, int, int))
    requires
        valid_ymd(date.0, date.1, date.2),
    ensures
        ({
            let yy = if date.1 <= 2 { date.0 - 1 } else { date.0 };
            let mp = if date.1 > 2 { date.1 - 3 } else { date.1 + 9 };
            &&& 0 <= mp <= 11
            &&& mp < 11 ==> month_start(mp) + date.2 <= month_start(mp + 1)
            &&& month_start(mp) + date.2 <= march_year_start(yy + 1) - march_year_start(yy)
        }),
{
    let yy = if date.1 <= 2 { date.0 - 1 } else { date.0 };
    lemma_march_year_length(yy);
}

/// Day numbers follow the calendar: an earlier valid date has a smaller day
/// number.
pub proof fn lemma_day_number_order(a: (int, int, int), b: (int, int, int))
    requires
        valid_ymd(a.0, a.1, a.2),
        valid_ymd(b.0, b.1, b.2),
        date_lt(a, b),
    ensures
        day_number(a) < day_number(b),
{
    let ya = if a.1 <= 2 { a.0 - 1 } else { a.0 };
    let yb = if b.1 <= 2 { b.0 - 1 } else { b.0 };
    let ma = if a.1 > 2 { a.1 - 3 } else { a.1 + 9 };
    let mb = if b.1 > 2 { b.1 - 3 } else { b.1 + 9 };
    lemma_day_in_march_year(a);
    lemma_day_in_march_year(b);
    if ya < yb {
        lemma_march_year_length(ya);
        if ya + 1 < yb {
            lemma_march_years_ascend(ya + 1, yb);
        }
    } else {
        assert(ya == yb);
        if ma < mb {
            assert(month_start(ma + 1) <= month_start(mb));
        } else {
            assert(ma == mb);
        }
    }
}

/// Day numbers tell valid dates apart and order them as the calendar does.
pub proof fn lemma_day_number_compare(a: (int, int, int), b: (int, int, int))
    requires
        valid_ymd(a.0, a.1, a.2),
        valid_ymd(b.0, b.1, b.2),
    ensures
        day_number(a) < day_number(b) <==> date_lt(a, b),
        day_number(a) == day_number(b) <==> a == b,
{
    if date_lt(a, b) {
        lemma_day_number_order(a, b);
    } else if date_lt(b, a) {
        lemma_day_number_order(b, a);
    }
}

} // verus!
