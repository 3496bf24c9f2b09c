//! Session-aware option time: when does an expiry actually die?
//!
//! An option expiring "today" is alive and tradeable until 16:00 New York.
//! New York is on EDT (UTC-4) from the second Sunday of March to the first
//! Sunday of November and on EST (UTC-5) otherwise, so the close is 20:00 UTC
//! or 21:00 UTC. A contract is alive at every instant before that close and
//! dead from the close on.

use vstd::prelude::*;
use vstd::arithmetic::div_mod::lemma_fundamental_div_mod_converse;
use crate::calendar::{
    Date, MAX_YEAR, MIN_YEAR, TIMESTAMP_LIMIT, chrono_add_days, chrono_utc_timestamp, chrono_weekday,
    date_le, date_lt, day_number, lemma_day_number_within_month, utc_timestamp,
    weekday_from_monday,
};

verus! {

pub const NANOS_PER_SEC: i64 = 1_000_000_000;

/// Monday = 0, ..., Sunday = 6.
pub const SUNDAY: u32 = 6;

/// An instant in UTC: seconds since the Unix epoch and a sub-second part.
#[derive(Debug, Clone, Copy, PartialEq, Eq, Structural)]
pub struct UtcTime {
    secs: i64,
    nanos: u32,
}

impl View for UtcTime {
    type V = (int, int);

    closed spec fn view(&self) -> (int, int) {
        (self.secs as int, self.nanos as int)
    }
}

/// What a `UtcTime` may hold: a sub-second part below one second and a
/// timestamp within the range of representable dates.
pub open spec fn valid_instant(secs: int, nanos: int) -> bool {
    &&& -TIMESTAMP_LIMIT <= secs <= TIMESTAMP_LIMIT
    &&& 0 <= nanos < NANOS_PER_SEC
}

impl UtcTime {
    #[verifier::type_invariant]
    closed spec fn wf(self) -> bool {
        valid_instant(self.secs as int, self.nanos as int)
    }

    /// The instant `secs` seconds and `nanos` nanoseconds after the epoch,
    /// or `None` when the parts are out of range.
    pub fn from_timestamp(secs: i64, nanos: u32) -> (r: Option<UtcTime>)
        ensures
            r is Some <==> valid_instant(secs as int, nanos as int),
            r matches Some(t) ==> t@ == (secs as int, nanos as int),
    {
        if -TIMESTAMP_LIMIT <= secs && secs <= TIMESTAMP_LIMIT && (nanos as i64) < NANOS_PER_SEC {
            Some(UtcTime { secs, nanos })
        } else {
            None
        }
    }

    pub fn secs(&self) -> (r: i64)
        ensures
            r as int == self@.0,
            valid_instant(self@.0, self@.1),
    {
        proof {
            use_type_invariant(self);
        }
        self.secs
    }

    pub fn nanos(&self) -> (r: u32)
        ensures
            r as int == self@.1,
            valid_instant(self@.0, self@.1),
    {
        proof {
            use_type_invariant(self);
        }
        self.nanos
    }
}

/// Day of the month of the `n`-th `weekday` in a month whose first day
/// falls on `weekday_of_first` (weekdays counted from Monday = 0).
pub open spec fn nth_weekday_day(weekday_of_first: int, weekday: int, n: int) -> int {
    1 + (7 + weekday - weekday_of_first) % 7 + (n - 1) * 7
}

pub open spec fn nth_weekday_spec(year: int, month: int, weekday: int, n: int) -> (int, int, int) {
    (year, month, nth_weekday_day(weekday_from_monday((year, month, 1)), weekday, n))
}

pub open spec fn second_sunday_of_march(year: int) -> (int, int, int) {
    nth_weekday_spec(year, 3, SUNDAY as int, 2)
}

pub open spec fn first_sunday_of_november(year: int) -> (int, int, int) {
    nth_weekday_spec(year, 11, SUNDAY as int, 1)
}

/// New York's 16:00 close on `date` happens under EDT: from the second Sunday
/// of March (inclusive) to the first Sunday of November (exclusive, the
/// switch back happens at 02:00 that morning).
pub open spec fn observes_edt(date: (int, int, int)) -> bool {
    date_le(second_sunday_of_march(date.0), date) && date_lt(date, first_sunday_of_november(date.0))
}

/// UTC hour of the 16:00 New York close.
pub open spec fn close_hour(date: (int, int, int)) -> int {
    if observes_edt(date) {
        20
    } else {
        21
    }
}

pub open spec fn close_timestamp(date: (int, int, int)) -> int {
    utc_timestamp(date, close_hour(date))
}

/// Signed nanoseconds from `now` until `date`'s close.
pub open spec fn nanos_until_close(date: (int, int, int), now: (int, int)) -> int {
    (close_timestamp(date) - now.0) * NANOS_PER_SEC - now.1
}

/// Whole seconds in a signed span of nanoseconds, truncated toward zero.
pub open spec fn whole_seconds(nanos: int) -> int {
    if nanos >= 0 {
        nanos / (NANOS_PER_SEC as int)
    } else {
        -((-nanos) / (NANOS_PER_SEC as int))
    }
}

pub open spec fn seconds_to_close_spec(date: (int, int, int), now: (int, int)) -> int {
    whole_seconds(nanos_until_close(date, now))
}

pub open spec fn is_alive(date: (int, int, int), now: (int, int)) -> bool {
    now.0 * NANOS_PER_SEC + now.1 < close_timestamp(date) * NANOS_PER_SEC
}

/// The `n`-th `weekday` (Monday = 0) of `month` in `year`.
fn nth_weekday(year: i32, month: u32, weekday: u32, n: u32) -> (r: Date)
    requires
        MIN_YEAR <= year <= MAX_YEAR,
        1 <= month <= 12,
        weekday < 7,
        1 <= n <= 4,
    ensures
        r@ == nth_weekday_spec(year as int, month as int, weekday as int, n as int),
{
    let first = Date::from_ymd_opt(year, month, 1).unwrap();
    let offset = (7 + weekday - chrono_weekday(&first)) % 7;
    chrono_add_days(&first, offset + (n - 1) * 7)
}

/// The moment `expiry`'s 16:00 New York close happens.
pub fn expiry_close_utc(expiry: &Date) -> (r: UtcTime)
    ensures
        r@ == (close_timestamp(expiry@), 0int),
{
    let year = expiry.year();
    let second_sunday_march = nth_weekday(year, 3, SUNDAY, 2);
    let first_sunday_november = nth_weekday(year, 11, SUNDAY, 1);
    let edt = !expiry.is_before(&second_sunday_march) && expiry.is_before(&first_sunday_november);
    let close_hour: u32 = if edt {
        20
    } else {
        21
    };
    let secs = chrono_utc_timestamp(expiry, close_hour);
    UtcTime { secs, nanos: 0 }
}

proof fn lemma_whole_seconds(diff: int, nanos: int)
    requires
        0 <= nanos < NANOS_PER_SEC,
    ensures
        whole_seconds(diff * NANOS_PER_SEC - nanos) == if nanos > 0 && diff > 0 {
            diff - 1
        } else {
            diff
        },
{
    let d = NANOS_PER_SEC as int;
    let x = diff * d - nanos;
    if nanos == 0 {
        if diff >= 0 {
            lemma_fundamental_div_mod_converse(x, d, diff, 0);
        } else {
            lemma_fundamental_div_mod_converse(-x, d, -diff, 0);
        }
    } else if diff > 0 {
        lemma_fundamental_div_mod_converse(x, d, diff - 1, d - nanos);
    } else {
        lemma_fundamental_div_mod_converse(-x, d, -diff, nanos);
    }
}

/// Whole seconds from `now` until `expiry` stops trading, truncated toward
/// zero. Positive while the contract is alive; <= 0 once the close is less
/// than a second away or has passed.
pub fn seconds_to_close(expiry: &Date, now: &UtcTime) -> (r: i64)
    ensures
        r as int == seconds_to_close_spec(expiry@, now@),
        now@.1 == 0 ==> r as int == close_timestamp(expiry@) - now@.0,
{
    let close = expiry_close_utc(expiry);
    let close_secs = close.secs();
    let now_secs = now.secs();
    let nanos = now.nanos();
    let diff = close_secs - now_secs;
    proof {
        lemma_whole_seconds(diff as int, nanos as int);
    }
    if nanos > 0 && diff > 0 {
        diff - 1
    } else {
        diff
    }
}

/// Is this expiry still alive, i.e. may the front chain include it? True
/// for a same-day contract at every instant before the close, false from the
/// close on.
pub fn alive(expiry: &Date, now: &UtcTime) -> (r: bool)
    ensures
        r == is_alive(expiry@, now@),
{
    let close = expiry_close_utc(expiry);
    now.secs() < close.secs()
}

/// A contract is alive exactly while its close is still ahead, and then its
/// whole seconds to the close are never negative.
pub proof fn lemma_alive_iff_close_ahead(expiry: (int, int, int), now: (int, int))
    requires
        valid_instant(now.0, now.1),
    ensures
        is_alive(expiry, now) <==> nanos_until_close(expiry, now) > 0,
        is_alive(expiry, now) <==> now.0 < close_timestamp(expiry),
        is_alive(expiry, now) ==> seconds_to_close_spec(expiry, now) >= 0,
        seconds_to_close_spec(expiry, now) > 0 ==> is_alive(expiry, now),
{
    lemma_whole_seconds(close_timestamp(expiry) - now.0, now.1);
}

/// Once a contract is dead it stays dead: alive at a later instant implies
/// alive at every earlier instant.
pub proof fn lemma_alive_is_monotone(expiry: (int, int, int), earlier: (int, int), later: (int, int))
    requires
        earlier.0 * NANOS_PER_SEC + earlier.1 <= later.0 * NANOS_PER_SEC + later.1,
        is_alive(expiry, later),
    ensures
        is_alive(expiry, earlier),
{
}

/// April through October always close at 20:00 UTC (EDT); December, January
/// and February always close at 21:00 UTC (EST).
pub proof fn lemma_summer_and_winter_close(date: (int, int, int))
    ensures
        4 <= date.1 <= 10 ==> close_hour(date) == 20,
        (date.1 <= 2 || date.1 == 12) ==> close_hour(date) == 21,
{
}

/// The `n`-th `weekday` of a month really is that weekday, and falls in
/// the `n`-th week of the month.
pub proof fn lemma_nth_weekday_is_that_weekday(year: int, month: int, weekday: int, n: int)
    requires
        0 <= weekday < 7,
        1 <= n,
    ensures
        weekday_from_monday(nth_weekday_spec(year, month, weekday, n)) == weekday,
        (n - 1) * 7 + 1 <= nth_weekday_spec(year, month, weekday, n).2 <= n * 7,
{
    let first = (year, month, 1int);
    let w = weekday_from_monday(first);
    let offset = (7 + weekday - w) % 7;
    let k = offset + (n - 1) * 7;
    lemma_day_number_within_month(first, k);
    assert(nth_weekday_spec(year, month, weekday, n) == (year, month, 1 + k));
    lemma_weekday_shift(day_number(first), weekday, n);
}

proof fn lemma_weekday_shift(dn: int, weekday: int, n: int)
    requires
        0 <= weekday < 7,
        1 <= n,
    ensures
        ({
            let offset = (7 + weekday - (dn + 3) % 7) % 7;
            &&& (dn + offset + (n - 1) * 7 + 3) % 7 == weekday
            &&& 0 <= offset < 7
        }),
{
    let w = (dn + 3) % 7;
    let q = (dn + 3) / 7;
    lemma_fundamental_div_mod_converse(dn + 3, 7, q, w);
    let t = 7 + weekday - w;
    let offset = t % 7;
    if t >= 7 {
        lemma_fundamental_div_mod_converse(t, 7, 1, t - 7);
        lemma_fundamental_div_mod_converse(dn + offset + (n - 1) * 7 + 3, 7, q + n - 1, weekday);
    } else {
        lemma_fundamental_div_mod_converse(t, 7, 0, t);
        lemma_fundamental_div_mod_converse(dn + offset + (n - 1) * 7 + 3, 7, q + n, weekday);
    }
}

/// The daylight-saving boundaries are Sundays: the second Sunday of March
/// (the 8th to the 14th) and the first Sunday of November (the 1st to the 7th).
pub proof fn lemma_dst_boundaries_are_sundays(year: int)
    ensures
        weekday_from_monday(second_sunday_of_march(year)) == SUNDAY,
        8 <= second_sunday_of_march(year).2 <= 14,
        weekday_from_monday(first_sunday_of_november(year)) == SUNDAY,
        1 <= first_sunday_of_november(year).2 <= 7,
{
    lemma_nth_weekday_is_that_weekday(year, 3, SUNDAY as int, 2);
    lemma_nth_weekday_is_that_weekday(year, 11, SUNDAY as int, 1);
}

/// Seconds to the close are the signed span from `now` to the close,
/// truncated toward zero and never capped: `s` whole seconds with at most one
/// second of remainder on the side of zero, and exactly the difference of the
/// timestamps when `now` falls on a whole second.
pub proof fn lemma_seconds_to_close_truncates(expiry: (int, int, int), now: (int, int))
    requires
        valid_instant(now.0, now.1),
    ensures
        ({
            let d = (close_timestamp(expiry) - now.0) * NANOS_PER_SEC - now.1;
            let s = seconds_to_close_spec(expiry, now);
            &&& d >= 0 ==> 0 <= s && s * NANOS_PER_SEC <= d < s * NANOS_PER_SEC + NANOS_PER_SEC
            &&& d < 0 ==> s <= 0 && s * NANOS_PER_SEC - NANOS_PER_SEC < d <= s * NANOS_PER_SEC
            &&& now.1 == 0 ==> s == close_timestamp(expiry) - now.0
        }),
{
    lemma_whole_seconds(close_timestamp(expiry) - now.0, now.1);
}

/// A weekday repeats only after a whole week: two days of one month less than
/// seven apart that fall on the same weekday are the same day.
proof fn lemma_same_weekday_within_a_week(y: int, m: int, a: int, b: int)
    requires
        -7 < b - a < 7,
        weekday_from_monday((y, m, a)) == weekday_from_monday((y, m, b)),
    ensures
        a == b,
{
    lemma_day_number_within_month((y, m, a), b - a);
    let x = day_number((y, m, a)) + 3;
    let k = b - a;
    vstd::arithmetic::div_mod::lemma_fundamental_div_mod(x, 7);
    vstd::arithmetic::div_mod::lemma_fundamental_div_mod(x + k, 7);
    assert(k == 7 * ((x + k) / 7 - x / 7));
}

/// The US daylight-saving rule for the close: given the Sunday in the second
/// week of March and the Sunday in the first week of November of a date's
/// year, the close is 20:00 UTC on every day from that March Sunday up to
/// (not including) that November Sunday, and 21:00 UTC on every other day.
pub proof fn lemma_close_follows_us_dst(
    d: (int, int, int),
    march_sunday: (int, int, int),
    november_sunday: (int, int, int),
)
    requires
        march_sunday.0 == d.0,
        march_sunday.1 == 3,
        8 <= march_sunday.2 <= 14,
        weekday_from_monday(march_sunday) == SUNDAY,
        november_sunday.0 == d.0,
        november_sunday.1 == 11,
        1 <= november_sunday.2 <= 7,
        weekday_from_monday(november_sunday) == SUNDAY,
    ensures
        date_le(march_sunday, d) && date_lt(d, november_sunday) ==> close_timestamp(d)
            == day_number(d) * 86400 + 20 * 3600,
        !(date_le(march_sunday, d) && date_lt(d, november_sunday)) ==> close_timestamp(d)
            == day_number(d) * 86400 + 21 * 3600,
{
    lemma_dst_boundaries_are_sundays(d.0);
    let s = second_sunday_of_march(d.0);
    let f = first_sunday_of_november(d.0);
    lemma_same_weekday_within_a_week(d.0, 3, march_sunday.2, s.2);
    lemma_same_weekday_within_a_week(d.0, 11, november_sunday.2, f.2);
    assert(march_sunday == s);
    assert(november_sunday == f);
}

} // verus!
