//! Proleptic Gregorian calendar arithmetic over Unix timestamps.
use vstd::prelude::*;
use vstd::arithmetic::div_mod::lemma_fundamental_div_mod_converse;
use chrono::{Datelike, Timelike};

verus! {

/// Earliest year that chrono's `NaiveDate` represents.
pub const MIN_YEAR: i32 = -262143;

/// Latest year that chrono's `NaiveDate` represents.
pub const MAX_YEAR: i32 = 262142;

pub const SECONDS_PER_DAY: i64 = 86400;

pub open spec fn is_leap_year(y: int) -> bool {
    (y % 4 == 0 && y % 100 != 0) || y % 400 == 0
}

pub open spec fn days_in_month(y: int, m: int) -> int {
    if m == 2 {
        if is_leap_year(y) { 29 } else { 28 }
    } else if m == 4 || m == 6 || m == 9 || m == 11 {
        30
    } else {
        31
    }
}

/// Number of days in the months of year `y` that come before month `m`.
pub open spec fn days_before_month(y: int, m: int) -> int
    decreases m,
{
    if m <= 1 { 0 } else { days_before_month(y, m - 1) + days_in_month(y, m - 1) }
}

/// Leap years among 1..=y (counted the same way for y <= 0).
pub open spec fn leap_years_through(y: int) -> int {
    y / 4 - y / 100 + y / 400
}

/// Day number of January 1 of year `y`, with January 1, 1970 as day 0.
pub open spec fn days_before_year(y: int) -> int {
    365 * (y - 1970) + leap_years_through(y - 1) - leap_years_through(1969)
}

/// Day number of a calendar date, with January 1, 1970 as day 0.
pub open spec fn days_from_civil(y: int, m: int, d: int) -> int {
    days_before_year(y) + days_before_month(y, m) + d - 1
}

/// Unix timestamp of a date and a second of that day.
pub open spec fn civil_to_epoch(y: int, m: int, d: int, s: int) -> int {
    SECONDS_PER_DAY * days_from_civil(y, m, d) + s
}

/// A month and a day that exist in year `y`, and a second within a day.
pub open spec fn valid_civil(y: int, m: int, d: int, s: int) -> bool {
    1 <= m <= 12 && 1 <= d <= days_in_month(y, m) && 0 <= s < SECONDS_PER_DAY
}

pub open spec fn year_in_range(y: int) -> bool {
    MIN_YEAR <= y <= MAX_YEAR
}

/// Months counted from January of year 0.
pub open spec fn month_index(y: int, m: int) -> int {
    12 * y + m - 1
}

pub open spec fn year_of_index(k: int) -> int {
    k / 12
}

pub open spec fn month_of_index(k: int) -> int {
    k % 12 + 1
}

/// Day number of the first day of month index `k`.
pub open spec fn month_start(k: int) -> int {
    days_from_civil(year_of_index(k), month_of_index(k), 1)
}

proof fn lemma_floor_step(y: int, d: int)
    requires
        d > 0,
    ensures
        y / d - (y - 1) / d == (if y % d == 0 { 1int } else { 0int }),
{
    vstd::arithmetic::div_mod::lemma_fundamental_div_mod(y - 1, d);
    let q = (y - 1) / d;
    let r = (y - 1) % d;
    if r == d - 1 {
        assert((q + 1) * d == d * q + d) by (nonlinear_arith);
        lemma_fundamental_div_mod_converse(y, d, q + 1, 0);
    } else {
        assert(q * d == d * q) by (nonlinear_arith);
        lemma_fundamental_div_mod_converse(y, d, q, r + 1);
    }
}

proof fn lemma_leap_step(y: int)
    ensures
        leap_years_through(y) - leap_years_through(y - 1) == (if is_leap_year(y) { 1int } else { 0int }),
{
    lemma_floor_step(y, 4);
    lemma_floor_step(y, 100);
    lemma_floor_step(y, 400);
    if y % 400 == 0 {
        vstd::arithmetic::div_mod::lemma_fundamental_div_mod(y, 400);
        lemma_fundamental_div_mod_converse(y, 100, 4 * (y / 400), 0);
        lemma_fundamental_div_mod_converse(y, 4, 100 * (y / 400), 0);
    } else if y % 100 == 0 {
        vstd::arithmetic::div_mod::lemma_fundamental_div_mod(y, 100);
        lemma_fundamental_div_mod_converse(y, 4, 25 * (y / 100), 0);
    }
}

proof fn lemma_year_length(y: int)
    ensures
        days_before_month(y, 13) == 365 + (if is_leap_year(y) { 1int } else { 0int }),
        days_before_year(y + 1) == days_before_year(y) + days_before_month(y, 13),
{
    reveal_with_fuel(days_before_month, 13);
    lemma_leap_step(y);
}

proof fn lemma_index_round_trip(y: int, m: int)
    requires
        1 <= m <= 12,
    ensures
        year_of_index(month_index(y, m)) == y,
        month_of_index(month_index(y, m)) == m,
{
    lemma_fundamental_div_mod_converse(month_index(y, m), 12, y, m - 1);
}

proof fn lemma_month_start_step(k: int)
    ensures
        month_start(k + 1) == month_start(k) + days_in_month(year_of_index(k), month_of_index(k)),
{
    let y = year_of_index(k);
    let m = month_of_index(k);
    vstd::arithmetic::div_mod::lemma_fundamental_div_mod(k, 12);
    assert(k == month_index(y, m));
    if m < 12 {
        lemma_index_round_trip(y, m + 1);
        assert(k + 1 == month_index(y, m + 1));
    } else {
        lemma_index_round_trip(y + 1, 1);
        assert(k + 1 == month_index(y + 1, 1));
        lemma_year_length(y);
    }
}

proof fn lemma_month_start_increasing(k1: int, k2: int)
    requires
        k1 < k2,
    ensures
        month_start(k1) + days_in_month(year_of_index(k1), month_of_index(k1)) <= month_start(k2),
    decreases k2 - k1,
{
    lemma_month_start_step(k1);
    if k1 + 1 < k2 {
        lemma_month_start_increasing(k1 + 1, k2);
        lemma_month_start_step(k1 + 1);
    }
}

/// Every instant of a month lies between the starts of that month and of the next.
proof fn lemma_epoch_within_month(y: int, m: int, d: int, s: int)
    requires
        valid_civil(y, m, d, s),
    ensures
        SECONDS_PER_DAY * month_start(month_index(y, m)) <= civil_to_epoch(y, m, d, s),
        civil_to_epoch(y, m, d, s) < SECONDS_PER_DAY * (month_start(month_index(y, m))
            + days_in_month(y, m)),
{
    lemma_index_round_trip(y, m);
    let ms = month_start(month_index(y, m));
    assert(days_from_civil(y, m, d) == ms + d - 1);
    assert(SECONDS_PER_DAY * (ms + d - 1) + s < SECONDS_PER_DAY * (ms + days_in_month(y, m)))
        by (nonlinear_arith)
        requires
            d <= days_in_month(y, m),
            0 <= s < SECONDS_PER_DAY,
    ;
    assert(SECONDS_PER_DAY * ms <= SECONDS_PER_DAY * (ms + d - 1) + s) by (nonlinear_arith)
        requires
            1 <= d,
            0 <= s,
    ;
}

/// An instant of an earlier month comes before every instant of a later one.
pub proof fn lemma_epoch_order(y1: int, m1: int, d1: int, s1: int, y2: int, m2: int, d2: int, s2: int)
    requires
        valid_civil(y1, m1, d1, s1),
        valid_civil(y2, m2, d2, s2),
        month_index(y1, m1) < month_index(y2, m2),
    ensures
        civil_to_epoch(y1, m1, d1, s1) < civil_to_epoch(y2, m2, d2, s2),
{
    lemma_epoch_within_month(y1, m1, d1, s1);
    lemma_epoch_within_month(y2, m2, d2, s2);
    lemma_index_round_trip(y1, m1);
    lemma_month_start_increasing(month_index(y1, m1), month_index(y2, m2));
    let a = month_start(month_index(y1, m1)) + days_in_month(y1, m1);
    let b = month_start(month_index(y2, m2));
    assert(SECONDS_PER_DAY * a <= SECONDS_PER_DAY * b) by (nonlinear_arith)
        requires
            a <= b,
    ;
}

/// A timestamp has one calendar reading at most.
pub proof fn lemma_epoch_injective(y1: int, m1: int, d1: int, s1: int, y2: int, m2: int, d2: int, s2: int)
    requires
        valid_civil(y1, m1, d1, s1),
        valid_civil(y2, m2, d2, s2),
        civil_to_epoch(y1, m1, d1, s1) == civil_to_epoch(y2, m2, d2, s2),
    ensures
        y1 == y2 && m1 == m2 && d1 == d2 && s1 == s2,
{
    if month_index(y1, m1) < month_index(y2, m2) {
        lemma_epoch_order(y1, m1, d1, s1, y2, m2, d2, s2);
    } else if month_index(y2, m2) < month_index(y1, m1) {
        lemma_epoch_order(y2, m2, d2, s2, y1, m1, d1, s1);
    } else {
        lemma_index_round_trip(y1, m1);
        lemma_index_round_trip(y2, m2);
        let base = days_before_year(y1) + days_before_month(y1, m1);
        let e = civil_to_epoch(y1, m1, d1, s1);
        assert(e == SECONDS_PER_DAY * (base + d1 - 1) + s1);
        assert(e == SECONDS_PER_DAY * (base + d2 - 1) + s2);
        lemma_fundamental_div_mod_converse(e, SECONDS_PER_DAY as int, base + d1 - 1, s1);
        lemma_fundamental_div_mod_converse(e, SECONDS_PER_DAY as int, base + d2 - 1, s2);
    }
}

/// Instants within chrono's years lie well within an `i64`.
pub proof fn lemma_epoch_bounded(y: int, m: int, d: int, s: int)
    requires
        valid_civil(y, m, d, s),
        year_in_range(y),
    ensures
        -0x4_0000_0000_0000 < civil_to_epoch(y, m, d, s) < 0x4_0000_0000_0000,
{
    reveal_with_fuel(days_before_month, 13);
    assert(0 <= days_before_month(y, m) <= 366);
    assert(-100_000_000 < days_from_civil(y, m, d) < 100_000_000);
}

/// Length in seconds of the mean Gregorian month: 400 years over 4800 months.
pub const MEAN_MONTH_SECONDS: i64 = 2629746;

/// How far the first instant of a month lies from a clock that advances by the mean month.
pub open spec fn month_drift(y: int, m: int) -> int {
    civil_to_epoch(y, m, 1, 0) - MEAN_MONTH_SECONDS * month_index(y, m)
}

proof fn lemma_leap_years_near_linear(x: int)
    ensures
        -699 <= 400 * leap_years_through(x) - 97 * x <= 396,
{
    vstd::arithmetic::div_mod::lemma_fundamental_div_mod(x, 4);
    vstd::arithmetic::div_mod::lemma_fundamental_div_mod(x, 100);
    vstd::arithmetic::div_mod::lemma_fundamental_div_mod(x, 400);
}

proof fn lemma_month_table_near_linear(y: int, m: int)
    requires
        1 <= m <= 12,
    ensures
        -161892 <= 86400 * days_before_month(y, m) - MEAN_MONTH_SECONDS * (m - 1) <= 54540,
{
    reveal_with_fuel(days_before_month, 13);
}

/// The start of every month lies within a few days of the mean-month clock.
pub proof fn lemma_month_drift_bounded(y: int, m: int)
    requires
        1 <= m <= 12,
    ensures
        -62167466628 <= month_drift(y, m) <= -62167013676,
{
    lemma_leap_years_near_linear(y - 1);
    lemma_month_table_near_linear(y, m);
    assert(leap_years_through(1969) == 477);
}

/// Shifting a date by some months moves it by that many mean months, give or take
/// 712152 seconds (the drift of the calendar plus a clamped day).
pub proof fn lemma_shift_near_linear(c: CivilTime, months: int)
    requires
        valid_civil(c.year as int, c.month as int, c.day as int, c.secs as int),
    ensures
        -712152 <= shifted_epoch(c, months) - civil_to_epoch(
            c.year as int,
            c.month as int,
            c.day as int,
            c.secs as int,
        ) - MEAN_MONTH_SECONDS * months <= 712152,
{
    lemma_shift_valid(c, months);
    let y = shifted_year(c, months);
    let m = shifted_month(c, months);
    lemma_month_drift_bounded(y, m);
    lemma_month_drift_bounded(c.year as int, c.month as int);
    assert(shifted_day(c, months) >= c.day - 3);
}

/// A UTC date and time of day, to the second.
#[derive(Clone, Copy, Debug, PartialEq, Eq, Structural)]
pub struct CivilTime {
    pub year: i32,
    pub month: u32,
    pub day: u32,
    /// Seconds since midnight.
    pub secs: u32,
}

impl CivilTime {
    /// A real date within the years that chrono represents.
    pub open spec fn wf(&self) -> bool {
        valid_civil(self.year as int, self.month as int, self.day as int, self.secs as int)
            && year_in_range(self.year as int)
    }

    pub open spec fn epoch(&self) -> int {
        civil_to_epoch(self.year as int, self.month as int, self.day as int, self.secs as int)
    }
}

/// Relies on chrono's `DateTime::<Utc>::from_timestamp(ts, 0)`, which gives the UTC date and
/// time of a Unix timestamp and `None` outside the years of `NaiveDate`, read back through
/// `Datelike::{year, month, day}` and `Timelike::num_seconds_from_midnight`.
#[verifier::external_body]
pub(crate) fn civil_from_timestamp(ts: i64) -> (r: Option<CivilTime>)
    ensures
        r matches Some(c) ==> c.wf() && c.epoch() == ts,
        r is None ==> forall|c: CivilTime| #[trigger] c.wf() ==> c.epoch() != ts,
{
    chrono::DateTime::from_timestamp(ts, 0).map(
        |dt| CivilTime {
            year: dt.year(),
            month: dt.month(),
            day: dt.day(),
            secs: dt.num_seconds_from_midnight(),
        },
    )
}

/// Relies on chrono's `NaiveDate::from_ymd_opt` (`None` for a month or day that does not
/// exist, or a year outside its range), `NaiveTime::from_num_seconds_from_midnight_opt`
/// (`None` from 86400 seconds on) and `DateTime::timestamp` of the date and time in UTC.
#[verifier::external_body]
pub(crate) fn timestamp_from_civil(c: &CivilTime) -> (r: Option<i64>)
    ensures
        r is Some <==> c.wf(),
        r matches Some(t) ==> t == c.epoch(),
{
    match (
        chrono::NaiveDate::from_ymd_opt(c.year, c.month, c.day),
        chrono::NaiveTime::from_num_seconds_from_midnight_opt(c.secs, 0),
    ) {
        (Some(d), Some(t)) => Some(d.and_time(t).and_utc().timestamp()),
        _ => None,
    }
}

/// Year of the date `months` months after the one of `c`.
pub open spec fn shifted_year(c: CivilTime, months: int) -> int {
    year_of_index(month_index(c.year as int, c.month as int) + months)
}

pub open spec fn shifted_month(c: CivilTime, months: int) -> int {
    month_of_index(month_index(c.year as int, c.month as int) + months)
}

/// The day of `c`, or the last day of the target month where that month is shorter.
pub open spec fn shifted_day(c: CivilTime, months: int) -> int {
    let last = days_in_month(shifted_year(c, months), shifted_month(c, months));
    if (c.day as int) < last { c.day as int } else { last }
}

/// The instant `months` months after `c` (before it, for a negative count): same time of day,
/// same day of the month, clamped to the end of a shorter month.
pub open spec fn shifted_epoch(c: CivilTime, months: int) -> int {
    civil_to_epoch(shifted_year(c, months), shifted_month(c, months), shifted_day(c, months), c.secs as int)
}

/// Whether the shifted date falls within the years that chrono represents.
pub open spec fn shift_in_range(c: CivilTime, months: int) -> bool {
    year_in_range(shifted_year(c, months))
}

/// Shifts of a valid date are valid dates, and later shifts are later instants.
pub proof fn lemma_shift_order(c: CivilTime, a: int, b: int)
    requires
        valid_civil(c.year as int, c.month as int, c.day as int, c.secs as int),
        a < b,
    ensures
        shifted_epoch(c, a) < shifted_epoch(c, b),
{
    let ka = month_index(c.year as int, c.month as int) + a;
    let kb = month_index(c.year as int, c.month as int) + b;
    lemma_shift_valid(c, a);
    lemma_shift_valid(c, b);
    lemma_fundamental_div_mod_converse(ka, 12, ka / 12, ka % 12);
    lemma_fundamental_div_mod_converse(kb, 12, kb / 12, kb % 12);
    lemma_epoch_order(
        shifted_year(c, a), shifted_month(c, a), shifted_day(c, a), c.secs as int,
        shifted_year(c, b), shifted_month(c, b), shifted_day(c, b), c.secs as int,
    );
}

pub proof fn lemma_shift_valid(c: CivilTime, months: int)
    requires
        valid_civil(c.year as int, c.month as int, c.day as int, c.secs as int),
    ensures
        valid_civil(shifted_year(c, months), shifted_month(c, months), shifted_day(c, months), c.secs as int),
        month_index(shifted_year(c, months), shifted_month(c, months))
            == month_index(c.year as int, c.month as int) + months,
{
    let k = month_index(c.year as int, c.month as int) + months;
    vstd::arithmetic::div_mod::lemma_fundamental_div_mod(k, 12);
}

fn is_leap(y: i32) -> (r: bool)
    requires
        year_in_range(y as int),
    ensures
        r == is_leap_year(y as int),
{
    let p: u64 = (y as i64 + 400000) as u64;
    proof {
        vstd::arithmetic::div_mod::lemma_mod_multiples_vanish(100000, y as int, 4);
        vstd::arithmetic::div_mod::lemma_mod_multiples_vanish(4000, y as int, 100);
        vstd::arithmetic::div_mod::lemma_mod_multiples_vanish(1000, y as int, 400);
    }
    (p % 4 == 0 && p % 100 != 0) || p % 400 == 0
}

fn month_length(y: i32, m: u32) -> (r: u32)
    requires
        year_in_range(y as int),
    ensures
        r == days_in_month(y as int, m as int),
{
    if m == 2 {
        if is_leap(y) { 29 } else { 28 }
    } else if m == 4 || m == 6 || m == 9 || m == 11 {
        30
    } else {
        31
    }
}

/// The date and time `months` months after `c`; `None` where that falls outside the
/// years that chrono represents.
pub fn shift_months(c: &CivilTime, months: i64) -> (r: Option<CivilTime>)
    requires
        c.wf(),
    ensures
        r is Some <==> shift_in_range(*c, months as int),
        r matches Some(t) ==> t.wf() && t.epoch() == shifted_epoch(*c, months as int),
{
    let k: i64 = 12 * (c.year as i64) + (c.month as i64) - 1;
    let lo: i64 = 12 * (MIN_YEAR as i64);
    let hi: i64 = 12 * (MAX_YEAR as i64) + 11;
    let ghost target = k + months;
    proof {
        vstd::arithmetic::div_mod::lemma_fundamental_div_mod(target, 12);
    }
    if months < lo - k || months > hi - k {
        return None;
    }
    let offset: u64 = (k + months - lo) as u64;
    let year: i32 = (MIN_YEAR as i64 + (offset / 12) as i64) as i32;
    let month: u32 = (offset % 12) as u32 + 1;
    proof {
        vstd::arithmetic::div_mod::lemma_fundamental_div_mod(offset as int, 12);
        lemma_fundamental_div_mod_converse(target, 12, year as int, (offset % 12) as int);
    }
    let last = month_length(year, month);
    let day: u32 = if c.day < last { c.day } else { last };
    Some(CivilTime { year, month, day, secs: c.secs })
}

} // verus!
