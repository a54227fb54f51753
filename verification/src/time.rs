//! UTC times as Unix seconds, and the ISO 8601 text the protocol uses.
//! Civil dates from Howard Hinnant's days-from-civil algorithm.

use crate::text::{
    all_digits, chars_of, decimal_padded, is_all_digits, lemma_padded, lemma_padded_value, padded,
    read_digits, value,
};
use vstd::prelude::*;
use vstd::slice::slice_subrange;

verus! {

pub const HOUR: i64 = 3600;

pub const DAY: i64 = 86_400;

// --- The calendar -----------------------------------------------------------

/// Whether `y` is a leap year of the proleptic Gregorian calendar.
pub open spec fn leap(y: int) -> bool {
    y % 4 == 0 && (y % 100 != 0 || y % 400 == 0)
}

/// How many days month `m` of year `y` has.
pub open spec fn month_len(y: int, m: int) -> int {
    if m == 2 {
        if leap(y) {
            29
        } else {
            28
        }
    } else if m == 4 || m == 6 || m == 9 || m == 11 {
        30
    } else {
        31
    }
}

/// Whether there is such a date.
pub open spec fn date(y: int, m: int, d: int) -> bool {
    1 <= m <= 12 && 1 <= d <= month_len(y, m)
}

/// Days from the start of year 0 to the start of year `y`.
pub open spec fn year_start(y: int) -> int {
    365 * y + (y + 3) / 4 - (y + 99) / 100 + (y + 399) / 400
}

/// Days from the start of year `y` to the start of its month `m`.
pub open spec fn month_start(y: int, m: int) -> int
    decreases m,
{
    if m <= 1 {
        0
    } else {
        month_start(y, m - 1) + month_len(y, m - 1)
    }
}

/// Days from 1970-01-01 to the date.
pub open spec fn calendar_days(y: int, m: int, d: int) -> int {
    year_start(y) - year_start(1970) + month_start(y, m) + d - 1
}

/// Hinnant's closed form: years begin in March, so the leap day comes last.
pub open spec fn civil_days(y: int, m: int, d: int) -> int {
    let shifted = if m <= 2 {
        y - 1
    } else {
        y
    };
    let month = if m > 2 {
        m - 3
    } else {
        m + 9
    };
    365 * shifted + shifted / 4 - shifted / 100 + shifted / 400 + (153 * month + 2) / 5 + d - 1
        - 719_468
}

/// A year has 365 days, or 366 in a leap year.
pub proof fn lemma_year_len(y: int)
    ensures
        year_start(y + 1) - year_start(y) == if leap(y) {
            366int
        } else {
            365int
        },
        month_start(y, 13) == year_start(y + 1) - year_start(y),
{
    lemma_leap_days(y);
    lemma_leap_days(y + 1);
    lemma_month_start(y, 12);
}

/// Where each month starts, by Hinnant's fit through the month lengths.
proof fn lemma_month_start(y: int, m: int)
    requires
        1 <= m <= 12,
    ensures
        m <= 2 ==> month_start(y, m) == 31 * (m - 1),
        m > 2 ==> month_start(y, m) == (153 * (m - 3) + 2) / 5 + month_len(y, 2) + 31,
    decreases m,
{
    if m > 1 {
        lemma_month_start(y, m - 1);
        if m <= 4 {
        } else if m <= 8 {
            assert(m == 5 || m == 6 || m == 7 || m == 8);
        } else {
            assert(m == 9 || m == 10 || m == 11 || m == 12);
        }
    }
}

/// The closed form counts calendar days.
pub proof fn lemma_civil_is_calendar(y: int, m: int, d: int)
    requires
        1 <= m <= 12,
    ensures
        civil_days(y, m, d) == calendar_days(y, m, d),
{
    lemma_month_start(y, m);
    assert(year_start(1970) == 719_528);
    lemma_leap_days(y);
}

/// What a leap year adds to the days before the next.
proof fn lemma_leap_days(y: int)
    ensures
        (y + 3) / 4 == (y - 1) / 4 + 1,
        (y + 99) / 100 == (y - 1) / 100 + 1,
        (y + 399) / 400 == (y - 1) / 400 + 1,
        y / 4 == (y - 1) / 4 + if y % 4 == 0 { 1int } else { 0 },
        y / 100 == (y - 1) / 100 + if y % 100 == 0 { 1int } else { 0 },
        y / 400 == (y - 1) / 400 + if y % 400 == 0 { 1int } else { 0 },
        y % 400 == 0 ==> y % 100 == 0,
        y % 100 == 0 ==> y % 4 == 0,
{
    lemma_next(y, 4);
    lemma_next(y, 100);
    lemma_next(y, 400);
    if y % 400 == 0 {
        lemma_multiples(0, 4 * (y / 400), 100);
    }
    if y % 100 == 0 {
        lemma_multiples(0, 25 * (y / 100), 4);
    }
}

/// Counting on by one moves a quotient only at a multiple.
proof fn lemma_next(y: int, b: int)
    requires
        b > 1,
    ensures
        (y + (b - 1)) / b == (y - 1) / b + 1,
        y / b == (y - 1) / b + if y % b == 0 { 1int } else { 0 },
{
    vstd::arithmetic::div_mod::lemma_fundamental_div_mod(y, b);
    vstd::arithmetic::div_mod::lemma_mod_bound(y, b);
    assert(b * (y / b) == (y / b) * b) by (nonlinear_arith);
    let q = y / b;
    let r = y % b;
    if r == 0 {
        lemma_multiples(b - 1, q - 1, b);
        vstd::arithmetic::div_mod::lemma_basic_div(b - 1, b);
        assert((q - 1) * b == q * b - b) by (nonlinear_arith);
    } else {
        lemma_multiples(r - 1, q, b);
        vstd::arithmetic::div_mod::lemma_basic_div(r - 1, b);
    }
    lemma_multiples(y - 1, 1, b);
}

/// Within an era of 400 years, the year of day `doe`.
pub open spec fn year_of_era(doe: int) -> int {
    (doe - doe / 1460 + doe / 36_524 - doe / 146_096) / 365
}

/// Days from the start of an era to the start of its year `yoe`, years
/// beginning in March.
pub open spec fn era_year_start(yoe: int) -> int {
    365 * yoe + yoe / 4 - yoe / 100
}

/// Day `doe` of an era falls in the year `year_of_era` gives.
proof fn lemma_year_of_era(doe: int)
    requires
        0 <= doe < 146_097,
    ensures
        0 <= year_of_era(doe) < 400,
        0 <= doe - era_year_start(year_of_era(doe)) <= 365,
        doe < era_year_start(year_of_era(doe) + 1) || year_of_era(doe) == 399,
{
    let c = if doe == 146_096 {
        3
    } else {
        doe / 36_524
    };
    let rest = doe - c * 36_524;
    assert(0 <= c <= 3 && 0 <= rest <= 36_524);
    let yoe = year_of_era(doe);
    if doe < 36_524 {
    } else if doe < 73_048 {
    } else if doe < 109_572 {
    } else {
    }
}

/// The date `z` days after 1970-01-01: year, month and day.
pub open spec fn civil_date(z: int) -> (int, int, int) {
    let era = (z + 719_468) / 146_097;
    let doe = (z + 719_468) % 146_097;
    let yoe = year_of_era(doe);
    let doy = doe - era_year_start(yoe);
    let mp = (5 * doy + 2) / 153;
    let d = doy - (153 * mp + 2) / 5 + 1;
    let m = if mp < 10 {
        mp + 3
    } else {
        mp - 9
    };
    let y = yoe + era * 400 + if m <= 2 {
        1int
    } else {
        0
    };
    (y, m, d)
}

/// Day `doy` of a year that begins in March falls in a month and on a day of
/// it.
proof fn lemma_month_of_year(doy: int)
    requires
        0 <= doy <= 365,
    ensures
        ({
            let mp = (5 * doy + 2) / 153;
            let d = doy - (153 * mp + 2) / 5 + 1;
            &&& 0 <= mp <= 11
            &&& 1 <= d <= 31
            &&& (mp == 1 || mp == 3 || mp == 6 || mp == 8) ==> d <= 30
            &&& mp == 11 ==> d <= 29
            &&& mp == 11 && d == 29 ==> doy == 365
        }),
{
}

/// Whole eras change neither leap years nor the days between years.
proof fn lemma_eras(yoe: int, era: int)
    requires
        0 <= yoe < 400,
    ensures
        (yoe + era * 400) / 4 == yoe / 4 + era * 100,
        (yoe + era * 400) / 100 == yoe / 100 + era * 4,
        (yoe + era * 400) / 400 == era,
        leap(yoe + era * 400 + 1) == leap(yoe + 1),
{
    lemma_multiples(yoe + 1, era * 100, 4);
    lemma_multiples(yoe + 1, era * 4, 100);
    lemma_multiples(yoe + 1, era, 400);
    lemma_multiples(yoe, era * 100, 4);
    lemma_multiples(yoe, era * 4, 100);
    lemma_multiples(yoe, era, 400);
}

/// Adding whole multiples of `b` moves only the quotient.
proof fn lemma_multiples(a: int, k: int, b: int)
    requires
        b > 0,
    ensures
        (a + k * b) % b == a % b,
        (a + k * b) / b == a / b + k,
{
    vstd::arithmetic::div_mod::lemma_mod_multiples_vanish(k, a, b);
    vstd::arithmetic::div_mod::lemma_hoist_over_denominator(a, k, b as nat);
    assert(k * b == b * k) by (nonlinear_arith);
}

/// A year that begins in March has a 366th day only where the February at its
/// end is a leap year's.
proof fn lemma_last_day(doe: int)
    requires
        0 <= doe < 146_097,
        doe - era_year_start(year_of_era(doe)) == 365,
    ensures
        leap(year_of_era(doe) + 1),
{
    lemma_year_of_era(doe);
    lemma_leap_days(year_of_era(doe) + 1);
}

/// Every day has a date, and the calendar counts that many days to it.
pub proof fn lemma_civil_date(z: int)
    ensures
        ({
            let (y, m, d) = civil_date(z);
            date(y, m, d) && calendar_days(y, m, d) == z
        }),
{
    let era = (z + 719_468) / 146_097;
    let doe = (z + 719_468) % 146_097;
    lemma_year_of_era(doe);
    let yoe = year_of_era(doe);
    let doy = doe - era_year_start(yoe);
    lemma_month_of_year(doy);
    lemma_eras(yoe, era);
    if doy == 365 {
        lemma_last_day(doe);
    }
    let (y, m, d) = civil_date(z);
    lemma_civil_is_calendar(y, m, d);
    assert(civil_days(y, m, d) == z) by {
        let mp = (5 * doy + 2) / 153;
        assert(z == era * 146_097 + doe - 719_468);
        lemma_days_of_parts(yoe, era, mp, d, y, m);
    }
}

proof fn lemma_days_of_parts(yoe: int, era: int, mp: int, d: int, y: int, m: int)
    requires
        0 <= yoe < 400,
        0 <= mp <= 11,
        m == (if mp < 10 {
            mp + 3
        } else {
            mp - 9
        }),
        y == yoe + era * 400 + (if m <= 2 {
            1int
        } else {
            0
        }),
    ensures
        civil_days(y, m, d) == era * 146_097 + era_year_start(yoe) + (153 * mp + 2) / 5 + d - 1
            - 719_468,
{
    lemma_eras(yoe, era);
}

/// A date falls within its year.
proof fn lemma_within_year(y: int, m: int, d: int)
    requires
        date(y, m, d),
    ensures
        year_start(y) <= calendar_days(y, m, d) + year_start(1970) < year_start(y + 1),
{
    lemma_year_len(y);
    lemma_month_start(y, m);
    reveal_with_fuel(month_start, 14);
}

proof fn lemma_years_grow(a: int, b: int)
    requires
        a <= b,
    ensures
        year_start(a) <= year_start(b),
    decreases b - a,
{
    if a < b {
        lemma_years_grow(a, b - 1);
        lemma_year_len(b - 1);
    }
}

/// No two dates are the same number of days from 1970-01-01.
pub proof fn law_a_day_has_one_date(y: int, m: int, d: int, y2: int, m2: int, d2: int)
    requires
        date(y, m, d),
        date(y2, m2, d2),
        calendar_days(y, m, d) == calendar_days(y2, m2, d2),
    ensures
        y == y2 && m == m2 && d == d2,
{
    lemma_within_year(y, m, d);
    lemma_within_year(y2, m2, d2);
    if y < y2 {
        lemma_years_grow(y + 1, y2);
    } else if y2 < y {
        lemma_years_grow(y2 + 1, y);
    }
    reveal_with_fuel(month_start, 14);
}

/// Later dates are more days from 1970-01-01.
pub proof fn law_dates_are_counted_in_order(y: int, m: int, d: int, y2: int, m2: int, d2: int)
    requires
        date(y, m, d),
        date(y2, m2, d2),
    ensures
        calendar_days(y, m, d) < calendar_days(y2, m2, d2) <==> y < y2 || y == y2 && (m < m2 || m
            == m2 && d < d2),
{
    lemma_within_year(y, m, d);
    lemma_within_year(y2, m2, d2);
    if y < y2 {
        lemma_years_grow(y + 1, y2);
    } else if y2 < y {
        lemma_years_grow(y2 + 1, y);
    }
    reveal_with_fuel(month_start, 14);
}

/// Counting the days to a date and dating that day gives the date back.
pub proof fn law_dates_round_trip(y: int, m: int, d: int)
    requires
        date(y, m, d),
    ensures
        civil_date(calendar_days(y, m, d)) == (y, m, d),
{
    let z = calendar_days(y, m, d);
    lemma_civil_date(z);
    let (y2, m2, d2) = civil_date(z);
    law_a_day_has_one_date(y, m, d, y2, m2, d2);
}

// --- Counting ----------------------------------------------------------------

/// `a / b`, rounded down.
fn floor_div(a: i64, b: i64) -> (r: i64)
    requires
        b > 1,
    ensures
        r as int == a as int / b as int,
{
    match a.checked_div_euclid(b) {
        Some(q) => q,
        None => {
            assert(-0x8000_0000_0000_0000 <= a as int / b as int <= 0x7fff_ffff_ffff_ffff)
                by (nonlinear_arith)
                requires
                    b > 1,
                    -0x8000_0000_0000_0000 <= a <= 0x7fff_ffff_ffff_ffff,
            ;
            0
        },
    }
}

/// What is left of `a` after whole `b`s, never negative.
pub(crate) fn floor_mod(a: i64, b: i64) -> (r: i64)
    requires
        b > 1,
    ensures
        r as int == a as int % b as int,
        0 <= r < b,
{
    match a.checked_rem_euclid(b) {
        Some(q) => q,
        None => {
            assert(0 <= a as int % b as int <= 0x7fff_ffff_ffff_ffff) by (nonlinear_arith)
                requires
                    1 < b <= 0x7fff_ffff_ffff_ffff,
            ;
            0
        },
    }
}

/// Whether days to a date can be counted in 64 bits: the count, and the whole
/// eras below it.
pub open spec fn days_fit(y: int, m: int, d: int) -> bool {
    let shifted = if m <= 2 {
        y - 1
    } else {
        y
    };
    &&& i64::MIN <= shifted
    &&& i64::MIN <= shifted / 400 * 146_097
    &&& i64::MIN <= civil_days(y, m, d)
    &&& civil_days(y, m, d) + 719_468 <= i64::MAX
}

/// Days since 1970-01-01 for a proleptic Gregorian date.
pub fn days_from_civil(y: i64, m: u32, d: u32) -> (r: i64)
    requires
        days_fit(y as int, m as int, d as int),
    ensures
        r as int == civil_days(y as int, m as int, d as int),
        1 <= m <= 12 ==> r as int == calendar_days(y as int, m as int, d as int),
{
    let shifted: i64 = if m <= 2 {
        y - 1
    } else {
        y
    };
    let era: i64 = floor_div(shifted, 400);
    let yoe: i64 = shifted - era * 400;
    let month: i64 = m as i64;
    let mp: i64 = if month > 2 {
        month - 3
    } else {
        month + 9
    };
    let doy: i64 = (153 * mp + 2) / 5 + d as i64 - 1;
    let doe: i64 = yoe * 365 + yoe / 4 - yoe / 100 + doy;
    proof {
        assert(shifted as int / 4 == yoe as int / 4 + era * 100);
        assert(shifted as int / 100 == yoe as int / 100 + era * 4);
        assert(era * 146_097 + doe - 719_468 == civil_days(y as int, m as int, d as int));
        if 1 <= m <= 12 {
            lemma_civil_is_calendar(y as int, m as int, d as int);
        }
    }
    era * 146_097 + doe - 719_468
}

/// The date that many days after 1970-01-01.
pub fn civil_from_days(z: i64) -> (r: (i64, u32, u32))
    requires
        z + 719_468 <= i64::MAX,
        i64::MIN <= (z + 719_468) / 146_097 * 146_097,
    ensures
        (r.0 as int, r.1 as int, r.2 as int) == civil_date(z as int),
        date(r.0 as int, r.1 as int, r.2 as int),
        calendar_days(r.0 as int, r.1 as int, r.2 as int) == z,
{
    let z2: i64 = z + 719_468;
    let era: i64 = floor_div(z2, 146_097);
    let doe: i64 = z2 - era * 146_097;
    proof {
        assert(doe as int == (z + 719_468) % 146_097);
        lemma_year_of_era(doe as int);
    }
    let yoe: i64 = (doe - doe / 1460 + doe / 36_524 - doe / 146_096) / 365;
    let doy: i64 = doe - (365 * yoe + yoe / 4 - yoe / 100);
    proof {
        lemma_month_of_year(doy as int);
        lemma_civil_date(z as int);
    }
    let mp: i64 = (5 * doy + 2) / 153;
    let d: u32 = (doy - (153 * mp + 2) / 5 + 1) as u32;
    let m: u32 = if mp < 10 {
        (mp + 3) as u32
    } else {
        (mp - 9) as u32
    };
    let y: i64 = yoe + era * 400 + if m <= 2 {
        1
    } else {
        0
    };
    (y, m, d)
}

/// Unix seconds for a date and a time of day.
pub open spec fn unix_time(y: int, m: int, d: int, h: int, min: int, s: int) -> int {
    civil_days(y, m, d) * 86_400 + h * 3600 + min * 60 + s
}

/// Unix seconds for a date and a time of day, UTC.
pub fn unix(y: i64, m: u32, d: u32, h: u32, min: u32, s: u32) -> (r: i64)
    requires
        days_fit(y as int, m as int, d as int),
        i64::MIN <= civil_days(y as int, m as int, d as int) * 86_400,
        unix_time(y as int, m as int, d as int, h as int, min as int, s as int) <= i64::MAX,
    ensures
        r as int == unix_time(y as int, m as int, d as int, h as int, min as int, s as int),
{
    days_from_civil(y, m, d) * 86_400 + h as i64 * HOUR + min as i64 * 60 + s as i64
}

/// Unix seconds from what the clock says: seconds since 1970, or nothing when
/// it stands before then.
pub open spec fn clock_time(reading: Option<u64>) -> i64 {
    match reading {
        Some(s) => s as i64,
        None => 0,
    }
}

/// Unix seconds from what the clock says: seconds since 1970, or nothing when
/// it stands before then.
pub fn from_clock(reading: Option<u64>) -> (r: i64)
    ensures
        r == clock_time(reading),
{
    match reading {
        Some(s) => s as i64,
        None => 0,
    }
}

/// `SystemTime::now`: the machine's clock, as whole seconds since the Unix
/// epoch, or `None` when it stands before it. Nothing is claimed of what it
/// says.
#[verifier::external_body]
fn read_clock() -> (r: Option<u64>) {
    std::time::SystemTime::now().duration_since(std::time::UNIX_EPOCH).ok().map(|d| d.as_secs())
}

/// Unix seconds now.
pub fn now() -> (r: i64)
    ensures
        exists|reading: Option<u64>| r == clock_time(reading),
{
    let reading = read_clock();
    from_clock(reading)
}

// --- Text ----------------------------------------------------------------------

/// A year, to at least four characters, a minus sign counted.
pub open spec fn year_text(y: int) -> Seq<char> {
    if y >= 0 {
        padded(y as nat, 4)
    } else {
        seq!['-'] + padded((-y) as nat, 3)
    }
}

/// `YYYY-MM-DDTHH:MM:SSZ` for a date and a time of day.
pub open spec fn stamp(y: int, m: int, d: int, h: int, min: int, s: int) -> Seq<char> {
    (year_text(y).push('-') + padded(m as nat, 2).push('-') + padded(d as nat, 2).push('T')
        + padded(h as nat, 2).push(':') + padded(min as nat, 2).push(':') + padded(
        s as nat,
        2,
    )).push('Z')
}

/// The text of Unix second `t`, UTC.
pub open spec fn iso_text(t: int) -> Seq<char> {
    let (y, m, d) = civil_date(t / 86_400);
    let s = t % 86_400;
    stamp(y, m, d, s / 3600, s % 3600 / 60, s % 60)
}

/// `YYYYMMDD` for the UTC day that holds Unix second `t`.
pub open spec fn day_text(t: int) -> Seq<char> {
    let (y, m, d) = civil_date(t / 86_400);
    year_text(y) + padded(m as nat, 2) + padded(d as nat, 2)
}

/// Whether there is such a moment in a year of four digits.
pub open spec fn moment_ok(y: int, m: int, d: int, h: int, min: int, s: int) -> bool {
    &&& 0 <= y <= 9999
    &&& date(y, m, d)
    &&& 0 <= h <= 23
    &&& 0 <= min <= 59
    &&& 0 <= s <= 59
}

/// Whether `s` is laid out as `2026-09-14T03:00:00Z` or `2026-09-14T03:00Z`.
pub open spec fn iso_shape(s: Seq<char>) -> bool {
    &&& s.len() == 20 || s.len() == 17
    &&& all_digits(s.subrange(0, 4)) && s[4] == '-'
    &&& all_digits(s.subrange(5, 7)) && s[7] == '-'
    &&& all_digits(s.subrange(8, 10)) && s[10] == 'T'
    &&& all_digits(s.subrange(11, 13)) && s[13] == ':'
    &&& all_digits(s.subrange(14, 16))
    &&& s.len() == 20 ==> s[16] == ':' && all_digits(s.subrange(17, 19))
    &&& s.last() == 'Z'
}

/// The Unix second that `s` names, if it names one.
pub open spec fn iso_value(s: Seq<char>) -> Option<int> {
    if iso_shape(s) {
        let y = value(s.subrange(0, 4));
        let m = value(s.subrange(5, 7));
        let d = value(s.subrange(8, 10));
        let h = value(s.subrange(11, 13));
        let min = value(s.subrange(14, 16));
        let sec = if s.len() == 20 {
            value(s.subrange(17, 19))
        } else {
            0
        };
        if moment_ok(y, m, d, h, min, sec) {
            Some(unix_time(y, m, d, h, min, sec))
        } else {
            None
        }
    } else {
        None
    }
}

/// Days in a month.
fn days_in(y: u32, m: u32) -> (r: u32)
    ensures
        r as int == month_len(y as int, m as int),
{
    if m == 2 {
        if y % 4 == 0 && (y % 100 != 0 || y % 400 == 0) {
            29
        } else {
            28
        }
    } else if m == 4 || m == 6 || m == 9 || m == 11 {
        30
    } else {
        31
    }
}

/// Dates in years of four digits are few enough days away to count.
proof fn lemma_four_digit_years(y: int, m: int, d: int)
    requires
        0 <= y <= 9999,
        date(y, m, d),
    ensures
        days_fit(y, m, d),
        -800_000 <= civil_days(y, m, d) <= 4_000_000,
{
}

/// The Unix second of a moment in a year of four digits, if there is such a
/// moment.
pub fn moment(y: u32, m: u32, d: u32, h: u32, min: u32, s: u32) -> (r: Option<i64>)
    ensures
        r is Some <==> moment_ok(y as int, m as int, d as int, h as int, min as int, s as int),
        r matches Some(t) ==> t as int == unix_time(
            y as int,
            m as int,
            d as int,
            h as int,
            min as int,
            s as int,
        ),
        r matches Some(t) ==> -100_000_000_000 <= t <= 400_000_000_000,
{
    if y > 9999 || m == 0 || m > 12 || d == 0 || d > days_in(y, m) || h > 23 || min > 59 || s
        > 59 {
        return None;
    }
    proof {
        lemma_four_digit_years(y as int, m as int, d as int);
    }
    Some(unix(y as i64, m, d, h, min, s))
}

/// A year's text.
fn year_string(y: i64) -> (r: String)
    requires
        y > i64::MIN,
    ensures
        r@ == year_text(y as int),
{
    if y >= 0 {
        decimal_padded(y as u64, 4)
    } else {
        let mut r = String::new();
        r.push('-');
        let rest = decimal_padded((-y) as u64, 3);
        r.append(rest.as_str());
        assert(r@ =~= year_text(y as int));
        r
    }
}

/// A day that Unix seconds in 64 bits can reach has a date.
proof fn lemma_day_fits(t: i64)
    ensures
        ({
            let z = t as int / 86_400;
            &&& i64::MIN <= z
            &&& z + 719_468 <= i64::MAX
            &&& i64::MIN <= (z + 719_468) / 146_097 * 146_097
            &&& -1_000_000_000_000 < civil_date(z).0 < 1_000_000_000_000
        }),
{
    let z = t as int / 86_400;
    lemma_year_of_era((z + 719_468) % 146_097);
}

/// `2026-09-14T03:00:00Z`.
pub fn iso(t: i64) -> (r: String)
    ensures
        r@ == iso_text(t as int),
{
    proof {
        lemma_day_fits(t);
    }
    let z: i64 = floor_div(t, 86_400);
    let (y, m, d) = civil_from_days(z);
    let s: i64 = floor_mod(t, 86_400);
    let mut r = year_string(y);
    r.push('-');
    let mut p = decimal_padded(m as u64, 2);
    p.push('-');
    r.append(p.as_str());
    p = decimal_padded(d as u64, 2);
    p.push('T');
    r.append(p.as_str());
    p = decimal_padded((s / 3600) as u64, 2);
    p.push(':');
    r.append(p.as_str());
    p = decimal_padded((s % 3600 / 60) as u64, 2);
    p.push(':');
    r.append(p.as_str());
    p = decimal_padded((s % 60) as u64, 2);
    r.append(p.as_str());
    r.push('Z');
    r
}

/// `YYYYMMDD` for the UTC day containing `t`, as NOAA names its folders.
pub fn day_name(t: i64) -> (r: String)
    ensures
        r@ == day_text(t as int),
{
    proof {
        lemma_day_fits(t);
    }
    let z: i64 = floor_div(t, 86_400);
    let (y, m, d) = civil_from_days(z);
    let mut r = year_string(y);
    let month = decimal_padded(m as u64, 2);
    r.append(month.as_str());
    let day = decimal_padded(d as u64, 2);
    r.append(day.as_str());
    r
}

/// The number that the digits in `s[from..to]` spell, if they are digits.
fn number_at(s: &[char], from: usize, to: usize) -> (r: Option<u32>)
    requires
        from <= to <= s@.len(),
        to - from <= 9,
    ensures
        r is Some <==> all_digits(s@.subrange(from as int, to as int)),
        r matches Some(n) ==> n as int == value(s@.subrange(from as int, to as int)),
{
    let part = slice_subrange(s, from, to);
    if is_all_digits(part) {
        Some(read_digits(part))
    } else {
        None
    }
}

/// Reads `2026-09-14T03:00:00Z` or `2026-09-14T03:00Z`: UTC only.
pub fn parse_iso(s: &str) -> (r: Option<i64>)
    ensures
        r is Some <==> iso_value(s@) is Some,
        r matches Some(t) ==> iso_value(s@) == Some(t as int),
{
    let v = chars_of(s);
    read_iso(v.as_slice())
}

/// `parse_iso`, for characters.
pub fn read_iso(s: &[char]) -> (r: Option<i64>)
    ensures
        r is Some <==> iso_value(s@) is Some,
        r matches Some(t) ==> iso_value(s@) == Some(t as int),
{
    let n: usize = s.len();
    if n != 20 && n != 17 {
        return None;
    }
    if s[4] != '-' || s[7] != '-' || s[10] != 'T' || s[13] != ':' || s[n - 1] != 'Z' {
        return None;
    }
    let y: u32 = match number_at(s, 0, 4) {
        Some(v) => v,
        None => return None,
    };
    let m: u32 = match number_at(s, 5, 7) {
        Some(v) => v,
        None => return None,
    };
    let d: u32 = match number_at(s, 8, 10) {
        Some(v) => v,
        None => return None,
    };
    let h: u32 = match number_at(s, 11, 13) {
        Some(v) => v,
        None => return None,
    };
    let min: u32 = match number_at(s, 14, 16) {
        Some(v) => v,
        None => return None,
    };
    let sec: u32 = if n == 20 {
        if s[16] != ':' {
            return None;
        }
        match number_at(s, 17, 19) {
            Some(v) => v,
            None => return None,
        }
    } else {
        0
    };
    moment(y, m, d, h, min, sec)
}

/// What `iso` writes, `parse_iso` reads back, for the years it writes in four
/// digits.
#[verifier::spinoff_prover]
pub proof fn law_iso_round_trips(t: int)
    requires
        0 <= civil_date(t / 86_400).0 <= 9999,
    ensures
        iso_value(iso_text(t)) == Some(t),
{
    let z = t / 86_400;
    let (y, m, d) = civil_date(z);
    let s = t % 86_400;
    let (h, min, sec) = (s / 3600, s % 3600 / 60, s % 60);
    lemma_civil_date(z);
    assert(date(y, m, d) && calendar_days(y, m, d) == z);
    lemma_civil_is_calendar(y, m, d);
    lemma_parts_of_a_day(t);
    assert(moment_ok(y, m, d, h, min, sec));
    assert(unix_time(y, m, d, h, min, sec) == t);
    lemma_stamp(y, m, d, h, min, sec);
}

/// A time is its day and its time of day.
proof fn lemma_parts_of_a_day(t: int)
    ensures
        ({
            let (z, s) = (t / 86_400, t % 86_400);
            let (h, min, sec) = (s / 3600, s % 3600 / 60, s % 60);
            &&& t == z * 86_400 + h * 3600 + min * 60 + sec
            &&& 0 <= h <= 23
            &&& 0 <= min <= 59
            &&& 0 <= sec <= 59
        }),
{
    let s = t % 86_400;
    assert(s % 3600 % 60 == s % 60);
}

/// Each number in a stamp stands in its own place.
proof fn lemma_stamp(y: int, m: int, d: int, h: int, min: int, sec: int)
    requires
        moment_ok(y, m, d, h, min, sec),
    ensures
        iso_value(stamp(y, m, d, h, min, sec)) == Some(unix_time(y, m, d, h, min, sec)),
{
    let text = stamp(y, m, d, h, min, sec);
    lemma_padded(y as nat, 4);
    lemma_padded(m as nat, 2);
    lemma_padded(d as nat, 2);
    lemma_padded(h as nat, 2);
    lemma_padded(min as nat, 2);
    lemma_padded(sec as nat, 2);
    assert(text.len() == 20);
    assert(text.subrange(0, 4) =~= padded(y as nat, 4));
    assert(text.subrange(5, 7) =~= padded(m as nat, 2));
    assert(text.subrange(8, 10) =~= padded(d as nat, 2));
    assert(text.subrange(11, 13) =~= padded(h as nat, 2));
    assert(text.subrange(14, 16) =~= padded(min as nat, 2));
    assert(text.subrange(17, 19) =~= padded(sec as nat, 2));
}

/// What `parse_iso` reads, `iso` writes back the same, with the seconds put in
/// where the text leaves them out.
pub proof fn law_iso_is_canonical(s: Seq<char>)
    requires
        iso_value(s) is Some,
    ensures
        s.len() == 20 || s.len() == 17,
        s.len() == 20 ==> iso_text(iso_value(s)->0) == s,
        s.len() == 17 ==> iso_text(iso_value(s)->0) == s.take(16) + ":00Z"@,
{
    if s.len() == 20 {
        lemma_written_back(s);
    } else {
        reveal_strlit(":00Z");
        let t = s.take(16) + ":00Z"@;
        assert(t.subrange(0, 4) =~= s.subrange(0, 4));
        assert(t.subrange(5, 7) =~= s.subrange(5, 7));
        assert(t.subrange(8, 10) =~= s.subrange(8, 10));
        assert(t.subrange(11, 13) =~= s.subrange(11, 13));
        assert(t.subrange(14, 16) =~= s.subrange(14, 16));
        assert(t.subrange(17, 19) =~= seq!['0', '0']);
        assert(seq!['0', '0'].drop_last() =~= seq!['0']);
        assert(seq!['0'].drop_last() =~= Seq::<char>::empty());
        reveal_with_fuel(value, 3);
        assert(value(seq!['0', '0']) == 0);
        assert(iso_value(t) == iso_value(s));
        lemma_written_back(t);
    }
}

/// What is read with seconds is written back the same.
proof fn lemma_written_back(s: Seq<char>)
    requires
        iso_value(s) is Some,
        s.len() == 20,
    ensures
        iso_text(iso_value(s)->0) == s,
{
    let y = value(s.subrange(0, 4));
    let m = value(s.subrange(5, 7));
    let d = value(s.subrange(8, 10));
    let h = value(s.subrange(11, 13));
    let min = value(s.subrange(14, 16));
    let sec = value(s.subrange(17, 19));
    let t = iso_value(s)->0;
    lemma_civil_is_calendar(y, m, d);
    law_dates_round_trip(y, m, d);
    lemma_time_of_day(calendar_days(y, m, d), h, min, sec);
    lemma_padded_value(s.subrange(0, 4));
    lemma_padded_value(s.subrange(5, 7));
    lemma_padded_value(s.subrange(8, 10));
    lemma_padded_value(s.subrange(11, 13));
    lemma_padded_value(s.subrange(14, 16));
    lemma_padded_value(s.subrange(17, 19));
    assert(iso_text(t) == stamp(y, m, d, h, min, sec));
    assert(stamp(y, m, d, h, min, sec) =~= s);
}

/// A day and a time of day can be told apart again.
proof fn lemma_time_of_day(z: int, h: int, min: int, sec: int)
    requires
        0 <= h <= 23,
        0 <= min <= 59,
        0 <= sec <= 59,
    ensures
        ({
            let t = z * 86_400 + h * 3600 + min * 60 + sec;
            &&& t / 86_400 == z
            &&& t % 86_400 / 3600 == h
            &&& t % 86_400 % 3600 / 60 == min
            &&& t % 86_400 % 60 == sec
        }),
{
    let s = h * 3600 + min * 60 + sec;
    let t = z * 86_400 + s;
    assert(t / 86_400 == z && t % 86_400 == s);
    assert(s % 60 == sec) by {
        assert(s == (h * 60 + min) * 60 + sec);
    }
}

} // verus!
