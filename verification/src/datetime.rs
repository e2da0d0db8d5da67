//! Calendar arithmetic for rotation-file naming: conversion from a Unix
//! timestamp to a civil date, rendering of datestamps and timestamps, and
//! validation of the `YYYY_MM_DD` date component of rotation-file names.
use vstd::prelude::*;
use vstd::arithmetic::div_mod::lemma_fundamental_div_mod_converse;

verus! {

/// Seconds from the Unix epoch to the first instant of year 10000; the
/// four-digit year fields of datestamps and timestamps require timestamps
/// below this bound.
pub const SECS_BEFORE_YEAR_10000: u64 = 253402300800;

pub const SECS_PER_DAY: u64 = 86400;

pub open spec fn is_leap_year(y: int) -> bool {
    (y % 4 == 0 && y % 100 != 0) || y % 400 == 0
}

pub open spec fn spec_days_in_year(y: int) -> int {
    if is_leap_year(y) {
        366
    } else {
        365
    }
}

pub open spec fn spec_days_in_month(y: int, m: int) -> int {
    if m == 2 {
        if is_leap_year(y) {
            29
        } else {
            28
        }
    } else if m == 4 || m == 6 || m == 9 || m == 11 {
        30
    } else {
        31
    }
}

/// A valid civil date with a four-digit year, as a rotation-file name can
/// carry.
pub open spec fn valid_date(y: int, m: int, d: int) -> bool {
    &&& 1000 <= y <= 9999
    &&& 1 <= m <= 12
    &&& 1 <= d <= spec_days_in_month(y, m)
}

/// Days from 1970-01-01 to the first day of year `y`.
pub open spec fn days_before_year(y: int) -> int
    decreases y,
{
    if y <= 1970 {
        0
    } else {
        days_before_year(y - 1) + spec_days_in_year(y - 1)
    }
}

/// Days from the first of January of year `y` to the first of month `m`.
pub open spec fn days_before_month(y: int, m: int) -> int
    decreases m,
{
    if m <= 1 {
        0
    } else {
        days_before_month(y, m - 1) + spec_days_in_month(y, m - 1)
    }
}

/// Days from 1970-01-01 to the civil date `(y, m, d)`.
pub open spec fn days_of_date(y: int, m: int, d: int) -> int {
    days_before_year(y) + days_before_month(y, m) + (d - 1)
}

/// A valid date on or after the epoch, the domain on which `days_of_date`
/// is injective.
pub open spec fn epoch_date(y: int, m: int, d: int) -> bool {
    valid_date(y, m, d) && 1970 <= y
}

/// The civil date a count of days since 1970-01-01 falls in; well defined
/// by `lemma_date_of_days_unique`.
pub open spec fn date_of_days(n: int) -> (int, int, int) {
    choose|t: (int, int, int)|
        epoch_date(t.0, t.1, t.2) && days_of_date(t.0, t.1, t.2) == n
}

/// Leap years from year 1 up to but not including year `y`, in closed form.
pub open spec fn leap_years_before(y: int) -> int {
    (y - 1) / 4 - (y - 1) / 100 + (y - 1) / 400
}

/// One step of the closed form: crossing year `n - 1` adds a leap day exactly
/// when that year is leap.
proof fn lemma_div_step(n: int, c: int)
    requires
        n >= 1,
        c >= 1,
    ensures
        n / c - (n - 1) / c == if n % c == 0 {
            1int
        } else {
            0int
        },
{
    let q = n / c;
    let r = n % c;
    vstd::arithmetic::div_mod::lemma_fundamental_div_mod(n, c);
    assert(n == c * q + r);
    if r == 0 {
        assert(n - 1 == (q - 1) * c + (c - 1)) by (nonlinear_arith)
            requires
                n == c * q + r,
                r == 0,
        ;
        lemma_fundamental_div_mod_converse(n - 1, c, q - 1, c - 1);
    } else {
        assert(n - 1 == q * c + (r - 1)) by (nonlinear_arith)
            requires
                n == c * q + r,
        ;
        lemma_fundamental_div_mod_converse(n - 1, c, q, r - 1);
    }
}

proof fn lemma_days_before_year_closed_form(y: int)
    requires
        y >= 1970,
    ensures
        days_before_year(y) == 365 * (y - 1970) + leap_years_before(y) - leap_years_before(1970),
    decreases y,
{
    if y > 1970 {
        lemma_days_before_year_closed_form(y - 1);
        lemma_div_step(y - 1, 4);
        lemma_div_step(y - 1, 100);
        lemma_div_step(y - 1, 400);
    }
}

/// There are exactly `SECS_BEFORE_YEAR_10000 / SECS_PER_DAY` days between
/// 1970-01-01 and 10000-01-01.
pub proof fn lemma_days_before_year_10000()
    ensures
        days_before_year(10000) == SECS_BEFORE_YEAR_10000 as int / SECS_PER_DAY as int,
{
    lemma_days_before_year_closed_form(10000);
}

proof fn lemma_days_before_year_monotonic(a: int, b: int)
    requires
        a <= b,
    ensures
        days_before_year(a) <= days_before_year(b),
    decreases b - a,
{
    if a < b {
        lemma_days_before_year_monotonic(a, b - 1);
    }
}

proof fn lemma_days_before_month_monotonic(y: int, a: int, b: int)
    requires
        a <= b,
    ensures
        days_before_month(y, a) <= days_before_month(y, b),
    decreases b - a,
{
    if a < b {
        lemma_days_before_month_monotonic(y, a, b - 1);
    }
}

/// The twelve months of a year sum to the year's length.
proof fn lemma_months_sum(y: int)
    ensures
        days_before_month(y, 13) == spec_days_in_year(y),
{
    reveal_with_fuel(days_before_month, 13);
}

pub fn days_in_year(y: u64) -> (r: u64)
    ensures
        r == spec_days_in_year(y as int),
{
    if (y % 4 == 0 && y % 100 != 0) || y % 400 == 0 {
        366
    } else {
        365
    }
}

pub fn days_in_month(y: u64, m: u64) -> (r: u64)
    ensures
        r == spec_days_in_month(y as int, m as int),
{
    if m == 2 {
        if (y % 4 == 0 && y % 100 != 0) || y % 400 == 0 {
            29
        } else {
            28
        }
    } else if m == 4 || m == 6 || m == 9 || m == 11 {
        30
    } else {
        31
    }
}

/// Distinct valid dates have distinct day counts, so `date_of_days` is the
/// inverse of `days_of_date`.
pub proof fn lemma_date_of_days_unique(y1: int, m1: int, d1: int, y2: int, m2: int, d2: int)
    requires
        epoch_date(y1, m1, d1),
        epoch_date(y2, m2, d2),
        days_of_date(y1, m1, d1) == days_of_date(y2, m2, d2),
    ensures
        y1 == y2 && m1 == m2 && d1 == d2,
{
    lemma_date_within_year(y1, m1, d1);
    lemma_date_within_year(y2, m2, d2);
    if y1 < y2 {
        lemma_days_before_year_monotonic(y1 + 1, y2);
    } else if y2 < y1 {
        lemma_days_before_year_monotonic(y2 + 1, y1);
    } else {
        if m1 < m2 {
            lemma_days_before_month_monotonic(y1, m1 + 1, m2);
        } else if m2 < m1 {
            lemma_days_before_month_monotonic(y1, m2 + 1, m1);
        }
    }
}

/// A date's offset within its year is below the year's length.
proof fn lemma_date_within_year(y: int, m: int, d: int)
    requires
        epoch_date(y, m, d),
    ensures
        0 <= days_before_month(y, m) + (d - 1) < spec_days_in_year(y),
        days_before_year(y) <= days_of_date(y, m, d) < days_before_year(y + 1),
{
    lemma_days_before_month_monotonic(y, 1, m);
    lemma_days_before_month_monotonic(y, m + 1, 13);
    lemma_months_sum(y);
}

/// Converts a count of days since 1970-01-01 to the civil date it falls in.
pub fn civil_from_days(days: u64) -> (r: (u64, u64, u64))
    requires
        days < SECS_BEFORE_YEAR_10000 / SECS_PER_DAY,
    ensures
        valid_date(r.0 as int, r.1 as int, r.2 as int),
        days_of_date(r.0 as int, r.1 as int, r.2 as int) == days,
        (r.0 as int, r.1 as int, r.2 as int) == date_of_days(days as int),
        1970 <= r.0,
{
    let mut y: u64 = 1970;
    let mut rem: u64 = days;
    loop
        invariant
            1970 <= y <= 9999,
            days_before_year(y as int) + rem == days,
            days < SECS_BEFORE_YEAR_10000 / SECS_PER_DAY,
        ensures
            1970 <= y <= 9999,
            days_before_year(y as int) + rem == days,
            rem < spec_days_in_year(y as int),
        decreases rem,
    {
        let len: u64 = days_in_year(y);
        if rem < len {
            break ;
        }
        proof {
            lemma_days_before_year_10000();
            if y as int + 1 == 10000 {
                assert(days_before_year(10000) <= days);
            } else {
                lemma_days_before_year_monotonic(y as int + 1, 9999);
                lemma_days_before_year_monotonic(1970, y as int + 1);
            }
        }
        rem = rem - len;
        y = y + 1;
    }
    let mut m: u64 = 1;
    proof {
        assert(days_before_month(y as int, 1) == 0);
    }
    loop
        invariant
            1 <= m <= 12,
            1970 <= y <= 9999,
            days_before_year(y as int) + days_before_month(y as int, m as int) + rem == days,
            days_before_month(y as int, m as int) + rem < spec_days_in_year(y as int),
        ensures
            1 <= m <= 12,
            1970 <= y <= 9999,
            days_before_year(y as int) + days_before_month(y as int, m as int) + rem == days,
            rem < spec_days_in_month(y as int, m as int),
        decreases 12 - m,
    {
        let len: u64 = days_in_month(y, m);
        if rem < len {
            break ;
        }
        proof {
            lemma_months_sum(y as int);
            if m == 12 {
                assert(days_before_month(y as int, 13) == days_before_month(y as int, 12)
                    + spec_days_in_month(y as int, 12));
            }
        }
        rem = rem - len;
        m = m + 1;
    }
    proof {
        let t = (y as int, m as int, rem as int + 1);
        assert(epoch_date(t.0, t.1, t.2) && days_of_date(t.0, t.1, t.2) == days as int);
        let u = choose|u: (int, int, int)|
            epoch_date(u.0, u.1, u.2) && days_of_date(u.0, u.1, u.2) == days as int;
        lemma_date_of_days_unique(t.0, t.1, t.2, u.0, u.1, u.2);
    }
    (y, m, rem + 1)
}

pub open spec fn is_digit(b: u8) -> bool {
    48 <= b <= 57
}

/// The decimal digit byte for `n`, meaningful for `0 <= n < 10`.
pub open spec fn digit(n: int) -> u8 {
    (48 + n) as u8
}

/// The ten bytes `YYYY_MM_DD` for a date.
pub open spec fn datestamp_bytes(y: int, m: int, d: int) -> Seq<u8> {
    seq![
        digit(y / 1000 % 10),
        digit(y / 100 % 10),
        digit(y / 10 % 10),
        digit(y % 10),
        95u8,
        digit(m / 10 % 10),
        digit(m % 10),
        95u8,
        digit(d / 10 % 10),
        digit(d % 10),
    ]
}

/// The 21 bytes `[YYYY-MM-DD HH:MM:SS]` for a date and a time of day.
pub open spec fn timestamp_bytes(y: int, m: int, d: int, h: int, mi: int, s: int) -> Seq<u8> {
    seq![
        91u8,
        digit(y / 1000 % 10),
        digit(y / 100 % 10),
        digit(y / 10 % 10),
        digit(y % 10),
        45u8,
        digit(m / 10 % 10),
        digit(m % 10),
        45u8,
        digit(d / 10 % 10),
        digit(d % 10),
        32u8,
        digit(h / 10 % 10),
        digit(h % 10),
        58u8,
        digit(mi / 10 % 10),
        digit(mi % 10),
        58u8,
        digit(s / 10 % 10),
        digit(s % 10),
        93u8,
    ]
}

/// The year encoded in a `YYYY_MM_DD` byte string.
pub open spec fn ds_year(s: Seq<u8>) -> int {
    (s[0] - 48) * 1000 + (s[1] - 48) * 100 + (s[2] - 48) * 10 + (s[3] - 48)
}

pub open spec fn ds_month(s: Seq<u8>) -> int {
    (s[5] - 48) * 10 + (s[6] - 48)
}

pub open spec fn ds_day(s: Seq<u8>) -> int {
    (s[8] - 48) * 10 + (s[9] - 48)
}

/// Whether ten bytes are a `YYYY_MM_DD` datestamp whose date component is a
/// valid calendar date.
pub open spec fn is_datestamp(s: Seq<u8>) -> bool {
    &&& s.len() == 10
    &&& forall|i: int| 0 <= i < 10 && i != 4 && i != 7 ==> is_digit(#[trigger] s[i])
    &&& s[4] == 95u8
    &&& s[7] == 95u8
    &&& valid_date(ds_year(s), ds_month(s), ds_day(s))
}

fn push_two_digits(out: &mut Vec<u8>, n: u64)
    requires
        n < 100,
    ensures
        final(out)@ == old(out)@ + seq![digit(n as int / 10 % 10), digit(n as int % 10)],
{
    out.push((48 + (n / 10) % 10) as u8);
    out.push((48 + n % 10) as u8);
}

/// Renders a date as the ten bytes `YYYY_MM_DD`.
pub fn render_datestamp(y: u64, m: u64, d: u64) -> (r: Vec<u8>)
    requires
        y <= 9999,
        m <= 99,
        d <= 99,
    ensures
        r@ == datestamp_bytes(y as int, m as int, d as int),
{
    let mut out: Vec<u8> = Vec::new();
    out.push((48 + (y / 1000) % 10) as u8);
    out.push((48 + (y / 100) % 10) as u8);
    out.push((48 + (y / 10) % 10) as u8);
    out.push((48 + y % 10) as u8);
    out.push(95);
    push_two_digits(&mut out, m);
    out.push(95);
    push_two_digits(&mut out, d);
    proof {
        assert(out@ =~= datestamp_bytes(y as int, m as int, d as int));
    }
    out
}

/// The `YYYY_MM_DD` datestamp of the day a timestamp falls in.
pub fn datestamp_for(secs: u64) -> (r: Vec<u8>)
    requires
        secs < SECS_BEFORE_YEAR_10000,
    ensures
        ({
            let t = date_of_days(secs as int / SECS_PER_DAY as int);
            r@ == datestamp_bytes(t.0, t.1, t.2) && epoch_date(t.0, t.1, t.2)
        }),
{
    let (y, m, d) = civil_from_days(secs / SECS_PER_DAY);
    render_datestamp(y, m, d)
}

/// The `[YYYY-MM-DD HH:MM:SS]` wall-clock rendering of a timestamp.
pub fn timestamp_for(secs: u64) -> (r: Vec<u8>)
    requires
        secs < SECS_BEFORE_YEAR_10000,
    ensures
        ({
            let t = date_of_days(secs as int / SECS_PER_DAY as int);
            let sod = secs as int % SECS_PER_DAY as int;
            r@ == timestamp_bytes(t.0, t.1, t.2, sod / 3600, sod / 60 % 60, sod % 60)
        }),
{
    let (y, m, d) = civil_from_days(secs / SECS_PER_DAY);
    let sod: u64 = secs % SECS_PER_DAY;
    let h: u64 = sod / 3600;
    let mi: u64 = (sod / 60) % 60;
    let s: u64 = sod % 60;
    let mut out: Vec<u8> = Vec::new();
    out.push(91);
    out.push((48 + (y / 1000) % 10) as u8);
    out.push((48 + (y / 100) % 10) as u8);
    out.push((48 + (y / 10) % 10) as u8);
    out.push((48 + y % 10) as u8);
    out.push(45);
    push_two_digits(&mut out, m);
    out.push(45);
    push_two_digits(&mut out, d);
    out.push(32);
    push_two_digits(&mut out, h);
    out.push(58);
    push_two_digits(&mut out, mi);
    out.push(58);
    push_two_digits(&mut out, s);
    out.push(93);
    proof {
        let t = date_of_days(secs as int / SECS_PER_DAY as int);
        let sod_g = secs as int % SECS_PER_DAY as int;
        assert(out@ =~= timestamp_bytes(t.0, t.1, t.2, sod_g / 3600, sod_g / 60 % 60, sod_g
            % 60));
    }
    out
}

/// The datestamp of a valid date is itself a valid datestamp and parses
/// back to the date it was rendered from.
pub proof fn lemma_datestamp_roundtrip(y: int, m: int, d: int)
    requires
        valid_date(y, m, d),
    ensures
        is_datestamp(datestamp_bytes(y, m, d)),
        ds_year(datestamp_bytes(y, m, d)) == y,
        ds_month(datestamp_bytes(y, m, d)) == m,
        ds_day(datestamp_bytes(y, m, d)) == d,
{
    let s = datestamp_bytes(y, m, d);
    vstd::arithmetic::div_mod::lemma_fundamental_div_mod(y, 10);
    vstd::arithmetic::div_mod::lemma_fundamental_div_mod(y / 10, 10);
    vstd::arithmetic::div_mod::lemma_fundamental_div_mod(y / 100, 10);
    vstd::arithmetic::div_mod::lemma_div_denominator(y, 10, 10);
    vstd::arithmetic::div_mod::lemma_div_denominator(y, 100, 10);
    assert(y / 1000 % 10 == y / 1000);
    vstd::arithmetic::div_mod::lemma_fundamental_div_mod(m, 10);
    assert(m / 10 % 10 == m / 10);
    vstd::arithmetic::div_mod::lemma_fundamental_div_mod(d, 10);
    assert(d / 10 % 10 == d / 10);
    assert(ds_year(s) == y);
    assert(ds_month(s) == m);
    assert(ds_day(s) == d);
    assert forall|i: int| 0 <= i < 10 && i != 4 && i != 7 implies is_digit(#[trigger] s[i]) by {}
}

/// Whether ten bytes are a `YYYY_MM_DD` datestamp naming a valid calendar
/// date, as the quota enforcer demands of a rotation file's name.
pub fn check_date(name: &[u8]) -> (r: bool)
    ensures
        r == is_datestamp(name@),
{
    if name.len() != 10 {
        return false;
    }
    let mut i: usize = 0;
    while i < 10
        invariant
            0 <= i <= 10,
            name@.len() == 10,
            forall|j: int| 0 <= j < i && j != 4 && j != 7 ==> is_digit(#[trigger] name@[j]),
            forall|j: int| 0 <= j < i && (j == 4 || j == 7) ==> name@[j] == 95u8,
        decreases 10 - i,
    {
        let b = name[i];
        if i == 4 || i == 7 {
            if b != 95 {
                return false;
            }
        } else {
            if !(48 <= b && b <= 57) {
                return false;
            }
        }
        i = i + 1;
    }
    let y: u64 = (name[0] - 48) as u64 * 1000 + (name[1] - 48) as u64 * 100 + (name[2] - 48)
        as u64 * 10 + (name[3] - 48) as u64;
    let m: u64 = (name[5] - 48) as u64 * 10 + (name[6] - 48) as u64;
    let d: u64 = (name[8] - 48) as u64 * 10 + (name[9] - 48) as u64;
    if y < 1000 || m < 1 || m > 12 || d < 1 {
        return false;
    }
    d <= days_in_month(y, m)
}

} // verus!
