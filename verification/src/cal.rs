//! The proleptic Gregorian calendar, modelled over the years 0000 to 9999.
//!
//! A civil date-time is mapped to a count of seconds since the start of year
//! 0000 (`secs_of`), and back (`civil_of`). The two directions are proved
//! inverse to each other, which is what makes re-projecting a timestamp onto
//! another offset a faithful move of the same instant.

use vstd::prelude::*;

verus! {

use vstd::arithmetic::div_mod::{
    lemma_fundamental_div_mod_converse_div,
    lemma_fundamental_div_mod_converse_mod,
};

/// A calendar date with a time of day, all fields as plain numbers.
pub struct Civil {
    pub year: int,
    pub month: int,
    pub day: int,
    pub hour: int,
    pub minute: int,
    pub second: int,
}

/// A leap year of the proleptic Gregorian calendar.
pub open spec fn is_leap(y: int) -> bool {
    y % 4 == 0 && (y % 100 != 0 || y % 400 == 0)
}

/// Number of days in year `y`.
pub open spec fn year_len(y: int) -> int {
    if is_leap(y) {
        366
    } else {
        365
    }
}

/// Number of days in month `m` of year `y`.
pub open spec fn days_in_month(y: int, m: int) -> int {
    if m == 2 {
        if is_leap(y) {
            29
        } else {
            28
        }
    } else if m == 4 || m == 6 || m == 9 || m == 11 {
        30
    } else {
        31
    }
}

/// Days of year `y` that lie before the first day of month `m`.
pub open spec fn days_before_month(y: int, m: int) -> int
    decreases m,
{
    if m <= 1 {
        0
    } else {
        days_before_month(y, m - 1) + days_in_month(y, m - 1)
    }
}

/// Days that lie before the first day of year `y`, counted from the first
/// day of year 0000.
pub open spec fn days_before_year(y: int) -> int
    decreases y,
{
    if y <= 0 {
        0
    } else {
        days_before_year(y - 1) + year_len(y - 1)
    }
}

/// A well-formed civil date-time of the supported range.
pub open spec fn civil_wf(c: Civil) -> bool {
    &&& 0 <= c.year <= 9999
    &&& 1 <= c.month <= 12
    &&& 1 <= c.day <= days_in_month(c.year, c.month)
    &&& 0 <= c.hour <= 23
    &&& 0 <= c.minute <= 59
    &&& 0 <= c.second <= 59
}

/// Days before the given date, counted from the first day of year 0000.
pub open spec fn days_of(c: Civil) -> int {
    days_before_year(c.year) + days_before_month(c.year, c.month) + c.day - 1
}

/// Seconds from the start of year 0000 to the given civil date-time.
pub open spec fn secs_of(c: Civil) -> int {
    days_of(c) * 86400 + c.hour * 3600 + c.minute * 60 + c.second
}

/// One past the last representable second: the start of year 10000.
pub open spec fn max_secs() -> int {
    days_before_year(10000) * 86400
}

/// The year whose days contain day number `days`, searched upward from `y`.
pub open spec fn find_year(days: int, y: int) -> int
    decreases 10000 - y,
{
    if y >= 9999 {
        9999
    } else if days < days_before_year(y + 1) {
        y
    } else {
        find_year(days, y + 1)
    }
}

/// The month of year `y` whose days contain day-of-year `doy`, searched
/// upward from `m`.
pub open spec fn find_month(y: int, doy: int, m: int) -> int
    decreases 13 - m,
{
    if m >= 12 {
        12
    } else if doy < days_before_month(y, m + 1) {
        m
    } else {
        find_month(y, doy, m + 1)
    }
}

/// The civil date-time at `t` seconds from the start of year 0000.
pub open spec fn civil_of(t: int) -> Civil {
    let days = t / 86400;
    let rem = t % 86400;
    let y = find_year(days, 0);
    let doy = days - days_before_year(y);
    let m = find_month(y, doy, 1);
    Civil {
        year: y,
        month: m,
        day: doy - days_before_month(y, m) + 1,
        hour: rem / 3600,
        minute: (rem % 3600) / 60,
        second: rem % 60,
    }
}

pub proof fn lemma_dby_bounds(y: int)
    requires
        0 <= y,
    ensures
        365 * y <= days_before_year(y) <= 366 * y,
    decreases y,
{
    if y > 0 {
        lemma_dby_bounds(y - 1);
    }
}

pub proof fn lemma_dby_mono(y1: int, y2: int)
    requires
        0 <= y1 <= y2,
    ensures
        days_before_year(y1) <= days_before_year(y2),
        y1 < y2 ==> days_before_year(y1) + year_len(y1) <= days_before_year(y2),
    decreases y2,
{
    if y1 < y2 {
        lemma_dby_mono(y1, y2 - 1);
    }
}

pub proof fn lemma_dbm_mono(y: int, m1: int, m2: int)
    requires
        1 <= m1 <= m2,
    ensures
        days_before_month(y, m1) <= days_before_month(y, m2),
    decreases m2,
{
    if m1 < m2 {
        lemma_dbm_mono(y, m1, m2 - 1);
    }
}

/// The months of a year tile it exactly.
pub proof fn lemma_dbm_full_year(y: int)
    ensures
        days_before_month(y, 13) == year_len(y),
{
    reveal_with_fuel(days_before_month, 13);
}

pub proof fn lemma_find_year_correct(days: int, y0: int, y: int)
    requires
        0 <= y0 <= y <= 9999,
        days_before_year(y0) <= days,
        days_before_year(y) <= days,
        y < 9999 ==> days < days_before_year(y + 1),
    ensures
        find_year(days, y0) == y,
    decreases y - y0,
{
    if y0 < y {
        lemma_dby_mono(y0 + 1, y);
        lemma_find_year_correct(days, y0 + 1, y);
    }
}

pub proof fn lemma_find_month_correct(y: int, doy: int, m0: int, m: int)
    requires
        1 <= m0 <= m <= 12,
        days_before_month(y, m0) <= doy,
        days_before_month(y, m) <= doy,
        m < 12 ==> doy < days_before_month(y, m + 1),
    ensures
        find_month(y, doy, m0) == m,
    decreases m - m0,
{
    if m0 < m {
        lemma_dbm_mono(y, m0 + 1, m);
        lemma_find_month_correct(y, doy, m0 + 1, m);
    }
}

/// Mapping a well-formed civil date-time to seconds and back is the
/// identity, and the seconds lie inside the supported range.
pub proof fn lemma_civil_roundtrip(c: Civil)
    requires
        civil_wf(c),
    ensures
        0 <= secs_of(c) < max_secs(),
        civil_of(secs_of(c)) == c,
{
    let days = days_of(c);
    let time = c.hour * 3600 + c.minute * 60 + c.second;
    let doy = days_before_month(c.year, c.month) + c.day - 1;

    // Day-of-year lies inside the year.
    lemma_dbm_mono(c.year, 1, c.month);
    lemma_dbm_mono(c.year, c.month + 1, 13);
    lemma_dbm_full_year(c.year);
    assert(days_before_month(c.year, c.month + 1)
        == days_before_month(c.year, c.month) + days_in_month(c.year, c.month));
    assert(0 <= doy < year_len(c.year));

    // The day number lies inside the supported year range.
    assert(days_before_year(c.year + 1) == days_before_year(c.year) + year_len(c.year));
    lemma_dby_mono(c.year + 1, 10000);
    lemma_dby_bounds(c.year);
    assert(days_before_year(c.year) <= days < days_before_year(c.year + 1));
    assert(0 <= days < days_before_year(10000));

    // Split seconds back into a day number and a time of day.
    assert(0 <= time < 86400);
    lemma_fundamental_div_mod_converse_div(secs_of(c), 86400, days, time);
    lemma_fundamental_div_mod_converse_mod(secs_of(c), 86400, days, time);
    assert(secs_of(c) / 86400 == days);
    assert(secs_of(c) % 86400 == time);
    assert(secs_of(c) < max_secs()) by {
        assert(days + 1 <= days_before_year(10000));
        assert((days + 1) * 86400 <= days_before_year(10000) * 86400)
            by (nonlinear_arith)
            requires days + 1 <= days_before_year(10000);
        assert(secs_of(c) < (days + 1) * 86400);
    }

    // Recover the year and the month.
    lemma_find_year_correct(days, 0, c.year);
    lemma_find_month_correct(c.year, doy, 1, c.month);

    // Split the time of day into its three fields.
    lemma_fundamental_div_mod_converse_div(time, 3600, c.hour, c.minute * 60 + c.second);
    lemma_fundamental_div_mod_converse_mod(time, 3600, c.hour, c.minute * 60 + c.second);
    lemma_fundamental_div_mod_converse_div(c.minute * 60 + c.second, 60, c.minute, c.second);
    lemma_fundamental_div_mod_converse_mod(c.minute * 60 + c.second, 60, c.minute, c.second);
}

pub proof fn lemma_find_year_props(days: int, y0: int)
    requires
        0 <= y0 <= 9999,
        days_before_year(y0) <= days,
        days < days_before_year(10000),
    ensures
        y0 <= find_year(days, y0) <= 9999,
        days_before_year(find_year(days, y0)) <= days,
        days < days_before_year(find_year(days, y0) + 1),
    decreases 10000 - y0,
{
    if y0 >= 9999 {
    } else if days < days_before_year(y0 + 1) {
    } else {
        lemma_find_year_props(days, y0 + 1);
    }
}

pub proof fn lemma_find_month_props(y: int, doy: int, m0: int)
    requires
        1 <= m0 <= 12,
        days_before_month(y, m0) <= doy,
        doy < year_len(y),
    ensures
        m0 <= find_month(y, doy, m0) <= 12,
        days_before_month(y, find_month(y, doy, m0)) <= doy,
        doy < days_before_month(y, find_month(y, doy, m0) + 1),
    decreases 12 - m0,
{
    if m0 >= 12 {
        lemma_dbm_full_year(y);
    } else if doy < days_before_month(y, m0 + 1) {
    } else {
        lemma_find_month_props(y, doy, m0 + 1);
    }
}

/// Splitting a second count into a civil date-time gives well-formed
/// fields, and mapping them back gives the same count: the two directions
/// are inverse over the supported range.
pub proof fn lemma_civil_of_wf(t: int)
    requires
        0 <= t < max_secs(),
    ensures
        civil_wf(civil_of(t)),
        secs_of(civil_of(t)) == t,
{
    let days = t / 86400;
    let rem = t % 86400;
    vstd::arithmetic::div_mod::lemma_fundamental_div_mod(t, 86400);
    assert(0 <= rem < 86400) by (nonlinear_arith)
        requires t >= 0, rem == t % 86400;
    assert(days >= 0) by (nonlinear_arith)
        requires t >= 0, days == t / 86400;
    assert(days < days_before_year(10000)) by {
        if days >= days_before_year(10000) {
            assert(days * 86400 >= days_before_year(10000) * 86400) by (nonlinear_arith)
                requires days >= days_before_year(10000);
        }
    }
    lemma_find_year_props(days, 0);
    let y = find_year(days, 0);
    let doy = days - days_before_year(y);
    assert(days_before_year(y + 1) == days_before_year(y) + year_len(y));
    lemma_find_month_props(y, doy, 1);
    let m = find_month(y, doy, 1);
    assert(days_before_month(y, m + 1) == days_before_month(y, m) + days_in_month(y, m));
    let c = civil_of(t);
    assert(1 <= c.day <= days_in_month(y, m));
    // The time of day recombines into the remainder.
    vstd::arithmetic::div_mod::lemma_fundamental_div_mod(rem, 3600);
    vstd::arithmetic::div_mod::lemma_fundamental_div_mod(rem % 3600, 60);
    assert(0 <= rem % 3600 < 3600) by (nonlinear_arith)
        requires rem >= 0;
    assert(0 <= rem % 3600 % 60 < 60) by (nonlinear_arith)
        requires rem % 3600 >= 0;
    assert(rem % 60 == rem % 3600 % 60) by (nonlinear_arith)
        requires rem >= 0;
    assert(0 <= c.hour <= 23) by (nonlinear_arith)
        requires c.hour == rem / 3600, 0 <= rem < 86400;
    assert(0 <= c.minute <= 59) by (nonlinear_arith)
        requires c.minute == (rem % 3600) / 60, 0 <= rem % 3600 < 3600;
    assert(days_of(c) == days);
    assert(c.hour * 3600 + c.minute * 60 + c.second == rem);
    assert(secs_of(c) == days * 86400 + rem);
}

/// Seconds from the start of year 0000 to the given civil date-time;
/// mirrors `secs_of`.
pub fn secs_of_exec(y: u64, mo: u64, d: u64, h: u64, mi: u64, se: u64) -> (r: u64)
    requires
        civil_wf(
            Civil {
                year: y as int,
                month: mo as int,
                day: d as int,
                hour: h as int,
                minute: mi as int,
                second: se as int,
            },
        ),
    ensures
        r == secs_of(
            Civil {
                year: y as int,
                month: mo as int,
                day: d as int,
                hour: h as int,
                minute: mi as int,
                second: se as int,
            },
        ),
        r < max_secs(),
{
    let ghost c = Civil {
        year: y as int,
        month: mo as int,
        day: d as int,
        hour: h as int,
        minute: mi as int,
        second: se as int,
    };
    proof {
        lemma_civil_roundtrip(c);
        lemma_dby_bounds(10000);
    }
    let days: u64 = days_before_year_exec(y) + days_before_month_exec(y, mo) + d - 1;
    days * 86400 + h * 3600 + mi * 60 + se
}

/// Decides leap years; mirrors `is_leap`.
pub fn leap_exec(y: u64) -> (r: bool)
    ensures
        r == is_leap(y as int),
{
    y % 4 == 0 && (y % 100 != 0 || y % 400 == 0)
}

/// Number of days in month `m` of year `y`; mirrors `days_in_month`.
pub fn days_in_month_exec(y: u64, m: u64) -> (r: u64)
    requires
        1 <= m <= 12,
    ensures
        r == days_in_month(y as int, m as int),
        28 <= r <= 31,
{
    if m == 2 {
        if leap_exec(y) {
            29
        } else {
            28
        }
    } else if m == 4 || m == 6 || m == 9 || m == 11 {
        30
    } else {
        31
    }
}

/// Days of year `y` before month `m`; mirrors `days_before_month`.
pub fn days_before_month_exec(y: u64, m: u64) -> (r: u64)
    requires
        1 <= m <= 13,
    ensures
        r == days_before_month(y as int, m as int),
        r <= 366,
{
    let mut acc: u64 = 0;
    let mut i: u64 = 1;
    proof {
        lemma_dbm_mono(y as int, m as int, 13);
        lemma_dbm_full_year(y as int);
    }
    while i < m
        invariant
            1 <= i <= m <= 13,
            acc == days_before_month(y as int, i as int),
            days_before_month(y as int, m as int) <= 366,
            acc <= 366,
        decreases m - i,
    {
        proof {
            lemma_dbm_mono(y as int, (i + 1) as int, m as int);
            lemma_dbm_mono(y as int, 1, (i + 1) as int);
        }
        acc = acc + days_in_month_exec(y, i);
        i = i + 1;
    }
    acc
}

/// Days before year `y`; mirrors `days_before_year`.
pub fn days_before_year_exec(y: u64) -> (r: u64)
    requires
        y <= 10000,
    ensures
        r == days_before_year(y as int),
        r <= 3660000,
{
    let mut acc: u64 = 0;
    let mut i: u64 = 0;
    while i < y
        invariant
            i <= y <= 10000,
            acc == days_before_year(i as int),
            acc <= 366 * i,
        decreases y - i,
    {
        acc = acc + if leap_exec(i) {
            366
        } else {
            365
        };
        i = i + 1;
    }
    proof {
        lemma_dby_bounds(y as int);
    }
    acc
}

/// The civil date-time at `t` seconds from the start of year 0000; mirrors
/// `civil_of`.
pub fn civil_of_exec(t: u64) -> (r: (u64, u64, u64, u64, u64, u64))
    requires
        t < max_secs(),
    ensures
        civil_of(t as int) == (Civil {
            year: r.0 as int,
            month: r.1 as int,
            day: r.2 as int,
            hour: r.3 as int,
            minute: r.4 as int,
            second: r.5 as int,
        }),
        r.0 <= 9999,
        1 <= r.1 <= 12,
        r.3 <= 23,
        r.4 <= 59,
        r.5 <= 59,
{
    proof {
        lemma_dby_bounds(10000);
    }
    let days: u64 = t / 86400;
    let rem: u64 = t % 86400;
    assert(days < days_before_year(10000)) by {
        assert(days * 86400 <= t) by (nonlinear_arith)
            requires days == t as int / 86400, t >= 0;
        if days >= days_before_year(10000) {
            assert(days_before_year(10000) * 86400 <= days * 86400) by (nonlinear_arith)
                requires days_before_year(10000) <= days;
        }
    }

    // Find the year by walking the year lengths.
    let mut y: u64 = 0;
    let mut base: u64 = 0;
    let ghost fy: int = find_year(days as int, 0);
    while y < 9999
        invariant_except_break
            y <= 9999,
            base == days_before_year(y as int),
            base <= 366 * y,
            base <= days,
            fy == find_year(days as int, y as int),
            days < days_before_year(10000),
        ensures
            y <= 9999,
            base == days_before_year(y as int),
            base <= days,
            y == fy,
        decreases 9999 - y,
    {
        let step: u64 = if leap_exec(y) {
            366
        } else {
            365
        };
        if days < base + step {
            break;
        }
        base = base + step;
        y = y + 1;
    }
    let doy: u64 = days - base;

    // Find the month inside the year.
    let mut m: u64 = 1;
    let mut mbase: u64 = 0;
    let ghost fm: int = find_month(y as int, doy as int, 1);
    while m < 12
        invariant_except_break
            1 <= m <= 12,
            mbase == days_before_month(y as int, m as int),
            mbase <= 366,
            mbase <= doy,
            fm == find_month(y as int, doy as int, m as int),
        ensures
            1 <= m <= 12,
            mbase == days_before_month(y as int, m as int),
            mbase <= doy,
            m == fm,
        decreases 12 - m,
    {
        let step = days_in_month_exec(y, m);
        if doy < mbase + step {
            break;
        }
        proof {
            lemma_dbm_mono(y as int, (m + 1) as int, 13);
            lemma_dbm_full_year(y as int);
        }
        mbase = mbase + step;
        m = m + 1;
    }
    let d: u64 = doy - mbase + 1;

    let h: u64 = rem / 3600;
    let rem2: u64 = rem % 3600;
    let mi: u64 = rem2 / 60;
    let se: u64 = rem2 % 60;
    (y, m, d, h, mi, se)
}

} // verus!
