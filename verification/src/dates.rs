//! Calendar arithmetic on days counted from 1970-01-01.
//!
//! Timestamps in this crate are UTC seconds since 1970-01-01T00:00:00Z,
//! kept below [`MAX_TS`] so that every date the crate writes has a
//! four-digit year. The functions here turn a day count into a civil
//! year/month/day and back.

use vstd::prelude::*;

verus! {

/// Upper bound (exclusive) on every timestamp the store holds: a little
/// before the year 9990, so that adding a time-zone offset still lands
/// well below the last four-digit year.
pub const MAX_TS: i64 = 253_000_000_000;

/// Upper bound (exclusive) on day counts that can be turned into a civil
/// date: `365 * 8030` days reach at most 10000-01-01.
pub const MAX_DAY: u64 = 2_930_950;

pub open spec fn is_leap_year(y: int) -> bool {
    (y % 4 == 0 && y % 100 != 0) || y % 400 == 0
}

pub open spec fn days_in_year(y: int) -> int {
    if is_leap_year(y) {
        366
    } else {
        365
    }
}

pub open spec fn days_in_month(y: int, m: int) -> int {
    if m == 2 {
        if is_leap_year(y) {
            29
        } else {
            28
        }
    } else if m == 4 || m == 6 || m == 9 || m == 11 {
        30
    } else {
        31
    }
}

/// Days from 1970-01-01 to the first day of year `y` (0 for 1970 and earlier).
pub open spec fn days_before_year(y: int) -> int
    decreases y - 1970,
{
    if y <= 1970 {
        0
    } else {
        days_before_year(y - 1) + days_in_year(y - 1)
    }
}

/// Days from the first day of year `y` to the first day of month `m`.
pub open spec fn days_before_month(y: int, m: int) -> int
    decreases m,
{
    if m <= 1 {
        0
    } else {
        days_before_month(y, m - 1) + days_in_month(y, m - 1)
    }
}

/// The day count of the civil date `y-m-d`.
pub open spec fn days_from_civil(y: int, m: int, d: int) -> int {
    days_before_year(y) + days_before_month(y, m) + (d - 1)
}

pub open spec fn valid_ymd(y: int, m: int, d: int) -> bool {
    1970 <= y < 10000 && 1 <= m <= 12 && 1 <= d <= days_in_month(y, m)
}

/// Walk forward from year `y` until the remaining day count `z` falls
/// inside a year; the result is that year and the day offset into it.
pub open spec fn find_year(y: int, z: int) -> (int, int)
    decreases z,
{
    if z < days_in_year(y) {
        (y, z)
    } else {
        find_year(y + 1, z - days_in_year(y))
    }
}

/// Walk forward from month `m` of year `y` until the remaining day count
/// `z` falls inside a month; the result is that month and the day offset
/// into it.
pub open spec fn find_month(y: int, m: int, z: int) -> (int, int)
    decreases z,
{
    if z < days_in_month(y, m) {
        (m, z)
    } else {
        find_month(y, m + 1, z - days_in_month(y, m))
    }
}

/// The civil date of day count `z`: year, month, and day of month.
pub open spec fn civil_of_day(z: int) -> (int, int, int) {
    let (y, doy) = find_year(1970, z);
    let (m, dom) = find_month(y, 1, doy);
    (y, m, dom + 1)
}

proof fn lemma_find_year(y: int, z: int)
    requires
        y >= 1970,
        z >= 0,
    ensures
        ({
            let (fy, fz) = find_year(y, z);
            &&& fy >= y
            &&& 0 <= fz < days_in_year(fy)
            &&& days_before_year(fy) == days_before_year(y) + z - fz
        }),
    decreases z,
{
    if z >= days_in_year(y) {
        lemma_find_year(y + 1, z - days_in_year(y));
    }
}

proof fn lemma_days_before_month_full(y: int)
    ensures
        days_before_month(y, 13) == days_in_year(y),
{
    reveal_with_fuel(days_before_month, 13);
}

proof fn lemma_find_month(y: int, m: int, z: int)
    requires
        1 <= m <= 12,
        0 <= z,
        days_before_month(y, m) + z < days_in_year(y),
    ensures
        ({
            let (fm, fz) = find_month(y, m, z);
            &&& m <= fm <= 12
            &&& 0 <= fz < days_in_month(y, fm)
            &&& days_before_month(y, fm) + fz == days_before_month(y, m) + z
        }),
    decreases z,
{
    lemma_days_before_month_full(y);
    if z >= days_in_month(y, m) {
        if m == 12 {
            assert(days_before_month(y, 13) == days_before_month(y, 12) + days_in_month(y, 12));
        } else {
            lemma_find_month(y, m + 1, z - days_in_month(y, m));
        }
    }
}

/// Each year from 1970 on adds at least 365 days to the count.
proof fn lemma_days_before_year_lower(y: int)
    requires
        y >= 1970,
    ensures
        days_before_year(y) >= 365 * (y - 1970),
    decreases y - 1970,
{
    if y > 1970 {
        lemma_days_before_year_lower(y - 1);
    }
}

/// The civil date of a day count below [`MAX_DAY`] is a valid date with a
/// four-digit year, and maps back to the same day count.
pub proof fn lemma_civil_of_day(z: int)
    requires
        0 <= z < MAX_DAY,
    ensures
        ({
            let (y, m, d) = civil_of_day(z);
            &&& valid_ymd(y, m, d)
            &&& days_from_civil(y, m, d) == z
        }),
{
    let (y, doy) = find_year(1970, z);
    lemma_find_year(1970, z);
    if y >= 10000 {
        lemma_days_before_year_lower(y);
    }
    lemma_find_month(y, 1, doy);
}

/// Number of days in `y-m`, executable form.
pub fn days_in_month_x(y: u64, m: u64) -> (r: u64)
    ensures
        r == days_in_month(y as int, m as int),
{
    if m == 2 {
        if (y % 4 == 0 && y % 100 != 0) || y % 400 == 0 {
            29
        } else {
            28
        }
    } else if m == 4 || m == 6 || m == 9 || m == 11 {
        30
    } else {
        31
    }
}

fn days_in_year_x(y: u64) -> (r: u64)
    ensures
        r == days_in_year(y as int),
{
    if (y % 4 == 0 && y % 100 != 0) || y % 400 == 0 {
        366
    } else {
        365
    }
}

/// The civil date of day count `z`, executable form.
pub fn civil_from_days(z: u64) -> (r: (u64, u64, u64))
    requires
        z < MAX_DAY,
    ensures
        (r.0 as int, r.1 as int, r.2 as int) == civil_of_day(z as int),
        valid_ymd(r.0 as int, r.1 as int, r.2 as int),
        days_from_civil(r.0 as int, r.1 as int, r.2 as int) == z,
{
    let mut y: u64 = 1970;
    let mut rem: u64 = z;
    loop
        invariant
            1970 <= y < 10000,
            rem <= z < MAX_DAY,
            days_before_year(y as int) + rem == z,
            find_year(1970, z as int) == find_year(y as int, rem as int),
        ensures
            1970 <= y < 10000,
            rem < days_in_year(y as int),
            days_before_year(y as int) + rem == z,
            find_year(1970, z as int) == (y as int, rem as int),
        decreases rem,
    {
        let diy = days_in_year_x(y);
        if rem < diy {
            break;
        }
        proof {
            lemma_days_before_year_lower(y as int + 1);
        }
        rem = rem - diy;
        y = y + 1;
    }
    let ghost doy: int = rem as int;
    let mut m: u64 = 1;
    loop
        invariant
            1 <= m <= 12,
            1970 <= y < 10000,
            doy < days_in_year(y as int),
            days_before_month(y as int, m as int) + rem == doy,
            find_month(y as int, 1, doy) == find_month(y as int, m as int, rem as int),
        ensures
            1 <= m <= 12,
            rem < days_in_month(y as int, m as int),
            days_before_month(y as int, m as int) + rem == doy,
            find_month(y as int, 1, doy) == (m as int, rem as int),
        decreases 12 - m,
    {
        let dim = days_in_month_x(y, m);
        if rem < dim {
            break;
        }
        proof {
            lemma_days_before_month_full(y as int);
            if m == 12 {
                assert(days_before_month(y as int, 13) == days_before_month(y as int, 12)
                    + days_in_month(y as int, 12));
            }
        }
        rem = rem - dim;
        m = m + 1;
    }
    (y, m, rem + 1)
}

/// The day count of `y-m-d`, executable form.
pub fn civil_to_days(y: u64, m: u64, d: u64) -> (z: u64)
    requires
        valid_ymd(y as int, m as int, d as int),
    ensures
        z == days_from_civil(y as int, m as int, d as int),
        z < 3_000_000,
{
    let mut acc: u64 = 0;
    let mut yy: u64 = 1970;
    while yy < y
        invariant
            1970 <= yy <= y < 10000,
            acc == days_before_year(yy as int),
            acc <= 366 * (yy - 1970),
        decreases y - yy,
    {
        acc = acc + days_in_year_x(yy);
        yy = yy + 1;
    }
    let mut mm: u64 = 1;
    while mm < m
        invariant
            1 <= mm <= m <= 12,
            1970 <= y < 10000,
            acc == days_before_year(y as int) + days_before_month(y as int, mm as int),
            acc <= 366 * (y - 1970) + 31 * (mm - 1),
        decreases m - mm,
    {
        acc = acc + days_in_month_x(y, mm);
        mm = mm + 1;
    }
    acc + (d - 1)
}

} // verus!
