use vstd::prelude::*;
use vstd::arithmetic::div_mod::lemma_fundamental_div_mod;
use vstd::arithmetic::div_mod::lemma_fundamental_div_mod_converse;

verus! {

/// Number of seconds in one calendar day.
pub const SECS_PER_DAY: i64 = 86400;

/// The calendar day (days since 1970-01-01, negative before it) that a
/// timestamp in seconds since the epoch falls on.  Spec division is
/// Euclidean, so for the positive divisor this is the floor.
pub open spec fn day_of_ts(ts: int) -> int {
    ts / (SECS_PER_DAY as int)
}

/// Calendar day of an epoch-seconds timestamp; floor division, so the day
/// boundary falls exactly on each midnight, also before 1970.
pub fn calendar_day(ts: i64) -> (d: i64)
    ensures
        d == day_of_ts(ts as int),
{
    if ts >= 0 {
        ts / SECS_PER_DAY
    } else {
        let m = -(ts + 1);
        let q = m / SECS_PER_DAY;
        proof {
            lemma_fundamental_div_mod(m as int, SECS_PER_DAY as int);
            lemma_fundamental_div_mod_converse(
                ts as int,
                SECS_PER_DAY as int,
                -1 - (q as int),
                SECS_PER_DAY - 1 - (m as int) % (SECS_PER_DAY as int),
            );
        }
        -1 - q
    }
}

/// A Gregorian leap year.
pub open spec fn is_leap(y: int) -> bool {
    y % 4 == 0 && (y % 100 != 0 || y % 400 == 0)
}

pub open spec fn days_in_year(y: int) -> int {
    if is_leap(y) {
        366
    } else {
        365
    }
}

/// Days from 1970-01-01 to the first day of year `y` (negative before 1970).
pub open spec fn days_before_year(y: int) -> int
    decreases
            (if y >= 1970 {
                y - 1970
            } else {
                1970 - y
            }),
{
    if y == 1970 {
        0
    } else if y > 1970 {
        days_before_year(y - 1) + days_in_year(y - 1)
    } else {
        days_before_year(y + 1) - days_in_year(y)
    }
}

pub open spec fn days_in_month(y: int, m: int) -> int {
    if m == 2 {
        if is_leap(y) {
            29
        } else {
            28
        }
    } else if m == 4 || m == 6 || m == 9 || m == 11 {
        30
    } else {
        31
    }
}

/// Days from the first of January of `y` to the first of month `m`.
pub open spec fn days_before_month(y: int, m: int) -> int
    decreases m,
        when m >= 1
{
    if m <= 1 {
        0
    } else {
        days_before_month(y, m - 1) + days_in_month(y, m - 1)
    }
}

pub open spec fn valid_ymd(y: int, m: int, d: int) -> bool {
    1 <= m <= 12 && 1 <= d <= days_in_month(y, m)
}

/// The day number of a calendar date.
pub open spec fn days_from_civil(y: int, m: int, d: int) -> int {
    days_before_year(y) + days_before_month(y, m) + d - 1
}

/// Each following year begins one year's worth of days later.
pub proof fn lemma_dby_succ(y: int)
    ensures
        days_before_year(y + 1) == days_before_year(y) + days_in_year(y),
{
}

pub proof fn lemma_dby_mono(a: int, b: int)
    requires
        a < b,
    ensures
        days_before_year(b) >= days_before_year(a) + 365 * (b - a),
    decreases b - a,
{
    lemma_dby_succ(b - 1);
    if a < b - 1 {
        lemma_dby_mono(a, b - 1);
    }
}

pub proof fn lemma_dby_grows(y: int)
    ensures
        y >= 1970 ==> days_before_year(y) >= y - 1970,
        y <= 1970 ==> days_before_year(y) <= y - 1970,
    decreases
            (if y >= 1970 {
                y - 1970
            } else {
                1970 - y
            }),
{
    if y > 1970 {
        lemma_dby_grows(y - 1);
    } else if y < 1970 {
        lemma_dby_grows(y + 1);
    }
}

/// The whole year is exactly its twelve months.
pub proof fn lemma_year_is_months(y: int)
    ensures
        days_before_month(y, 13) == days_in_year(y),
{
    reveal_with_fuel(days_before_month, 14);
}

pub proof fn lemma_dbm_mono(y: int, a: int, b: int)
    requires
        1 <= a <= b <= 13,
    ensures
        days_before_month(y, b) >= days_before_month(y, a) + 28 * (b - a),
    decreases b - a,
{
    if a < b {
        lemma_dbm_mono(y, a, b - 1);
    }
}

/// One calendar date per day number: two valid dates with the same day
/// number are the same date.
pub proof fn lemma_civil_unique(y1: int, m1: int, d1: int, y2: int, m2: int, d2: int)
    requires
        valid_ymd(y1, m1, d1),
        valid_ymd(y2, m2, d2),
        days_from_civil(y1, m1, d1) == days_from_civil(y2, m2, d2),
    ensures
        y1 == y2 && m1 == m2 && d1 == d2,
{
    lemma_ymd_offset_range(y1, m1, d1);
    lemma_ymd_offset_range(y2, m2, d2);
    lemma_dby_succ(y1);
    lemma_dby_succ(y2);
    if y1 < y2 {
        lemma_dby_mono(y1 + 1, y2);
        assert(false);
    }
    if y2 < y1 {
        lemma_dby_mono(y2 + 1, y1);
        assert(false);
    }
    let o1 = days_before_month(y1, m1) + d1 - 1;
    let o2 = days_before_month(y1, m2) + d2 - 1;
    assert(o1 == o2);
    if m1 < m2 {
        assert(o1 < days_before_month(y1, m1 + 1)) by {
            assert(days_before_month(y1, m1 + 1) == days_before_month(y1, m1) + days_in_month(
                y1,
                m1,
            ));
        }
        lemma_dbm_mono(y1, m1 + 1, m2);
        assert(false);
    }
    if m2 < m1 {
        assert(o2 < days_before_month(y1, m2 + 1)) by {
            assert(days_before_month(y1, m2 + 1) == days_before_month(y1, m2) + days_in_month(
                y1,
                m2,
            ));
        }
        lemma_dbm_mono(y1, m2 + 1, m1);
        assert(false);
    }
}

/// Within its year, a valid date's offset lies before the year's end.
pub proof fn lemma_ymd_offset_range(y: int, m: int, d: int)
    requires
        valid_ymd(y, m, d),
    ensures
        0 <= days_before_month(y, m) + d - 1 < days_in_year(y),
        days_before_month(y, m) >= 0,
    decreases m,
{
    lemma_year_is_months(y);
    assert(days_before_month(y, m) + days_in_month(y, m) == days_before_month(y, m + 1));
    lemma_dbm_mono(y, m + 1, 13);
    if m > 1 {
        lemma_dbm_mono(y, 1, m);
    }
}

/// The calendar date of a day number: the unique valid date with that day
/// number.
pub open spec fn ymd_of_day(day: int) -> (int, int, int) {
    choose|t: (int, int, int)| valid_ymd(t.0, t.1, t.2) && days_from_civil(t.0, t.1, t.2) == day
}

/// Widest day number the calendar conversion accepts; every `i64` timestamp's
/// calendar day lies far inside it.
pub const MAX_DAY_MAG: i64 = 200_000_000_000_000;

fn is_leap_year(y: i64) -> (b: bool)
    requires
        -300_000_000_000_000 <= y <= 300_000_000_000_000,
    ensures
        b == is_leap(y as int),
{
    let z = y + 400_000_000_000_000;
    proof {
        vstd::arithmetic::div_mod::lemma_mod_multiples_vanish(100_000_000_000_000, y as int, 4);
        vstd::arithmetic::div_mod::lemma_mod_multiples_vanish(4_000_000_000_000, y as int, 100);
        vstd::arithmetic::div_mod::lemma_mod_multiples_vanish(1_000_000_000_000, y as int, 400);
    }
    z % 4 == 0 && (z % 100 != 0 || z % 400 == 0)
}

fn days_in_year_x(y: i64) -> (d: i64)
    requires
        -300_000_000_000_000 <= y <= 300_000_000_000_000,
    ensures
        d == days_in_year(y as int),
{
    if is_leap_year(y) {
        366
    } else {
        365
    }
}

fn days_in_month_x(y: i64, m: u8) -> (d: i64)
    requires
        -300_000_000_000_000 <= y <= 300_000_000_000_000,
    ensures
        d == days_in_month(y as int, m as int),
{
    if m == 2 {
        if is_leap_year(y) {
            29
        } else {
            28
        }
    } else if m == 4 || m == 6 || m == 9 || m == 11 {
        30
    } else {
        31
    }
}

/// The calendar date that a day number falls on.
pub fn civil_from_day(day: i64) -> (r: (i64, u8, u8))
    requires
        -MAX_DAY_MAG <= day <= MAX_DAY_MAG,
    ensures
        valid_ymd(r.0 as int, r.1 as int, r.2 as int),
        days_from_civil(r.0 as int, r.1 as int, r.2 as int) == day,
        ymd_of_day(day as int) == (r.0 as int, r.1 as int, r.2 as int),
        -MAX_DAY_MAG <= r.0 <= 1970 + MAX_DAY_MAG,
{
    let mut y: i64 = 1970;
    let mut rem: i64 = day;
    while rem < 0
        invariant
            -MAX_DAY_MAG <= day <= MAX_DAY_MAG,
            y <= 1970,
            days_before_year(y as int) + rem == day,
            rem <= MAX_DAY_MAG,
            y == 1970 || rem < 366,
        decreases 366 - rem,
    {
        proof {
            lemma_dby_grows(y as int);
            lemma_dby_grows(y - 1);
            assert(days_before_year(y as int) == day - rem);
            assert(y > 1970 + day || y == 1970 || days_before_year(y as int) <= y - 1970);
        }
        let dy = days_in_year_x(y - 1);
        proof {
            lemma_dby_succ(y - 1);
        }
        y = y - 1;
        rem = rem + dy;
    }
    proof {
        lemma_dby_grows(y as int);
        assert(days_before_year(y as int) == day - rem);
    }
    while rem >= days_in_year_x(y)
        invariant
            -MAX_DAY_MAG <= day <= MAX_DAY_MAG,
            0 <= rem,
            days_before_year(y as int) + rem == day,
            -MAX_DAY_MAG <= y <= 1970 + MAX_DAY_MAG,
        decreases rem,
    {
        let dy = days_in_year_x(y);
        proof {
            lemma_dby_succ(y as int);
            lemma_dby_grows(y + 1);
            assert(days_before_year(y + 1) == day - (rem - dy));
        }
        rem = rem - dy;
        y = y + 1;
    }
    proof {
        lemma_year_is_months(y as int);
    }
    let mut m: u8 = 1;
    while m < 12 && rem >= days_in_month_x(y, m)
        invariant
            -MAX_DAY_MAG <= y <= 1970 + MAX_DAY_MAG,
            1 <= m <= 12,
            0 <= rem,
            days_before_year(y as int) + days_before_month(y as int, m as int) + rem == day,
            days_before_month(y as int, m as int) + rem < days_in_year(y as int),
        decreases 12 - m,
    {
        let dm = days_in_month_x(y, m);
        proof {
            assert(days_before_month(y as int, m + 1) == days_before_month(y as int, m as int)
                + days_in_month(y as int, m as int));
        }
        rem = rem - dm;
        m = m + 1;
    }
    proof {
        if m == 12 {
            lemma_year_is_months(y as int);
            assert(days_before_month(y as int, 13) == days_before_month(y as int, 12)
                + days_in_month(y as int, 12));
        }
        assert(rem < days_in_month(y as int, m as int));
    }
    let d = (rem + 1) as u8;
    proof {
        assert(valid_ymd(y as int, m as int, d as int));
        assert(days_from_civil(y as int, m as int, d as int) == day);
        let t = ymd_of_day(day as int);
        assert(valid_ymd(t.0, t.1, t.2) && days_from_civil(t.0, t.1, t.2) == day) by {
            let w = (y as int, m as int, d as int);
            assert(valid_ymd(w.0, w.1, w.2) && days_from_civil(w.0, w.1, w.2) == day);
        }
        lemma_civil_unique(t.0, t.1, t.2, y as int, m as int, d as int);
    }
    (y, m, d)
}

} // verus!
