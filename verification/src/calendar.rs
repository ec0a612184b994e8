//! Civil calendar arithmetic over days counted from 1970-01-01 and
//! timestamps counted in seconds from 1970-01-01 00:00:00. The supported
//! range is the years 1970 through 2099.

use vstd::prelude::*;

verus! {


pub open spec fn is_leap_year(y: int) -> bool {
    y % 4 == 0 && (y % 100 != 0 || y % 400 == 0)
}

pub open spec fn days_in_year(y: int) -> int {
    if is_leap_year(y) {
        366
    } else {
        365
    }
}

pub open spec fn days_in_month(y: int, m: int) -> int {
    if m == 2 {
        if is_leap_year(y) {
            29
        } else {
            28
        }
    } else if m == 4 || m == 6 || m == 9 || m == 11 {
        30
    } else {
        31
    }
}

/// Days from 1970-01-01 to the first day of year `y` (meaningful for y >= 1970).
pub open spec fn year_start(y: int) -> int
    decreases y,
{
    if y <= 1970 {
        0
    } else {
        year_start(y - 1) + days_in_year(y - 1)
    }
}

/// Days from the first day of year `y` to the first day of month `m`
/// (1-based; `m` may be 13, giving the length of the year).
pub open spec fn month_start(y: int, m: int) -> int
    decreases m,
{
    if m <= 1 {
        0
    } else {
        month_start(y, m - 1) + days_in_month(y, m - 1)
    }
}

pub open spec fn year_of_from(d: int, y: int) -> int
    decreases 2099 - y,
{
    if y >= 2099 || d < year_start(y + 1) {
        y
    } else {
        year_of_from(d, y + 1)
    }
}

/// The year containing day `d` (days since 1970-01-01), for days before 2100.
pub open spec fn year_of(d: int) -> int {
    year_of_from(d, 1970)
}

pub open spec fn month_of_from(y: int, off: int, m: int) -> int
    decreases 12 - m,
{
    if m >= 12 || off < month_start(y, m + 1) {
        m
    } else {
        month_of_from(y, off, m + 1)
    }
}

/// The month (1..=12) containing day-of-year offset `off` in year `y`.
pub open spec fn month_of(y: int, off: int) -> int {
    month_of_from(y, off, 1)
}

/// The day of the month (1-based) of day-of-year offset `off` in year `y`.
pub open spec fn day_of_month_of(y: int, off: int) -> int {
    off - month_start(y, month_of(y, off)) + 1
}

/// Day of week of day `d`: 0 = Sunday (1970-01-01 was a Thursday).
pub open spec fn weekday_of_day(d: int) -> int {
    (d + 4) % 7
}

pub proof fn lemma_month_start_full_year(y: int)
    ensures
        month_start(y, 13) == days_in_year(y),
{
    assert(month_start(y, 1) == 0);
    assert(month_start(y, 2) == 31);
    assert(month_start(y, 3) == 31 + days_in_month(y, 2));
    assert(month_start(y, 4) == month_start(y, 3) + 31);
    assert(month_start(y, 5) == month_start(y, 4) + 30);
    assert(month_start(y, 6) == month_start(y, 5) + 31);
    assert(month_start(y, 7) == month_start(y, 6) + 30);
    assert(month_start(y, 8) == month_start(y, 7) + 31);
    assert(month_start(y, 9) == month_start(y, 8) + 31);
    assert(month_start(y, 10) == month_start(y, 9) + 30);
    assert(month_start(y, 11) == month_start(y, 10) + 31);
    assert(month_start(y, 12) == month_start(y, 11) + 30);
    assert(month_start(y, 13) == month_start(y, 12) + 31);
}

pub proof fn lemma_month_start_monotone(y: int, a: int, b: int)
    requires
        1 <= a <= b,
    ensures
        month_start(y, a) <= month_start(y, b),
    decreases b - a,
{
    if a < b {
        lemma_month_start_monotone(y, a, b - 1);
    }
}

pub proof fn lemma_year_start_bounds(a: int, b: int)
    requires
        1970 <= a <= b,
    ensures
        365 * (b - a) <= year_start(b) - year_start(a) <= 366 * (b - a),
    decreases b - a,
{
    if a < b {
        lemma_year_start_bounds(a, b - 1);
    }
}

pub proof fn lemma_year_of_from_props(d: int, y: int)
    requires
        1970 <= y <= 2099,
        year_start(y) <= d,
    ensures
        y <= year_of_from(d, y) <= 2099,
        year_start(year_of_from(d, y)) <= d,
        d < year_start(2100) ==> d < year_start(year_of_from(d, y) + 1),
    decreases 2099 - y,
{
    if !(y >= 2099 || d < year_start(y + 1)) {
        lemma_year_of_from_props(d, y + 1);
    }
}

pub proof fn lemma_year_of_props(d: int)
    requires
        0 <= d < year_start(2100),
    ensures
        1970 <= year_of(d) <= 2099,
        year_start(year_of(d)) <= d,
        d - year_start(year_of(d)) < days_in_year(year_of(d)),
{
    lemma_year_of_from_props(d, 1970);
    assert(year_start(year_of(d) + 1) == year_start(year_of(d)) + days_in_year(year_of(d)));
}

pub proof fn lemma_month_of_from_props(y: int, off: int, m: int)
    requires
        1 <= m <= 12,
        month_start(y, m) <= off,
    ensures
        m <= month_of_from(y, off, m) <= 12,
        month_start(y, month_of_from(y, off, m)) <= off,
        off < month_start(y, 13) ==> off < month_start(y, month_of_from(y, off, m) + 1),
    decreases 12 - m,
{
    if !(m >= 12 || off < month_start(y, m + 1)) {
        lemma_month_of_from_props(y, off, m + 1);
    }
}

pub proof fn lemma_month_of_props(y: int, off: int)
    requires
        0 <= off < days_in_year(y),
    ensures
        1 <= month_of(y, off) <= 12,
        1 <= day_of_month_of(y, off) <= days_in_month(y, month_of(y, off)),
        month_start(y, month_of(y, off)) <= off,
{
    lemma_month_start_full_year(y);
    lemma_month_of_from_props(y, off, 1);
    let m = month_of(y, off);
    assert(month_start(y, m + 1) == month_start(y, m) + days_in_month(y, m));
}

fn leap(y: u64) -> (b: bool)
    ensures
        b == is_leap_year(y as int),
{
    y % 4 == 0 && (y % 100 != 0 || y % 400 == 0)
}

fn year_days(y: u64) -> (r: u64)
    ensures
        r == days_in_year(y as int),
{
    if leap(y) {
        366
    } else {
        365
    }
}

/// How many days the given month has.
pub fn month_days(y: u64, m: u64) -> (r: u64)
    requires
        1 <= m <= 12,
    ensures
        r == days_in_month(y as int, m as int),
{
    if m == 2 {
        if leap(y) {
            29
        } else {
            28
        }
    } else if m == 4 || m == 6 || m == 9 || m == 11 {
        30
    } else {
        31
    }
}

/// Days from 1970-01-01 to the first day of year `y`.
pub fn days_to_year(y: u64) -> (r: u64)
    requires
        1970 <= y <= 2100,
    ensures
        r == year_start(y as int),
        r <= 366 * (y - 1970),
{
    let mut cur: u64 = 1970;
    let mut acc: u64 = 0;
    while cur < y
        invariant
            1970 <= cur <= y <= 2100,
            acc == year_start(cur as int),
            acc <= 366 * (cur - 1970),
        decreases y - cur,
    {
        acc = acc + year_days(cur);
        cur = cur + 1;
    }
    acc
}

/// Number of days from 1970-01-01 up to 2100-01-01 (the calendar horizon).
pub fn horizon_days() -> (r: u64)
    ensures
        r == year_start(2100),
        r <= 47580,
{
    days_to_year(2100)
}

/// Days from the first day of year `y` to the first day of month `m`.
pub fn days_to_month(y: u64, m: u64) -> (r: u64)
    requires
        1 <= m <= 13,
    ensures
        r == month_start(y as int, m as int),
        r <= 366,
{
    proof {
        lemma_month_start_full_year(y as int);
        lemma_month_start_monotone(y as int, m as int, 13);
    }
    let mut cur: u64 = 1;
    let mut acc: u64 = 0;
    while cur < m
        invariant
            1 <= cur <= m <= 13,
            acc == month_start(y as int, cur as int),
            acc <= 366,
            month_start(y as int, cur as int) <= month_start(y as int, 13) <= 366,
        decreases m - cur,
    {
        proof {
            lemma_month_start_monotone(y as int, cur as int + 1, 13);
        }
        acc = acc + month_days(y, cur);
        cur = cur + 1;
    }
    acc
}

/// The calendar date `(year, month, day-of-month)` of day `d`, counted
/// from 1970-01-01.
pub fn civil_of_day(d: u64) -> (r: (u64, u64, u64))
    requires
        d < year_start(2100),
    ensures
        r.0 == year_of(d as int),
        r.1 == month_of(r.0 as int, d - year_start(r.0 as int)),
        r.2 == day_of_month_of(r.0 as int, d - year_start(r.0 as int)),
        1970 <= r.0 <= 2099,
        1 <= r.1 <= 12,
        1 <= r.2 <= days_in_month(r.0 as int, r.1 as int),
        r.2 <= 31,
{
    proof {
        lemma_year_start_bounds(1970, 2100);
    }
    let mut y: u64 = 1970;
    let mut acc: u64 = 0;
    loop
        invariant
            1970 <= y <= 2099,
            acc == year_start(y as int),
            acc <= d < year_start(2100),
            d <= 47580,
            year_of(d as int) == year_of_from(d as int, y as int),
        ensures
            1970 <= y <= 2099,
            acc == year_start(y as int),
            acc <= d < year_start(2100),
            y == year_of(d as int),
        decreases 2099 - y,
    {
        let yd = year_days(y);
        if y >= 2099 || d < acc + yd {
            proof {
                assert(year_of_from(d as int, y as int) == y as int);
            }
            break;
        }
        proof {
            assert(year_start(y as int + 1) == year_start(y as int) + days_in_year(y as int));
        }
        acc = acc + yd;
        y = y + 1;
    }
    proof {
        lemma_year_of_props(d as int);
    }
    let off = d - acc;
    proof {
        lemma_month_of_props(y as int, off as int);
        lemma_month_start_full_year(y as int);
    }
    let mut m: u64 = 1;
    let mut macc: u64 = 0;
    loop
        invariant
            1 <= m <= 12,
            macc == month_start(y as int, m as int),
            macc <= off < days_in_year(y as int),
            off == d - year_start(y as int),
            y == year_of(d as int),
            1970 <= y <= 2099,
            month_of(y as int, off as int) == month_of_from(y as int, off as int, m as int),
        ensures
            1 <= m <= 12,
            macc == month_start(y as int, m as int),
            macc <= off,
            m == month_of(y as int, off as int),
        decreases 12 - m,
    {
        let md = month_days(y, m);
        if m >= 12 || off < macc + md {
            proof {
                assert(month_of_from(y as int, off as int, m as int) == m as int);
            }
            break;
        }
        macc = macc + md;
        m = m + 1;
    }
    proof {
        lemma_month_of_props(y as int, off as int);
    }
    let dom = off - macc + 1;
    (y, m, dom)
}

/// The timestamp of the given civil date and time of day.
pub fn timestamp_of(y: u64, m: u64, dom: u64, h: u64, mi: u64, s: u64) -> (t: i64)
    requires
        1970 <= y <= 2099,
        1 <= m <= 12,
        1 <= dom <= days_in_month(y as int, m as int),
        h < 24,
        mi < 60,
        s < 60,
    ensures
        t == (year_start(y as int) + month_start(y as int, m as int) + dom - 1) * 86400 + h * 3600
            + mi * 60 + s,
        0 <= t,
        t < year_start(2100) * 86400,
{
    let ys = days_to_year(y);
    let ms = days_to_month(y, m);
    let day = ys + ms + dom - 1;
    proof {
        lemma_month_start_monotone(y as int, m as int + 1, 13);
        lemma_month_start_full_year(y as int);
        assert(month_start(y as int, m as int + 1) == month_start(y as int, m as int)
            + days_in_month(y as int, m as int));
        assert(year_start(y as int + 1) == year_start(y as int) + days_in_year(y as int));
        lemma_year_start_bounds(y as int + 1, 2100);
        lemma_year_start_bounds(1970, 2100);
        assert(day < year_start(2100));
    }
    let t = day * 86400 + h * 3600 + mi * 60 + s;
    t as i64
}

} // verus!
