//! The Gregorian (proleptic) calendar, modelled by day numbers.
//!
//! A `Date` is a Rata Die day number: day 1 is January 1 of year 1, and
//! each later day adds 1. Day 1 is a Monday, so a day number divisible
//! by 7 falls on a Sunday. The spec functions below define the usual
//! Gregorian year/month/day reading of a day number, and the executable
//! functions convert between the two forms.

use vstd::prelude::*;
use vstd::arithmetic::div_mod::{
    lemma_fundamental_div_mod, lemma_fundamental_div_mod_converse, lemma_mod_mod,
};

verus! {

/// Earliest calendar year the library accepts.
pub const MIN_YEAR: i32 = 1;

/// Latest calendar year the library accepts.
pub const MAX_YEAR: i32 = 9999;

pub open spec fn is_leap_year(y: int) -> bool {
    (y % 4 == 0 && y % 100 != 0) || y % 400 == 0
}

pub open spec fn days_in_month(y: int, m: int) -> int {
    if m == 2 {
        if is_leap_year(y) {
            29
        } else {
            28
        }
    } else if m == 4 || m == 6 || m == 9 || m == 11 {
        30
    } else {
        31
    }
}

/// Days in year `y` that fall before month `m` (1 = January).
pub open spec fn days_before_month(y: int, m: int) -> int {
    let base: int = if m <= 1 {
        0
    } else if m == 2 {
        31
    } else if m == 3 {
        59
    } else if m == 4 {
        90
    } else if m == 5 {
        120
    } else if m == 6 {
        151
    } else if m == 7 {
        181
    } else if m == 8 {
        212
    } else if m == 9 {
        243
    } else if m == 10 {
        273
    } else if m == 11 {
        304
    } else {
        334
    };
    if m >= 3 && is_leap_year(y) {
        base + 1
    } else {
        base
    }
}

/// Days that fall before January 1 of year `y`, for `y >= 1`.
pub open spec fn days_before_year(y: int) -> int {
    365 * (y - 1) + (y - 1) / 4 - (y - 1) / 100 + (y - 1) / 400
}

/// The Rata Die day number of the given calendar day.
pub open spec fn rata_die(y: int, m: int, d: int) -> int {
    days_before_year(y) + days_before_month(y, m) + d
}

pub open spec fn valid_ymd(y: int, m: int, d: int) -> bool {
    MIN_YEAR <= y <= MAX_YEAR && 1 <= m <= 12 && 1 <= d <= days_in_month(y, m)
}

/// The largest day number of any valid calendar day.
pub open spec fn max_rd() -> int {
    rata_die(MAX_YEAR as int, 12, 31)
}

/// A calendar date, stored as its Rata Die day number.
#[derive(Clone, Copy, PartialEq, Eq, Structural, Debug)]
pub struct Date {
    pub rd: i64,
}

pub open spec fn date_in_range(d: Date) -> bool {
    1 <= d.rd <= max_rd()
}

/// How a division by a positive constant grows when its argument grows
/// by one: it steps up exactly at the multiples.
proof fn lemma_div_step(n: int, k: int)
    requires
        k >= 1,
    ensures
        n / k == (n - 1) / k + (if n % k == 0 {
            1int
        } else {
            0int
        }),
{
    let q = (n - 1) / k;
    let r = (n - 1) % k;
    lemma_fundamental_div_mod(n - 1, k);
    if r == k - 1 {
        assert(n == (q + 1) * k + 0) by (nonlinear_arith)
            requires
                n - 1 == k * q + r,
                r == k - 1,
        ;
        lemma_fundamental_div_mod_converse(n, k, q + 1, 0);
    } else {
        assert(n == q * k + (r + 1)) by (nonlinear_arith)
            requires
                n - 1 == k * q + r,
        ;
        lemma_fundamental_div_mod_converse(n, k, q, r + 1);
    }
}

/// One year adds 365 days, or 366 when the year is a leap year.
pub proof fn lemma_dby_succ(y: int)
    requires
        y >= 1,
    ensures
        days_before_year(y + 1) == days_before_year(y) + 365 + (if is_leap_year(y) {
            1int
        } else {
            0int
        }),
{
    lemma_div_step(y, 4);
    lemma_div_step(y, 100);
    lemma_div_step(y, 400);
    lemma_mod_mod(y, 4, 25);
    lemma_mod_mod(y, 100, 4);
    lemma_mod_mod(y, 4, 100);
}

/// `days_before_year` grows with the year.
pub proof fn lemma_dby_monotone(y1: int, y2: int)
    requires
        1 <= y1 <= y2,
    ensures
        days_before_year(y1) + 365 * (y2 - y1) <= days_before_year(y2),
    decreases y2 - y1,
{
    if y1 < y2 {
        lemma_dby_monotone(y1, y2 - 1);
        lemma_dby_succ(y2 - 1);
    }
}

/// The day number of the first Sunday on or after day `rd`.
pub open spec fn next_sunday_on_or_after(rd: int) -> int {
    if rd % 7 == 0 {
        rd
    } else {
        rd + 7 - rd % 7
    }
}

/// The first Sunday on or after a day is a Sunday, lies within the next
/// week, and no earlier day on or after the start is a Sunday.
pub proof fn lemma_next_sunday(rd: int)
    requires
        rd >= 0,
    ensures
        next_sunday_on_or_after(rd) % 7 == 0,
        rd <= next_sunday_on_or_after(rd) < rd + 7,
        forall|t: int| rd <= t < next_sunday_on_or_after(rd) ==> #[trigger] (t % 7) != 0,
{
    let w = rd % 7;
    lemma_fundamental_div_mod(rd, 7);
    let q = rd / 7;
    if w != 0 {
        lemma_fundamental_div_mod_converse(rd + 7 - w, 7, q + 1, 0);
        assert forall|t: int| rd <= t < next_sunday_on_or_after(rd) implies #[trigger] (t % 7)
            != 0 by {
            lemma_fundamental_div_mod_converse(t, 7, q, t - 7 * q);
        }
    }
}

/// Every valid calendar day has a day number between 1 and `max_rd()`.
pub proof fn lemma_rata_die_in_range(y: int, m: int, d: int)
    requires
        valid_ymd(y, m, d),
    ensures
        1 <= rata_die(y, m, d) <= max_rd(),
        rata_die(y, m, d) <= days_before_year(y + 1),
{
    assert(days_before_year(1) == 0);
    lemma_dby_monotone(1, y);
    lemma_dby_succ(y);
    if y < MAX_YEAR as int {
        lemma_dby_monotone(y + 1, MAX_YEAR as int);
        lemma_dby_succ(MAX_YEAR as int);
    }
}

fn leap_year(y: i32) -> (r: bool)
    requires
        y >= 1,
    ensures
        r == is_leap_year(y as int),
{
    (y % 4 == 0 && y % 100 != 0) || y % 400 == 0
}

fn days_in_month_exec(y: i32, m: u8) -> (r: u8)
    requires
        y >= 1,
        1 <= m <= 12,
    ensures
        r as int == days_in_month(y as int, m as int),
{
    if m == 2 {
        if leap_year(y) {
            29
        } else {
            28
        }
    } else if m == 4 || m == 6 || m == 9 || m == 11 {
        30
    } else {
        31
    }
}

fn days_before_month_exec(y: i32, m: u8) -> (r: i64)
    requires
        y >= 1,
        1 <= m <= 12,
    ensures
        r as int == days_before_month(y as int, m as int),
{
    let base: i64 = match m {
        1 => 0,
        2 => 31,
        3 => 59,
        4 => 90,
        5 => 120,
        6 => 151,
        7 => 181,
        8 => 212,
        9 => 243,
        10 => 273,
        11 => 304,
        _ => 334,
    };
    if m >= 3 && leap_year(y) {
        base + 1
    } else {
        base
    }
}

fn days_before_year_exec(y: i32) -> (r: i64)
    requires
        1 <= y <= 10000,
    ensures
        r as int == days_before_year(y as int),
{
    let yy: i64 = (y - 1) as i64;
    365 * yy + yy / 4 - yy / 100 + yy / 400
}

impl Date {
    /// The date of the given valid calendar day.
    pub fn of_ymd(y: i32, m: u8, d: u8) -> (r: Date)
        requires
            valid_ymd(y as int, m as int, d as int),
        ensures
            r.rd == rata_die(y as int, m as int, d as int),
            date_in_range(r),
    {
        proof {
            lemma_rata_die_in_range(y as int, m as int, d as int);
        }
        Date { rd: days_before_year_exec(y) + days_before_month_exec(y, m) + d as i64 }
    }

    /// Builds a date from year, month and day, rejecting every triple
    /// that is not a Gregorian calendar day in the supported years.
    pub fn from_ymd(y: i32, m: u8, d: u8) -> (r: Option<Date>)
        ensures
            r is Some <==> valid_ymd(y as int, m as int, d as int),
            r matches Some(dt) ==> dt.rd == rata_die(y as int, m as int, d as int)
                && date_in_range(dt),
    {
        if MIN_YEAR <= y && y <= MAX_YEAR && 1 <= m && m <= 12 && 1 <= d && d
            <= days_in_month_exec(y, m) {
            Some(Date::of_ymd(y, m, d))
        } else {
            None
        }
    }

    /// The year, month and day that this date falls on.
    pub fn to_ymd(self) -> (r: (i32, u8, u8))
        requires
            date_in_range(self),
        ensures
            valid_ymd(r.0 as int, r.1 as int, r.2 as int),
            rata_die(r.0 as int, r.1 as int, r.2 as int) == self.rd,
    {
        let rd = self.rd;
        let mut y: i32 = 1;
        while rd > days_before_year_exec(y + 1)
            invariant
                1 <= y <= MAX_YEAR,
                days_before_year(y as int) < rd,
                date_in_range(self),
                rd == self.rd,
            decreases MAX_YEAR - y,
        {
            proof {
                lemma_dby_monotone(y as int + 1, MAX_YEAR as int + 1);
                lemma_dby_succ(MAX_YEAR as int);
            }
            y = y + 1;
        }
        let doy: i64 = rd - days_before_year_exec(y);
        proof {
            lemma_dby_succ(y as int);
        }
        let mut m: u8 = 1;
        while m < 12 && doy > days_before_month_exec(y, m + 1)
            invariant
                1 <= y <= MAX_YEAR,
                1 <= m <= 12,
                doy == rd - days_before_year(y as int),
                days_before_month(y as int, m as int) < doy,
                doy <= 365 + (if is_leap_year(y as int) {
                    1int
                } else {
                    0int
                }),
                rd == self.rd,
            decreases 12 - m,
        {
            m = m + 1;
        }
        let day: i64 = doy - days_before_month_exec(y, m);
        (y, m, day as u8)
    }

    /// The date `n` days after this one (or before it, for negative `n`).
    pub fn add_days(self, n: i64) -> (r: Date)
        requires
            1 <= self.rd + n <= max_rd(),
        ensures
            r.rd == self.rd + n,
            date_in_range(r),
    {
        Date { rd: self.rd + n }
    }

    /// The weekday of this date: 0 for Sunday up to 6 for Saturday,
    /// counting days since the last Sunday.
    pub fn weekday(self) -> (w: u8)
        requires
            date_in_range(self),
        ensures
            w as int == self.rd as int % 7,
    {
        (self.rd % 7) as u8
    }
}

/// The first Sunday on or after the given date, found day by day.
pub fn first_sunday_on_or_after(start: Date) -> (r: Date)
    requires
        date_in_range(start),
        start.rd + 6 <= max_rd(),
    ensures
        r.rd == next_sunday_on_or_after(start.rd as int),
        date_in_range(r),
{
    proof {
        lemma_next_sunday(start.rd as int);
    }
    let mut date = start;
    while date.rd % 7 != 0
        invariant
            start.rd >= 1,
            start.rd <= date.rd <= next_sunday_on_or_after(start.rd as int),
            next_sunday_on_or_after(start.rd as int) <= max_rd(),
        decreases next_sunday_on_or_after(start.rd as int) - date.rd,
    {
        proof {
            lemma_next_sunday(start.rd as int);
        }
        date = Date { rd: date.rd + 1 };
    }
    date
}

} // verus!
