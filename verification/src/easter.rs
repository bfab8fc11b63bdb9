//! Gregorian Easter, by the Meeus/Jones/Butcher algorithm: integer
//! arithmetic only, defined here as spec functions that the executable
//! computation provably reproduces.

use vstd::prelude::*;
use vstd::arithmetic::div_mod::{lemma_fundamental_div_mod, lemma_fundamental_div_mod_converse};
use crate::dates::{
    Date, MAX_YEAR, date_in_range, days_before_year, is_leap_year, lemma_rata_die_in_range,
    rata_die, valid_ymd,
};

verus! {

/// The month-and-day code of Easter: dividing by 31 gives the month,
/// the remainder plus one gives the day.
pub open spec fn easter_value(y: int) -> int {
    let a = y % 19;
    let b = y / 100;
    let c = y % 100;
    let dd = b / 4;
    let e = b % 4;
    let f = (b + 8) / 25;
    let g = (b - f + 1) / 3;
    let h = (19 * a + b - dd - g + 15) % 30;
    let i = c / 4;
    let k = c % 4;
    let l = (32 + 2 * e + 2 * i - h - k) % 7;
    let m = (a + 11 * h + 22 * l) / 451;
    h + l - 7 * m + 114
}

/// Easter month of year `y`: 3 for March, 4 for April.
pub open spec fn easter_month(y: int) -> int {
    easter_value(y) / 31
}

/// Easter day of the month of year `y`.
pub open spec fn easter_day(y: int) -> int {
    easter_value(y) % 31 + 1
}

/// Day number of Easter Sunday of year `y`.
#[verifier::opaque]
pub open spec fn easter_rd(y: int) -> int {
    rata_die(y, easter_month(y), easter_day(y))
}

/// Easter falls between March 22 and April 25 inclusive.
pub proof fn lemma_easter_range(y: int)
    requires
        y >= 1,
    ensures
        114 <= easter_value(y) <= 148,
        (easter_month(y) == 3 && 22 <= easter_day(y) <= 31) || (easter_month(y) == 4 && 1
            <= easter_day(y) <= 25),
        valid_ymd(y, easter_month(y), easter_day(y)) <== y <= MAX_YEAR as int,
{
    let a = y % 19;
    let b = y / 100;
    let c = y % 100;
    let dd = b / 4;
    let e = b % 4;
    let f = (b + 8) / 25;
    let g = (b - f + 1) / 3;
    let h = (19 * a + b - dd - g + 15) % 30;
    let i = c / 4;
    let k = c % 4;
    let l = (32 + 2 * e + 2 * i - h - k) % 7;
    let m = (a + 11 * h + 22 * l) / 451;
    assert(0 <= a <= 18 && 0 <= h <= 29 && 0 <= l <= 6 && 0 <= k <= 3);
    assert(0 <= a + 11 * h + 22 * l <= 469);
    assert(0 <= m <= 1);
    if m == 1 {
        assert(a + 11 * h + 22 * l >= 451);
        assert(h >= 28);
    }
    if h == 29 && l == 6 {
        assert(a + 11 * h + 22 * l >= 451);
        assert(m == 1);
    }
    assert(114 <= easter_value(y) <= 148);
}

/// Easter lies between 81 and 116 days after the start of its year.
pub proof fn lemma_easter_rd_bounds(y: int)
    requires
        1 <= y <= MAX_YEAR as int,
    ensures
        days_before_year(y) + 81 <= easter_rd(y) <= days_before_year(y) + 116,
        1 <= easter_rd(y),
        easter_rd(y) <= rata_die(y, 12, 25) - 200,
{
    reveal(easter_rd);
    lemma_easter_range(y);
    lemma_rata_die_in_range(y, easter_month(y), easter_day(y));
}


/// The Gregorian weekday correction: the days before a year, its leap
/// day, and the century and quadrennial terms of the Easter formula
/// add up to 6 modulo 7, for every year. This is the fact that makes
/// the formula land on Sundays.
proof fn lemma_weekday_correction(y: int)
    requires
        y >= 1,
    ensures
        (days_before_year(y) + (if is_leap_year(y) {
            1int
        } else {
            0int
        }) + 2 * ((y / 100) % 4) + 2 * ((y % 100) / 4) - (y % 100) % 4) % 7 == 6,
{
    let b = y / 100;
    let c = y % 100;
    let dd = b / 4;
    let e = b % 4;
    let i = c / 4;
    let k = c % 4;
    let lp: int = if is_leap_year(y) {
        1
    } else {
        0
    };
    let t = days_before_year(y) + lp + 2 * e + 2 * i - k;
    lemma_fundamental_div_mod(y, 100);
    lemma_fundamental_div_mod(b, 4);
    lemma_fundamental_div_mod(c, 4);
    if c >= 1 {
        lemma_fundamental_div_mod_converse(y - 1, 100, b, c - 1);
        lemma_fundamental_div_mod_converse(y - 1, 400, dd, 100 * e + c - 1);
        lemma_fundamental_div_mod_converse(y, 400, dd, 100 * e + c);
        if k >= 1 {
            lemma_fundamental_div_mod_converse(y - 1, 4, 25 * b + i, k - 1);
            lemma_fundamental_div_mod_converse(y, 4, 25 * b + i, k);
            assert(!is_leap_year(y));
            lemma_fundamental_div_mod_converse(
                t,
                7,
                20871 * dd + 5218 * e + 209 * i + 52 * k - 53,
                6,
            );
        } else {
            lemma_fundamental_div_mod_converse(y - 1, 4, 25 * b + i - 1, 3);
            lemma_fundamental_div_mod_converse(y, 4, 25 * b + i, 0);
            assert(is_leap_year(y));
            lemma_fundamental_div_mod_converse(t, 7, 20871 * dd + 5218 * e + 209 * i - 53, 6);
        }
    } else {
        lemma_fundamental_div_mod_converse(y - 1, 100, b - 1, 99);
        lemma_fundamental_div_mod_converse(y - 1, 4, 25 * b - 1, 3);
        lemma_fundamental_div_mod_converse(y, 4, 25 * b, 0);
        if e >= 1 {
            lemma_fundamental_div_mod_converse(y - 1, 400, dd, 100 * e - 1);
            lemma_fundamental_div_mod_converse(y, 400, dd, 100 * e);
            assert(!is_leap_year(y));
            lemma_fundamental_div_mod_converse(t, 7, 20871 * dd + 5218 * e - 53, 6);
        } else {
            lemma_fundamental_div_mod_converse(y - 1, 400, dd - 1, 399);
            lemma_fundamental_div_mod_converse(y, 400, dd, 0);
            assert(is_leap_year(y));
            lemma_fundamental_div_mod_converse(t, 7, 20871 * dd - 53, 6);
        }
    }
}

/// Easter falls on a Sunday: its day number is divisible by seven.
#[verifier::rlimit(100)]
pub proof fn lemma_easter_sunday(y: int)
    requires
        1 <= y <= MAX_YEAR as int,
    ensures
        easter_rd(y) % 7 == 0,
{
    reveal(easter_rd);
    lemma_easter_range(y);
    let a = y % 19;
    let b = y / 100;
    let c = y % 100;
    let dd = b / 4;
    let e = b % 4;
    let f = (b + 8) / 25;
    let g = (b - f + 1) / 3;
    let h = (19 * a + b - dd - g + 15) % 30;
    let i = c / 4;
    let k = c % 4;
    let l = (32 + 2 * e + 2 * i - h - k) % 7;
    let m = (a + 11 * h + 22 * l) / 451;
    let value = h + l - 7 * m + 114;
    let lp: int = if is_leap_year(y) {
        1
    } else {
        0
    };
    assert(easter_rd(y) == days_before_year(y) + lp + value - 33);
    let x = 32 + 2 * e + 2 * i - h - k;
    lemma_fundamental_div_mod(x, 7);
    assert(h + l == 32 + 2 * e + 2 * i - k - 7 * (x / 7));
    let t = days_before_year(y) + lp + 2 * e + 2 * i - k;
    assert(easter_rd(y) == t + 113 - 7 * (x / 7 + m));
    lemma_weekday_correction(y);
    lemma_fundamental_div_mod(t, 7);
    lemma_fundamental_div_mod_converse(easter_rd(y), 7, t / 7 - (x / 7 + m) + 17, 0);
}

/// Easter Sunday of year `year`: between March 22 and April 25
/// inclusive, and always a Sunday.
pub fn compute_easter(year: i32) -> (r: Date)
    requires
        1 <= year <= MAX_YEAR,
    ensures
        r.rd == easter_rd(year as int),
        date_in_range(r),
        rata_die(year as int, 3, 22) <= r.rd <= rata_die(year as int, 4, 25),
        r.rd % 7 == 0,
{
    let y: i64 = year as i64;
    let a: i64 = y % 19;
    let b: i64 = y / 100;
    let c: i64 = y % 100;
    let dd: i64 = b / 4;
    let e: i64 = b % 4;
    let f: i64 = (b + 8) / 25;
    let g: i64 = (b - f + 1) / 3;
    let h: i64 = (19 * a + b - dd - g + 15) % 30;
    let i: i64 = c / 4;
    let k: i64 = c % 4;
    let l: i64 = (32 + 2 * e + 2 * i - h - k) % 7;
    let m: i64 = (a + 11 * h + 22 * l) / 451;
    let value: i64 = h + l - 7 * m + 114;
    let month: i64 = value / 31;
    let day: i64 = value % 31 + 1;
    proof {
        reveal(easter_rd);
        lemma_easter_range(year as int);
        lemma_easter_sunday(year as int);
    }
    Date::of_ymd(year, month as u8, day as u8)
}

} // verus!
