//! Anchors of the liturgical year: the First Sunday of Advent, the
//! liturgical year an arbitrary date belongs to, and the three-year
//! rotation of reading sets.

use vstd::prelude::*;
use vstd::arithmetic::div_mod::{lemma_fundamental_div_mod, lemma_fundamental_div_mod_converse};
use crate::dates::{
    Date, MAX_YEAR, date_in_range, days_before_year, first_sunday_on_or_after, lemma_dby_succ,
    lemma_next_sunday, lemma_rata_die_in_range, next_sunday_on_or_after, rata_die, valid_ymd,
};

verus! {

/// Day number of the First Sunday of Advent of year `y`: the first
/// Sunday on or after November 21 of `y`.
pub open spec fn advent_rd(y: int) -> int {
    next_sunday_on_or_after(rata_die(y, 11, 21))
}

/// The First Sunday of Advent falls between November 21 and November 27
/// inclusive, on a Sunday, and no earlier day from November 21 on is a
/// Sunday.
pub proof fn lemma_advent_window(y: int)
    requires
        1 <= y <= MAX_YEAR as int,
    ensures
        rata_die(y, 11, 21) <= advent_rd(y) <= rata_die(y, 11, 27),
        advent_rd(y) % 7 == 0,
        forall|t: int| rata_die(y, 11, 21) <= t < advent_rd(y) ==> #[trigger] (t % 7) != 0,
{
    lemma_rata_die_in_range(y, 11, 21);
    lemma_next_sunday(rata_die(y, 11, 21));
}

/// The First Sunday of Advent of year `year`.
pub fn first_sunday_of_advent(year: i32) -> (r: Date)
    requires
        1 <= year <= MAX_YEAR,
    ensures
        r.rd == advent_rd(year as int),
        rata_die(year as int, 11, 21) <= r.rd <= rata_die(year as int, 11, 27),
        r.rd % 7 == 0,
        date_in_range(r),
{
    proof {
        lemma_advent_window(year as int);
        lemma_rata_die_in_range(year as int, 11, 27);
    }
    let base = Date::of_ymd(year, 11, 21);
    first_sunday_on_or_after(base)
}

/// The liturgical year that the day `(y, m, d)` belongs to: `y` itself
/// from that year's First Sunday of Advent on, otherwise `y - 1`.
pub open spec fn spec_lit_year(y: int, m: int, d: int) -> int {
    if rata_die(y, m, d) >= advent_rd(y) {
        y
    } else {
        y - 1
    }
}

/// A day on or after year `y`'s First Sunday of Advent still falls
/// before year `y + 1`'s, and a day before it falls no earlier than
/// year `y - 1`'s: every day lies in exactly the liturgical year that
/// `spec_lit_year` names.
pub proof fn lemma_query_in_lit_year(y: int, m: int, d: int)
    requires
        valid_ymd(y, m, d),
        y >= 2,
    ensures
        advent_rd(spec_lit_year(y, m, d)) <= rata_die(y, m, d) < advent_rd(spec_lit_year(y, m, d)
            + 1),
{
    let rd = rata_die(y, m, d);
    lemma_rata_die_in_range(y, m, d);
    lemma_dby_succ(y);
    if rd >= advent_rd(y) {
        lemma_next_sunday(rata_die(y + 1, 11, 21));
        assert(rata_die(y + 1, 11, 21) > days_before_year(y + 1));
    } else {
        lemma_advent_window(y - 1);
        lemma_dby_succ(y - 1);
        assert(rata_die(y - 1, 11, 27) <= days_before_year(y));
    }
}

pub fn compute_liturgical_year(y: i32, m: u8, d: u8) -> (ly: i32)
    requires
        valid_ymd(y as int, m as int, d as int),
        y >= 2,
    ensures
        ly as int == spec_lit_year(y as int, m as int, d as int),
{
    let dt = Date::of_ymd(y, m, d);
    let advent = first_sunday_of_advent(y);
    if dt.rd >= advent.rd {
        y
    } else {
        y - 1
    }
}

/// The reading set of a liturgical year: Advent 2024 opens set 1, and
/// the set steps through 1, 2, 3 year by year, repeating every three
/// years — for earlier years as well.
pub open spec fn spec_set(lit_year: int) -> int {
    (lit_year - 2024) % 3 + 1
}

/// The reading-set rotation has period three.
pub proof fn lemma_set_periodic(y: int)
    ensures
        spec_set(y + 3) == spec_set(y),
{
    vstd::arithmetic::div_mod::lemma_mod_multiples_vanish(1, y - 2024, 3);
}

/// Advent 2024 is anchored to set 1.
pub proof fn lemma_set_anchor()
    ensures
        spec_set(2024) == 1,
{
}

/// The reading set for a liturgical year, always in {1, 2, 3}.
pub fn compute_set(lit_year: i32) -> (r: i32)
    ensures
        r as int == spec_set(lit_year as int),
        1 <= r <= 3,
{
    if lit_year >= 2024 {
        let diff: i64 = lit_year as i64 - 2024;
        (diff % 3 + 1) as i32
    } else {
        let diff: i64 = 2024 - lit_year as i64;
        let r: i64 = diff % 3;
        proof {
            let q = diff as int / 3;
            lemma_fundamental_div_mod(diff as int, 3);
            if r == 0 {
                lemma_fundamental_div_mod_converse(lit_year as int - 2024, 3, -q, 0);
            } else {
                lemma_fundamental_div_mod_converse(lit_year as int - 2024, 3, -q - 1, 3 - r);
            }
        }
        if r == 0 {
            1
        } else {
            (3 - r + 1) as i32
        }
    }
}

} // verus!
