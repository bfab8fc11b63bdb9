//! Event generation for one liturgical year.
//!
//! Seven rule groups, in priority order 1 to 7, each propose candidate
//! events; a candidate whose date falls inside the liturgical year is
//! inserted into a date-keyed table, and on a date collision the
//! candidate with the higher priority wins (at equal priority the
//! later-inserted candidate, which here is always the same event).
//! The table is kept as a vector sorted by date with unique dates.

use vstd::prelude::*;
use crate::calendar::{advent_rd, first_sunday_of_advent, lemma_advent_window};
use crate::dates::{
    Date, MAX_YEAR, days_before_year, first_sunday_on_or_after, lemma_dby_succ,
    lemma_next_sunday, lemma_rata_die_in_range, max_rd, next_sunday_on_or_after, rata_die,
};
use crate::easter::{compute_easter, easter_rd, lemma_easter_rd_bounds};

verus! {

/// The pericope an event stands for. The variant index is the offset
/// in the weekly series: `Advent(3)` is the event labelled
/// "advent + 3", `EasterBefore(9)` the one labelled "easter - 9".
#[derive(Clone, Copy, PartialEq, Eq, Structural, Debug)]
pub enum Label {
    Advent(u8),
    Christmas(u8),
    NewYear,
    Epiphany(u8),
    EasterBefore(u8),
    Easter(u8),
    Pentecost,
    Trinity(u8),
}

/// The altar color assigned to an event.
#[derive(Clone, Copy, PartialEq, Eq, Structural, Debug)]
pub enum Color {
    Purple,
    White,
    Green,
    Red,
}


/// The name of an altar color.
pub open spec fn color_text(c: Color) -> Seq<char> {
    match c {
        Color::Purple => "purple"@,
        Color::White => "white"@,
        Color::Green => "green"@,
        Color::Red => "red"@,
    }
}

impl Color {
    /// The name of this color, as the calendar prints it.
    pub fn text(self) -> (r: &'static str)
        ensures
            r@ == color_text(self),
    {
        match self {
            Color::Purple => "purple",
            Color::White => "white",
            Color::Green => "green",
            Color::Red => "red",
        }
    }
}

/// One event of the liturgical calendar.
#[derive(Clone, Copy, PartialEq, Eq, Structural, Debug)]
pub struct Event {
    pub label: Label,
    pub date: Date,
    pub altar_color: Color,
    pub priority: u8,
}

/// Day number of Christmas of year `y`, fixed at December 25.
pub open spec fn christmas_rd(y: int) -> int {
    rata_die(y, 12, 25)
}

/// Day number of the Sunday after Christmas: the first Sunday on or
/// after December 26 of year `y`.
pub open spec fn christmas1_rd(y: int) -> int {
    next_sunday_on_or_after(christmas_rd(y) + 1)
}

/// Day number of the New Year candidate: one week after the Sunday
/// after Christmas.
pub open spec fn new_year_rd(y: int) -> int {
    christmas1_rd(y) + 7
}

/// Day number of January 6 following the Christmas of year `y`.
pub open spec fn jan6_rd(y: int) -> int {
    rata_die(y + 1, 1, 6)
}

/// Whether the "new year" event is emitted: only when its candidate
/// date falls on or after January 6.
pub open spec fn new_year_emitted(y: int) -> bool {
    new_year_rd(y) >= jan6_rd(y)
}

/// Where the Epiphany series starts: on the withheld New Year
/// candidate date when that fell before January 6, otherwise on the
/// first Sunday on or after January 6.
pub open spec fn epiphany_start_rd(y: int) -> int {
    if new_year_emitted(y) {
        next_sunday_on_or_after(jan6_rd(y))
    } else {
        new_year_rd(y)
    }
}

pub open spec fn epiphany_color(i: int) -> Color {
    if i == 0 {
        Color::White
    } else {
        Color::Green
    }
}

/// Color of "easter - j": white for the last two and the seventh
/// before Easter, purple for the four of Lent before those, green for
/// the two earliest.
pub open spec fn pre_easter_color(j: int) -> Color {
    if j >= 8 {
        Color::Green
    } else if j == 7 {
        Color::White
    } else if j >= 3 {
        Color::Purple
    } else {
        Color::White
    }
}

pub open spec fn trinity_color(i: int) -> Color {
    if i == 0 {
        Color::White
    } else if i == 5 {
        Color::Red
    } else {
        Color::Green
    }
}

/// The number of candidate slots; slot 7 (the "new year" candidate)
/// is only occupied in the years where that event is emitted.
pub open spec fn n_slots() -> int {
    60
}

/// The candidate event in generation slot `t` for liturgical year `y`:
/// slots 0-4 Advent, 5-7 the Christmas group, 8-14 Epiphany, 15-23 the
/// pre-Easter series, 24-30 the Easter series, 31 Pentecost, 32-59 the
/// Trinity series. Generation order coincides with priority order.
pub open spec fn cand_at(y: int, t: int, ev: Event) -> bool {
    if 0 <= t < 5 {
        ev.label == Label::Advent(t as u8) && ev.date.rd == advent_rd(y) + 7 * t
            && ev.altar_color == Color::Purple && ev.priority == 1
    } else if t == 5 {
        ev.label == Label::Christmas(0) && ev.date.rd == christmas_rd(y) && ev.altar_color
            == Color::White && ev.priority == 2
    } else if t == 6 {
        ev.label == Label::Christmas(1) && ev.date.rd == christmas1_rd(y) && ev.altar_color
            == Color::White && ev.priority == 2
    } else if t == 7 {
        new_year_emitted(y) && ev.label == Label::NewYear && ev.date.rd == new_year_rd(y)
            && ev.altar_color == Color::White && ev.priority == 2
    } else if 8 <= t < 15 {
        ev.label == Label::Epiphany((t - 8) as u8) && ev.date.rd == epiphany_start_rd(y) + 7 * (t
            - 8) && ev.altar_color == epiphany_color(t - 8) && ev.priority == 3
    } else if 15 <= t < 24 {
        ev.label == Label::EasterBefore((t - 14) as u8) && ev.date.rd == easter_rd(y + 1) - 7 * (t
            - 14) && ev.altar_color == pre_easter_color(t - 14) && ev.priority == 4
    } else if 24 <= t < 31 {
        ev.label == Label::Easter((t - 24) as u8) && ev.date.rd == easter_rd(y + 1) + 7 * (t - 24)
            && ev.altar_color == Color::White && ev.priority == 5
    } else if t == 31 {
        ev.label == Label::Pentecost && ev.date.rd == easter_rd(y + 1) + 49 && ev.altar_color
            == Color::Red && ev.priority == 6
    } else if 32 <= t < 60 {
        ev.label == Label::Trinity((t - 32) as u8) && ev.date.rd == easter_rd(y + 1) + 56 + 7 * (t
            - 32) && ev.altar_color == trinity_color(t - 32) && ev.priority == 7
    } else {
        false
    }
}

/// Whether `ev` is among the candidates of the first `n` slots.
pub open spec fn cand_before(y: int, n: int, ev: Event) -> bool {
    exists|t: int| 0 <= t < n && #[trigger] cand_at(y, t, ev)
}

/// Whether `ev` is a candidate event of liturgical year `y`.
pub open spec fn is_candidate(y: int, ev: Event) -> bool {
    cand_before(y, n_slots(), ev)
}

/// Whether day `rd` falls inside liturgical year `y`: on or after its
/// First Sunday of Advent and before the next one.
pub open spec fn in_lit_year(y: int, rd: int) -> bool {
    advent_rd(y) <= rd < advent_rd(y + 1)
}

/// The events hold strictly increasing dates, so each date occurs at
/// most once.
pub open spec fn sorted_unique(s: Seq<Event>) -> bool {
    forall|i: int, j: int|
        0 <= i < j < s.len() ==> #[trigger] s[i].date.rd < #[trigger] s[j].date.rd
}

/// Whether some event in `s` falls on day `d`.
pub open spec fn has_date(s: Seq<Event>, d: int) -> bool {
    exists|i: int| 0 <= i < s.len() && #[trigger] s[i].date.rd == d
}

/// The event of `s` that falls on day `d` (meaningful when
/// `has_date(s, d)` holds and dates are unique).
pub open spec fn at_date(s: Seq<Event>, d: int) -> Event {
    s[choose|i: int| 0 <= i < s.len() && #[trigger] s[i].date.rd == d]
}

/// In a date-unique sequence, the event at the date of entry `i` is
/// entry `i` itself.
pub proof fn lemma_at_date(s: Seq<Event>, i: int)
    requires
        sorted_unique(s),
        0 <= i < s.len(),
    ensures
        has_date(s, s[i].date.rd as int),
        at_date(s, s[i].date.rd as int) == s[i],
{
    let d = s[i].date.rd as int;
    assert(has_date(s, d));
    let j = choose|j: int| 0 <= j < s.len() && #[trigger] s[j].date.rd == d;
    if i < j {
        assert(s[i].date.rd < s[j].date.rd);
    } else if j < i {
        assert(s[j].date.rd < s[i].date.rd);
    }
}

/// Every candidate of the first `n` slots whose date is in the year is
/// represented in `s`: its date is present, and what holds that date
/// has at least its priority.
pub open spec fn covered(y: int, n: int, s: Seq<Event>) -> bool {
    forall|ev: Event|
        #[trigger] cand_before(y, n, ev) && in_lit_year(y, ev.date.rd as int) ==> has_date(s, ev.date.rd as int)
            && at_date(s, ev.date.rd as int).priority >= ev.priority
}

/// Every event of `s` is a candidate of year `y` dated inside the
/// year.
pub open spec fn all_candidates(y: int, s: Seq<Event>) -> bool {
    forall|i: int|
        0 <= i < s.len() ==> is_candidate(y, #[trigger] s[i]) && in_lit_year(y, s[i].date.rd as int)
}

/// Inserts a candidate event into the date-sorted table: ignored
/// outside `[start_rd, end_rd)`; on a free date it is added; on an
/// occupied date it replaces the holder unless the holder has strictly
/// higher priority.
#[verifier::rlimit(100)]
#[verifier::loop_isolation(false)]
fn insert_event(events: &mut Vec<Event>, ev: Event, start_rd: i64, end_rd: i64)
    requires
        sorted_unique(old(events)@),
        old(events)@.len() < usize::MAX,
    ensures
        sorted_unique(final(events)@),
        final(events)@.len() <= old(events)@.len() + 1,
        forall|d: int|
            d != ev.date.rd ==> (#[trigger] has_date(final(events)@, d) <==> has_date(
                old(events)@,
                d,
            )),
        forall|d: int|
            d != ev.date.rd && has_date(old(events)@, d) ==> #[trigger] at_date(final(events)@, d)
                == at_date(old(events)@, d),
        (start_rd <= ev.date.rd < end_rd) ==> has_date(final(events)@, ev.date.rd as int)
            && at_date(final(events)@, ev.date.rd as int) == (if has_date(
            old(events)@,
            ev.date.rd as int,
        ) && at_date(old(events)@, ev.date.rd as int).priority > ev.priority {
            at_date(old(events)@, ev.date.rd as int)
        } else {
            ev
        }),
        !(start_rd <= ev.date.rd < end_rd) ==> final(events)@ == old(events)@,
        forall|i: int|
            0 <= i < final(events)@.len() ==> final(events)@[i] == ev || old(events)@.contains(
                #[trigger] final(events)@[i],
            ),
{
    if !(start_rd <= ev.date.rd && ev.date.rd < end_rd) {
        return ;
    }
    let ghost old_s = events@;
    let mut idx: usize = 0;
    while idx < events.len() && events[idx].date.rd < ev.date.rd
        invariant
            idx <= events@.len(),
            events@ == old_s,
            forall|j: int| 0 <= j < idx ==> #[trigger] events@[j].date.rd < ev.date.rd,
        decreases events@.len() - idx,
    {
        idx = idx + 1;
    }
    if idx < events.len() && events[idx].date.rd == ev.date.rd {
        proof {
            lemma_at_date(old_s, idx as int);
        }
        if ev.priority >= events[idx].priority {
            vstd::pervasive::VecAdditionalExecFns::set(events, idx, ev);
            proof {
                let new_s = events@;
                assert forall|d: int| d != ev.date.rd implies (#[trigger] has_date(new_s, d)
                    <==> has_date(old_s, d)) by {
                    if has_date(new_s, d) {
                        let i = choose|i: int|
                            0 <= i < new_s.len() && #[trigger] new_s[i].date.rd == d;
                        assert(old_s[i].date.rd == d);
                    }
                    if has_date(old_s, d) {
                        let i = choose|i: int|
                            0 <= i < old_s.len() && #[trigger] old_s[i].date.rd == d;
                        assert(new_s[i].date.rd == d);
                    }
                }
                assert forall|d: int|
                    d != ev.date.rd && has_date(old_s, d) implies #[trigger] at_date(new_s, d)
                    == at_date(old_s, d) by {
                    let i = choose|i: int| 0 <= i < old_s.len() && #[trigger] old_s[i].date.rd == d;
                    lemma_at_date(old_s, i);
                    lemma_at_date(new_s, i);
                }
                lemma_at_date(events@, idx as int);
            }
        }
    } else {
        events.insert(idx, ev);
        proof {
            let new_s = events@;
            assert forall|i: int, j: int| 0 <= i < j < new_s.len() implies #[trigger] new_s[i].date.rd
                < #[trigger] new_s[j].date.rd by {
                if idx < new_s.len() - 1 && idx as int + 1 <= j {
                    assert(new_s[j] == old_s[j - 1]);
                }
            }
            assert forall|d: int| d != ev.date.rd implies (#[trigger] has_date(new_s, d) <==> has_date(
                old_s,
                d,
            )) by {
                if has_date(new_s, d) {
                    let i = choose|i: int| 0 <= i < new_s.len() && #[trigger] new_s[i].date.rd == d;
                    if i < idx {
                        assert(old_s[i].date.rd == d);
                    } else {
                        assert(old_s[i - 1].date.rd == d);
                    }
                }
                if has_date(old_s, d) {
                    let i = choose|i: int| 0 <= i < old_s.len() && #[trigger] old_s[i].date.rd == d;
                    if i < idx {
                        assert(new_s[i].date.rd == d);
                    } else {
                        assert(new_s[i + 1].date.rd == d);
                    }
                }
            }
            assert forall|d: int|
                d != ev.date.rd && has_date(old_s, d) implies #[trigger] at_date(new_s, d) == at_date(
                old_s,
                d,
            ) by {
                let i = choose|i: int| 0 <= i < old_s.len() && #[trigger] old_s[i].date.rd == d;
                lemma_at_date(old_s, i);
                if i < idx {
                    lemma_at_date(new_s, i);
                } else {
                    lemma_at_date(new_s, i + 1);
                }
            }
            lemma_at_date(new_s, idx as int);
            assert forall|i: int|
                0 <= i < new_s.len() implies new_s[i] == ev || old_s.contains(
                #[trigger] new_s[i],
            ) by {
                if i < idx {
                    assert(new_s[i] == old_s[i]);
                } else if i > idx {
                    assert(new_s[i] == old_s[i - 1]);
                }
            }
        }
    }
}

/// After one insertion, every candidate of the slots up to and
/// including the inserted one is represented by its date with at
/// least its priority.
proof fn lemma_covered_step(
    y: int,
    t: int,
    ev: Event,
    old_s: Seq<Event>,
    new_s: Seq<Event>,
)
    requires
        0 <= t < n_slots(),
        cand_at(y, t, ev),
        covered(y, t, old_s),
        forall|d: int| d != ev.date.rd ==> (#[trigger] has_date(new_s, d) <==> has_date(old_s, d)),
        forall|d: int|
            d != ev.date.rd && has_date(old_s, d) ==> #[trigger] at_date(new_s, d) == at_date(
                old_s,
                d,
            ),
        in_lit_year(y, ev.date.rd as int) ==> has_date(new_s, ev.date.rd as int) && at_date(
            new_s,
            ev.date.rd as int,
        ).priority >= ev.priority && (has_date(old_s, ev.date.rd as int) ==> at_date(
            new_s,
            ev.date.rd as int,
        ).priority >= at_date(old_s, ev.date.rd as int).priority),
    ensures
        covered(y, t + 1, new_s),
{
    assert forall|ev2: Event|
        #[trigger] cand_before(y, t + 1, ev2) && in_lit_year(y, ev2.date.rd as int) implies has_date(
        new_s,
        ev2.date.rd as int,
    ) && at_date(new_s, ev2.date.rd as int).priority >= ev2.priority by {
        let d = ev2.date.rd as int;
        let t2 = choose|t2: int| 0 <= t2 < t + 1 && #[trigger] cand_at(y, t2, ev2);
        if t2 < t {
            assert(cand_before(y, t, ev2));
            assert(has_date(old_s, d) && at_date(old_s, d).priority >= ev2.priority);
        } else {
            assert(ev2 == ev);
        }
    }
}

/// Adding one in-year candidate keeps every table entry an in-year
/// candidate.
proof fn lemma_all_candidates_step(y: int, t: int, ev: Event, old_s: Seq<Event>, new_s: Seq<Event>)
    requires
        0 <= t < n_slots(),
        cand_at(y, t, ev),
        all_candidates(y, old_s),
        forall|i: int|
            0 <= i < new_s.len() ==> new_s[i] == ev || old_s.contains(#[trigger] new_s[i]),
        new_s.contains(ev) ==> in_lit_year(y, ev.date.rd as int),
    ensures
        all_candidates(y, new_s),
{
    assert forall|i: int| 0 <= i < new_s.len() implies is_candidate(y, #[trigger] new_s[i])
        && in_lit_year(y, new_s[i].date.rd as int) by {
        if new_s[i] == ev {
            assert(new_s.contains(ev));
            assert(cand_before(y, n_slots(), ev));
        } else {
            let j = choose|j: int| 0 <= j < old_s.len() && old_s[j] == new_s[i];
            assert(is_candidate(y, old_s[j]));
            assert(in_lit_year(y, old_s[j].date.rd as int));
        }
    }
}

/// Inserts the candidate of slot `t` and carries the generation
/// invariants: all table entries are in-year candidates, and every
/// candidate of an already-processed slot is represented by its date
/// with at least its priority.
#[verifier::rlimit(50)]
fn insert_cand(
    events: &mut Vec<Event>,
    ev: Event,
    start_rd: i64,
    end_rd: i64,
    Ghost(y): Ghost<int>,
    Ghost(t): Ghost<int>,
)
    requires
        sorted_unique(old(events)@),
        old(events)@.len() < usize::MAX - 1,
        0 <= t < n_slots(),
        cand_at(y, t, ev),
        covered(y, t, old(events)@),
        all_candidates(y, old(events)@),
        start_rd == advent_rd(y),
        end_rd == advent_rd(y + 1),
    ensures
        sorted_unique(final(events)@),
        final(events)@.len() <= old(events)@.len() + 1,
        covered(y, t + 1, final(events)@),
        all_candidates(y, final(events)@),
{
    let ghost old_s = events@;
    insert_event(events, ev, start_rd, end_rd);
    proof {
        let new_s = events@;
        let d0 = ev.date.rd as int;
        if in_lit_year(y, d0) {
            assert(has_date(new_s, d0));
            assert(at_date(new_s, d0).priority >= ev.priority);
            if has_date(old_s, d0) {
                assert(at_date(new_s, d0).priority >= at_date(old_s, d0).priority);
            }
        }
        lemma_covered_step(y, t, ev, old_s, new_s);
        if new_s.contains(ev) && !in_lit_year(y, d0) {
            assert(new_s == old_s);
            let j = choose|j: int| 0 <= j < old_s.len() && old_s[j] == ev;
            assert(in_lit_year(y, old_s[j].date.rd as int));
        }
        lemma_all_candidates_step(y, t, ev, old_s, new_s);
    }
}


/// How the anchor dates of liturgical year `y` relate: the orderings
/// and bounds that event generation relies on.
#[verifier::rlimit(100)]
pub proof fn lemma_year_layout(y: int)
    requires
        1 <= y <= MAX_YEAR as int - 1,
    ensures
        1 <= advent_rd(y),
        rata_die(y, 11, 21) <= advent_rd(y) <= rata_die(y, 11, 27),
        advent_rd(y) % 7 == 0,
        advent_rd(y) + 28 <= christmas_rd(y),
        christmas_rd(y) == days_before_year(y + 1) - 6,
        christmas_rd(y) + 1 <= christmas1_rd(y) <= christmas_rd(y) + 7,
        christmas1_rd(y) % 7 == 0,
        new_year_rd(y) == christmas1_rd(y) + 7,
        jan6_rd(y) == christmas_rd(y) + 12,
        christmas_rd(y) + 8 <= epiphany_start_rd(y) <= christmas_rd(y) + 18,
        epiphany_start_rd(y) % 7 == 0,
        days_before_year(y + 1) + 81 <= easter_rd(y + 1) <= days_before_year(y + 1) + 116,
        christmas_rd(y) + 24 <= easter_rd(y + 1) - 63,
        1 <= easter_rd(y + 1) - 63,
        easter_rd(y + 1) + 245 <= max_rd(),
        epiphany_start_rd(y) + 42 <= max_rd(),
        new_year_rd(y) <= max_rd(),
        christmas_rd(y) + 18 <= max_rd(),
        advent_rd(y) < advent_rd(y + 1) <= advent_rd(y) + 372,
{
    lemma_advent_window(y);
    lemma_advent_window(y + 1);
    lemma_rata_die_in_range(y, 11, 21);
    lemma_rata_die_in_range(y, 11, 27);
    lemma_rata_die_in_range(y, 12, 25);
    lemma_rata_die_in_range(y + 1, 1, 6);
    lemma_rata_die_in_range(y + 1, 11, 21);
    lemma_rata_die_in_range(y + 1, 11, 27);
    lemma_rata_die_in_range(y + 1, 12, 31);
    lemma_dby_succ(y);
    lemma_dby_succ(y + 1);
    lemma_next_sunday(christmas_rd(y) + 1);
    lemma_next_sunday(jan6_rd(y));
    lemma_easter_rd_bounds(y + 1);
}

/// The only candidate dated on the First Sunday of Advent is the
/// opening "advent" event: every other candidate falls later.
pub proof fn lemma_start_candidate(y: int, ev: Event)
    requires
        1 <= y <= MAX_YEAR as int - 1,
        is_candidate(y, ev),
        ev.date.rd == advent_rd(y),
    ensures
        cand_at(y, 0, ev),
{
    lemma_year_layout(y);
    let t = choose|t: int| 0 <= t < n_slots() && #[trigger] cand_at(y, t, ev);
    assert(ev.date.rd == advent_rd(y));
    if 1 <= t < 5 {
        assert(ev.date.rd == advent_rd(y) + 7 * t && 7 * t > 0);
    } else if 5 <= t < 8 {
        assert(ev.date.rd >= christmas_rd(y));
    } else if 8 <= t < 15 {
        assert(ev.date.rd >= epiphany_start_rd(y));
    } else if 15 <= t < 24 {
        assert(ev.date.rd == easter_rd(y + 1) - 7 * (t - 14) >= easter_rd(y + 1) - 63);
    } else if 24 <= t {
        assert(ev.date.rd >= easter_rd(y + 1));
    }
}

/// All events of liturgical year `lit_year`, sorted by date, one per
/// date: each is an in-year candidate of one of the seven rule
/// groups, every in-year candidate's date is present and is held by
/// an event of at least that candidate's priority, and the list opens
/// with the "advent" event on the First Sunday of Advent itself.
#[verifier::rlimit(100)]
#[verifier::loop_isolation(false)]
pub fn generate_events(lit_year: i32) -> (events: Vec<Event>)
    requires
        1 <= lit_year <= MAX_YEAR - 1,
    ensures
        sorted_unique(events@),
        all_candidates(lit_year as int, events@),
        covered(lit_year as int, n_slots(), events@),
        events@.len() > 0,
        events@[0].date.rd == advent_rd(lit_year as int),
        cand_at(lit_year as int, 0, events@[0]),
{
    let ghost y = lit_year as int;
    proof {
        lemma_year_layout(y);
    }
    let start = first_sunday_of_advent(lit_year);
    let end = first_sunday_of_advent(lit_year + 1);
    let easter = compute_easter(lit_year + 1);
    proof {
        lemma_easter_rd_bounds(y + 1);
    }
    let christmas = Date::of_ymd(lit_year, 12, 25);
    let christmas1 = first_sunday_on_or_after(christmas.add_days(1));
    let new_year = christmas1.add_days(7);
    let jan6 = Date::of_ymd(lit_year + 1, 1, 6);
    let mut events: Vec<Event> = Vec::new();

    // Group 1: Advent, five weekly events from the year's start.
    let mut i: u8 = 0;
    while i < 5
        invariant
            i <= 5,
            sorted_unique(events@),
            all_candidates(y, events@),
            covered(y, i as int, events@),
            events@.len() <= i as int,
        decreases 5 - i,
    {
        let ev = Event {
            label: Label::Advent(i),
            date: start.add_days(7 * (i as i64)),
            altar_color: Color::Purple,
            priority: 1,
        };
        insert_cand(&mut events, ev, start.rd, end.rd, Ghost(y), Ghost(i as int));
        i = i + 1;
    }

    // Group 2: Christmas, the Sunday after it, and a New Year
    // candidate that is withheld when it falls before January 6.
    let ev_c = Event {
        label: Label::Christmas(0),
        date: christmas,
        altar_color: Color::White,
        priority: 2,
    };
    insert_cand(&mut events, ev_c, start.rd, end.rd, Ghost(y), Ghost(5));
    let ev_c1 = Event {
        label: Label::Christmas(1),
        date: christmas1,
        altar_color: Color::White,
        priority: 2,
    };
    insert_cand(&mut events, ev_c1, start.rd, end.rd, Ghost(y), Ghost(6));
    if new_year.rd >= jan6.rd {
        let ev_ny = Event {
            label: Label::NewYear,
            date: new_year,
            altar_color: Color::White,
            priority: 2,
        };
        insert_cand(&mut events, ev_ny, start.rd, end.rd, Ghost(y), Ghost(7));
    } else {
        proof {
            assert forall|ev2: Event|
                #[trigger] cand_before(y, 8, ev2) && in_lit_year(y, ev2.date.rd as int) implies has_date(
                events@,
                ev2.date.rd as int,
            ) && at_date(events@, ev2.date.rd as int).priority >= ev2.priority by {
                let t2 = choose|t2: int| 0 <= t2 < 8 && #[trigger] cand_at(y, t2, ev2);
                assert(t2 < 7);
                assert(cand_before(y, 7, ev2));
            }
        }
    }

    // Group 3: Epiphany, seven weekly events from the withheld New
    // Year date or from the first Sunday on or after January 6.
    let epiphany_start = if new_year.rd < jan6.rd {
        new_year
    } else {
        first_sunday_on_or_after(jan6)
    };
    let mut i: u8 = 0;
    while i < 7
        invariant
            i <= 7,
            sorted_unique(events@),
            all_candidates(y, events@),
            covered(y, 8 + i as int, events@),
            events@.len() <= 8 + i as int,
        decreases 7 - i,
    {
        let ev = Event {
            label: Label::Epiphany(i),
            date: epiphany_start.add_days(7 * (i as i64)),
            altar_color: if i == 0 {
                Color::White
            } else {
                Color::Green
            },
            priority: 3,
        };
        insert_cand(&mut events, ev, start.rd, end.rd, Ghost(y), Ghost(8 + i as int));
        i = i + 1;
    }

    // Group 4: the nine pre-Easter Sundays, counted back from Easter.
    let mut j: u8 = 1;
    while j <= 9
        invariant
            1 <= j <= 10,
            sorted_unique(events@),
            all_candidates(y, events@),
            covered(y, 14 + j as int, events@),
            events@.len() <= 14 + j as int,
        decreases 10 - j,
    {
        let color = if j >= 8 {
            Color::Green
        } else if j == 7 {
            Color::White
        } else if j >= 3 {
            Color::Purple
        } else {
            Color::White
        };
        let ev = Event {
            label: Label::EasterBefore(j),
            date: easter.add_days(-7 * (j as i64)),
            altar_color: color,
            priority: 4,
        };
        insert_cand(&mut events, ev, start.rd, end.rd, Ghost(y), Ghost(14 + j as int));
        j = j + 1;
    }

    // Group 5: Easter and the six Sundays after it.
    let mut i: u8 = 0;
    while i < 7
        invariant
            i <= 7,
            sorted_unique(events@),
            all_candidates(y, events@),
            covered(y, 24 + i as int, events@),
            events@.len() <= 24 + i as int,
        decreases 7 - i,
    {
        let ev = Event {
            label: Label::Easter(i),
            date: easter.add_days(7 * (i as i64)),
            altar_color: Color::White,
            priority: 5,
        };
        insert_cand(&mut events, ev, start.rd, end.rd, Ghost(y), Ghost(24 + i as int));
        i = i + 1;
    }

    // Group 6: Pentecost, seven weeks after Easter.
    let ev_p = Event {
        label: Label::Pentecost,
        date: easter.add_days(49),
        altar_color: Color::Red,
        priority: 6,
    };
    insert_cand(&mut events, ev_p, start.rd, end.rd, Ghost(y), Ghost(31));

    // Group 7: Trinity, 28 weekly events from the week after Pentecost.
    let mut i: u8 = 0;
    while i < 28
        invariant
            i <= 28,
            sorted_unique(events@),
            all_candidates(y, events@),
            covered(y, 32 + i as int, events@),
            events@.len() <= 32 + i as int,
        decreases 28 - i,
    {
        let ev = Event {
            label: Label::Trinity(i),
            date: easter.add_days(56 + 7 * (i as i64)),
            altar_color: if i == 0 {
                Color::White
            } else if i == 5 {
                Color::Red
            } else {
                Color::Green
            },
            priority: 7,
        };
        insert_cand(&mut events, ev, start.rd, end.rd, Ghost(y), Ghost(32 + i as int));
        i = i + 1;
    }

    proof {
        let s = events@;
        let adv0 = Event {
            label: Label::Advent(0),
            date: Date { rd: start.rd },
            altar_color: Color::Purple,
            priority: 1,
        };
        assert(cand_at(y, 0, adv0));
        assert(cand_before(y, n_slots(), adv0));
        assert(in_lit_year(y, adv0.date.rd as int));
        assert(has_date(s, start.rd as int));
        let i0 = choose|k: int| 0 <= k < s.len() && #[trigger] s[k].date.rd == start.rd as int;
        if i0 > 0 {
            assert(s[0].date.rd < s[i0].date.rd);
            assert(in_lit_year(y, s[0].date.rd as int));
        }
        assert(s[0].date.rd == advent_rd(y));
        lemma_start_candidate(y, s[0]);
    }
    events
}



/// The index bounds that every label occurring in the calendar obeys.
pub open spec fn wf_label(l: Label) -> bool {
    match l {
        Label::Advent(i) => i < 5,
        Label::Christmas(i) => i < 2,
        Label::NewYear => true,
        Label::Epiphany(i) => i < 7,
        Label::EasterBefore(j) => 1 <= j <= 9,
        Label::Easter(i) => i < 7,
        Label::Pentecost => true,
        Label::Trinity(i) => i < 28,
    }
}

/// Every candidate event carries a well-formed label.
pub proof fn lemma_candidate_wf(y: int, ev: Event)
    requires
        is_candidate(y, ev),
    ensures
        wf_label(ev.label),
{
    let t = choose|t: int| 0 <= t < n_slots() && #[trigger] cand_at(y, t, ev);
}

/// Collision precedence, first half: whatever event holds a date in a
/// generated table has at least the priority of every in-year
/// candidate on that date, so on a collision the event of strictly
/// higher priority wins and the lower one is not the one kept.
pub proof fn lemma_higher_priority_wins(y: int, s: Seq<Event>, c1: Event, c2: Event)
    requires
        covered(y, n_slots(), s),
        is_candidate(y, c1),
        is_candidate(y, c2),
        in_lit_year(y, c1.date.rd as int),
        c1.date.rd == c2.date.rd,
        c1.priority < c2.priority,
    ensures
        has_date(s, c1.date.rd as int),
        at_date(s, c1.date.rd as int).priority >= c2.priority,
        at_date(s, c1.date.rd as int) != c1,
{
}

/// Collision precedence, second half: two candidates of one year with
/// the same date and the same priority are the same event, so the
/// equal-priority tie-break (later insertion wins) never has two
/// different events to choose between.
#[verifier::rlimit(100)]
pub proof fn lemma_equal_priority_same_event(y: int, c1: Event, c2: Event)
    requires
        1 <= y <= MAX_YEAR as int - 1,
        is_candidate(y, c1),
        is_candidate(y, c2),
        c1.date.rd == c2.date.rd,
        c1.priority == c2.priority,
    ensures
        c1 == c2,
{
    lemma_year_layout(y);
    let t1 = choose|t: int| 0 <= t < n_slots() && #[trigger] cand_at(y, t, c1);
    let t2 = choose|t: int| 0 <= t < n_slots() && #[trigger] cand_at(y, t, c2);
    assert(c1.date == c2.date);
    if t1 != t2 {
        assert(c1.date.rd != c2.date.rd);
    }
}

/// The Christmas/Epiphany boundary: either the "new year" event is
/// emitted, or the withheld candidate date becomes the start of the
/// Epiphany series; exactly one of the two holds. Moreover, when the
/// candidate is emitted, the Epiphany series nevertheless starts on
/// that very Sunday, so the higher-priority "epiphany" event takes
/// the date over.
pub proof fn lemma_christmas_epiphany_boundary(y: int)
    requires
        1 <= y <= MAX_YEAR as int - 1,
    ensures
        new_year_emitted(y) || (new_year_rd(y) < jan6_rd(y) && epiphany_start_rd(y)
            == new_year_rd(y)),
        !(new_year_emitted(y) && new_year_rd(y) < jan6_rd(y)),
        new_year_emitted(y) ==> epiphany_start_rd(y) == new_year_rd(y),
{
    lemma_year_layout(y);
    if new_year_emitted(y) {
        lemma_next_sunday(jan6_rd(y));
        let ns = next_sunday_on_or_after(jan6_rd(y));
        assert(jan6_rd(y) <= new_year_rd(y) < jan6_rd(y) + 7);
        if new_year_rd(y) < ns {
            assert(new_year_rd(y) % 7 != 0);
        }
        assert(ns <= new_year_rd(y) < ns + 7);
    }
}

/// A consequence of the boundary rule: when the "new year" candidate
/// is emitted at all, the Epiphany series starts on the same Sunday
/// with higher priority, so no generated table ever keeps a
/// "new year" event.
pub proof fn lemma_new_year_never_kept(y: int, s: Seq<Event>)
    requires
        1 <= y <= MAX_YEAR as int - 1,
        sorted_unique(s),
        all_candidates(y, s),
        covered(y, n_slots(), s),
    ensures
        forall|i: int| 0 <= i < s.len() ==> (#[trigger] s[i].label) != Label::NewYear,
{
    lemma_year_layout(y);
    lemma_christmas_epiphany_boundary(y);
    assert forall|i: int| 0 <= i < s.len() implies (#[trigger] s[i].label) != Label::NewYear by {
        if s[i].label == Label::NewYear {
            let t = choose|t: int| 0 <= t < n_slots() && #[trigger] cand_at(y, t, s[i]);
            assert(t == 7);
            assert(s[i].date.rd == new_year_rd(y) && s[i].priority == 2);
            let ev0 = Event {
                label: Label::Epiphany(0),
                date: Date { rd: s[i].date.rd },
                altar_color: Color::White,
                priority: 3,
            };
            assert(cand_at(y, 8, ev0));
            assert(cand_before(y, n_slots(), ev0));
            assert(in_lit_year(y, ev0.date.rd as int));
            lemma_at_date(s, i);
            assert(at_date(s, ev0.date.rd as int).priority >= 3);
        }
    }
}

/// The generated events of a year span less than 372 days: they all
/// lie between the year's First Sunday of Advent (which opens the
/// list) and the next year's, which are at most 372 days apart.
pub proof fn lemma_events_span(y: int, s: Seq<Event>)
    requires
        1 <= y <= MAX_YEAR as int - 1,
        sorted_unique(s),
        all_candidates(y, s),
        s.len() > 0,
        s[0].date.rd == advent_rd(y),
    ensures
        forall|i: int|
            0 <= i < s.len() ==> advent_rd(y) <= #[trigger] s[i].date.rd < advent_rd(y + 1),
        s[s.len() - 1].date.rd - s[0].date.rd < 372,
{
    lemma_year_layout(y);
    assert(in_lit_year(y, s[s.len() - 1].date.rd as int));
    assert forall|i: int|
        0 <= i < s.len() implies advent_rd(y) <= #[trigger] s[i].date.rd < advent_rd(y + 1) by {
        assert(in_lit_year(y, s[i].date.rd as int));
    }
}

} // verus!
