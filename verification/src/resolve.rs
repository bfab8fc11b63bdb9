//! The top-level query: map an arbitrary calendar day to its
//! liturgical year, reading set, and the pericope event in force on
//! that day, with its readings.

use vstd::prelude::*;
use crate::calendar::{advent_rd, compute_liturgical_year, compute_set, lemma_query_in_lit_year,
    spec_lit_year, spec_set};
use crate::dates::{Date, MAX_YEAR, rata_die, valid_ymd};
use crate::events::{Event, all_candidates, at_date, cand_before, covered, generate_events,
    has_date, in_lit_year, is_candidate, lemma_at_date, lemma_candidate_wf,
    lemma_equal_priority_same_event, n_slots, sorted_unique};
use crate::readings::{Readings, readings_match, resolve_readings};

verus! {

/// Whether `ev` is the event that generation keeps for its date in
/// liturgical year `y`: an in-year candidate that no in-year candidate
/// on the same date out-prioritises.
pub open spec fn is_output_event(y: int, ev: Event) -> bool {
    &&& is_candidate(y, ev)
    &&& in_lit_year(y, ev.date.rd as int)
    &&& forall|c: Event|
        #[trigger] is_candidate(y, c) && in_lit_year(y, c.date.rd as int) && c.date.rd
            == ev.date.rd ==> c.priority <= ev.priority
}

/// A resolved query: the input day itself, the liturgical year and
/// reading set it falls in, the event in force on it (an exact match, or the nearest
/// preceding event, as `exact` says; the event carries its own date),
/// and the four readings for that event under the year's set.
pub struct Resolution {
    pub input: Date,
    pub lit_year: i32,
    pub set: i32,
    pub event: Event,
    pub exact: bool,
    pub readings: Readings,
}

/// The outcome of a query: a resolution, or the report that no event
/// falls on or before the day (which the generation rules in fact
/// never produce, since every liturgical year opens with an event on
/// its first day).
pub enum Outcome {
    Found(Resolution),
    NoEvent { lit_year: i32, set: i32 },
}

/// What a correct outcome for the day `(y, m, d)` holds.
pub open spec fn resolution_ok(y: int, m: int, d: int, r: Outcome) -> bool {
    let q = rata_die(y, m, d);
    let ly = spec_lit_year(y, m, d);
    &&& r is Found
    &&& (r matches Outcome::Found(res) ==> {
        &&& res.input.rd == q
        &&& res.lit_year == ly
        &&& res.set == spec_set(ly)
        &&& is_output_event(ly, res.event)
        &&& res.event.date.rd <= q
        &&& (res.exact <==> res.event.date.rd == q)
        &&& (forall|ev2: Event|
            is_output_event(ly, ev2) && #[trigger] ev2.date.rd <= q ==> ev2.date.rd
                <= res.event.date.rd)
        &&& readings_match(res.event.label, spec_set(ly), res.readings)
    })
}

/// Every entry of a generated table is the output event of its date.
pub proof fn lemma_entry_is_output(y: int, s: Seq<Event>, i: int)
    requires
        sorted_unique(s),
        all_candidates(y, s),
        covered(y, n_slots(), s),
        0 <= i < s.len(),
    ensures
        is_output_event(y, s[i]),
{
    lemma_at_date(s, i);
    assert forall|c: Event|
        #[trigger] is_candidate(y, c) && in_lit_year(y, c.date.rd as int) && c.date.rd
            == s[i].date.rd implies c.priority <= s[i].priority by {
        assert(cand_before(y, n_slots(), c));
        assert(at_date(s, c.date.rd as int).priority >= c.priority);
    }
}

/// A date determines its output event: two output events of one year
/// on the same date are equal. Together with `lemma_entry_is_output`
/// and the coverage of every candidate date, this pins the generated
/// table down to the last field.
pub proof fn lemma_output_event_unique(y: int, e1: Event, e2: Event)
    requires
        1 <= y <= MAX_YEAR as int - 1,
        is_output_event(y, e1),
        is_output_event(y, e2),
        e1.date.rd == e2.date.rd,
    ensures
        e1 == e2,
{
    assert(e1.priority <= e2.priority);
    assert(e2.priority <= e1.priority);
    lemma_equal_priority_same_event(y, e1, e2);
}

/// Resolves the day `(y, m, d)`: its liturgical year and reading set,
/// the event in force on it — the event dated on the day itself where
/// one exists, else the latest event before it, with `exact` saying
/// which — and that event's readings.
#[verifier::rlimit(100)]
#[verifier::loop_isolation(false)]
pub fn resolve_date(y: i32, m: u8, d: u8) -> (r: Outcome)
    requires
        valid_ymd(y as int, m as int, d as int),
        2 <= y <= MAX_YEAR - 1,
    ensures
        resolution_ok(y as int, m as int, d as int, r),
{
    let ghost q = rata_die(y as int, m as int, d as int);
    let dt = Date::of_ymd(y, m, d);
    let lit_year = compute_liturgical_year(y, m, d);
    let ghost ly = lit_year as int;
    let set = compute_set(lit_year);
    proof {
        lemma_query_in_lit_year(y as int, m as int, d as int);
    }
    let events = generate_events(lit_year);
    let ghost s = events@;
    let mut i: usize = 0;
    while i < events.len() && events[i].date.rd <= dt.rd
        invariant
            i <= s.len(),
            forall|j: int| 0 <= j < i ==> #[trigger] s[j].date.rd <= q,
        decreases s.len() - i,
    {
        i = i + 1;
    }
    if i == 0 {
        proof {
            assert(s[0].date.rd == advent_rd(ly));
            assert(false);
        }
        Outcome::NoEvent { lit_year, set }
    } else {
        let ev = events[i - 1];
        let exact = ev.date.rd == dt.rd;
        proof {
            lemma_at_date(s, i - 1);
            lemma_candidate_wf(ly, ev);
            assert forall|c: Event|
                #[trigger] is_candidate(ly, c) && in_lit_year(ly, c.date.rd as int) && c.date.rd
                    == ev.date.rd implies c.priority <= ev.priority by {
                assert(cand_before(ly, n_slots(), c));
                assert(at_date(s, c.date.rd as int).priority >= c.priority);
            }
            assert forall|ev2: Event|
                is_output_event(ly, ev2) && #[trigger] ev2.date.rd <= q implies ev2.date.rd
                <= ev.date.rd by {
                assert(cand_before(ly, n_slots(), ev2));
                assert(has_date(s, ev2.date.rd as int));
                let j = choose|j: int| 0 <= j < s.len() && #[trigger] s[j].date.rd
                    == ev2.date.rd as int;
                if j > i - 1 {
                    assert(s[i as int].date.rd <= s[j].date.rd);
                }
            }
        }
        let readings = resolve_readings(ev.label, set);
        Outcome::Found(Resolution { input: dt, lit_year, set, event: ev, exact, readings })
    }
}

/// Resolves the day `(y, m, d)` after checking it, answering `None`
/// exactly on the triples that are not a calendar day of a supported
/// year.
pub fn try_resolve_date(y: i32, m: u8, d: u8) -> (r: Option<Outcome>)
    ensures
        r is Some <==> valid_ymd(y as int, m as int, d as int) && 2 <= y <= MAX_YEAR - 1,
        r matches Some(o) ==> resolution_ok(y as int, m as int, d as int, o),
{
    if 2 <= y && y <= MAX_YEAR - 1 && 1 <= m && m <= 12 && d >= 1 {
        match Date::from_ymd(y, m, d) {
            Some(_) => Some(resolve_date(y, m, d)),
            None => None,
        }
    } else {
        None
    }
}

} // verus!
