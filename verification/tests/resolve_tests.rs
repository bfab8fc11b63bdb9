use pericope::events::{Color, Label};
use pericope::readings::{gospel_set, label_string, resolve_readings};
use pericope::resolve::{resolve_date, try_resolve_date, Outcome};

#[test]
fn gospel_set_rotation() {
    assert_eq!(gospel_set(1), 2);
    assert_eq!(gospel_set(2), 3);
    assert_eq!(gospel_set(3), 1);
}

#[test]
fn christmas_2025_resolves_exactly() {
    // 25/12/2025: liturgical year 2025 (Advent began November 23),
    // set ((2025 - 2024) mod 3) + 1 = 2.
    let r = resolve_date(2025, 12, 25);
    let res = match r {
        Outcome::Found(res) => res,
        Outcome::NoEvent { .. } => panic!("event expected"),
    };
    assert_eq!(res.lit_year, 2025);
    assert_eq!(res.set, 2);
    assert!(res.exact);
    assert_eq!(label_string(res.event.label), "christmas");
    assert_eq!(res.event.altar_color, Color::White);
    assert_eq!(res.event.date.to_ymd(), (2025, 12, 25));
    assert_eq!(res.input.to_ymd(), (2025, 12, 25));
    // No custom entry for ("christmas", 2): placeholders, with the
    // gospel drawn from set 3.
    assert_eq!(
        res.readings.old_testament,
        "Old Testament reading for christmas (Set 2)"
    );
    assert_eq!(res.readings.lection, "Lection reading for christmas (Set 2)");
    assert_eq!(res.readings.gospel, "Gospel reading for christmas (Set 3)");
    assert_eq!(
        res.readings.preaching,
        "Preaching reading for christmas (Set 2)"
    );
}

#[test]
fn early_february_2025_falls_in_cycle_2024() {
    // 08/02/2025 precedes Advent 2025, so it belongs to liturgical
    // year 2024, set 1. It is no event date: the nearest preceding
    // event of the Advent-2024 Epiphany series (which started on the
    // withheld New Year date, January 5) is "epiphany + 4" of
    // February 2.
    let r = resolve_date(2025, 2, 8);
    let res = match r {
        Outcome::Found(res) => res,
        Outcome::NoEvent { .. } => panic!("event expected"),
    };
    assert_eq!(res.lit_year, 2024);
    assert_eq!(res.set, 1);
    assert!(!res.exact);
    assert_eq!(label_string(res.event.label), "epiphany + 4");
    assert_eq!(res.event.date.to_ymd(), (2025, 2, 2));
}

#[test]
fn epiphany_plus_5_of_cycle_2024_uses_custom_readings() {
    // February 9, 2025 is "epiphany + 5" of liturgical year 2024,
    // set 1: the custom table entry applies verbatim.
    let r = resolve_date(2025, 2, 9);
    let res = match r {
        Outcome::Found(res) => res,
        Outcome::NoEvent { .. } => panic!("event expected"),
    };
    assert_eq!(res.lit_year, 2024);
    assert_eq!(res.set, 1);
    assert!(res.exact);
    assert_eq!(res.event.label, Label::Epiphany(5));
    assert_eq!(res.readings.old_testament, "Jer 17:5-10");
    assert_eq!(res.readings.lection, "Col 3:12-17");
    assert_eq!(res.readings.gospel, "Mat 13:31-35");
    assert_eq!(res.readings.preaching, "Mat 13:24-30");
}

#[test]
fn easter_minus_9_custom_readings() {
    // February 16, 2025 is "easter - 9" of liturgical year 2024,
    // set 1: the second custom table entry.
    let r = resolve_date(2025, 2, 16);
    let res = match r {
        Outcome::Found(res) => res,
        Outcome::NoEvent { .. } => panic!("event expected"),
    };
    assert!(res.exact);
    assert_eq!(res.event.label, Label::EasterBefore(9));
    assert_eq!(res.readings.old_testament, "Jer 1:4-10");
    assert_eq!(res.readings.lection, "1 Cor:09:24-10:05");
    assert_eq!(res.readings.gospel, "Mat 19:27-30");
    assert_eq!(res.readings.preaching, "Mat 20:1-16");
}

#[test]
fn between_events_resolves_to_preceding() {
    // January 8, 2025 lies between "epiphany" (January 5) and
    // "epiphany + 1" (January 12): inexact, carrying the preceding
    // event's own date.
    let r = resolve_date(2025, 1, 8);
    let res = match r {
        Outcome::Found(res) => res,
        Outcome::NoEvent { .. } => panic!("event expected"),
    };
    assert!(!res.exact);
    assert_eq!(res.event.label, Label::Epiphany(0));
    assert_eq!(res.event.date.to_ymd(), (2025, 1, 5));
    assert_eq!(res.readings.gospel, "Gospel reading for epiphany (Set 2)");
}

#[test]
fn advent_start_resolves_to_itself() {
    let r = resolve_date(2025, 11, 23);
    let res = match r {
        Outcome::Found(res) => res,
        Outcome::NoEvent { .. } => panic!("event expected"),
    };
    assert_eq!(res.lit_year, 2025);
    assert!(res.exact);
    assert_eq!(res.event.label, Label::Advent(0));
}

#[test]
fn invalid_dates_are_rejected() {
    assert!(try_resolve_date(2025, 2, 30).is_none());
    assert!(try_resolve_date(2025, 13, 1).is_none());
    assert!(try_resolve_date(2025, 0, 1).is_none());
    assert!(try_resolve_date(2025, 6, 0).is_none());
    assert!(try_resolve_date(1, 6, 15).is_none());
    assert!(try_resolve_date(9999, 6, 15).is_none());
    assert!(try_resolve_date(2025, 2, 28).is_some());
}

#[test]
fn default_readings_format() {
    let r = resolve_readings(Label::Advent(0), 2);
    assert_eq!(r.old_testament, "Old Testament reading for advent (Set 2)");
    assert_eq!(r.lection, "Lection reading for advent (Set 2)");
    assert_eq!(r.gospel, "Gospel reading for advent (Set 3)");
    assert_eq!(r.preaching, "Preaching reading for advent (Set 2)");
    let r = resolve_readings(Label::Trinity(12), 3);
    assert_eq!(r.gospel, "Gospel reading for trinity + 12 (Set 1)");
    // The custom entries apply only to set 1.
    let r = resolve_readings(Label::Epiphany(5), 2);
    assert_eq!(r.old_testament, "Old Testament reading for epiphany + 5 (Set 2)");
}
