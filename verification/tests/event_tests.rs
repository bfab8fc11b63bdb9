use pericope::calendar::first_sunday_of_advent;
use pericope::dates::Date;
use pericope::events::{generate_events, Color, Label};
use pericope::readings::label_string;

#[test]
fn labels_print_as_expected() {
    assert_eq!(label_string(Label::Advent(0)), "advent");
    assert_eq!(label_string(Label::Advent(3)), "advent + 3");
    assert_eq!(label_string(Label::Christmas(0)), "christmas");
    assert_eq!(label_string(Label::Christmas(1)), "christmas + 1");
    assert_eq!(label_string(Label::NewYear), "new year");
    assert_eq!(label_string(Label::Epiphany(0)), "epiphany");
    assert_eq!(label_string(Label::Epiphany(6)), "epiphany + 6");
    assert_eq!(label_string(Label::EasterBefore(1)), "easter - 1");
    assert_eq!(label_string(Label::EasterBefore(9)), "easter - 9");
    assert_eq!(label_string(Label::Easter(0)), "easter");
    assert_eq!(label_string(Label::Easter(6)), "easter + 6");
    assert_eq!(label_string(Label::Pentecost), "pentecost");
    assert_eq!(label_string(Label::Trinity(27)), "trinity + 27");
}

#[test]
fn events_sorted_unique_and_in_year() {
    for lit_year in [1583, 2022, 2023, 2024, 2025, 2026, 2027, 2100] {
        let start = first_sunday_of_advent(lit_year);
        let end = first_sunday_of_advent(lit_year + 1);
        let events = generate_events(lit_year);
        assert!(!events.is_empty());
        assert_eq!(events[0].date.rd, start.rd);
        assert_eq!(events[0].label, Label::Advent(0));
        assert_eq!(events[0].altar_color, Color::Purple);
        for w in events.windows(2) {
            assert!(w[0].date.rd < w[1].date.rd, "dates must strictly increase");
        }
        for ev in &events {
            assert!(start.rd <= ev.date.rd && ev.date.rd < end.rd);
        }
        let span = events.last().unwrap().date.rd - events[0].date.rd;
        assert!(span < 365 + 7);
    }
}

#[test]
fn events_2024_key_dates() {
    let events = generate_events(2024);
    let find = |y: i32, m: u8, d: u8| {
        let rd = Date::from_ymd(y, m, d).unwrap().rd;
        events.iter().find(|ev| ev.date.rd == rd).cloned()
    };
    // Advent Sundays: Nov 24, Dec 1, 8, 15, 22.
    let adv2 = find(2024, 12, 8).unwrap();
    assert_eq!(adv2.label, Label::Advent(2));
    assert_eq!(adv2.altar_color, Color::Purple);
    // Christmas on the fixed date, and the Sunday after on Dec 29.
    let c = find(2024, 12, 25).unwrap();
    assert_eq!(c.label, Label::Christmas(0));
    assert_eq!(c.altar_color, Color::White);
    let c1 = find(2024, 12, 29).unwrap();
    assert_eq!(c1.label, Label::Christmas(1));
    // The New Year candidate Jan 5 falls before Jan 6: withheld, and
    // Epiphany starts on it.
    let e0 = find(2025, 1, 5).unwrap();
    assert_eq!(e0.label, Label::Epiphany(0));
    assert_eq!(e0.altar_color, Color::White);
    let e1 = find(2025, 1, 12).unwrap();
    assert_eq!(e1.label, Label::Epiphany(1));
    assert_eq!(e1.altar_color, Color::Green);
    // Easter 2025 is April 20.
    let easter = find(2025, 4, 20).unwrap();
    assert_eq!(easter.label, Label::Easter(0));
    assert_eq!(easter.altar_color, Color::White);
    // "easter - 9" is 63 days earlier: February 16.
    let e9 = find(2025, 2, 16).unwrap();
    assert_eq!(e9.label, Label::EasterBefore(9));
    assert_eq!(e9.altar_color, Color::Green);
    // "easter - 1" (Palm Sunday slot) is white in this scheme.
    let e1b = find(2025, 4, 13).unwrap();
    assert_eq!(e1b.label, Label::EasterBefore(1));
    assert_eq!(e1b.altar_color, Color::White);
    // Pentecost is 49 days after Easter: June 8, red.
    let p = find(2025, 6, 8).unwrap();
    assert_eq!(p.label, Label::Pentecost);
    assert_eq!(p.altar_color, Color::Red);
    // Trinity opens the week after, white, then green; index 5 red.
    let t0 = find(2025, 6, 15).unwrap();
    assert_eq!(t0.label, Label::Trinity(0));
    assert_eq!(t0.altar_color, Color::White);
    let t5 = find(2025, 7, 20).unwrap();
    assert_eq!(t5.label, Label::Trinity(5));
    assert_eq!(t5.altar_color, Color::Red);
}

#[test]
fn collision_higher_priority_wins() {
    // Advent 2022 begins November 27, so "advent + 4" lands on
    // December 25 and the Christmas event (priority 2) overrides it.
    let events = generate_events(2022);
    let rd = Date::from_ymd(2022, 12, 25).unwrap().rd;
    let ev = events.iter().find(|ev| ev.date.rd == rd).unwrap();
    assert_eq!(ev.label, Label::Christmas(0));
    assert_eq!(ev.priority, 2);
    // No date occurs twice.
    for w in events.windows(2) {
        assert!(w[0].date.rd < w[1].date.rd);
    }
}

#[test]
fn new_year_candidate_emitted_but_overridden() {
    // December 25, 2022 is a Sunday: the Sunday after Christmas is
    // January 1 and the New Year candidate is January 8, on or after
    // January 6, so it is emitted — and Epiphany, starting on the
    // first Sunday on or after January 6 (the same January 8),
    // overrides it with priority 3.
    let events = generate_events(2022);
    let rd = Date::from_ymd(2023, 1, 8).unwrap().rd;
    let ev = events.iter().find(|ev| ev.date.rd == rd).unwrap();
    assert_eq!(ev.label, Label::Epiphany(0));
    assert_eq!(ev.priority, 3);
    assert!(!events.iter().any(|ev| ev.label == Label::NewYear));
}

#[test]
fn withheld_new_year_starts_epiphany() {
    // For liturgical year 2027 the candidate (January 2, 2028) falls
    // before January 6: "new year" is withheld and Epiphany starts on
    // January 2.
    let events = generate_events(2027);
    let rd = Date::from_ymd(2028, 1, 2).unwrap().rd;
    let ev = events.iter().find(|ev| ev.date.rd == rd).unwrap();
    assert_eq!(ev.label, Label::Epiphany(0));
    assert!(!events.iter().any(|ev| ev.label == Label::NewYear));
}

#[test]
fn color_names() {
    assert_eq!(Color::Purple.text(), "purple");
    assert_eq!(Color::White.text(), "white");
    assert_eq!(Color::Green.text(), "green");
    assert_eq!(Color::Red.text(), "red");
}
