use chrono::{Datelike, Weekday};
use pericope::calendar::{compute_liturgical_year, compute_set, first_sunday_of_advent};
use pericope::dates::{first_sunday_on_or_after, Date};
use pericope::easter::compute_easter;

#[test]
fn date_model_matches_chrono() {
    // The day-number model agrees with chrono's day count from
    // 0001-01-01 over a wide sample of days.
    for rd in (1i64..3_650_000).step_by(997) {
        let (y, m, d) = Date { rd }.to_ymd();
        let nd = chrono::NaiveDate::from_num_days_from_ce_opt(rd as i32).unwrap();
        assert_eq!((y, m as u32, d as u32), (nd.year(), nd.month(), nd.day()));
    }
}

#[test]
fn from_ymd_accepts_exactly_the_calendar_days() {
    assert!(Date::from_ymd(2024, 2, 29).is_some());
    assert!(Date::from_ymd(2023, 2, 29).is_none());
    assert!(Date::from_ymd(1900, 2, 29).is_none());
    assert!(Date::from_ymd(2000, 2, 29).is_some());
    assert!(Date::from_ymd(2025, 4, 31).is_none());
    assert!(Date::from_ymd(2025, 0, 1).is_none());
    assert!(Date::from_ymd(2025, 13, 1).is_none());
    assert!(Date::from_ymd(2025, 6, 0).is_none());
    assert!(Date::from_ymd(0, 6, 1).is_none());
    assert!(Date::from_ymd(10000, 6, 1).is_none());
    let d = Date::from_ymd(2025, 12, 25).unwrap();
    assert_eq!(d.to_ymd(), (2025, 12, 25));
}

#[test]
fn weekday_matches_chrono() {
    for rd in (1i64..3_650_000).step_by(9973) {
        let (y, m, d) = Date { rd }.to_ymd();
        let nd = chrono::NaiveDate::from_ymd_opt(y, m as u32, d as u32).unwrap();
        assert_eq!(
            Date { rd }.weekday() as u32,
            nd.weekday().num_days_from_sunday()
        );
    }
}

#[test]
fn first_sunday_on_or_after_steps_to_sunday() {
    // 2025-01-05 is a Sunday.
    let sun = Date::from_ymd(2025, 1, 5).unwrap();
    assert_eq!(first_sunday_on_or_after(sun).to_ymd(), (2025, 1, 5));
    let mon = Date::from_ymd(2025, 1, 6).unwrap();
    assert_eq!(first_sunday_on_or_after(mon).to_ymd(), (2025, 1, 12));
    let sat = Date::from_ymd(2025, 1, 4).unwrap();
    assert_eq!(first_sunday_on_or_after(sat).to_ymd(), (2025, 1, 5));
}

#[test]
fn advent_known_years() {
    assert_eq!(first_sunday_of_advent(2024).to_ymd(), (2024, 11, 24));
    assert_eq!(first_sunday_of_advent(2025).to_ymd(), (2025, 11, 23));
    assert_eq!(first_sunday_of_advent(2026).to_ymd(), (2026, 11, 22));
    // November 21, 2027 is itself a Sunday.
    assert_eq!(first_sunday_of_advent(2027).to_ymd(), (2027, 11, 21));
    assert_eq!(first_sunday_of_advent(2022).to_ymd(), (2022, 11, 27));
}

#[test]
fn advent_window_and_weekday() {
    for year in (1..=9999).step_by(7) {
        let adv = first_sunday_of_advent(year);
        let (y, m, d) = adv.to_ymd();
        assert_eq!(y, year);
        assert_eq!(m, 11);
        assert!((21..=27).contains(&d));
        if (1583..=9999).contains(&year) {
            let nd = chrono::NaiveDate::from_ymd_opt(y, m as u32, d as u32).unwrap();
            assert_eq!(nd.weekday(), Weekday::Sun);
        }
    }
}

#[test]
fn easter_known_years() {
    assert_eq!(compute_easter(2024).to_ymd(), (2024, 3, 31));
    assert_eq!(compute_easter(2025).to_ymd(), (2025, 4, 20));
    assert_eq!(compute_easter(2026).to_ymd(), (2026, 4, 5));
    assert_eq!(compute_easter(2027).to_ymd(), (2027, 3, 28));
    assert_eq!(compute_easter(2028).to_ymd(), (2028, 4, 16));
    assert_eq!(compute_easter(1583).to_ymd(), (1583, 4, 10));
    assert_eq!(compute_easter(1818).to_ymd(), (1818, 3, 22));
    assert_eq!(compute_easter(1943).to_ymd(), (1943, 4, 25));
}

#[test]
fn easter_window_and_weekday() {
    for year in 1583..=2583 {
        let (y, m, d) = compute_easter(year).to_ymd();
        assert_eq!(y, year);
        assert!(
            (m == 3 && (22..=31).contains(&d)) || (m == 4 && (1..=25).contains(&d)),
            "easter {y}-{m}-{d} out of window"
        );
        let nd = chrono::NaiveDate::from_ymd_opt(y, m as u32, d as u32).unwrap();
        assert_eq!(nd.weekday(), Weekday::Sun);
    }
}

#[test]
fn liturgical_year_boundary() {
    // Advent 2025 begins November 23.
    assert_eq!(compute_liturgical_year(2025, 11, 23), 2025);
    assert_eq!(compute_liturgical_year(2025, 11, 22), 2024);
    assert_eq!(compute_liturgical_year(2025, 12, 31), 2025);
    assert_eq!(compute_liturgical_year(2025, 1, 1), 2024);
    assert_eq!(compute_liturgical_year(2025, 2, 8), 2024);
}

#[test]
fn set_rotation_anchor_and_period() {
    assert_eq!(compute_set(2024), 1);
    assert_eq!(compute_set(2025), 2);
    assert_eq!(compute_set(2026), 3);
    assert_eq!(compute_set(2027), 1);
    assert_eq!(compute_set(2023), 3);
    assert_eq!(compute_set(2022), 2);
    assert_eq!(compute_set(1000), 3);
    for y in -3000..3000 {
        let s = compute_set(y);
        assert!((1..=3).contains(&s));
        assert_eq!(s, compute_set(y + 3));
    }
}
