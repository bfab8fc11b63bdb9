//! Reading resolution: the text of an event label, the rotated gospel
//! set, the fixed table of custom readings, and the synthesized
//! placeholder readings used everywhere else.

use vstd::prelude::*;
use vstd::string::StringExecFns;
use crate::events::{Label, wf_label};

verus! {

/// The decimal digit `d` as a character.
pub open spec fn digit_char(d: int) -> char {
    if d == 0 {
        '0'
    } else if d == 1 {
        '1'
    } else if d == 2 {
        '2'
    } else if d == 3 {
        '3'
    } else if d == 4 {
        '4'
    } else if d == 5 {
        '5'
    } else if d == 6 {
        '6'
    } else if d == 7 {
        '7'
    } else if d == 8 {
        '8'
    } else {
        '9'
    }
}

/// The decimal text of `n`, for `0 <= n <= 99`.
pub open spec fn dec_digits(n: int) -> Seq<char> {
    if n < 10 {
        seq![digit_char(n)]
    } else {
        seq![digit_char(n / 10), digit_char(n % 10)]
    }
}

fn digit_str(d: u8) -> (r: &'static str)
    requires
        d < 10,
    ensures
        r@ == seq![digit_char(d as int)],
{
    proof {
        reveal_strlit("0");
        reveal_strlit("1");
        reveal_strlit("2");
        reveal_strlit("3");
        reveal_strlit("4");
        reveal_strlit("5");
        reveal_strlit("6");
        reveal_strlit("7");
        reveal_strlit("8");
        reveal_strlit("9");
    }
    let r: &'static str = match d {
        0 => "0",
        1 => "1",
        2 => "2",
        3 => "3",
        4 => "4",
        5 => "5",
        6 => "6",
        7 => "7",
        8 => "8",
        _ => "9",
    };
    proof {
        assert(r@ =~= seq![digit_char(d as int)]);
    }
    r
}

/// Appends the decimal text of `n` to `s`.
fn push_num(s: &mut String, n: u8)
    requires
        n < 100,
    ensures
        final(s)@ == old(s)@ + dec_digits(n as int),
{
    if n >= 10 {
        s.append(digit_str(n / 10));
    }
    s.append(digit_str(n % 10));
    proof {
        assert(final(s)@ =~= old(s)@ + dec_digits(n as int));
    }
}

/// The text of an event label: the series name alone for the first
/// event of a series, otherwise the series name with its offset, as
/// in "advent + 3" or "easter - 9".
pub open spec fn label_text(l: Label) -> Seq<char> {
    match l {
        Label::Advent(i) => if i == 0 {
            "advent"@
        } else {
            "advent"@ + " + "@ + dec_digits(i as int)
        },
        Label::Christmas(i) => if i == 0 {
            "christmas"@
        } else {
            "christmas"@ + " + "@ + dec_digits(i as int)
        },
        Label::NewYear => "new year"@,
        Label::Epiphany(i) => if i == 0 {
            "epiphany"@
        } else {
            "epiphany"@ + " + "@ + dec_digits(i as int)
        },
        Label::EasterBefore(j) => "easter"@ + " - "@ + dec_digits(j as int),
        Label::Easter(i) => if i == 0 {
            "easter"@
        } else {
            "easter"@ + " + "@ + dec_digits(i as int)
        },
        Label::Pentecost => "pentecost"@,
        Label::Trinity(i) => if i == 0 {
            "trinity"@
        } else {
            "trinity"@ + " + "@ + dec_digits(i as int)
        },
    }
}

/// The series name with " + " and an offset appended when the offset
/// is not zero.
fn series_label(base: &str, i: u8) -> (r: String)
    requires
        i < 100,
    ensures
        r@ == if i == 0 {
            base@
        } else {
            base@ + " + "@ + dec_digits(i as int)
        },
{
    let mut s = base.to_owned();
    if i > 0 {
        s.append(" + ");
        push_num(&mut s, i);
    }
    s
}

/// The text of an event label, as a `String`.
pub fn label_string(l: Label) -> (r: String)
    requires
        wf_label(l),
    ensures
        r@ == label_text(l),
{
    match l {
        Label::Advent(i) => series_label("advent", i),
        Label::Christmas(i) => series_label("christmas", i),
        Label::NewYear => "new year".to_owned(),
        Label::Epiphany(i) => series_label("epiphany", i),
        Label::EasterBefore(j) => {
            let mut s = "easter".to_owned();
            s.append(" - ");
            push_num(&mut s, j);
            s
        },
        Label::Easter(i) => series_label("easter", i),
        Label::Pentecost => "pentecost".to_owned(),
        Label::Trinity(i) => series_label("trinity", i),
    }
}

/// The set whose gospel reading is used: one set ahead in the
/// three-year cycle, wrapping 3 back to 1.
pub open spec fn spec_gospel_set(set: int) -> int {
    if set == 3 {
        1
    } else {
        set + 1
    }
}

/// The gospel reading is drawn one set ahead: 1 maps to 2, 2 to 3,
/// and 3 wraps back to 1.
pub fn gospel_set(set: i32) -> (r: i32)
    requires
        1 <= set <= 3,
    ensures
        r as int == spec_gospel_set(set as int),
        set == 1 ==> r == 2,
        set == 2 ==> r == 3,
        set == 3 ==> r == 1,
{
    if set == 3 {
        1
    } else {
        set + 1
    }
}

/// The four readings resolved for an event: Old Testament, Lection,
/// Gospel and Preaching references.
pub struct Readings {
    pub old_testament: String,
    pub lection: String,
    pub gospel: String,
    pub preaching: String,
}

/// Whether the fixed table of custom readings has an entry for the
/// given label and set.
pub open spec fn has_custom(l: Label, set: int) -> bool {
    (l == Label::Epiphany(5) && set == 1) || (l == Label::EasterBefore(9) && set == 1)
}

/// The synthesized placeholder text of one reading field.
pub open spec fn default_reading_text(field: Seq<char>, l: Label, set: int) -> Seq<char> {
    field + " reading for "@ + label_text(l) + " (Set "@ + dec_digits(set) + ")"@
}

fn default_reading(field: &str, l: Label, set: i32) -> (r: String)
    requires
        wf_label(l),
        1 <= set <= 3,
    ensures
        r@ == default_reading_text(field@, l, set as int),
{
    let mut s = field.to_owned();
    s.append(" reading for ");
    let lbl = label_string(l);
    s.append(lbl.as_str());
    s.append(" (Set ");
    push_num(&mut s, set as u8);
    s.append(")");
    proof {
        assert(s@ =~= default_reading_text(field@, l, set as int));
    }
    s
}

/// What correctly resolved readings for `(l, set)` hold: the custom
/// table entry verbatim where one exists, otherwise the four
/// synthesized placeholders, with the gospel set rotated one ahead.
pub open spec fn readings_match(l: Label, set: int, r: Readings) -> bool {
    &&& l == Label::Epiphany(5) && set == 1 ==> r.old_testament@ == "Jer 17:5-10"@ && r.lection@
        == "Col 3:12-17"@ && r.gospel@ == "Mat 13:31-35"@ && r.preaching@ == "Mat 13:24-30"@
    &&& l == Label::EasterBefore(9) && set == 1 ==> r.old_testament@ == "Jer 1:4-10"@
        && r.lection@ == "1 Cor:09:24-10:05"@ && r.gospel@ == "Mat 19:27-30"@ && r.preaching@
        == "Mat 20:1-16"@
    &&& !has_custom(l, set) ==> r.old_testament@ == default_reading_text(
        "Old Testament"@,
        l,
        set,
    ) && r.lection@ == default_reading_text("Lection"@, l, set) && r.gospel@
        == default_reading_text("Gospel"@, l, spec_gospel_set(set)) && r.preaching@
        == default_reading_text("Preaching"@, l, set)
}

/// Resolves the readings for an event label and a reading set.
pub fn resolve_readings(l: Label, set: i32) -> (r: Readings)
    requires
        wf_label(l),
        1 <= set <= 3,
    ensures
        readings_match(l, set as int, r),
{
    if l == Label::Epiphany(5) && set == 1 {
        Readings {
            old_testament: "Jer 17:5-10".to_owned(),
            lection: "Col 3:12-17".to_owned(),
            gospel: "Mat 13:31-35".to_owned(),
            preaching: "Mat 13:24-30".to_owned(),
        }
    } else if l == Label::EasterBefore(9) && set == 1 {
        Readings {
            old_testament: "Jer 1:4-10".to_owned(),
            lection: "1 Cor:09:24-10:05".to_owned(),
            gospel: "Mat 19:27-30".to_owned(),
            preaching: "Mat 20:1-16".to_owned(),
        }
    } else {
        let gset = gospel_set(set);
        Readings {
            old_testament: default_reading("Old Testament", l, set),
            lection: default_reading("Lection", l, set),
            gospel: default_reading("Gospel", l, gset),
            preaching: default_reading("Preaching", l, set),
        }
    }
}

} // verus!
