//! The month of an order, as seven characters `YYYY-MM`, read from a date
//! cell.

use vstd::prelude::*;
use vstd::string::*;
use crate::calendar::{date_after_epoch, day_after_epoch, parse_date_by, parsed_date, CalendarDate};
use crate::cell::Data;
use crate::decimal::{whole_days, whole_days_of};
use crate::text::{all_digits, chars_of, digit_char, is_digit, is_digit_char, push_digit, trim, trimmed};

verus! {

/// Whether `c` separates the parts of a date: `-`, `/` or `.`.
pub open spec fn is_separator(c: char) -> bool {
    c == '-' || c == '/' || c == '.'
}

/// The month `YYYY-MM` made of the four digits `year` and the one or two
/// digits `month`, a single digit getting a zero in front.
pub open spec fn month_label(year: Seq<char>, month: Seq<char>) -> Seq<char> {
    if month.len() == 1 {
        year + seq!['-', '0'] + month
    } else {
        year + seq!['-'] + month
    }
}

/// The month of a text that starts with four digits, a separator and one or
/// two digits, such as `2024-1-15` or `2024/01`.
pub open spec fn separated_month(s: Seq<char>) -> Option<Seq<char>> {
    if s.len() >= 6 && all_digits(s.take(4)) && is_separator(s[4]) && is_digit(s[5]) {
        if s.len() >= 7 && is_digit(s[6]) {
            Some(month_label(s.take(4), s.subrange(5, 7)))
        } else {
            Some(month_label(s.take(4), s.subrange(5, 6)))
        }
    } else {
        None
    }
}

/// The month of a text that starts with four digits, `年`, one or two digits
/// and `月`.
pub open spec fn inscribed_month(s: Seq<char>) -> Option<Seq<char>> {
    if s.len() >= 7 && all_digits(s.take(4)) && s[4] == '年' && is_digit(s[5]) {
        if s.len() >= 8 && is_digit(s[6]) && s[7] == '月' {
            Some(month_label(s.take(4), s.subrange(5, 7)))
        } else if s[6] == '月' {
            Some(month_label(s.take(4), s.subrange(5, 6)))
        } else {
            None
        }
    } else {
        None
    }
}

/// The month of a text that starts with eight digits, read as `YYYYMMDD`.
pub open spec fn compact_month(s: Seq<char>) -> Option<Seq<char>> {
    if s.len() >= 8 && all_digits(s.take(8)) {
        Some(month_label(s.take(4), s.subrange(4, 6)))
    } else {
        None
    }
}

/// The month `YYYY-MM` of the date `date`, for a year from 0 to 9999.
pub open spec fn formatted_month(date: (int, int, int)) -> Option<Seq<char>> {
    let (y, m, _d) = date;
    if 0 <= y <= 9999 && 1 <= m <= 12 {
        Some(
            seq![
                digit_char(y / 1000),
                digit_char(y / 100 % 10),
                digit_char(y / 10 % 10),
                digit_char(y % 10),
                '-',
                digit_char(m / 10),
                digit_char(m % 10),
            ],
        )
    } else {
        None
    }
}

/// The month of a text that is a whole date in the form year, month, day,
/// separated by `-`, by `/` or by `.`, as `chrono` reads it.
pub open spec fn parsed_month(s: Seq<char>) -> Option<Seq<char>> {
    match parsed_date(s, "%Y-%m-%d"@) {
        Some(d) => formatted_month(d),
        None => match parsed_date(s, "%Y/%m/%d"@) {
            Some(d) => formatted_month(d),
            None => match parsed_date(s, "%Y.%m.%d"@) {
                Some(d) => formatted_month(d),
                None => None,
            },
        },
    }
}

/// The month of the date written in `s`. The text is trimmed; then the
/// first of these that applies decides: digits with separators, digits with
/// `年` and `月`, eight digits, a whole date.
pub open spec fn month_of_text(s: Seq<char>) -> Option<Seq<char>> {
    let t = trimmed(s);
    if separated_month(t) is Some {
        separated_month(t)
    } else if inscribed_month(t) is Some {
        inscribed_month(t)
    } else if compact_month(t) is Some {
        compact_month(t)
    } else {
        parsed_month(t)
    }
}

/// The month of the day `days` days after 30 December 1899.
pub open spec fn serial_month(days: int) -> Option<Seq<char>> {
    match day_after_epoch(days) {
        Some(d) => formatted_month(d),
        None => None,
    }
}

/// The month of the date cell `value`.
///
/// A serial date-time gives the month of its day; a number does so if it is
/// greater than zero and less than 100000; ISO text of seven characters or
/// more gives its first seven; other text is read as a date. Everything
/// else has no month.
pub open spec fn cell_month(value: Data) -> Option<Seq<char>> {
    match value {
        Data::DateTime(s) => match whole_days_of(s@) {
            Some(d) => serial_month(d),
            None => None,
        },
        Data::Float(s) => match whole_days_of(s@) {
            Some(d) => if d < 100000 {
                serial_month(d)
            } else {
                None
            },
            None => None,
        },
        Data::DateTimeIso(s) => if s@.len() >= 7 {
            Some(s@.take(7))
        } else {
            None
        },
        Data::String(s) => month_of_text(s@),
        _ => None,
    }
}

/// Every month that a text gives has seven characters.
pub proof fn lemma_month_of_text_len(s: Seq<char>)
    ensures
        month_of_text(s) matches Some(m) ==> m.len() == 7,
{
}

/// Every month that a cell gives has seven characters.
pub proof fn lemma_cell_month_len(value: Data)
    ensures
        cell_month(value) matches Some(m) ==> m.len() == 7,
{
    match value {
        Data::String(s) => {
            lemma_month_of_text_len(s@);
        },
        _ => {},
    }
}

/// Writes the month of `date` as `YYYY-MM`, for a year from 0 to 9999.
pub fn format_month(date: &CalendarDate) -> (r: Option<String>)
    ensures
        match r {
            Some(m) => formatted_month(date.triple()) == Some(m@),
            None => formatted_month(date.triple()) is None,
        },
{
    if date.year < 0 || date.year > 9999 || date.month < 1 || date.month > 12 {
        return None;
    }
    let y: u32 = date.year as u32;
    let m: u32 = date.month;
    let mut r = String::new();
    push_digit(&mut r, (y / 1000) as u8);
    push_digit(&mut r, (y / 100 % 10) as u8);
    push_digit(&mut r, (y / 10 % 10) as u8);
    push_digit(&mut r, (y % 10) as u8);
    proof {
        reveal_strlit("-");
    }
    r.append("-");
    push_digit(&mut r, (m / 10) as u8);
    push_digit(&mut r, (m % 10) as u8);
    assert(r@ == formatted_month(date.triple())->0);
    Some(r)
}

/// Writes the month made of the year `t[0..4]` and the month digits
/// `t[from..to]`.
fn label_from(t: &str, from: usize, to: usize) -> (r: String)
    requires
        4 <= from < to <= t@.len(),
        to - from <= 2,
    ensures
        r@ == month_label(t@.take(4), t@.subrange(from as int, to as int)),
{
    let mut r = String::from_str(t.substring_char(0, 4));
    proof {
        reveal_strlit("-");
        reveal_strlit("-0");
        assert(t@.subrange(0, 4) == t@.take(4));
    }
    if to - from == 1 {
        r.append("-0");
    } else {
        r.append("-");
    }
    r.append(t.substring_char(from, to));
    r
}

/// Tells whether the first `n` characters of `cs` are digits.
fn starts_with_digits(cs: &Vec<char>, n: usize) -> (b: bool)
    ensures
        b == (cs@.len() >= n && all_digits(cs@.take(n as int))),
{
    if cs.len() < n {
        return false;
    }
    let mut i: usize = 0;
    while i < n
        invariant
            i <= n <= cs.len(),
            forall|j: int| 0 <= j < i ==> is_digit(#[trigger] cs@[j]),
        decreases n - i,
    {
        if !is_digit_char(cs[i]) {
            assert(cs@.take(n as int)[i as int] == cs@[i as int]);
            return false;
        }
        i += 1;
    }
    assert forall|j: int| 0 <= j < n implies is_digit(#[trigger] cs@.take(n as int)[j]) by {
        assert(is_digit(cs@[j]));
    }
    true
}

/// Reads the month of the date written in `s`.
pub fn parse_month_from_string(s: &str) -> (r: Option<String>)
    ensures
        match r {
            Some(m) => month_of_text(s@) == Some(m@) && m@.len() == 7,
            None => month_of_text(s@) is None,
        },
{
    let trimmed_s = trim(s);
    let t = trimmed_s.as_str();
    let cs = chars_of(t);
    let n = cs.len();
    let four = starts_with_digits(&cs, 4);
    proof {
        lemma_month_of_text_len(s@);
    }
    if four && n >= 6 && (cs[4] == '-' || cs[4] == '/' || cs[4] == '.') && is_digit_char(cs[5]) {
        if n >= 7 && is_digit_char(cs[6]) {
            return Some(label_from(t, 5, 7));
        } else {
            return Some(label_from(t, 5, 6));
        }
    }
    if four && n >= 7 && cs[4] == '年' && is_digit_char(cs[5]) {
        if n >= 8 && is_digit_char(cs[6]) && cs[7] == '月' {
            return Some(label_from(t, 5, 7));
        } else if cs[6] == '月' {
            return Some(label_from(t, 5, 6));
        }
    }
    if starts_with_digits(&cs, 8) {
        return Some(label_from(t, 4, 6));
    }
    match parse_date_by(t, "%Y-%m-%d") {
        Some(d) => {
            return format_month(&d);
        },
        None => {},
    }
    match parse_date_by(t, "%Y/%m/%d") {
        Some(d) => {
            return format_month(&d);
        },
        None => {},
    }
    match parse_date_by(t, "%Y.%m.%d") {
        Some(d) => format_month(&d),
        None => None,
    }
}

/// Reads the month of the day with the serial number `days`.
fn month_of_serial(days: i64) -> (r: Option<String>)
    ensures
        match r {
            Some(m) => serial_month(days as int) == Some(m@),
            None => serial_month(days as int) is None,
        },
{
    match date_after_epoch(days) {
        Some(d) => format_month(&d),
        None => None,
    }
}

/// Reads the month of the date cell `value`.
pub fn extract_month(value: &Data) -> (r: Option<String>)
    ensures
        match r {
            Some(m) => cell_month(*value) == Some(m@) && m@.len() == 7,
            None => cell_month(*value) is None,
        },
{
    proof {
        lemma_cell_month_len(*value);
    }
    match value {
        Data::DateTime(s) => match whole_days(s.as_str()) {
            Some(d) => month_of_serial(d),
            None => None,
        },
        Data::Float(s) => match whole_days(s.as_str()) {
            Some(d) => if d < 100000 {
                month_of_serial(d)
            } else {
                None
            },
            None => None,
        },
        Data::DateTimeIso(s) => {
            let text = s.as_str();
            if text.unicode_len() >= 7 {
                assert(text@.subrange(0, 7) == text@.take(7));
                Some(String::from_str(text.substring_char(0, 7)))
            } else {
                None
            }
        },
        Data::String(s) => parse_month_from_string(s.as_str()),
        _ => None,
    }
}

} // verus!
