//! The typed cells of a sheet, and how a cell is read as text or as a number.

use vstd::prelude::*;
use vstd::string::*;
use crate::decimal::{decimal_of, parse_decimal, sign_end, Decimal, LIMIT};
use crate::text::{chars_of, int_digits, render_int, trim, trimmed};

verus! {

/// The error markers that a sheet can hold in place of a value.
#[derive(Clone, Copy, Debug, PartialEq, Eq)]
pub enum CellErrorType {
    /// Division by zero.
    Div0,
    /// A value that is not available.
    NA,
    /// A name that is not known.
    Name,
    /// An empty intersection.
    Null,
    /// A number that is not valid.
    Num,
    /// A reference that is not valid.
    Ref,
    /// A value of the wrong type.
    Value,
    /// Data that is still being fetched.
    GettingData,
}

/// One cell of a sheet.
///
/// Numbers with a fractional part, and serial date-times, are held as the
/// decimal literal that denotes them, so that nothing is lost before the cell
/// is read as text, as an amount or as a day.
#[derive(Clone, Debug)]
pub enum Data {
    /// A whole number.
    Int(i64),
    /// A number, as a decimal literal.
    Float(String),
    /// Text.
    String(String),
    /// A truth value.
    Bool(bool),
    /// A date or time as a serial day number, as a decimal literal.
    DateTime(String),
    /// A date or time in ISO 8601 form.
    DateTimeIso(String),
    /// A duration in ISO 8601 form.
    DurationIso(String),
    /// An error marker.
    Error(CellErrorType),
    /// Nothing.
    Empty,
}

/// The name of the error marker `e`.
pub open spec fn error_name(e: CellErrorType) -> Seq<char> {
    match e {
        CellErrorType::Div0 => "Div0"@,
        CellErrorType::NA => "NA"@,
        CellErrorType::Name => "Name"@,
        CellErrorType::Null => "Null"@,
        CellErrorType::Num => "Num"@,
        CellErrorType::Ref => "Ref"@,
        CellErrorType::Value => "Value"@,
        CellErrorType::GettingData => "GettingData"@,
    }
}

/// The cell `value` read as text: numbers in decimal form, truth values as
/// `true` and `false`, an error marker by its name, an empty cell as the
/// empty text, and every other cell by the text it holds.
pub open spec fn cell_text(value: Data) -> Seq<char> {
    match value {
        Data::Int(i) => int_digits(i as int),
        Data::Float(s) => s@,
        Data::String(s) => s@,
        Data::Bool(b) => if b {
            "true"@
        } else {
            "false"@
        },
        Data::DateTime(s) => s@,
        Data::DateTimeIso(s) => s@,
        Data::DurationIso(s) => s@,
        Data::Error(e) => error_name(e),
        Data::Empty => Seq::empty(),
    }
}

/// Whether `c` is the small letter `letter` or its capital.
pub open spec fn is_letter(c: char, letter: char) -> bool {
    c == letter || c as int + 32 == letter as int
}

/// Whether `s` names infinity: a sign, if at all, and then `inf` or
/// `infinity`, in small or capital letters.
pub open spec fn names_infinity(s: Seq<char>) -> bool {
    let w = s.skip(sign_end(s));
    ||| w.len() == 3 && is_letter(w[0], 'i') && is_letter(w[1], 'n') && is_letter(w[2], 'f')
    ||| w.len() == 8 && is_letter(w[0], 'i') && is_letter(w[1], 'n') && is_letter(w[2], 'f')
        && is_letter(w[3], 'i') && is_letter(w[4], 'n') && is_letter(w[5], 'i') && is_letter(
        w[6],
        't',
    ) && is_letter(w[7], 'y')
}

/// The number that the text `s` denotes, in millionths, or zero if it
/// denotes none.
///
/// A literal is a sign, digits with at most one decimal point and, if at
/// all, an exponent, as in `1.5e3`. It is rounded to the nearest millionth.
/// A literal beyond `LIMIT`, which is ten to the power 30 units, is held to
/// `LIMIT`, and so is infinity where it is named. Everything else gives
/// zero: words, and `NaN` among them.
pub open spec fn number_or_zero(s: Seq<char>) -> int {
    match decimal_of(s) {
        Some(m) => m,
        None => if names_infinity(s) {
            if s[0] == '-' {
                -LIMIT
            } else {
                LIMIT as int
            }
        } else {
            0
        },
    }
}

/// The cell `value` read as a number, in millionths: a number cell gives its
/// value, a text cell the number that its trimmed text denotes, and
/// everything else gives zero.
///
/// A whole-number cell gives its value, whatever it is. A number with a
/// fraction and a number in text are rounded to the nearest millionth, and
/// held to ten to the power 30 units where they lie beyond, infinity
/// included. Text gives zero only where it is no number, as `abc` and `NaN`
/// are none.
pub open spec fn cell_number(value: Data) -> int {
    match value {
        Data::Int(i) => i * 1_000_000,
        Data::Float(s) => number_or_zero(s@),
        Data::String(s) => number_or_zero(trimmed(s@)),
        _ => 0,
    }
}

/// The name of the error marker `e`.
pub fn error_text(e: CellErrorType) -> (r: String)
    ensures
        r@ == error_name(e),
{
    match e {
        CellErrorType::Div0 => String::from_str("Div0"),
        CellErrorType::NA => String::from_str("NA"),
        CellErrorType::Name => String::from_str("Name"),
        CellErrorType::Null => String::from_str("Null"),
        CellErrorType::Num => String::from_str("Num"),
        CellErrorType::Ref => String::from_str("Ref"),
        CellErrorType::Value => String::from_str("Value"),
        CellErrorType::GettingData => String::from_str("GettingData"),
    }
}

/// Reads the cell `value` as text.
pub fn data_to_string(value: &Data) -> (r: String)
    ensures
        r@ == cell_text(*value),
{
    match value {
        Data::Int(i) => render_int(*i),
        Data::Float(s) => s.clone(),
        Data::String(s) => s.clone(),
        Data::Bool(b) => if *b {
            String::from_str("true")
        } else {
            String::from_str("false")
        },
        Data::DateTime(s) => s.clone(),
        Data::DateTimeIso(s) => s.clone(),
        Data::DurationIso(s) => s.clone(),
        Data::Error(e) => error_text(*e),
        Data::Empty => String::new(),
    }
}

/// Reads the cell `value` as text and trims it.
pub fn trimmed_text(value: &Data) -> (r: String)
    ensures
        r@ == trimmed(cell_text(*value)),
{
    let text = data_to_string(value);
    trim(text.as_str())
}

/// Tells whether `c` is the small letter `letter` or its capital.
fn letter_is(c: char, letter: char) -> (b: bool)
    ensures
        b == is_letter(c, letter),
{
    c == letter || c as u32 + 32 == letter as u32
}

/// Tells whether the word of `cs` from `from` on is `inf` or `infinity`.
fn infinity_from(cs: &Vec<char>, from: usize) -> (b: bool)
    requires
        from <= cs.len(),
        from == sign_end(cs@),
    ensures
        b == names_infinity(cs@),
{
    let n = cs.len() - from;
    proof {
        let w = cs@.skip(from as int);
        assert(w.len() == n);
        assert(forall|i: int| 0 <= i < n ==> w[i] == cs@[from + i]);
    }
    if n == 3 {
        letter_is(cs[from], 'i') && letter_is(cs[from + 1], 'n') && letter_is(cs[from + 2], 'f')
    } else if n == 8 {
        letter_is(cs[from], 'i') && letter_is(cs[from + 1], 'n') && letter_is(cs[from + 2], 'f')
            && letter_is(cs[from + 3], 'i') && letter_is(cs[from + 4], 'n') && letter_is(
            cs[from + 5],
            'i',
        ) && letter_is(cs[from + 6], 't') && letter_is(cs[from + 7], 'y')
    } else {
        false
    }
}

/// Reads the text `s` as a number, zero if it is none.
pub fn number_of_text(s: &str) -> (d: Decimal)
    ensures
        d@ == number_or_zero(s@),
{
    match parse_decimal(s) {
        Some(d) => d,
        None => {
            let cs = chars_of(s);
            let signed = cs.len() > 0 && (cs[0] == '+' || cs[0] == '-');
            let from: usize = if signed {
                1
            } else {
                0
            };
            let held = if !infinity_from(&cs, from) {
                Some(Decimal::zero())
            } else if cs[0] == '-' {
                Decimal::from_micros(-LIMIT)
            } else {
                Decimal::from_micros(LIMIT)
            };
            match held {
                Some(d) => d,
                None => Decimal::zero(),
            }
        },
    }
}

/// Reads the cell `value` as a number.
///
/// A whole number is taken as it is. A number with a fraction is read from
/// its literal, and text is trimmed and read as a literal, which may have
/// an exponent; both are rounded to the nearest millionth, and held to ten
/// to the power 30 units where they lie beyond, infinity included. Text that
/// is no number, and every other cell, counts as zero.
pub fn parse_number(value: &Data) -> (d: Decimal)
    ensures
        d@ == cell_number(*value),
{
    match value {
        Data::Int(i) => Decimal::from_units(*i),
        Data::Float(s) => number_of_text(s.as_str()),
        Data::String(s) => {
            let t = trim(s.as_str());
            number_of_text(t.as_str())
        },
        _ => Decimal::zero(),
    }
}

} // verus!
