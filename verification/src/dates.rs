//! Dates written as text: `2025/11/4`, `2025-11-04 10:30:00`, or the serial
//! day number of a sheet.

use vstd::prelude::*;
use vstd::string::*;
use crate::calendar::{
    date_after_epoch, date_from_ymd, day_after_epoch, is_calendar_date, CalendarDate,
};
use crate::decimal::{digits_capped, whole_days, whole_days_of, whole_part, whole_part_of};
use crate::text::{
    all_digits, chars_of, digits_value, int_digits, is_digit, is_digit_char, is_space,
    is_space_char, render_int, trim, trimmed,
};

verus! {

/// The index of the first `c` in `s`, or the length of `s` if it has none.
pub open spec fn find_char(s: Seq<char>, c: char) -> int
    decreases s.len(),
{
    if s.len() == 0 || s[0] == c {
        0
    } else {
        1 + find_char(s.drop_first(), c)
    }
}

/// The index of the first white space in `s`, or the length of `s` if it
/// has none.
pub open spec fn find_space(s: Seq<char>) -> int
    decreases s.len(),
{
    if s.len() == 0 || is_space(s[0]) {
        0
    } else {
        1 + find_space(s.drop_first())
    }
}

/// The first word of `s`: what stands before its first white space.
pub open spec fn first_word(s: Seq<char>) -> Seq<char> {
    s.take(find_space(s))
}

/// The three parts of `s` between its two separators `sep`; nothing if `s`
/// does not have exactly two.
pub open spec fn three_parts(s: Seq<char>, sep: char) -> Option<(Seq<char>, Seq<char>, Seq<char>)> {
    let i = find_char(s, sep);
    if i < s.len() {
        let rest = s.skip(i + 1);
        let j = find_char(rest, sep);
        if j < rest.len() {
            let last = rest.skip(j + 1);
            if find_char(last, sep) == last.len() {
                Some((s.take(i), rest.take(j), last))
            } else {
                None
            }
        } else {
            None
        }
    } else {
        None
    }
}

/// The whole number that `s` denotes: digits, after a `+` or, where
/// `signed`, a `-`. Nothing if `s` is anything else.
pub open spec fn whole_number(s: Seq<char>, signed: bool) -> Option<int> {
    let negative = signed && s.len() > 0 && s[0] == '-';
    let digits = if s.len() > 0 && (s[0] == '+' || negative) {
        s.drop_first()
    } else {
        s
    };
    if digits.len() > 0 && all_digits(digits) {
        if negative {
            Some(-(digits_value(digits) as int))
        } else {
            Some(digits_value(digits) as int)
        }
    } else {
        None
    }
}

/// The year that `s` denotes: a whole number that an `i32` holds.
pub open spec fn year_of(s: Seq<char>) -> Option<int> {
    match whole_number(s, true) {
        Some(v) => if i32::MIN <= v <= i32::MAX {
            Some(v)
        } else {
            None
        },
        None => None,
    }
}

/// The month or day that `s` denotes: a whole number without `-` that a
/// `u32` holds.
pub open spec fn count_of_text(s: Seq<char>) -> Option<int> {
    match whole_number(s, false) {
        Some(v) => if v <= u32::MAX {
            Some(v)
        } else {
            None
        },
        None => None,
    }
}

/// The separator of the date `word`: `/` if it has one, else `-` if it has
/// one.
pub open spec fn separator_of(word: Seq<char>) -> Option<char> {
    if find_char(word, '/') < word.len() {
        Some('/')
    } else if find_char(word, '-') < word.len() {
        Some('-')
    } else {
        None
    }
}

/// The date written in `s` as year, month and day with `/` or `-` between
/// them. The text is trimmed, and what follows its first word, such as a
/// time, is left aside. Nothing unless the day exists.
pub open spec fn date_of_text(s: Seq<char>) -> Option<(int, int, int)> {
    let word = first_word(trimmed(s));
    match separator_of(word) {
        Some(sep) => match three_parts(word, sep) {
            Some((y, m, d)) => match (year_of(y), count_of_text(m), count_of_text(d)) {
                (Some(year), Some(month), Some(day)) => if is_calendar_date(year, month, day) {
                    Some((year, month, day))
                } else {
                    None
                },
                _ => None,
            },
            None => None,
        },
        None => None,
    }
}

/// The date of an order written in `s`: a serial day number greater than
/// zero counts from 30 December 1899, less two days; anything else is read
/// as a date in text.
pub open spec fn order_date_of(s: Seq<char>) -> Option<(int, int, int)> {
    match whole_days_of(trimmed(s)) {
        Some(days) => day_after_epoch(days - 2),
        None => date_of_text(s),
    }
}

/// The date `date` written as year, month and day with `/` between them
/// and no zeros in front.
pub open spec fn slashed(date: (int, int, int)) -> Seq<char> {
    int_digits(date.0) + seq!['/'] + int_digits(date.1) + seq!['/'] + int_digits(date.2)
}

/// The day with the serial number `s`, written with slashes; empty where
/// the number cannot be read or the day is out of range.
pub open spec fn serial_as_text(s: Seq<char>) -> Seq<char> {
    match whole_part_of(s) {
        Some(days) => match day_after_epoch(days) {
            Some(date) => slashed(date),
            None => Seq::empty(),
        },
        None => Seq::empty(),
    }
}

/// The first `c` is where no `c` stands before and one stands, or at the
/// end.
proof fn lemma_find_char(s: Seq<char>, c: char, k: int)
    requires
        0 <= k <= s.len(),
        forall|i: int| 0 <= i < k ==> #[trigger] s[i] != c,
        k < s.len() ==> s[k] == c,
    ensures
        find_char(s, c) == k,
    decreases k,
{
    if k > 0 {
        lemma_find_char(s.drop_first(), c, k - 1);
    }
}

/// The first white space is where none stands before and one stands, or at
/// the end.
proof fn lemma_find_space(s: Seq<char>, k: int)
    requires
        0 <= k <= s.len(),
        forall|i: int| 0 <= i < k ==> !is_space(#[trigger] s[i]),
        k < s.len() ==> is_space(s[k]),
    ensures
        find_space(s) == k,
    decreases k,
{
    if k > 0 {
        lemma_find_space(s.drop_first(), k - 1);
    }
}

/// Finds the first `c` in `cs[from..to]`; gives `to` if there is none.
fn seek(cs: &Vec<char>, from: usize, to: usize, c: char) -> (k: usize)
    requires
        from <= to <= cs.len(),
    ensures
        from <= k <= to,
        k - from == find_char(cs@.subrange(from as int, to as int), c),
{
    let ghost s = cs@.subrange(from as int, to as int);
    let mut k: usize = from;
    while k < to && cs[k] != c
        invariant
            from <= k <= to <= cs.len(),
            s == cs@.subrange(from as int, to as int),
            forall|i: int| 0 <= i < k - from ==> #[trigger] s[i] != c,
        decreases to - k,
    {
        k += 1;
    }
    proof {
        lemma_find_char(s, c, k - from);
    }
    k
}

/// Reads the whole number `cs[from..to]`, which must be at most `cap` in
/// magnitude.
fn read_whole(cs: &Vec<char>, from: usize, to: usize, signed: bool, cap: u64) -> (r: Option<i64>)
    requires
        from <= to <= cs.len(),
        cap <= 4_294_967_296,
    ensures
        match r {
            Some(v) => whole_number(cs@.subrange(from as int, to as int), signed) == Some(v as int)
                && -cap <= v <= cap,
            None => match whole_number(cs@.subrange(from as int, to as int), signed) {
                Some(v) => v < -cap || v > cap,
                None => true,
            },
        },
{
    let ghost s = cs@.subrange(from as int, to as int);
    let negative = signed && from < to && cs[from] == '-';
    let start: usize = if from < to && (cs[from] == '+' || negative) {
        from + 1
    } else {
        from
    };
    let ghost digits = cs@.subrange(start as int, to as int);
    proof {
        if start > from {
            assert(s.drop_first() == digits);
        } else {
            assert(s == digits);
        }
    }
    if start == to {
        return None;
    }
    let mut i: usize = start;
    while i < to
        invariant
            start <= i <= to <= cs.len(),
            s == cs@.subrange(from as int, to as int),
            digits == cs@.subrange(start as int, to as int),
            negative == (signed && s.len() > 0 && s[0] == '-'),
            digits == if s.len() > 0 && (s[0] == '+' || negative) {
                s.drop_first()
            } else {
                s
            },
            forall|j: int| 0 <= j < i - start ==> is_digit(#[trigger] digits[j]),
        decreases to - i,
    {
        if !is_digit_char(cs[i]) {
            assert(!is_digit(digits[i - start]));
            return None;
        }
        i += 1;
    }
    match digits_capped(cs, start, to, cap as u128) {
        Some(v) => if negative {
            Some(-(v as i64))
        } else {
            Some(v as i64)
        },
        None => None,
    }
}

/// Reads the date written in `s` as year, month and day with `/` or `-`
/// between them.
pub fn parse_date(s: &str) -> (r: Option<CalendarDate>)
    ensures
        match r {
            Some(date) => date_of_text(s@) == Some(date.triple()),
            None => date_of_text(s@) is None,
        },
{
    let t = trim(s);
    let cs = chars_of(t.as_str());
    let mut end: usize = 0;
    while end < cs.len() && !is_space_char(cs[end])
        invariant
            end <= cs.len(),
            forall|i: int| 0 <= i < end ==> !is_space(#[trigger] cs@[i]),
        decreases cs.len() - end,
    {
        end += 1;
    }
    let ghost word = first_word(cs@);
    proof {
        lemma_find_space(cs@, end as int);
        assert(word == cs@.subrange(0, end as int));
    }
    let slash = seek(&cs, 0, end, '/');
    let sep = if slash < end {
        '/'
    } else {
        let dash = seek(&cs, 0, end, '-');
        if dash < end {
            '-'
        } else {
            return None;
        }
    };
    let first = seek(&cs, 0, end, sep);
    if first >= end {
        return None;
    }
    let ghost rest = word.skip(first + 1);
    assert(rest == cs@.subrange(first + 1, end as int));
    let second = seek(&cs, first + 1, end, sep);
    if second >= end {
        return None;
    }
    let ghost last = rest.skip(second - first);
    assert(last == cs@.subrange(second + 1, end as int));
    let third = seek(&cs, second + 1, end, sep);
    if third < end {
        return None;
    }
    proof {
        assert(word.take(first as int) == cs@.subrange(0, first as int));
        assert(rest.take(second - first - 1) == cs@.subrange(first + 1, second as int));
    }
    let year = match read_whole(&cs, 0, first, true, 2_147_483_648) {
        Some(y) => {
            if y > 2_147_483_647 {
                return None;
            }
            y as i32
        },
        None => {
            return None;
        },
    };
    let month = match read_whole(&cs, first + 1, second, false, 4_294_967_295) {
        Some(m) => m as u32,
        None => {
            return None;
        },
    };
    let day = match read_whole(&cs, second + 1, end, false, 4_294_967_295) {
        Some(d) => d as u32,
        None => {
            return None;
        },
    };
    date_from_ymd(year, month, day)
}

/// Reads the date of an order: a serial day number, or a date in text.
pub fn parse_date_from_analysis(raw: &str) -> (r: Option<CalendarDate>)
    ensures
        match r {
            Some(date) => order_date_of(raw@) == Some(date.triple()),
            None => order_date_of(raw@) is None,
        },
{
    let t = trim(raw);
    match whole_days(t.as_str()) {
        Some(days) => date_after_epoch(days - 2),
        None => parse_date(raw),
    }
}

/// Writes `date` as year, month and day with `/` between them.
pub fn date_with_slashes(date: &CalendarDate) -> (r: String)
    ensures
        r@ == slashed(date.triple()),
{
    proof {
        reveal_strlit("/");
    }
    let mut r = render_int(date.year as i64);
    r.append("/");
    let month = render_int(date.month as i64);
    r.append(month.as_str());
    r.append("/");
    let day = render_int(date.day as i64);
    r.append(day.as_str());
    r
}

/// Writes the day with the serial number `serial` with slashes.
pub fn excel_date_to_string(serial: &str) -> (r: String)
    ensures
        r@ == serial_as_text(serial@),
{
    match whole_part(serial) {
        Some(days) => match date_after_epoch(days) {
            Some(date) => date_with_slashes(&date),
            None => String::new(),
        },
        None => String::new(),
    }
}

} // verus!
