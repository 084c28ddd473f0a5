//! Exact decimal numbers with six fractional digits, and the decimal
//! literals that denote them.
//!
//! Amounts are counted in millionths of a unit, so sums are exact and do not
//! depend on the order of addition.

use vstd::prelude::*;
use crate::text::{
    all_digits, chars_of, digit_of, digit_value, digits_value, is_digit, is_digit_char,
};

verus! {

/// Millionths in one unit.
pub const SCALE: i128 = 1_000_000;

/// Largest magnitude of a [`Decimal`], in millionths: ten to the power 30
/// units. Every whole number of an `i64` lies far within it.
pub const LIMIT: i128 = 1_000_000_000_000_000_000_000_000_000_000_000_000;

/// A decimal number, held as a count of millionths between `-LIMIT` and
/// `LIMIT`.
#[derive(Clone, Copy, Debug)]
pub struct Decimal {
    micros: i128,
}

impl View for Decimal {
    type V = int;

    closed spec fn view(&self) -> int {
        self.micros as int
    }
}

/// Whether `m` millionths can be held by a [`Decimal`].
pub open spec fn in_range(m: int) -> bool {
    -LIMIT <= m <= LIMIT
}

impl Decimal {
    #[verifier::type_invariant]
    spec fn bounded(self) -> bool {
        in_range(self.micros as int)
    }

    /// The number zero.
    pub fn zero() -> (d: Decimal)
        ensures
            d@ == 0,
    {
        Decimal { micros: 0 }
    }

    /// The decimal of `micros` millionths, if that is within range.
    pub fn from_micros(micros: i128) -> (r: Option<Decimal>)
        ensures
            match r {
                Some(d) => in_range(micros as int) && d@ == micros,
                None => !in_range(micros as int),
            },
    {
        if -LIMIT <= micros && micros <= LIMIT {
            Some(Decimal { micros })
        } else {
            None
        }
    }

    /// The whole number `units` as a decimal.
    pub fn from_units(units: i64) -> (d: Decimal)
        ensures
            d@ == units * 1_000_000,
    {
        Decimal { micros: units as i128 * 1_000_000 }
    }

    /// This number in millionths.
    pub fn micros(&self) -> (m: i128)
        ensures
            m == self@,
            in_range(m as int),
    {
        proof {
            use_type_invariant(self);
        }
        self.micros
    }

    /// Tells whether this number is greater than `other`.
    pub fn exceeds(&self, other: &Decimal) -> (b: bool)
        ensures
            b == (self@ > other@),
    {
        self.micros > other.micros
    }
}

/// Ten to the power `k`.
pub open spec fn ten_to(k: nat) -> nat
    decreases k,
{
    if k == 0 {
        1
    } else {
        10 * ten_to((k - 1) as nat)
    }
}

/// Whether the literal `s` starts with a sign.
pub open spec fn has_sign(s: Seq<char>) -> bool {
    s.len() > 0 && (s[0] == '+' || s[0] == '-')
}

/// The index of the first `a` or `b` in `s` from `from` on and before `to`,
/// or `to` if there is none.
pub open spec fn first_index(s: Seq<char>, from: int, to: int, a: char, b: char) -> int
    decreases to - from,
{
    if from >= to {
        to
    } else if s[from] == a || s[from] == b {
        from
    } else {
        first_index(s, from + 1, to, a, b)
    }
}

/// Where the digits of the literal `s` begin: behind its sign.
pub open spec fn sign_end(s: Seq<char>) -> int {
    if has_sign(s) {
        1
    } else {
        0
    }
}

/// Where the exponent of the literal `s` is marked by `e` or `E`, or the
/// length of `s` if it has none.
pub open spec fn exp_mark(s: Seq<char>) -> int {
    first_index(s, sign_end(s), s.len() as int, 'e', 'E')
}

/// Where the decimal point of the literal `s` stands, or where its mantissa
/// ends if it has none.
pub open spec fn dot_mark(s: Seq<char>) -> int {
    first_index(s, sign_end(s), exp_mark(s), '.', '.')
}

/// The digits before the decimal point of the literal `s`.
pub open spec fn whole_digits(s: Seq<char>) -> Seq<char> {
    s.subrange(sign_end(s), dot_mark(s))
}

/// The digits after the decimal point of the literal `s`.
pub open spec fn fraction_digits(s: Seq<char>) -> Seq<char> {
    if dot_mark(s) < exp_mark(s) {
        s.subrange(dot_mark(s) + 1, exp_mark(s))
    } else {
        Seq::empty()
    }
}

/// Whether the literal `s` has an exponent.
pub open spec fn has_exponent(s: Seq<char>) -> bool {
    exp_mark(s) < s.len()
}

/// Where the digits of the exponent of `s` begin: behind `e` and a sign.
pub open spec fn exp_digits_start(s: Seq<char>) -> int {
    let at = exp_mark(s) + 1;
    if at < s.len() && (s[at] == '+' || s[at] == '-') {
        at + 1
    } else {
        at
    }
}

/// The digits of the exponent of the literal `s`.
pub open spec fn exponent_digits(s: Seq<char>) -> Seq<char> {
    if has_exponent(s) {
        s.subrange(exp_digits_start(s), s.len() as int)
    } else {
        Seq::empty()
    }
}

/// Whether `s` is a decimal literal: an optional sign; then digits with at
/// most one decimal point among them, and at least one digit; then, if at
/// all, an exponent: `e` or `E`, an optional sign, and at least one digit.
pub open spec fn is_decimal_literal(s: Seq<char>) -> bool {
    &&& all_digits(whole_digits(s))
    &&& all_digits(fraction_digits(s))
    &&& whole_digits(s).len() + fraction_digits(s).len() > 0
    &&& has_exponent(s) ==> exponent_digits(s).len() > 0 && all_digits(exponent_digits(s))
}

/// The exponent of the literal `s`; zero if it has none.
pub open spec fn exponent_of(s: Seq<char>) -> int {
    if !has_exponent(s) {
        0
    } else if s[exp_mark(s) + 1] == '-' {
        -(digits_value(exponent_digits(s)) as int)
    } else {
        digits_value(exponent_digits(s)) as int
    }
}

/// All digits of the mantissa of the literal `s`, the point left out.
pub open spec fn digits_of(s: Seq<char>) -> Seq<char> {
    whole_digits(s) + fraction_digits(s)
}

/// The power of ten by which the digits of `s` are to be multiplied to give
/// the number that `s` denotes.
pub open spec fn shift_of(s: Seq<char>) -> int {
    exponent_of(s) - fraction_digits(s).len()
}

/// How many of `len` digits stand before the point when the digits are
/// multiplied by ten to the power `shift`.
pub open spec fn kept_len(len: int, shift: int) -> int {
    if shift >= 0 {
        len
    } else if len + shift > 0 {
        len + shift
    } else {
        0
    }
}

/// The digits `d` times ten to the power `shift`, rounded down to a whole
/// number.
pub open spec fn floored(d: Seq<char>, shift: int) -> nat {
    digits_value(d.take(kept_len(d.len() as int, shift))) * ten_to(
        if shift > 0 {
            shift as nat
        } else {
            0
        },
    )
}

/// Whether the digits `d` times ten to the power `shift` round up: the
/// first digit behind the point is five or more.
pub open spec fn rounds_up(d: Seq<char>, shift: int) -> bool {
    shift < 0 && 0 <= d.len() + shift && digit_value(d[d.len() + shift]) >= 5
}

/// The digits `d` times ten to the power `shift`, rounded to the nearest
/// whole number, halves upward.
pub open spec fn rounded(d: Seq<char>, shift: int) -> nat {
    floored(d, shift) + if rounds_up(d, shift) {
        1nat
    } else {
        0nat
    }
}

/// The magnitude of the literal `s` in millionths, rounded to the nearest
/// millionth, halves away from zero.
pub open spec fn literal_magnitude(s: Seq<char>) -> nat {
    rounded(digits_of(s), shift_of(s) + 6)
}

/// The magnitude `m`, held to `LIMIT`.
pub open spec fn held(m: nat) -> int {
    if m > LIMIT {
        LIMIT as int
    } else {
        m as int
    }
}

/// The number that `s` denotes, in millionths: `None` unless `s` is a decimal
/// literal. A number beyond `LIMIT` is held to `LIMIT`, with its sign.
pub open spec fn decimal_of(s: Seq<char>) -> Option<int> {
    if is_decimal_literal(s) {
        if s[0] == '-' {
            Some(-held(literal_magnitude(s)))
        } else {
            Some(held(literal_magnitude(s)))
        }
    } else {
        None
    }
}

/// The whole days of the serial number `s`: `None` unless `s` is a decimal
/// literal of a number greater than zero whose whole part is at most
/// `i64::MAX`.
pub open spec fn whole_days_of(s: Seq<char>) -> Option<int> {
    if is_decimal_literal(s) && s[0] != '-' && digits_value(digits_of(s)) > 0 && floored(
        digits_of(s),
        shift_of(s),
    ) <= i64::MAX {
        Some(floored(digits_of(s), shift_of(s)) as int)
    } else {
        None
    }
}

/// The whole part of the number that `s` denotes, rounded toward zero:
/// `None` unless `s` is a decimal literal whose whole part is at most
/// `i64::MAX` in magnitude.
pub open spec fn whole_part_of(s: Seq<char>) -> Option<int> {
    if is_decimal_literal(s) && floored(digits_of(s), shift_of(s)) <= i64::MAX {
        if s[0] == '-' {
            Some(-(floored(digits_of(s), shift_of(s)) as int))
        } else {
            Some(floored(digits_of(s), shift_of(s)) as int)
        }
    } else {
        None
    }
}

/// The first of two characters is where neither stands before and one
/// stands, or at the end.
pub proof fn lemma_first_index(s: Seq<char>, from: int, to: int, a: char, b: char, k: int)
    requires
        0 <= from <= k <= to <= s.len(),
        forall|i: int| from <= i < k ==> #[trigger] s[i] != a && s[i] != b,
        k < to ==> s[k] == a || s[k] == b,
    ensures
        first_index(s, from, to, a, b) == k,
    decreases k - from,
{
    if from < k {
        lemma_first_index(s, from + 1, to, a, b, k);
    }
}

/// One more digit makes ten times the number, and the digit.
pub proof fn lemma_digits_value_step(s: Seq<char>, i: int)
    requires
        0 <= i < s.len(),
    ensures
        digits_value(s.take(i + 1)) == 10 * digits_value(s.take(i)) + digit_value(s[i]) || !is_digit(
            s[i],
        ),
{
    assert(s.take(i + 1).drop_last() == s.take(i));
}

/// A digit string denotes at least what any of its prefixes denotes.
pub proof fn lemma_digits_value_grows(s: Seq<char>, i: int)
    requires
        0 <= i <= s.len(),
        all_digits(s),
    ensures
        digits_value(s.take(i)) <= digits_value(s),
    decreases s.len() - i,
{
    if i == s.len() {
        assert(s.take(i) == s);
    } else {
        lemma_digits_value_grows(s, i + 1);
        lemma_digits_value_step(s, i);
        assert(is_digit(s[i]));
    }
}

/// A digit string denotes zero exactly when all its digits are `0`.
pub proof fn lemma_digits_value_zero(s: Seq<char>)
    requires
        all_digits(s),
    ensures
        digits_value(s) == 0 <==> forall|i: int| 0 <= i < s.len() ==> #[trigger] s[i] == '0',
    decreases s.len(),
{
    if s.len() > 0 {
        let r = s.drop_last();
        lemma_digits_value_zero(r);
        assert(is_digit(s.last()));
        if digits_value(s) == 0 {
            assert forall|i: int| 0 <= i < s.len() implies #[trigger] s[i] == '0' by {
                if i < s.len() - 1 {
                    assert(r[i] == '0');
                }
            }
        } else {
            if forall|i: int| 0 <= i < s.len() ==> #[trigger] s[i] == '0' {
                assert forall|i: int| 0 <= i < r.len() implies #[trigger] r[i] == '0' by {
                    assert(s[i] == '0');
                }
                assert(s[s.len() - 1] == '0');
            }
        }
    }
}

/// Powers of ten grow with the exponent, and are at least one.
pub proof fn lemma_ten_to_grows(a: nat, b: nat)
    requires
        a <= b,
    ensures
        1 <= ten_to(a) <= ten_to(b),
    decreases b,
{
    if b > a {
        lemma_ten_to_grows(a, (b - 1) as nat);
    } else if a > 0 {
        lemma_ten_to_grows((a - 1) as nat, (a - 1) as nat);
    }
}

/// Ten to the power 40.
pub proof fn lemma_ten_to_forty()
    ensures
        ten_to(40) == 10_000_000_000_000_000_000_000_000_000_000_000_000int * 1000,
{
    reveal_with_fuel(ten_to, 11);
    assert(ten_to(10) == 10_000_000_000);
    assert(ten_to(20) == 10_000_000_000 * ten_to(10));
    assert(ten_to(30) == 10_000_000_000 * ten_to(20));
    assert(ten_to(40) == 10_000_000_000 * ten_to(30));
}

/// Digits that denote a number above zero, multiplied by ten to the power
/// 40 or more, give more than any number that is held here.
pub proof fn lemma_big_shift(d: Seq<char>, shift: int)
    requires
        shift >= 40,
        digits_value(d) >= 1,
    ensures
        floored(d, shift) >= 10_000_000_000_000_000_000_000_000_000_000_000_000int * 1000,
        rounded(d, shift) == floored(d, shift),
{
    lemma_ten_to_forty();
    lemma_ten_to_grows(40, shift as nat);
    assert(d.take(d.len() as int) == d);
    let n = digits_value(d);
    let t = ten_to(shift as nat);
    assert(n * t >= t) by (nonlinear_arith)
        requires
            n >= 1,
            t >= 0,
    ;
}

/// Whether the shifts `a` and `b` come to the same for the digits `d`: they
/// are equal, or both are 40 or more, or both move every digit behind the
/// point.
pub open spec fn same_scale(d: Seq<char>, a: int, b: int) -> bool {
    ||| a == b
    ||| a >= 40 && b >= 40
    ||| d.len() + a < 0 && d.len() + b < 0
}

/// Shifts that come to the same give the same numbers, or both give more
/// than any number that is held here.
pub proof fn lemma_same_scale(d: Seq<char>, a: int, b: int)
    requires
        same_scale(d, a, b),
    ensures
        rounded(d, a) == rounded(d, b) || (rounded(d, a) >= 10_000_000_000_000_000_000_000_000_000_000_000_000int
            * 1000 && rounded(d, b) >= 10_000_000_000_000_000_000_000_000_000_000_000_000int * 1000),
        floored(d, a) == floored(d, b) || (floored(d, a) >= 10_000_000_000_000_000_000_000_000_000_000_000_000int
            * 1000 && floored(d, b) >= 10_000_000_000_000_000_000_000_000_000_000_000_000int * 1000),
{
    if a == b {
    } else if a >= 40 && b >= 40 {
        assert(d.take(d.len() as int) == d);
        if digits_value(d) >= 1 {
            lemma_big_shift(d, a);
            lemma_big_shift(d, b);
        } else {
            let x = ten_to(a as nat);
            let y = ten_to(b as nat);
            assert(0 * x == 0 && 0 * y == 0);
        }
    } else {
        assert(d.take(0) == Seq::<char>::empty());
        assert(digits_value(d.take(0)) == 0);
        assert(ten_to(0) == 1);
    }
}

/// The number that the digits `cs[from..to]` denote, if it is at most `cap`.
pub(crate) fn digits_capped(cs: &Vec<char>, from: usize, to: usize, cap: u128) -> (r: Option<u128>)
    requires
        from <= to <= cs.len(),
        all_digits(cs@.subrange(from as int, to as int)),
        cap <= 10_000_000_000_000_000_000_000_000_000_000_000_000,
    ensures
        match r {
            Some(v) => v == digits_value(cs@.subrange(from as int, to as int)) && v <= cap,
            None => digits_value(cs@.subrange(from as int, to as int)) > cap,
        },
{
    let ghost s = cs@.subrange(from as int, to as int);
    let mut acc: u128 = 0;
    let mut i: usize = from;
    assert(s.take(0) == Seq::<char>::empty());
    while i < to
        invariant
            from <= i <= to <= cs.len(),
            s == cs@.subrange(from as int, to as int),
            all_digits(s),
            acc == digits_value(s.take(i - from)),
            acc <= cap <= 10_000_000_000_000_000_000_000_000_000_000_000_000,
        decreases to - i,
    {
        assert(is_digit(s[i - from]));
        let d = digit_of(cs[i]);
        proof {
            lemma_digits_value_step(s, i - from);
            lemma_digits_value_grows(s, i - from + 1);
        }
        if acc > cap / 10 {
            return None;
        }
        let tens: u128 = acc * 10;
        if d as u128 > cap - tens {
            return None;
        }
        acc = tens + d as u128;
        i += 1;
    }
    assert(s.take(to - from) == s);
    Some(acc)
}

/// Tells whether the characters `cs[from..to]` are all digits.
fn digits_only(cs: &Vec<char>, from: usize, to: usize) -> (b: bool)
    requires
        from <= to <= cs.len(),
    ensures
        b == all_digits(cs@.subrange(from as int, to as int)),
{
    let ghost s = cs@.subrange(from as int, to as int);
    let mut i: usize = from;
    while i < to
        invariant
            from <= i <= to <= cs.len(),
            s == cs@.subrange(from as int, to as int),
            forall|j: int| 0 <= j < i - from ==> is_digit(#[trigger] s[j]),
        decreases to - i,
    {
        if !is_digit_char(cs[i]) {
            assert(!is_digit(s[i - from]));
            return false;
        }
        i += 1;
    }
    true
}

/// Finds the first `a` or `b` in `cs[from..to]`; gives `to` if there is
/// none.
fn seek(cs: &Vec<char>, from: usize, to: usize, a: char, b: char) -> (k: usize)
    requires
        from <= to <= cs.len(),
    ensures
        from <= k <= to,
        k == first_index(cs@, from as int, to as int, a, b),
{
    let mut k: usize = from;
    while k < to && cs[k] != a && cs[k] != b
        invariant
            from <= k <= to <= cs.len(),
            forall|i: int| from <= i < k ==> #[trigger] cs@[i] != a && cs@[i] != b,
        decreases to - k,
    {
        k += 1;
    }
    proof {
        lemma_first_index(cs@, from as int, to as int, a, b, k as int);
    }
    k
}

/// The digits `d` times ten to the power `shift` as a whole number, rounded
/// to the nearest if `round` and down if not; nothing if that is more than
/// `cap`.
fn scale(d: &Vec<char>, shift: i128, round: bool, cap: u128) -> (r: Option<u128>)
    requires
        all_digits(d@),
        cap <= 10_000_000_000_000_000_000_000_000_000_000_000_000,
    ensures
        match r {
            Some(v) => v <= cap && v == if round {
                rounded(d@, shift as int)
            } else {
                floored(d@, shift as int)
            },
            None => cap < if round {
                rounded(d@, shift as int)
            } else {
                floored(d@, shift as int)
            },
        },
{
    let n = d.len();
    let kept: usize = if shift >= 0 {
        n
    } else if n as i128 + shift > 0 {
        (n as i128 + shift) as usize
    } else {
        0
    };
    let ghost power = ten_to(
        if shift > 0 {
            shift as nat
        } else {
            0
        },
    );
    proof {
        assert(d@.subrange(0, kept as int) == d@.take(kept as int));
        lemma_ten_to_grows(0, 0);
        if shift > 0 {
            lemma_ten_to_grows(0, shift as nat);
        }
        assert forall|i: int| 0 <= i < kept implies is_digit(#[trigger] d@.take(kept as int)[i]) by {
            assert(is_digit(d@[i]));
        }
    }
    let base = match digits_capped(d, 0, kept, cap) {
        Some(v) => v,
        None => {
            proof {
                let value = digits_value(d@.take(kept as int));
                assert(value * power >= value) by (nonlinear_arith)
                    requires
                        power >= 1,
                        value >= 0,
                ;
            }
            return None;
        },
    };
    let mut v: u128 = base;
    if shift > 0 && base > 0 {
        let mut j: i128 = 0;
        proof {
            assert(ten_to(0) == 1);
            assert(base * 1 == base);
        }
        while j < shift
            invariant
                0 <= j <= shift,
                base >= 1,
                base == digits_value(d@.take(kept_len(d@.len() as int, shift as int))),
                v == base * ten_to(j as nat),
                v <= cap <= 10_000_000_000_000_000_000_000_000_000_000_000_000,
            decreases shift - j,
        {
            let next: u128 = v * 10;
            proof {
                let t = ten_to(j as nat);
                assert(ten_to((j + 1) as nat) == 10 * t);
                assert(base * (10 * t) == (base * t) * 10) by (nonlinear_arith);
            }
            if next > cap {
                proof {
                    lemma_ten_to_grows((j + 1) as nat, shift as nat);
                    let low = ten_to((j + 1) as nat);
                    let high = ten_to(shift as nat);
                    assert(base * high >= base * low) by (nonlinear_arith)
                        requires
                            high >= low,
                            base >= 1,
                    ;
                }
                return None;
            }
            v = next;
            j += 1;
        }
    } else if shift > 0 {
        assert(0 * power == 0);
    } else {
        assert(power == 1);
        assert(base * power == base) by (nonlinear_arith)
            requires
                power == 1,
        ;
    }
    assert(v == floored(d@, shift as int));
    if round && shift < 0 && n as i128 + shift >= 0 {
        let at: usize = (n as i128 + shift) as usize;
        assert(is_digit(d@[at as int]));
        if digit_of(d[at]) >= 5 {
            assert(rounds_up(d@, shift as int));
            if v >= cap {
                return None;
            }
            v = v + 1;
        }
    }
    Some(v)
}

/// A decimal literal taken apart: its sign, the digits of its mantissa, and
/// the shift that stands for the power of ten to multiply them by.
struct Parts {
    negative: bool,
    digits: Vec<char>,
    shift: i128,
}

/// The largest exponent that is read digit by digit; any larger one comes
/// to the same as this one.
const EXPONENT_CAP: u128 = 1_000_000_000_000_000_000_000_000_000_000;

/// What stands for an exponent too large to be read digit by digit: it
/// comes to the same as any exponent beyond `EXPONENT_CAP`.
const HUGE_EXPONENT: i128 = 2_000_000_000_000_000_000_000_000_000_000;

/// Whether `e` stands for the exponent written in `digits`, with a `-` in
/// front if `negative`: it is that exponent, or both are beyond
/// `EXPONENT_CAP` on the same side.
spec fn stands_for(e: int, digits: Seq<char>, negative: bool) -> bool {
    let value = digits_value(digits) as int;
    if value <= EXPONENT_CAP {
        e == if negative {
            -value
        } else {
            value
        }
    } else {
        e == if negative {
            -HUGE_EXPONENT
        } else {
            HUGE_EXPONENT as int
        }
    }
}

/// Reads the exponent that follows the mark at `mark`; nothing if it has no
/// digits or anything but digits behind its sign.
fn read_exponent(cs: &Vec<char>, mark: usize) -> (r: Option<i128>)
    requires
        mark < cs.len(),
    ensures
        ({
            let at = mark + 1;
            let start = if at < cs@.len() && (cs@[at] == '+' || cs@[at] == '-') {
                at + 1
            } else {
                at
            };
            let digits = cs@.subrange(start, cs@.len() as int);
            match r {
                Some(e) => digits.len() > 0 && all_digits(digits) && stands_for(
                    e as int,
                    digits,
                    cs@[at] == '-',
                ),
                None => !(digits.len() > 0 && all_digits(digits)),
            }
        }),
{
    let n = cs.len();
    let negative = mark + 1 < n && cs[mark + 1] == '-';
    let start: usize = if mark + 1 < n && (cs[mark + 1] == '+' || cs[mark + 1] == '-') {
        mark + 2
    } else {
        mark + 1
    };
    if start >= n {
        return None;
    }
    if !digits_only(cs, start, n) {
        return None;
    }
    match digits_capped(cs, start, n, EXPONENT_CAP) {
        Some(e) => if negative {
            Some(-(e as i128))
        } else {
            Some(e as i128)
        },
        None => if negative {
            Some(-HUGE_EXPONENT)
        } else {
            Some(HUGE_EXPONENT)
        },
    }
}

/// Appends the characters `cs[from..to]` to `out`.
fn collect(cs: &Vec<char>, from: usize, to: usize, out: &mut Vec<char>)
    requires
        from <= to <= cs.len(),
    ensures
        final(out)@ == old(out)@ + cs@.subrange(from as int, to as int),
{
    let mut i: usize = from;
    assert(out@ =~= old(out)@ + cs@.subrange(from as int, from as int));
    while i < to
        invariant
            from <= i <= to <= cs.len(),
            out@ == old(out)@ + cs@.subrange(from as int, i as int),
        decreases to - i,
    {
        out.push(cs[i]);
        assert(out@ =~= old(out)@ + cs@.subrange(from as int, i + 1));
        i += 1;
    }
}

/// Digits after digits are digits.
proof fn lemma_all_digits_concat(a: Seq<char>, b: Seq<char>)
    requires
        all_digits(a),
        all_digits(b),
    ensures
        all_digits(a + b),
{
    assert forall|j: int| 0 <= j < (a + b).len() implies is_digit(#[trigger] (a + b)[j]) by {
        if j < a.len() {
            assert(is_digit(a[j]));
        } else {
            assert(is_digit(b[j - a.len()]));
        }
    }
}

/// The digits of the mantissa of a literal and where the mantissa ends.
struct Mantissa {
    negative: bool,
    digits: Vec<char>,
    fraction_len: usize,
    mark: usize,
}

/// Reads the mantissa of the literal `cs`; nothing if it is not well
/// formed.
fn mantissa_of(cs: &Vec<char>) -> (r: Option<Mantissa>)
    ensures
        match r {
            Some(m) => all_digits(whole_digits(cs@)) && all_digits(fraction_digits(cs@))
                && whole_digits(cs@).len() + fraction_digits(cs@).len() > 0 && m.negative == (
            cs@.len() > 0 && cs@[0] == '-') && m.digits@ == digits_of(cs@) && all_digits(m.digits@)
                && m.fraction_len == fraction_digits(cs@).len() && m.mark == exp_mark(cs@)
                && m.mark <= cs@.len(),
            None => !(all_digits(whole_digits(cs@)) && all_digits(fraction_digits(cs@))
                && whole_digits(cs@).len() + fraction_digits(cs@).len() > 0),
        },
{
    let n = cs.len();
    let negative = n > 0 && cs[0] == '-';
    let start: usize = if n > 0 && (cs[0] == '+' || cs[0] == '-') {
        1
    } else {
        0
    };
    let mark = seek(cs, start, n, 'e', 'E');
    let dot = seek(cs, start, mark, '.', '.');
    if !digits_only(cs, start, dot) {
        return None;
    }
    let fraction_start: usize = if dot < mark {
        dot + 1
    } else {
        mark
    };
    proof {
        if dot >= mark {
            assert(cs@.subrange(mark as int, mark as int) =~= Seq::<char>::empty());
        }
    }
    if !digits_only(cs, fraction_start, mark) {
        return None;
    }
    if (dot - start) + (mark - fraction_start) == 0 {
        return None;
    }
    let mut digits: Vec<char> = Vec::new();
    collect(cs, start, dot, &mut digits);
    collect(cs, fraction_start, mark, &mut digits);
    proof {
        assert(digits@ =~= digits_of(cs@));
        lemma_all_digits_concat(whole_digits(cs@), fraction_digits(cs@));
    }
    Some(Mantissa { negative, digits, fraction_len: mark - fraction_start, mark })
}

/// Takes the literal `s` apart; nothing if `s` is no literal. `extra` is
/// added to the shift.
fn parts_of(s: &str, extra: i128) -> (r: Option<Parts>)
    requires
        0 <= extra <= 6,
    ensures
        match r {
            Some(p) => is_decimal_literal(s@) && p.negative == (s@[0] == '-') && p.digits@
                == digits_of(s@) && all_digits(p.digits@) && same_scale(
                p.digits@,
                p.shift as int,
                shift_of(s@) + extra,
            ),
            None => !is_decimal_literal(s@),
        },
{
    let cs = chars_of(s);
    let mantissa = match mantissa_of(&cs) {
        Some(m) => m,
        None => {
            return None;
        },
    };
    let fraction_len: i128 = mantissa.fraction_len as i128;
    if mantissa.mark >= cs.len() {
        return Some(
            Parts { negative: mantissa.negative, digits: mantissa.digits, shift: extra - fraction_len },
        );
    }
    let exponent = match read_exponent(&cs, mantissa.mark) {
        Some(e) => e,
        None => {
            return None;
        },
    };
    let count = mantissa.digits.len();
    proof {
        assert(count <= usize::MAX);
        let digits = exponent_digits(s@);
        let value = digits_value(digits) as int;
        assert(stands_for(exponent as int, digits, s@[mantissa.mark + 1] == '-'));
        let shift = extra - fraction_len + exponent;
        let wanted = shift_of(s@) + extra;
        if value > EXPONENT_CAP {
            if s@[mantissa.mark + 1] == '-' {
                assert(mantissa.digits@.len() + shift < 0);
                assert(mantissa.digits@.len() + wanted < 0);
            } else {
                assert(shift >= 40 && wanted >= 40);
            }
        }
        assert(same_scale(mantissa.digits@, shift, wanted));
    }
    Some(
        Parts {
            negative: mantissa.negative,
            digits: mantissa.digits,
            shift: extra - fraction_len + exponent,
        },
    )
}

/// Reads the decimal literal `s`, rounding to the nearest millionth.
///
/// A literal is an optional sign, digits with at most one decimal point,
/// and optionally an exponent, as in `-12.5`, `.5`, `7.` or `1.5e3`; there
/// is no white space in it. Anything else gives `None`. A number beyond
/// `LIMIT` is held to `LIMIT`, with its sign.
pub fn parse_decimal(s: &str) -> (r: Option<Decimal>)
    ensures
        match r {
            Some(d) => decimal_of(s@) == Some(d@),
            None => decimal_of(s@) is None,
        },
{
    let parts = match parts_of(s, 6) {
        Some(p) => p,
        None => {
            return None;
        },
    };
    proof {
        lemma_same_scale(parts.digits@, parts.shift as int, shift_of(s@) + 6);
    }
    let magnitude: i128 = match scale(
        &parts.digits,
        parts.shift,
        true,
        1_000_000_000_000_000_000_000_000_000_000_000_000,
    ) {
        Some(m) => m as i128,
        None => LIMIT,
    };
    if parts.negative {
        Decimal::from_micros(-magnitude)
    } else {
        Decimal::from_micros(magnitude)
    }
}

/// Tells whether any of the digits `d` is not `0`.
fn any_nonzero(d: &Vec<char>) -> (b: bool)
    requires
        all_digits(d@),
    ensures
        b == (digits_value(d@) > 0),
{
    let mut i: usize = 0;
    while i < d.len()
        invariant
            i <= d.len(),
            all_digits(d@),
            forall|j: int| 0 <= j < i ==> #[trigger] d@[j] == '0',
        decreases d.len() - i,
    {
        if d[i] != '0' {
            proof {
                lemma_digits_value_zero(d@);
            }
            return true;
        }
        i += 1;
    }
    proof {
        lemma_digits_value_zero(d@);
    }
    false
}

/// Reads the serial number `s` and gives its whole days, for a number
/// greater than zero.
pub fn whole_days(s: &str) -> (r: Option<i64>)
    ensures
        match r {
            Some(d) => whole_days_of(s@) == Some(d as int),
            None => whole_days_of(s@) is None,
        },
{
    let parts = match parts_of(s, 0) {
        Some(p) => p,
        None => {
            return None;
        },
    };
    if parts.negative || !any_nonzero(&parts.digits) {
        return None;
    }
    proof {
        lemma_same_scale(parts.digits@, parts.shift as int, shift_of(s@));
    }
    match scale(&parts.digits, parts.shift, false, 9_223_372_036_854_775_807) {
        Some(w) => Some(w as i64),
        None => None,
    }
}

/// Reads the serial number `s` and gives its whole days, rounded toward
/// zero.
pub fn whole_part(s: &str) -> (r: Option<i64>)
    ensures
        match r {
            Some(d) => whole_part_of(s@) == Some(d as int),
            None => whole_part_of(s@) is None,
        },
{
    let parts = match parts_of(s, 0) {
        Some(p) => p,
        None => {
            return None;
        },
    };
    proof {
        lemma_same_scale(parts.digits@, parts.shift as int, shift_of(s@));
    }
    match scale(&parts.digits, parts.shift, false, 9_223_372_036_854_775_807) {
        Some(w) => if parts.negative {
            Some(-(w as i64))
        } else {
            Some(w as i64)
        },
        None => None,
    }
}

} // verus!
