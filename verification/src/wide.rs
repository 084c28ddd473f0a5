//! Whole numbers wider than `i128`, for sums of amounts that no number of
//! records can overflow.

use vstd::prelude::*;

verus! {

/// The base of the two parts of a [`Wide`]: a million million million.
pub const BASE: i128 = 1_000_000_000_000_000_000;

/// A whole number held as `high` times `BASE` plus `low`, with `low` at
/// least zero and below `BASE`.
#[derive(Clone, Copy, Debug)]
pub struct Wide {
    high: i128,
    low: i64,
}

impl View for Wide {
    type V = int;

    closed spec fn view(&self) -> int {
        self.high * 1_000_000_000_000_000_000 + self.low
    }
}

/// The largest magnitude that sums of [`Wide`] numbers may reach: ten to the
/// power 56.
pub open spec fn wide_limit() -> int {
    100_000_000_000_000_000_000_000_000_000_000_000_000int * 1_000_000_000_000_000_000int
}

/// Whether `v` is within the limit of sums.
pub open spec fn in_wide(v: int) -> bool {
    -wide_limit() <= v <= wide_limit()
}

/// `v` held to the range of `i128`.
pub open spec fn clamp(v: int) -> int {
    if v > i128::MAX {
        i128::MAX as int
    } else if v < i128::MIN {
        i128::MIN as int
    } else {
        v
    }
}

impl Wide {
    #[verifier::type_invariant]
    spec fn normal(self) -> bool {
        0 <= self.low < 1_000_000_000_000_000_000
    }

    /// The number zero.
    pub fn zero() -> (w: Wide)
        ensures
            w@ == 0,
    {
        Wide { high: 0, low: 0 }
    }

    /// The number `m`.
    pub fn from_i128(m: i128) -> (w: Wide)
        ensures
            w@ == m,
    {
        if m >= 0 {
            Wide { high: m / BASE, low: (m % BASE) as i64 }
        } else {
            let n: i128 = -(m + 1);
            let q: i128 = n / BASE;
            let r: i128 = n % BASE;
            Wide { high: -q - 1, low: (BASE - 1 - r) as i64 }
        }
    }

    /// The part of this number that counts `BASE`s.
    pub fn high(&self) -> (h: i128)
        ensures
            self@ == h * BASE + self.low_part(),
    {
        self.high
    }

    /// What is left of this number beside its `BASE`s.
    pub closed spec fn low_part(self) -> int {
        self.low as int
    }

    /// What is left of this number beside its `BASE`s: at least zero and
    /// below `BASE`.
    pub fn low(&self) -> (l: i64)
        ensures
            l == self.low_part(),
            0 <= l < BASE,
    {
        proof {
            use_type_invariant(self);
        }
        self.low
    }

    /// The sum of this number and `other`.
    pub fn plus(&self, other: &Wide) -> (w: Wide)
        requires
            in_wide(self@ + other@),
        ensures
            w@ == self@ + other@,
    {
        proof {
            use_type_invariant(self);
            use_type_invariant(other);
        }
        let low: i64 = self.low + other.low;
        if low >= 1_000_000_000_000_000_000 {
            Wide { high: self.high + other.high + 1, low: low - 1_000_000_000_000_000_000 }
        } else {
            Wide { high: self.high + other.high, low }
        }
    }

    /// Tells whether this number is less than `other`.
    pub fn less(&self, other: &Wide) -> (b: bool)
        ensures
            b == (self@ < other@),
    {
        proof {
            use_type_invariant(self);
            use_type_invariant(other);
        }
        self.high < other.high || (self.high == other.high && self.low < other.low)
    }

    /// This number as an `i128`, held to its range: exact wherever an `i128`
    /// holds it.
    pub fn clamped(&self) -> (m: i128)
        ensures
            m == clamp(self@),
    {
        proof {
            use_type_invariant(self);
        }
        let most = Wide::from_i128(i128::MAX);
        let least = Wide::from_i128(i128::MIN);
        if most.less(self) {
            i128::MAX
        } else if self.less(&least) {
            i128::MIN
        } else if self.high >= 0 {
            self.high * BASE + self.low as i128
        } else {
            (self.high + 1) * BASE + (self.low as i128 - BASE)
        }
    }
}

} // verus!
