//! Exact decimal numbers.
//!
//! Every numeric field of the wire protocol is a decimal literal such as
//! `21.5` or `1500`.  A [`Decimal`] holds such a value exactly as
//! `mantissa / 10^scale`, so range checks and comparisons are plain integer
//! facts.  Values are bounded to [`MAX_DIGITS`] significant digits; a wire
//! number with more digits is rejected by the parser.

use vstd::prelude::*;

verus! {

/// Largest number of decimal digits a wire number may carry.
pub const MAX_DIGITS: u32 = 18;

/// `10^n`.
pub open spec fn pow10(n: nat) -> nat
    decreases n,
{
    if n == 0 {
        1
    } else {
        10 * pow10((n - 1) as nat)
    }
}

pub proof fn lemma_pow10_pos(n: nat)
    ensures
        pow10(n) >= 1,
    decreases n,
{
    if n > 0 {
        lemma_pow10_pos((n - 1) as nat);
    }
}

pub proof fn lemma_pow10_mono(m: nat, n: nat)
    requires
        m <= n,
    ensures
        pow10(m) <= pow10(n),
    decreases n,
{
    if m < n {
        lemma_pow10_mono(m, (n - 1) as nat);
        lemma_pow10_pos((n - 1) as nat);
    }
}

pub proof fn lemma_pow10_adds(m: nat, n: nat)
    ensures
        pow10(m + n) == pow10(m) * pow10(n),
    decreases m,
{
    if m == 0 {
        assert(pow10(0 + n) == 1 * pow10(n));
    } else {
        lemma_pow10_adds((m - 1) as nat, n);
        assert(pow10(((m - 1) + n + 1) as nat) == 10 * pow10(((m - 1) + n) as nat));
        assert(10 * (pow10((m - 1) as nat) * pow10(n)) == (10 * pow10((m - 1) as nat)) * pow10(
            n,
        )) by (nonlinear_arith);
    }
}

pub proof fn lemma_pow10_max_digits()
    ensures
        pow10(MAX_DIGITS as nat) == 1000000000000000000,
{
    reveal_with_fuel(pow10, 20);
}

/// An exact non-negative decimal number: `mantissa / 10^scale`.
#[derive(Clone, Copy, Debug, PartialEq, Eq, Structural, Hash)]
pub struct Decimal {
    pub mantissa: u64,
    pub scale: u32,
}

impl Decimal {
    /// The representation stays within `MAX_DIGITS` decimal digits.
    pub open spec fn wf(self) -> bool {
        self.scale <= MAX_DIGITS && self.mantissa < pow10(MAX_DIGITS as nat)
    }

    /// Numerator of the value this representation denotes.
    pub open spec fn num(self) -> int {
        self.mantissa as int
    }

    /// Denominator of the value this representation denotes.
    pub open spec fn den(self) -> int {
        pow10(self.scale as nat) as int
    }

    /// `self <= other` as rational numbers.
    pub open spec fn spec_le(self, other: Decimal) -> bool {
        self.num() * other.den() <= other.num() * self.den()
    }

    /// `self < other` as rational numbers.
    pub open spec fn spec_lt(self, other: Decimal) -> bool {
        self.num() * other.den() < other.num() * self.den()
    }

    /// `self == other` as rational numbers (representations may differ).
    pub open spec fn spec_eq_value(self, other: Decimal) -> bool {
        self.num() * other.den() == other.num() * self.den()
    }

    pub fn new(mantissa: u64, scale: u32) -> (r: Decimal)
        requires
            scale <= MAX_DIGITS,
            mantissa < pow10(MAX_DIGITS as nat),
        ensures
            r == (Decimal { mantissa, scale }),
            r.wf(),
    {
        Decimal { mantissa, scale }
    }

    /// The value `n`, an integer.
    pub fn from_int(n: u64) -> (r: Decimal)
        requires
            n < pow10(MAX_DIGITS as nat),
        ensures
            r == (Decimal { mantissa: n, scale: 0 }),
            r.wf(),
    {
        Decimal { mantissa: n, scale: 0 }
    }

    /// Rational comparison of two representations.
    pub fn le(self, other: Decimal) -> (r: bool)
        requires
            self.wf(),
            other.wf(),
        ensures
            r == self.spec_le(other),
    {
        let pa = pow10_u64(other.scale);
        let pb = pow10_u64(self.scale);
        proof {
            vstd::arithmetic::mul::lemma_mul_upper_bound(
                self.mantissa as int,
                u64::MAX as int,
                pa as int,
                u64::MAX as int,
            );
            vstd::arithmetic::mul::lemma_mul_upper_bound(
                other.mantissa as int,
                u64::MAX as int,
                pb as int,
                u64::MAX as int,
            );
        }
        let left: u128 = (self.mantissa as u128) * (pa as u128);
        let right: u128 = (other.mantissa as u128) * (pb as u128);
        left <= right
    }

    /// Strict rational comparison of two representations.
    pub fn lt(self, other: Decimal) -> (r: bool)
        requires
            self.wf(),
            other.wf(),
        ensures
            r == self.spec_lt(other),
    {
        !other.le(self)
    }

    /// Rational equality of two representations.
    pub fn eq_value(self, other: Decimal) -> (r: bool)
        requires
            self.wf(),
            other.wf(),
        ensures
            r == self.spec_eq_value(other),
    {
        self.le(other) && other.le(self)
    }
}

/// `10^n` as a machine integer.
pub fn pow10_u64(n: u32) -> (r: u64)
    requires
        n <= MAX_DIGITS,
    ensures
        r == pow10(n as nat),
{
    let mut i: u32 = 0;
    let mut acc: u64 = 1;
    while i < n
        invariant
            i <= n,
            n <= MAX_DIGITS,
            acc == pow10(i as nat),
        decreases n - i,
    {
        proof {
            lemma_pow10_mono((i + 1) as nat, MAX_DIGITS as nat);
            lemma_pow10_max_digits();
        }
        acc = acc * 10;
        i = i + 1;
    }
    acc
}

} // verus!
