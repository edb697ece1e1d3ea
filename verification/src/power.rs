//! Power readings of the socket.
//!
//! A power reading has a physical range of 500 to 2000 watts.  As in the
//! rest of the crate the value is an exact [`Decimal`]; `ratio` maps a
//! reading linearly onto the unit interval relative to that range, as an
//! exact rational number.

use vstd::prelude::*;

use crate::decimal::{lemma_pow10_max_digits, lemma_pow10_pos, pow10, pow10_u64, Decimal};

verus! {

/// Lower end of the valid power range, in watts.
pub const MIN_POWER: u64 = 500;

/// Upper end of the valid power range, in watts.
pub const MAX_POWER: u64 = 2000;

/// A power reading.  Construction does not validate the range; `set` does.
#[derive(Clone, Copy, Debug, PartialEq, Eq, Structural)]
pub struct Power(pub Decimal);

/// `MIN_POWER` as a decimal.
pub open spec fn spec_min_power() -> Decimal {
    Decimal { mantissa: MIN_POWER, scale: 0 }
}

/// `MAX_POWER` as a decimal.
pub open spec fn spec_max_power() -> Decimal {
    Decimal { mantissa: MAX_POWER, scale: 0 }
}

/// Is the reading inside the valid closed range?
pub open spec fn spec_in_range(v: Decimal) -> bool {
    spec_min_power().spec_le(v) && v.spec_le(spec_max_power())
}

/// Numerator of `ratio`: how far the reading stands above `MIN_POWER`,
/// or zero below the range.
pub open spec fn ratio_num(x: Decimal) -> int {
    if x.spec_lt(spec_min_power()) {
        0
    } else {
        x.mantissa - MIN_POWER * pow10(x.scale as nat)
    }
}

/// Denominator of `ratio`: the width of the valid range, at the reading's
/// scale; `1` below the range, where the ratio is zero.
pub open spec fn ratio_den(x: Decimal) -> int {
    if x.spec_lt(spec_min_power()) {
        1
    } else {
        (MAX_POWER - MIN_POWER) * pow10(x.scale as nat)
    }
}

/// An exact non-negative rational number `num / den`.
#[derive(Clone, Copy, Debug, PartialEq, Eq, Structural)]
pub struct Ratio {
    pub num: u128,
    pub den: u128,
}

impl Power {
    pub open spec fn wf(self) -> bool {
        self.0.wf()
    }

    /// Construct a reading without validation.
    pub fn new(value: Decimal) -> (r: Power)
        ensures
            r == (Power(value)),
    {
        Power(value)
    }

    pub fn get(&self) -> (r: Decimal)
        ensures
            r == self.0,
    {
        self.0
    }

    /// Replace the reading only if the new value lies in the valid range;
    /// out-of-range values leave the reading unchanged.
    pub fn set(&mut self, value: Decimal)
        requires
            value.wf(),
        ensures
            final(self).0 == if spec_in_range(value) {
                value
            } else {
                old(self).0
            },
    {
        let minp = min_power();
        let maxp = max_power();
        if minp.le(value) && value.le(maxp) {
            self.0 = value;
        }
    }

    /// Where the reading stands in the valid range, linearly: `0` below and
    /// at `MIN_POWER`, `1` at `MAX_POWER`, above `1` past the top (the wire
    /// admits such readings; no clamp is defined).
    pub fn ratio(power: Decimal) -> (r: Ratio)
        requires
            power.wf(),
        ensures
            r.num == ratio_num(power),
            r.den == ratio_den(power),
            r.den > 0,
    {
        let minp = min_power();
        if power.lt(minp) {
            return Ratio { num: 0, den: 1 };
        }
        let p = pow10_u64(power.scale);
        proof {
            lemma_pow10_pos(power.scale as nat);
            crate::decimal::lemma_pow10_mono(power.scale as nat, 18);
            lemma_pow10_max_digits();
            assert(power.mantissa as int * 1 == power.mantissa as int) by (nonlinear_arith);
            assert((MIN_POWER * p) as int == MIN_POWER * pow10(power.scale as nat));
        }
        let num = (power.mantissa as u128) - (MIN_POWER as u128) * (p as u128);
        let den = ((MAX_POWER - MIN_POWER) as u128) * (p as u128);
        proof {
            assert(den as int == (MAX_POWER - MIN_POWER) * pow10(power.scale as nat));
            assert(den > 0) by (nonlinear_arith)
                requires
                    den as int == 1500 * pow10(power.scale as nat),
                    pow10(power.scale as nat) >= 1,
            ;
        }
        Ratio { num, den }
    }
}

/// `MIN_POWER` as a well-formed decimal value.
pub fn min_power() -> (r: Decimal)
    ensures
        r == spec_min_power(),
        r.wf(),
{
    proof {
        lemma_pow10_max_digits();
    }
    Decimal { mantissa: MIN_POWER, scale: 0 }
}

/// `MAX_POWER` as a well-formed decimal value.
pub fn max_power() -> (r: Decimal)
    ensures
        r == spec_max_power(),
        r.wf(),
{
    proof {
        lemma_pow10_max_digits();
    }
    Decimal { mantissa: MAX_POWER, scale: 0 }
}

/// Below the valid range the ratio is zero.
pub proof fn lemma_ratio_zero_below_min(x: Decimal)
    requires
        x.wf(),
        x.spec_lt(spec_min_power()),
    ensures
        ratio_num(x) == 0,
{
}

/// A reading whose value is exactly `MIN_POWER` has ratio zero.
pub proof fn lemma_ratio_at_min(x: Decimal)
    requires
        x.wf(),
        x.spec_eq_value(spec_min_power()),
    ensures
        ratio_num(x) == 0,
{
    assert(x.mantissa as int * 1 == x.mantissa as int) by (nonlinear_arith);
}

/// A reading whose value is exactly `MAX_POWER` has ratio one.
pub proof fn lemma_ratio_at_max(x: Decimal)
    requires
        x.wf(),
        x.spec_eq_value(spec_max_power()),
    ensures
        ratio_num(x) == ratio_den(x),
{
    lemma_pow10_pos(x.scale as nat);
    assert(x.mantissa as int * 1 == x.mantissa as int) by (nonlinear_arith);
    assert(!x.spec_lt(spec_min_power()));
}

/// The ratio is monotone: a reading no larger than another has a ratio no
/// larger than the other's, compared as rational numbers.
pub proof fn lemma_ratio_monotone(x: Decimal, y: Decimal)
    requires
        x.wf(),
        y.wf(),
        x.spec_le(y),
    ensures
        ratio_num(x) * ratio_den(y) <= ratio_num(y) * ratio_den(x),
{
    let px = pow10(x.scale as nat) as int;
    let py = pow10(y.scale as nat) as int;
    lemma_pow10_pos(x.scale as nat);
    lemma_pow10_pos(y.scale as nat);
    let mx = x.mantissa as int;
    let my = y.mantissa as int;
    if x.spec_lt(spec_min_power()) {
        assert(ratio_num(x) == 0);
        assert(ratio_num(x) * ratio_den(y) == 0) by (nonlinear_arith)
            requires
                ratio_num(x) == 0,
        ;
        assert(ratio_den(x) == 1);
        if y.spec_lt(spec_min_power()) {
            assert(ratio_num(y) == 0);
            assert(ratio_num(y) * ratio_den(x) == 0) by (nonlinear_arith)
                requires
                    ratio_num(y) == 0,
            ;
        } else {
            assert(my * 1 == my) by (nonlinear_arith);
            assert(my - MIN_POWER * py >= 0);
            assert(ratio_num(y) * ratio_den(x) >= 0) by (nonlinear_arith)
                requires
                    ratio_num(y) >= 0,
                    ratio_den(x) == 1,
            ;
        }
    } else {
        // x is at or above MIN_POWER, hence so is y
        assert(mx * 1 == mx && my * 1 == my) by (nonlinear_arith);
        assert(MIN_POWER * py <= my) by (nonlinear_arith)
            requires
                MIN_POWER * px <= mx,
                mx * py <= my * px,
                px > 0,
                py > 0,
        ;
        assert(!y.spec_lt(spec_min_power()));
        assert((mx - MIN_POWER * px) * ((MAX_POWER - MIN_POWER) * py) <= (my - MIN_POWER * py) * (
        (MAX_POWER - MIN_POWER) * px)) by (nonlinear_arith)
            requires
                mx * py <= my * px,
                px > 0,
                py > 0,
        ;
    }
}

} // verus!
