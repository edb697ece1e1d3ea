//! Temperature readings of the thermometer.
//!
//! The wire protocol puts no range on a temperature: it only asks that the
//! numeric field be a plain decimal.  The reading is held exactly.

use vstd::prelude::*;

use crate::decimal::Decimal;

verus! {

/// A temperature reading, in degrees Celsius.
#[derive(Clone, Copy, Debug, PartialEq, Eq, Structural)]
pub struct Temperature(pub Decimal);

impl Temperature {
    pub open spec fn wf(self) -> bool {
        self.0.wf()
    }

    /// Construct a reading without validation.
    pub fn new(value: Decimal) -> (r: Temperature)
        ensures
            r == (Temperature(value)),
    {
        Temperature(value)
    }

    pub fn get(&self) -> (r: Decimal)
        ensures
            r == self.0,
    {
        self.0
    }

    /// Replace the reading; no range is defined for temperatures.
    pub fn set(&mut self, value: Decimal)
        ensures
            final(self).0 == value,
    {
        self.0 = value;
    }
}

} // verus!
