use vstd::prelude::*;

verus! {

/// A fixed-point amount with four fractional digits, held as a whole number
/// of ten-thousandths (`1.5` is `15000` units).
#[derive(Clone, Copy, Debug, PartialEq, Eq, Structural)]
pub struct Currency {
    pub units: i128,
}

impl Currency {
    /// The amount of `units` ten-thousandths.
    pub fn from_units(units: i128) -> (r: Currency)
        ensures
            r.units == units,
    {
        Currency { units }
    }

    /// Zero.
    pub fn zero() -> (r: Currency)
        ensures
            r.units == 0,
    {
        Currency { units: 0 }
    }

    /// The number of ten-thousandths this amount holds.
    pub fn units(&self) -> (r: i128)
        ensures
            r == self.units,
    {
        self.units
    }
}

} // verus!
