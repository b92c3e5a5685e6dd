//! How numbers are to be written: with a number of significant digits, or as
//! a percentage with a number of decimal places.

use vstd::prelude::*;

verus! {

/// Writes a number with at most `digits` significant digits.
#[derive(Clone, Copy, Debug, PartialEq, Eq, Structural)]
pub struct FloatFormatter {
    pub digits: u8,
}

impl Default for FloatFormatter {
    fn default() -> (r: FloatFormatter)
        ensures
            r.digits == 6,
    {
        FloatFormatter { digits: 6 }
    }
}

impl FloatFormatter {
    #[must_use]
    pub fn new(digits: u8) -> (r: FloatFormatter)
        ensures
            r.digits == digits,
    {
        FloatFormatter { digits }
    }
}

/// Writes a number as a percentage with `decimal_places` decimal places.
#[derive(Clone, Copy, Debug, PartialEq, Eq, Structural)]
pub struct PercentFormatter {
    pub decimal_places: usize,
}

impl Default for PercentFormatter {
    fn default() -> (r: PercentFormatter)
        ensures
            r.decimal_places == 2,
    {
        PercentFormatter { decimal_places: 2 }
    }
}

impl PercentFormatter {
    #[must_use]
    pub fn new(decimal_places: usize) -> (r: PercentFormatter)
        ensures
            r.decimal_places == decimal_places,
    {
        PercentFormatter { decimal_places }
    }
}

#[derive(Clone, Copy, Debug, PartialEq, Eq, Structural)]
pub enum NumberFormatter {
    Float(FloatFormatter),
    Percent(PercentFormatter),
}

impl Default for NumberFormatter {
    fn default() -> (r: NumberFormatter)
        ensures
            r == NumberFormatter::Float(FloatFormatter { digits: 6 }),
    {
        NumberFormatter::Float(FloatFormatter { digits: 6 })
    }
}

impl NumberFormatter {
    /// Six significant digits.
    #[must_use]
    pub fn float_default() -> (r: NumberFormatter)
        ensures
            r == NumberFormatter::Float(FloatFormatter { digits: 6 }),
    {
        NumberFormatter::Float(FloatFormatter { digits: 6 })
    }

    #[must_use]
    pub fn float(digits: u8) -> (r: NumberFormatter)
        ensures
            r == NumberFormatter::Float(FloatFormatter { digits }),
    {
        NumberFormatter::Float(FloatFormatter::new(digits))
    }

    /// Two decimal places.
    #[must_use]
    pub fn percent_default() -> (r: NumberFormatter)
        ensures
            r == NumberFormatter::Percent(PercentFormatter { decimal_places: 2 }),
    {
        NumberFormatter::Percent(PercentFormatter { decimal_places: 2 })
    }

    #[must_use]
    pub fn percent(decimal_places: usize) -> (r: NumberFormatter)
        ensures
            r == NumberFormatter::Percent(PercentFormatter { decimal_places }),
    {
        NumberFormatter::Percent(PercentFormatter::new(decimal_places))
    }
}

} // verus!
