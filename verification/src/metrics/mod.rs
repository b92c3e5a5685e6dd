//! Evaluation metrics that are accumulated shard by shard and merged.
//!
//! Counts are kept exactly. Every derived statistic is handed out as a
//! [`Ratio`] of two integers, so that no rounding happens before the caller
//! asks for it.

use vstd::prelude::*;

pub mod auc_roc;
pub mod binary_classification;
pub mod multiclass_classification;

verus! {

/// An exact quotient of two counts. A quotient whose denominator is zero has
/// no value.
#[derive(Clone, Copy, Debug, PartialEq, Eq, Structural)]
pub struct Ratio {
    pub numerator: u128,
    pub denominator: u128,
}

impl Ratio {
    /// Whether the quotient has a value.
    pub open spec fn is_defined(self) -> bool {
        self.denominator != 0
    }

    /// Whether two quotients with values are the same number.
    pub open spec fn same_number(self, other: Ratio) -> bool {
        self.numerator * other.denominator == other.numerator * self.denominator
    }
}

} // verus!
