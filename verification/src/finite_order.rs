//! The operators `==` and `<` on finite numbers: they compare the values.

use crate::finite::{float_eq, float_lt, Finite};
use std::cmp::Ordering;
use vstd::prelude::*;
use vstd::std_specs::cmp::{PartialEqSpecImpl, PartialOrdSpecImpl};

verus! {

impl PartialEq for Finite {
    fn eq(&self, other: &Finite) -> (r: bool) {
        float_eq(self.get(), other.get())
    }
}

impl PartialEqSpecImpl for Finite {
    open spec fn obeys_eq_spec() -> bool {
        true
    }

    open spec fn eq_spec(&self, other: &Finite) -> bool {
        self.value() == other.value()
    }
}

impl PartialOrd for Finite {
    fn partial_cmp(&self, other: &Finite) -> (r: Option<Ordering>) {
        if float_lt(self.get(), other.get()) {
            Some(Ordering::Less)
        } else if float_eq(self.get(), other.get()) {
            Some(Ordering::Equal)
        } else {
            Some(Ordering::Greater)
        }
    }
}

impl PartialOrdSpecImpl for Finite {
    open spec fn obeys_partial_cmp_spec() -> bool {
        true
    }

    open spec fn partial_cmp_spec(&self, other: &Finite) -> Option<Ordering> {
        if self.value() < other.value() {
            Some(Ordering::Less)
        } else if self.value() == other.value() {
            Some(Ordering::Equal)
        } else {
            Some(Ordering::Greater)
        }
    }
}

} // verus!
