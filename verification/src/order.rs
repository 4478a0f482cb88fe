//! The order of lengths.

use vstd::prelude::*;
use std::cmp::Ordering;
use crate::units::Length;

verus! {

/// Lengths are ordered by their magnitudes in the unit of the left one.
impl PartialOrd for Length {
    fn partial_cmp(&self, other: &Length) -> (r: Option<Ordering>) {
        if self.is_less_than(other) {
            Some(Ordering::Less)
        } else if self.is_greater_than(other) {
            Some(Ordering::Greater)
        } else {
            Some(Ordering::Equal)
        }
    }

    fn lt(&self, other: &Length) -> (r: bool) {
        self.is_less_than(other)
    }

    fn le(&self, other: &Length) -> (r: bool) {
        self.is_less_than_or_equal(other)
    }

    fn gt(&self, other: &Length) -> (r: bool) {
        self.is_greater_than(other)
    }

    fn ge(&self, other: &Length) -> (r: bool) {
        self.is_greater_than_or_equal(other)
    }
}

impl vstd::std_specs::cmp::PartialOrdSpecImpl for Length {
    open spec fn obeys_partial_cmp_spec() -> bool {
        true
    }

    open spec fn partial_cmp_spec(&self, other: &Length) -> Option<Ordering> {
        if self.value < other.value_in(self.unit) {
            Some(Ordering::Less)
        } else if self.value > other.value_in(self.unit) {
            Some(Ordering::Greater)
        } else {
            Some(Ordering::Equal)
        }
    }
}

} // verus!
