//! The order of event records: by time alone.

use crate::event::KeyVal;
use std::cmp::Ordering;
use vstd::prelude::*;
use vstd::std_specs::cmp::{PartialEqSpecImpl, PartialOrdSpecImpl};

verus! {

impl PartialEq for KeyVal {
    /// Two records are equal when they have the same time.
    fn eq(&self, other: &Self) -> (r: bool) {
        self.key == other.key
    }
}

impl PartialEqSpecImpl for KeyVal {
    open spec fn obeys_eq_spec() -> bool {
        true
    }

    open spec fn eq_spec(&self, other: &Self) -> bool {
        self.key == other.key
    }
}

impl Eq for KeyVal {

}

impl PartialOrd for KeyVal {
    /// Records are ordered by their times.
    fn partial_cmp(&self, other: &Self) -> (r: Option<Ordering>) {
        if self.key < other.key {
            Some(Ordering::Less)
        } else if self.key > other.key {
            Some(Ordering::Greater)
        } else {
            Some(Ordering::Equal)
        }
    }
}

impl PartialOrdSpecImpl for KeyVal {
    open spec fn obeys_partial_cmp_spec() -> bool {
        true
    }

    open spec fn partial_cmp_spec(&self, other: &Self) -> Option<Ordering> {
        if self.key < other.key {
            Some(Ordering::Less)
        } else if self.key > other.key {
            Some(Ordering::Greater)
        } else {
            Some(Ordering::Equal)
        }
    }
}

} // verus!
