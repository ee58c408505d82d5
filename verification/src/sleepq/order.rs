//! Comparison of sleep queue entries.
//!
//! Entries compare by wake tick alone, and in reverse: the entry that is due
//! earlier is the greater one, so that it comes first where the greatest
//! element is served first.

use crate::sleepq::SleepData;
use std::cmp::Ordering;
use vstd::prelude::*;
use vstd::std_specs::cmp::{PartialEqSpecImpl, PartialOrdSpecImpl};

verus! {

impl PartialEq for SleepData {
    fn eq(&self, other: &Self) -> (r: bool) {
        self.ticks == other.ticks
    }
}

impl PartialEqSpecImpl for SleepData {
    open spec fn obeys_eq_spec() -> bool {
        true
    }

    open spec fn eq_spec(&self, other: &Self) -> bool {
        self.ticks == other.ticks
    }
}

impl PartialOrd for SleepData {
    fn partial_cmp(&self, other: &Self) -> (r: Option<Ordering>) {
        if other.ticks < self.ticks {
            Some(Ordering::Less)
        } else if other.ticks > self.ticks {
            Some(Ordering::Greater)
        } else {
            Some(Ordering::Equal)
        }
    }
}

impl PartialOrdSpecImpl for SleepData {
    open spec fn obeys_partial_cmp_spec() -> bool {
        true
    }

    open spec fn partial_cmp_spec(&self, other: &Self) -> Option<Ordering> {
        if other.ticks < self.ticks {
            Some(Ordering::Less)
        } else if other.ticks > self.ticks {
            Some(Ordering::Greater)
        } else {
            Some(Ordering::Equal)
        }
    }
}

} // verus!
