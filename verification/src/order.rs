//! The order of the values of a cell: `Empty` first, then the digits in
//! ascending order.

use std::cmp::Ordering;
use vstd::prelude::*;
use vstd::std_specs::cmp::PartialOrdSpecImpl;
use crate::grid::CellValue;

verus! {

impl PartialOrd for CellValue {
    fn partial_cmp(&self, other: &Self) -> (r: Option<Ordering>) {
        let mine: u8 = u8::from(*self);
        let theirs: u8 = u8::from(*other);
        if mine < theirs {
            Some(Ordering::Less)
        } else if mine == theirs {
            Some(Ordering::Equal)
        } else {
            Some(Ordering::Greater)
        }
    }
}

impl PartialOrdSpecImpl for CellValue {
    open spec fn obeys_partial_cmp_spec() -> bool {
        true
    }

    open spec fn partial_cmp_spec(&self, other: &Self) -> Option<Ordering> {
        if self.digit() < other.digit() {
            Some(Ordering::Less)
        } else if self.digit() == other.digit() {
            Some(Ordering::Equal)
        } else {
            Some(Ordering::Greater)
        }
    }
}

} // verus!
