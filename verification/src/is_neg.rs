//! The capability of telling whether a value is negative.

use vstd::prelude::*;
use crate::integer::{int_is_negative, Int};

verus! {

/// A value that can tell whether it is negative.
pub trait IsNeg {
    /// Whether the value is below zero.
    spec fn is_neg_spec(&self) -> bool;

    /// Whether `self` is below zero.
    fn is_neg(&self) -> (r: bool)
        ensures
            r == self.is_neg_spec(),
    ;
}

impl IsNeg for Int {
    open spec fn is_neg_spec(&self) -> bool {
        *self < 0
    }

    fn is_neg(&self) -> (r: bool) {
        int_is_negative(self)
    }
}

} // verus!
