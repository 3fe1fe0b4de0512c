//! The capability of having an additive identity with a cheap test for it.

use vstd::prelude::*;
use crate::integer::{int_is_zero, int_zero, Int};

verus! {

/// A type with an additive identity and a test for it.
pub trait PartialZero: Sized {
    /// Whether the value stands for the additive identity.
    spec fn is_zero_spec(&self) -> bool;

    /// The additive identity element of `Self`.
    fn zero() -> (r: Self)
        ensures
            r.is_zero_spec(),
    ;

    /// Sets `self` to the additive identity element of `Self`.
    fn set_zero(&mut self)
        ensures
            final(self).is_zero_spec(),
    ;

    /// Whether `self` stands for the additive identity.
    fn is_zero(&self) -> (r: bool)
        ensures
            r == self.is_zero_spec(),
    ;
}

impl PartialZero for Int {
    open spec fn is_zero_spec(&self) -> bool {
        *self == 0
    }

    fn zero() -> (r: Self)
        ensures
            r == 0,
    {
        int_zero()
    }

    fn set_zero(&mut self)
        ensures
            *final(self) == 0,
    {
        *self = int_zero();
    }

    fn is_zero(&self) -> (r: bool) {
        int_is_zero(self)
    }
}

} // verus!
