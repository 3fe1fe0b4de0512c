//! The capability of having a multiplicative identity with a cheap test for it.

use vstd::prelude::*;
use crate::integer::{int_is_one, int_one, Int};

verus! {

/// A type with a multiplicative identity and a test for it.
pub trait PartialOne: Sized {
    /// Whether the value stands for the multiplicative identity.
    spec fn is_one_spec(&self) -> bool;

    /// The multiplicative identity element of `Self`.
    fn one() -> (r: Self)
        ensures
            r.is_one_spec(),
    ;

    /// Sets `self` to the multiplicative identity element of `Self`.
    fn set_one(&mut self)
        ensures
            final(self).is_one_spec(),
    ;

    /// Whether `self` stands for the multiplicative identity.
    fn is_one(&self) -> (r: bool)
        ensures
            r == self.is_one_spec(),
    ;
}

impl PartialOne for Int {
    open spec fn is_one_spec(&self) -> bool {
        *self == 1
    }

    fn one() -> (r: Self)
        ensures
            r == 1,
    {
        int_one()
    }

    fn set_one(&mut self)
        ensures
            *final(self) == 1,
    {
        *self = int_one();
    }

    fn is_one(&self) -> (r: bool) {
        int_is_one(self)
    }
}

} // verus!
