//! The capability of being brought into canonical form.

use vstd::prelude::*;
use crate::integer::Int;

verus! {

/// A type whose values have a canonical form.
pub trait Simplify: Sized {
    /// Whether the value is in canonical form.
    spec fn is_simplified_spec(&self) -> bool;

    /// Whether `self` is what canonicalization makes of `before`.
    spec fn simplified_from(&self, before: &Self) -> bool;

    /// Brings `self` into canonical form.
    fn simplify(&mut self)
        ensures
            final(self).simplified_from(old(self)),
    ;

    /// Whether `self` is in canonical form already.
    fn is_simplified(&self) -> (r: bool)
        ensures
            r == self.is_simplified_spec(),
    ;
}

/// Arbitrary-precision integers of the `num` crate, carried through as
/// they are: nothing is known or claimed of what a value holds.
#[verifier::external_type_specification]
#[verifier::external_body]
pub struct ExBigInt(num::BigInt);

impl Simplify for num::BigInt {
    open spec fn is_simplified_spec(&self) -> bool {
        true
    }

    open spec fn simplified_from(&self, before: &Self) -> bool {
        *self == *before
    }

    fn simplify(&mut self) {
    }

    fn is_simplified(&self) -> (r: bool) {
        true
    }
}

impl Simplify for Int {
    open spec fn is_simplified_spec(&self) -> bool {
        true
    }

    open spec fn simplified_from(&self, before: &Self) -> bool {
        *self == *before
    }

    fn simplify(&mut self) {
    }

    fn is_simplified(&self) -> (r: bool) {
        true
    }
}

} // verus!
