//! Polynomials with coefficients in base 2, the groundwork for finite
//! fields whose size is a power of 2.

use crate::utils::{base_digit, to_base_fixed};
use vstd::prelude::*;

verus! {

/// A finite field with a characteristic irreducible polynomial in some
/// domain that is a power of 2.
pub struct Field {
    /// The coefficients of a primitive polynomial that is a characteristic
    /// polynomial for a field of `size`, read in base 10.
    pub prim_poly: u64,
    /// The size of the domain of the finite field (must be a power of 2).
    pub size: u64,
}

/// An integer polynomial over base-2 coefficients. The degree is the size of
/// the coefficient vector.
pub struct Polynomial<'a> {
    /// The vector representing the polynomial, least-significant coefficient
    /// first.
    poly: Vec<u64>,
    /// The field that this polynomial is a member of.
    #[allow(dead_code)]
    field: &'a Field,
}

impl<'a> Polynomial<'a> {
    /// The coefficients of the polynomial.
    pub closed spec fn coeffs(&self) -> Seq<u64> {
        self.poly@
    }

    /// Create a new `Polynomial` from some integer with a given degree: the
    /// coefficients are the base-2 digits of the number, zero-padded or
    /// truncated to the given degree.
    pub fn new(num: u64, degree: usize, field: &'a Field) -> (r: Self)
        ensures
            r.coeffs().len() == degree,
            forall|i: int| 0 <= i < degree ==> #[trigger] r.coeffs()[i] == base_digit(num, 2, i),
    {
        Polynomial { poly: to_base_fixed(num, 2, degree), field }
    }

    /// The degree of the polynomial: the number of coefficients it holds.
    pub fn degree(&self) -> (r: usize)
        ensures
            r == self.coeffs().len(),
    {
        self.poly.len()
    }
}

} // verus!
