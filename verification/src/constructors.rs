//! Implementations of different orthogonal array construction techniques.
//!
//! Various constructors that implement the `OAConstructor`/`ParOAConstructor`
//! traits, and provide methods to generate orthogonal arrays. Each struct
//! contains the configuration parameters necessary for the construction
//! method, and the `gen` method will construct an orthogonal array from the
//! given parameters.
//!
//! The constructors offer parameter checked and non-checked variants. The
//! checked variants (`BoseChecked`, `BushChecked`) are consumed by their
//! `verify` method, which yields the constructor only when the supplied
//! parameters are valid. The construction methods themselves also validate
//! their parameters before any matrix is allocated, so a malformed array is
//! never returned successfully.

use vstd::prelude::*;

pub mod bose;
pub mod bush;
pub mod liu_liu;
pub mod soa;

pub use bose::Bose;
pub use bose::BoseChecked;
pub use bush::Bush;
pub use bush::BushChecked;
pub use liu_liu::LiuLiu;
pub use soa::HeTang;
pub use soa::{goa_to_soa, oa_to_goa};

verus! {

/// Whether `n` is a prime number: at least 2, and divisible by no number
/// between 2 and itself.
pub open spec fn is_prime_spec(n: u64) -> bool {
    n >= 2 && forall|d: int| 2 <= d < n ==> #[trigger] (n as int % d) != 0
}

/// Relies on primes' `is_prime`: trial division over 2 and the odd numbers
/// up to the square root declares `n` prime exactly when `n > 1` and no
/// number between 2 and `n - 1` divides it.
///
/// The bound keeps `n` below `(2^32 - 1)^2`: the trial loop squares each
/// odd divisor candidate, and only for an input at least that large can it
/// reach a candidate whose square overflows the machine's integers.
#[verifier::external_body]
pub(crate) fn is_prime(n: u64) -> (r: bool)
    requires
        n < 0xFFFF_FFFE_0000_0001,
    ensures
        r == is_prime_spec(n),
{
    primes::is_prime(n)
}

} // verus!
