//! Misc utilities and convenience functions for the library.

use vstd::arithmetic::power::pow;
use vstd::prelude::*;

verus! {

/// The general categories of errors for `OarsError`.
#[derive(Debug, Clone, Copy, PartialEq, Eq, Structural)]
pub enum ErrorKind {
    /// Invalid parameters were supplied to the constructor.
    InvalidParams,
    /// A runtime condition (such as a size that does not fit in the machine's
    /// integers) prevented the orthogonal array from being properly
    /// constructed.
    RuntimeError,
}

/// An error indicating that there was some error constructing the orthogonal
/// array.
#[derive(Debug)]
pub struct OarsError {
    /// The general category of the error.
    pub error_type: ErrorKind,
    /// A user-friendly description which can supply additional information
    /// about the error.
    pub desc: String,
}

/// A generic type for anything that can return `OarsError`.
pub type OarsResult<T> = Result<T, OarsError>;

impl OarsError {
    /// Build an error of the given category carrying a description.
    pub fn new(kind: ErrorKind, msg: &str) -> (r: Self)
        ensures
            r.error_type == kind,
            r.desc@ == msg@,
    {
        OarsError { error_type: kind, desc: msg.to_string() }
    }
}

/// The digit of weight `base^i` in the base-`base` expansion of `num`.
pub open spec fn base_digit(num: u64, base: u64, i: int) -> int
    recommends
        base >= 1,
        i >= 0,
{
    (num as int / pow(base as int, i as nat)) % (base as int)
}

/// Convert a number to an arbitrary base with a fixed number of digits.
///
/// Given some number, convert the number to some base with a specified number
/// of digits, least-significant digit first. Numbers are truncated if `degree`
/// is too small, and zero-padded if it is too large.
pub fn to_base_fixed(num: u64, base: u64, degree: usize) -> (r: Vec<u64>)
    requires
        base >= 1,
    ensures
        r@.len() == degree,
        forall|i: int| 0 <= i < degree ==> r@[i] == base_digit(num, base, i),
{
    let mut new_base: Vec<u64> = Vec::new();
    let mut new_num: u64 = num;
    let mut i: usize = 0;
    proof {
        vstd::arithmetic::power::lemma_pow0(base as int);
        vstd::arithmetic::div_mod::lemma_div_basics(num as int);
    }
    while i < degree
        invariant
            base >= 1,
            i <= degree,
            new_base@.len() == i,
            new_num == num as int / pow(base as int, i as nat),
            forall|k: int| 0 <= k < i ==> new_base@[k] == base_digit(num, base, k),
        decreases degree - i,
    {
        proof {
            vstd::arithmetic::power::lemma_pow_positive(base as int, i as nat);
            vstd::arithmetic::div_mod::lemma_div_pos_is_pos(num as int, pow(base as int, i as nat));
            vstd::arithmetic::div_mod::lemma_div_denominator(
                num as int,
                pow(base as int, i as nat),
                base as int,
            );
            assert(pow(base as int, (i + 1) as nat) == pow(base as int, i as nat) * base) by {
                vstd::arithmetic::power::lemma_pow1(base as int);
                vstd::arithmetic::power::lemma_pow_adds(base as int, i as nat, 1);
            }
        }
        new_base.push(new_num % base);
        new_num = new_num / base;
        i = i + 1;
    }
    new_base
}

/// The value of the coefficient vector `coeffs` read as a polynomial in
/// `base`, i.e. `coeffs[0] + coeffs[1]*base + coeffs[2]*base^2 + ...`.
pub open spec fn horner_value(coeffs: Seq<u64>, base: int) -> int
    decreases coeffs.len(),
{
    if coeffs.len() == 0 {
        0
    } else {
        coeffs[0] + base * horner_value(coeffs.skip(1), base)
    }
}

/// The value of a polynomial is nonnegative, and (for a positive base) no
/// suffix of the coefficient vector evaluates to more than the whole vector.
pub(crate) proof fn lemma_horner_suffix_bound(coeffs: Seq<u64>, base: int, k: int)
    requires
        base >= 1,
        0 <= k <= coeffs.len(),
    ensures
        0 <= horner_value(coeffs.skip(k), base) <= horner_value(coeffs, base),
    decreases k,
{
    lemma_horner_nonneg(coeffs.skip(k), base);
    assert(coeffs.skip(0) =~= coeffs);
    if k > 0 {
        lemma_horner_suffix_bound(coeffs, base, k - 1);
        let tail = coeffs.skip(k - 1);
        assert(tail.skip(1) =~= coeffs.skip(k));
        lemma_horner_nonneg(tail, base);
        assert(horner_value(tail, base) == tail[0] + base * horner_value(coeffs.skip(k), base));
        vstd::arithmetic::mul::lemma_mul_inequality(1, base, horner_value(coeffs.skip(k), base));
    }
}

/// A polynomial with nonnegative coefficients and base evaluates to a
/// nonnegative value.
pub(crate) proof fn lemma_horner_nonneg(coeffs: Seq<u64>, base: int)
    requires
        base >= 0,
    ensures
        horner_value(coeffs, base) >= 0,
    decreases coeffs.len(),
{
    if coeffs.len() > 0 {
        lemma_horner_nonneg(coeffs.skip(1), base);
        vstd::arithmetic::mul::lemma_mul_nonnegative(base, horner_value(coeffs.skip(1), base));
    }
}

/// Evaluate a coefficient vector, interpreted as a polynomial in `base`, using
/// Horner's rule.
///
/// The mathematical value must fit in a `u64`; this is the machine limit for
/// the exact arithmetic performed here.
pub fn poly_eval(coeffs: &Vec<u64>, base: u64) -> (r: u64)
    requires
        horner_value(coeffs@, base as int) < 0x1_0000_0000_0000_0000,
    ensures
        r == horner_value(coeffs@, base as int),
{
    let mut result: u64 = 0;
    let mut k: usize = coeffs.len();
    while k > 0
        invariant
            k <= coeffs@.len(),
            horner_value(coeffs@, base as int) < 0x1_0000_0000_0000_0000,
            result == horner_value(coeffs@.skip(k as int), base as int),
        decreases k,
    {
        k = k - 1;
        let tail = Ghost(coeffs@.skip(k as int));
        proof {
            assert(tail@.skip(1) =~= coeffs@.skip(k + 1));
            assert(tail@[0] == coeffs@[k as int]);
            assert(horner_value(tail@, base as int) == coeffs@[k as int] + (base as int)
                * horner_value(coeffs@.skip(k + 1), base as int));
            lemma_horner_nonneg(coeffs@.skip(k + 1), base as int);
            if base >= 1 {
                lemma_horner_suffix_bound(coeffs@, base as int, k as int);
                assert(horner_value(coeffs@.skip(k as int), base as int)
                    < 0x1_0000_0000_0000_0000);
                assert((base as int) * horner_value(coeffs@.skip(k + 1), base as int)
                    <= horner_value(coeffs@.skip(k as int), base as int));
                assert((result as int) * (base as int) < 0x1_0000_0000_0000_0000);
            } else {
                assert((result as int) * (base as int) == 0) by {
                    vstd::arithmetic::mul::lemma_mul_by_zero_is_zero(result as int);
                }
            }
        }
        result = result * base + coeffs[k];
        proof {
            assert(result == horner_value(coeffs@.skip(k as int), base as int));
        }
    }
    proof {
        assert(coeffs@.skip(0) =~= coeffs@);
    }
    result
}

} // verus!
