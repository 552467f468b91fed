//! The Bush construction technique for orthogonal arrays.

use crate::constructors::{is_prime, is_prime_spec};
use crate::oa::{
    code_count, combo_balanced, is_col_combo, oa_stratified, tuple_code, OA, OAConstructionError,
    OAConstructor, OACErrorKind, OAResult, ParOAConstructor,
};
use crate::utils::{
    base_digit, horner_value, lemma_horner_nonneg, poly_eval, to_base_fixed, ErrorKind, OarsError,
    OarsResult,
};
use rayon::iter::{IntoParallelIterator, ParallelIterator};
use vstd::arithmetic::power::pow;
use vstd::prelude::*;

verus! {

/// The parameters accepted by the Bush construction: a base that fits in 32
/// bits (the machine limit for the primality test), a prime base, a
/// strength between 1 and the base, and a number of dimensions between 2
/// and the base plus one.
pub open spec fn bush_params_ok(prime_base: u64, strength: u64, dimensions: u64) -> bool {
    &&& prime_base <= 0xFFFF_FFFF
    &&& is_prime_spec(prime_base)
    &&& 2 <= dimensions
    &&& dimensions <= prime_base + 1
    &&& 1 <= strength
    &&& strength <= prime_base
}

/// The machine can hold the `prime_base^strength` rows of the array, and a
/// row of `dimensions` cells.
pub open spec fn bush_feasible(prime_base: u64, strength: u64, dimensions: u64) -> bool {
    &&& pow(prime_base as int, strength as nat) <= usize::MAX as int
    &&& dimensions <= usize::MAX as u64
}

/// The `t` base-`base` digits of `num`, least-significant first.
pub open spec fn digit_seq(num: u64, base: u64, t: nat) -> Seq<u64> {
    Seq::new(t, |k: int| base_digit(num, base, k) as u64)
}

/// The value of cell `(i, j)` of the Bush array over base `p` and strength
/// `t`: the base-`p` digits of the row number, read as the coefficients of a
/// polynomial, evaluated at `j`, modulo `p`. The designated extra column at
/// `j == p` (present only when the array has `p + 1` dimensions) instead
/// holds `(i - 1) mod p`.
pub open spec fn bush_cell(p: u64, t: u64, i: u64, j: int) -> int {
    if j < p {
        horner_value(digit_seq(i, p, t as nat), j) % (p as int)
    } else {
        (i - 1) % (p as int)
    }
}

/// The whole Bush point matrix over base `p` and strength `t`: `p^t` rows of
/// `dims` cells, cell by cell equal to `bush_cell`.
pub open spec fn bush_matrix(p: u64, t: u64, dims: u64, rows: Seq<Seq<u64>>) -> bool {
    &&& rows.len() == pow(p as int, t as nat)
    &&& forall|i: int| 0 <= i < rows.len() ==> (#[trigger] rows[i]).len() == dims
    &&& forall|i: int, j: int|
        0 <= i < rows.len() && 0 <= j < dims ==> #[trigger] rows[i][j] == bush_cell(
            p,
            t,
            i as u64,
            j,
        )
}

/// A power of a base at least 2 exceeds its exponent.
proof fn lemma_pow_ge_exponent(b: int, e: nat)
    requires
        b >= 2,
    ensures
        pow(b, e) >= e + 1,
    decreases e,
{
    if e > 0 {
        lemma_pow_ge_exponent(b, (e - 1) as nat);
        vstd::arithmetic::power::lemma_pow_positive(b, (e - 1) as nat);
        vstd::arithmetic::power::lemma_pow1(b);
        vstd::arithmetic::power::lemma_pow_adds(b, (e - 1) as nat, 1);
        assert(pow(b, e) == pow(b, (e - 1) as nat) * b);
        vstd::arithmetic::mul::lemma_mul_inequality(2, b, pow(b, (e - 1) as nat));
        vstd::arithmetic::mul::lemma_mul_is_commutative(b, pow(b, (e - 1) as nat));
    } else {
        vstd::arithmetic::power::lemma_pow0(b);
    }
}

/// A polynomial whose coefficients and evaluation point lie below `p` takes
/// a value below `p` to the power of its coefficient count.
proof fn lemma_horner_bounded(coeffs: Seq<u64>, b: int, p: u64)
    requires
        p >= 1,
        0 <= b < p,
        forall|k: int| 0 <= k < coeffs.len() ==> (#[trigger] coeffs[k]) < p,
    ensures
        0 <= horner_value(coeffs, b) < pow(p as int, coeffs.len() as nat),
    decreases coeffs.len(),
{
    lemma_horner_nonneg(coeffs, b);
    vstd::arithmetic::power::lemma_pow_positive(p as int, coeffs.len() as nat);
    if coeffs.len() > 0 {
        let tail = coeffs.skip(1);
        assert(forall|k: int| 0 <= k < tail.len() ==> (#[trigger] tail[k]) < p);
        lemma_horner_bounded(tail, b, p);
        let cap = pow(p as int, tail.len() as nat);
        vstd::arithmetic::power::lemma_pow1(p as int);
        vstd::arithmetic::power::lemma_pow_adds(p as int, tail.len() as nat, 1);
        assert(pow(p as int, coeffs.len() as nat) == cap * (p as int));
        assert(coeffs[0] + b * horner_value(tail, b) < (p as int) * cap) by (nonlinear_arith)
            requires
                coeffs[0] < p,
                0 <= b <= (p as int) - 1,
                0 <= horner_value(tail, b) <= cap - 1,
                cap >= 1,
        {}
    }
}

/// Generate an orthogonal array with any prime base and any strength between
/// 1 and the base, with parameter checking.
///
/// This struct cannot generate orthogonal arrays itself: it represents a
/// pre-verified state whose `verify` method is consumed to yield a `Bush`
/// constructor once the parameters have been checked.
pub struct BushChecked {
    /// The base of the orthogonal array. It *must* be a prime number.
    pub prime_base: u64,
    /// The desired strength of the orthogonal array, between 1 and the base.
    pub strength: u64,
    /// The dimensionality of the orthogonal array.
    pub dimensions: u64,
}

impl BushChecked {
    /// Verify that the parameters for Bush construction are valid.
    ///
    /// This method returns a `Bush` struct upon success and consumes the
    /// original struct. If there is an error, this will return an
    /// `OarsError` and consume the original struct.
    pub fn verify(self) -> (r: OarsResult<Bush>)
        ensures
            r is Ok <==> bush_params_ok(self.prime_base, self.strength, self.dimensions),
            r is Ok ==> r->Ok_0.prime_base == self.prime_base && r->Ok_0.strength == self.strength
                && r->Ok_0.dimensions == self.dimensions,
            r is Err ==> r->Err_0.error_type == ErrorKind::InvalidParams,
    {
        if self.prime_base > 0xFFFF_FFFF {
            return Err(OarsError::new(ErrorKind::InvalidParams, "Base does not fit in 32 bits"));
        }
        if !is_prime(self.prime_base) {
            return Err(OarsError::new(ErrorKind::InvalidParams, "Base is not prime"));
        }
        if self.dimensions < 2 || self.dimensions - 1 > self.prime_base {
            return Err(
                OarsError::new(
                    ErrorKind::InvalidParams,
                    "Dimensions must be less than `prime_base` + 1",
                ),
            );
        }
        if self.strength < 1 || self.strength > self.prime_base {
            return Err(
                OarsError::new(
                    ErrorKind::InvalidParams,
                    "`strength` must be between 1 and `prime_base` (inclusive)",
                ),
            );
        }
        Ok(
            Bush {
                strength: self.strength,
                prime_base: self.prime_base,
                dimensions: self.dimensions,
            },
        )
    }
}

/// Generate an orthogonal array with any prime base and any strength between
/// 1 and the base.
///
/// The Bush construction technique, as described by Art Owen. The
/// construction validates its parameters before any matrix is allocated.
pub struct Bush {
    /// The base of the orthogonal array. It *must* be a prime number.
    pub prime_base: u64,
    /// The desired strength of the orthogonal array, between 1 and the base.
    pub strength: u64,
    /// The dimensionality of the orthogonal array.
    pub dimensions: u64,
}

/// One row of the Bush array: the digit polynomial of the row number
/// evaluated at each column, and the designated extra column when the array
/// has `p + 1` dimensions.
fn bush_row(p: u64, t: u64, dims: usize, i: u64) -> (r: Vec<u64>)
    requires
        p >= 2,
        1 <= t <= p,
        2 <= dims as int <= p as int + 1,
        t <= usize::MAX as u64,
        (i as int) < pow(p as int, t as nat),
        pow(p as int, t as nat) <= usize::MAX as int,
    ensures
        r@.len() == dims,
        forall|j: int| 0 <= j < dims ==> #[trigger] r@[j] == bush_cell(p, t, i, j),
{
    let coeffs = to_base_fixed(i, p, t as usize);
    let ghost digits = digit_seq(i, p, t as nat);
    proof {
        assert(coeffs@ =~= digits);
        assert forall|k: int| 0 <= k < digits.len() implies (#[trigger] digits[k]) < p by {
            vstd::arithmetic::power::lemma_pow_positive(p as int, k as nat);
            vstd::arithmetic::div_mod::lemma_mod_bound(
                (i as int) / pow(p as int, k as nat),
                p as int,
            );
        }
    }
    let poly_dims: usize = if (dims as u64) < p {
        dims
    } else {
        proof {
            vstd::arithmetic::power::lemma_pow1(p as int);
            vstd::arithmetic::power::lemma_pow_increases(p as nat, 1, t as nat);
        }
        p as usize
    };
    let mut row: Vec<u64> = Vec::new();
    let mut j: usize = 0;
    while j < poly_dims
        invariant
            j <= poly_dims,
            row@.len() == j,
            p >= 2,
            1 <= t <= p,
            poly_dims as int <= p as int,
            poly_dims <= dims,
            dims as int <= p as int + 1,
            pow(p as int, t as nat) <= usize::MAX as int,
            coeffs@ == digits,
            digits == digit_seq(i, p, t as nat),
            digits.len() == t,
            forall|k: int| 0 <= k < digits.len() ==> (#[trigger] digits[k]) < p,
            forall|k: int| 0 <= k < j ==> #[trigger] row@[k] == bush_cell(p, t, i, k),
        decreases poly_dims - j,
    {
        proof {
            lemma_horner_bounded(digits, j as int, p);
            assert(pow(p as int, digits.len() as nat) <= usize::MAX as int);
        }
        let v = poly_eval(&coeffs, j as u64) % p;
        row.push(v);
        j = j + 1;
    }
    if dims > poly_dims {
        // dims == p + 1: the extra column holds (i - 1) mod p
        let im = i % p;
        let extra = if im == 0 {
            p - 1
        } else {
            im - 1
        };
        proof {
            vstd::arithmetic::div_mod::lemma_fundamental_div_mod(i as int, p as int);
            vstd::arithmetic::div_mod::lemma_mod_bound(i as int, p as int);
            let q = (i as int) / (p as int);
            assert(i as int == (p as int) * q + (im as int));
            if im == 0 {
                assert(i as int - 1 == (q - 1) * (p as int) + ((p as int) - 1))
                    by (nonlinear_arith)
                    requires
                        (i as int) == (p as int) * q,
                        p >= 2,
                {}
                vstd::arithmetic::div_mod::lemma_fundamental_div_mod_converse(
                    i as int - 1,
                    p as int,
                    q - 1,
                    p as int - 1,
                );
            } else {
                assert(i as int - 1 == q * (p as int) + (im as int - 1)) by (nonlinear_arith)
                    requires
                        (i as int) == (p as int) * q + (im as int),
                {}
                vstd::arithmetic::div_mod::lemma_fundamental_div_mod_converse(
                    i as int - 1,
                    p as int,
                    q,
                    im as int - 1,
                );
            }
            assert(extra as int == (i - 1) % (p as int));
        }
        row.push(extra);
    }
    row
}

/// All rows of the Bush array over base `p` and strength `t`, built in
/// parallel with one task per row.
///
/// Relies on rayon: a `usize` range is an indexed parallel iterator, and
/// collecting one into a `Vec` keeps the source order, so entry `i` of the
/// result is the value of `bush_row` at `i`, whose contract pins each cell
/// to `bush_cell`.
#[verifier::external_body]
fn bush_rows_par(p: u64, t: u64, dims: usize, n: u64) -> (r: Vec<Vec<u64>>)
    requires
        p >= 2,
        1 <= t <= p,
        2 <= dims as int <= p as int + 1,
        t <= usize::MAX as u64,
        n as int == pow(p as int, t as nat),
        n <= usize::MAX as u64,
    ensures
        r@.len() == n,
        forall|i: int| 0 <= i < n ==> (#[trigger] r@[i])@.len() == dims,
        forall|i: int, j: int|
            0 <= i < n && 0 <= j < dims ==> #[trigger] r@[i]@[j] == bush_cell(p, t, i as u64, j),
{
    (0..n as usize).into_par_iter().map(|i| bush_row(p, t, dims, i as u64)).collect()
}

impl Bush {
    /// Verify the parameters for Bush construction and return whether they
    /// are valid.
    fn verify_params(&self) -> (r: bool)
        ensures
            r == bush_params_ok(self.prime_base, self.strength, self.dimensions),
    {
        if self.prime_base > 0xFFFF_FFFF {
            return false;
        }
        if !is_prime(self.prime_base) {
            return false;
        }
        if self.dimensions < 2 || self.dimensions - 1 > self.prime_base {
            return false;
        }
        if self.strength < 1 || self.strength > self.prime_base {
            return false;
        }
        true
    }

    /// Validate the parameters, then check that the `p^t` rows fit in the
    /// machine's indices; on success return the row count.
    fn checked_size(&self) -> (r: Result<u64, OAConstructionError>)
        ensures
            r is Ok <==> (bush_params_ok(self.prime_base, self.strength, self.dimensions)
                && bush_feasible(self.prime_base, self.strength, self.dimensions)),
            r is Ok ==> r->Ok_0 as int == pow(self.prime_base as int, self.strength as nat),
            r is Err ==> r->Err_0.error_type == (if bush_params_ok(
                self.prime_base,
                self.strength,
                self.dimensions,
            ) {
                OACErrorKind::RuntimeError
            } else {
                OACErrorKind::InvalidParams
            }),
    {
        if !self.verify_params() {
            return Err(OAConstructionError::new(OACErrorKind::InvalidParams, "invalid parameters"));
        }
        let p = self.prime_base;
        let mut cap: u64 = 1;
        let mut e: u64 = 0;
        proof {
            vstd::arithmetic::power::lemma_pow0(p as int);
        }
        while e < self.strength
            invariant
                e <= self.strength,
                p == self.prime_base,
                p >= 2,
                bush_params_ok(self.prime_base, self.strength, self.dimensions),
                cap as int == pow(p as int, e as nat),
            decreases self.strength - e,
        {
            proof {
                vstd::arithmetic::power::lemma_pow1(p as int);
                vstd::arithmetic::power::lemma_pow_adds(p as int, e as nat, 1);
            }
            cap = match cap.checked_mul(p) {
                Some(c) => c,
                None => {
                    proof {
                        vstd::arithmetic::power::lemma_pow_increases(
                            p as nat,
                            (e + 1) as nat,
                            self.strength as nat,
                        );
                    }
                    return Err(
                        OAConstructionError::new(
                            OACErrorKind::RuntimeError,
                            "p^t rows do not fit in the machine's integers",
                        ),
                    );
                },
            };
            e = e + 1;
        }
        if cap > usize::MAX as u64 {
            return Err(
                OAConstructionError::new(
                    OACErrorKind::RuntimeError,
                    "p^t rows do not fit in the machine's indices",
                ),
            );
        }
        if self.dimensions > usize::MAX as u64 {
            return Err(
                OAConstructionError::new(
                    OACErrorKind::RuntimeError,
                    "a row of `dimensions` cells does not fit in the machine's indices",
                ),
            );
        }
        Ok(cap)
    }

    /// Generate the Bush orthogonal array serially.
    ///
    /// The parameters are validated first: invalid parameters yield an
    /// `InvalidParams` error, and parameters whose `p^t` rows cannot be held
    /// by the machine yield a `RuntimeError`. On success every cell of the
    /// returned array equals `bush_cell`, the array has `p^t` rows and
    /// `dimensions` columns, levels `p`, strength `t` and index 1.
    pub fn gen(&self) -> (r: OAResult)
        ensures
            r is Ok <==> (bush_params_ok(self.prime_base, self.strength, self.dimensions)
                && bush_feasible(self.prime_base, self.strength, self.dimensions)),
            r is Err ==> r->Err_0.error_type == (if bush_params_ok(
                self.prime_base,
                self.strength,
                self.dimensions,
            ) {
                OACErrorKind::RuntimeError
            } else {
                OACErrorKind::InvalidParams
            }),
            r is Ok ==> ({
                let oa = r->Ok_0;
                &&& oa.levels == self.prime_base
                &&& oa.strength == self.strength
                &&& oa.factors == self.dimensions
                &&& oa.index == 1
                &&& bush_matrix(self.prime_base, self.strength, self.dimensions, oa.rows())
            }),
    {
        let n = match self.checked_size() {
            Ok(n) => n,
            Err(e) => {
                return Err(e);
            },
        };
        let p = self.prime_base;
        let t = self.strength;
        proof {
            lemma_pow_ge_exponent(p as int, t as nat);
            vstd::arithmetic::power::lemma_pow1(p as int);
            vstd::arithmetic::power::lemma_pow_increases(p as nat, 1, t as nat);
        }
        let dims = self.dimensions as usize;
        let mut points: Vec<Vec<u64>> = Vec::new();
        let mut i: u64 = 0;
        while i < n
            invariant
                i <= n,
                p == self.prime_base,
                t == self.strength,
                p >= 2,
                1 <= t <= p,
                t <= usize::MAX as u64,
                dims == self.dimensions,
                2 <= dims as int <= p as int + 1,
                n as int == pow(p as int, t as nat),
                n <= usize::MAX as u64,
                points@.len() == i,
                forall|k: int| 0 <= k < i ==> (#[trigger] points@[k])@.len() == dims,
                forall|k: int, j: int|
                    0 <= k < i && 0 <= j < dims ==> #[trigger] points@[k]@[j] == bush_cell(
                        p,
                        t,
                        k as u64,
                        j,
                    ),
            decreases n - i,
        {
            let row = bush_row(p, t, dims, i);
            points.push(row);
            i = i + 1;
        }
        let oa = OA { strength: t, levels: p, index: 1, factors: self.dimensions, points };
        proof {
            assert(bush_matrix(p, t, self.dimensions, oa.rows()));
        }
        Ok(oa)
    }

    /// Generate the Bush orthogonal array in parallel.
    ///
    /// Each row's digit expansion and polynomial evaluation depend only on
    /// the row number, so rows are computed as independent tasks. The output
    /// contract is identical to `gen`: the same parameters yield the same
    /// point matrix, cell by cell.
    pub fn gen_par(&self) -> (r: OAResult)
        ensures
            r is Ok <==> (bush_params_ok(self.prime_base, self.strength, self.dimensions)
                && bush_feasible(self.prime_base, self.strength, self.dimensions)),
            r is Err ==> r->Err_0.error_type == (if bush_params_ok(
                self.prime_base,
                self.strength,
                self.dimensions,
            ) {
                OACErrorKind::RuntimeError
            } else {
                OACErrorKind::InvalidParams
            }),
            r is Ok ==> ({
                let oa = r->Ok_0;
                &&& oa.levels == self.prime_base
                &&& oa.strength == self.strength
                &&& oa.factors == self.dimensions
                &&& oa.index == 1
                &&& bush_matrix(self.prime_base, self.strength, self.dimensions, oa.rows())
            }),
    {
        let n = match self.checked_size() {
            Ok(n) => n,
            Err(e) => {
                return Err(e);
            },
        };
        let p = self.prime_base;
        let t = self.strength;
        proof {
            lemma_pow_ge_exponent(p as int, t as nat);
            vstd::arithmetic::power::lemma_pow1(p as int);
            vstd::arithmetic::power::lemma_pow_increases(p as nat, 1, t as nat);
        }
        let dims = self.dimensions as usize;
        let points = bush_rows_par(p, t, dims, n);
        let oa = OA { strength: t, levels: p, index: 1, factors: self.dimensions, points };
        proof {
            assert(bush_matrix(p, t, self.dimensions, oa.rows()));
        }
        Ok(oa)
    }
}

impl OAConstructor for Bush {
    fn gen(&self) -> OAResult {
        Bush::gen(self)
    }
}

impl ParOAConstructor for Bush {
    fn gen_par(&self) -> OAResult {
        Bush::gen_par(self)
    }
}

/// The serial and parallel Bush constructions agree bit for bit: any two
/// point matrices that satisfy the Bush construction contract for the same
/// parameters are equal.
pub proof fn lemma_bush_construction_deterministic(p: u64, t: u64, dims: u64, a: OA, b: OA)
    requires
        bush_matrix(p, t, dims, a.rows()),
        bush_matrix(p, t, dims, b.rows()),
    ensures
        a.rows() == b.rows(),
{
    assert forall|i: int| 0 <= i < a.rows().len() implies a.rows()[i] == b.rows()[i] by {
        assert(a.rows()[i] =~= b.rows()[i]);
    }
    assert(a.rows() =~= b.rows());
}


/// At strength 2, a Bush cell below the polynomial range reads the row's
/// two base-`p` digits through the line they define: the low digit plus the
/// column number times the high digit, modulo `p`.
proof fn lemma_bush_cell_t2(p: u64, i: u64, j: int)
    requires
        p >= 2,
        (i as int) < (p as int) * (p as int),
        0 <= j < p as int,
    ensures
        bush_cell(p, 2, i, j) == ((i as int) % (p as int) + j * ((i as int) / (p as int))) % (
        p as int),
{
    let pi = p as int;
    let digits = digit_seq(i, p, 2);
    vstd::arithmetic::power::lemma_pow0(pi);
    vstd::arithmetic::power::lemma_pow1(pi);
    vstd::arithmetic::div_mod::lemma_div_basics(i as int);
    vstd::arithmetic::div_mod::lemma_fundamental_div_mod(i as int, pi);
    vstd::arithmetic::div_mod::lemma_mod_bound(i as int, pi);
    vstd::arithmetic::div_mod::lemma_div_pos_is_pos(i as int, pi);
    assert((i as int) / pi < pi) by (nonlinear_arith)
        requires
            i as int == pi * ((i as int) / pi) + (i as int) % pi,
            0 <= (i as int) % pi < pi,
            0 <= (i as int) < pi * pi,
            pi >= 2,
    {}
    vstd::arithmetic::div_mod::lemma_small_mod(((i as int) / pi) as nat, p as nat);
    assert(digits[0] == (i as int) % pi);
    assert(digits[1] == (i as int) / pi);
    assert(horner_value(digits, j) == digits[0] + j * horner_value(digits.skip(1), j));
    assert(digits.skip(1)[0] == digits[1]);
    assert(digits.skip(1).len() == 1);
    assert(horner_value(digits.skip(1), j) == digits[1] + j * horner_value(
        digits.skip(1).skip(1),
        j,
    ));
    assert(digits.skip(1).skip(1).len() == 0);
    assert(horner_value(digits.skip(1).skip(1), j) == 0);
    vstd::arithmetic::mul::lemma_mul_by_zero_is_zero(j);
    assert(horner_value(digits.skip(1), j) == digits[1]);
    assert(horner_value(digits, j) == digits[0] + j * (digits[1] as int));
}

/// If the row assembled from the digits `(d0, d1)` carries the target pair
/// of strength-2 Bush cells, and it is the only row number that does, then
/// the pair's code is carried by exactly one row.
proof fn lemma_bush_count_from_cells(
    p: u64,
    dims: u64,
    rows: Seq<Seq<u64>>,
    j1: int,
    j2: int,
    v: int,
    d0: int,
    d1: int,
)
    requires
        p >= 2,
        dims <= p,
        (p as int) * (p as int) <= u64::MAX as int + 1,
        bush_matrix(p, 2, dims, rows),
        0 <= j1 < j2 < dims as int,
        0 <= v < (p as int) * (p as int),
        0 <= d0 < p as int,
        0 <= d1 < p as int,
        rows.len() == (p as int) * (p as int),
        bush_cell(p, 2, (d1 * (p as int) + d0) as u64, j1) == v % (p as int),
        bush_cell(p, 2, (d1 * (p as int) + d0) as u64, j2) == v / (p as int),
        forall|i: u64|
            0 <= (i as int) < (p as int) * (p as int) && #[trigger] bush_cell(p, 2, i, j1) == v % (
            p as int) && bush_cell(p, 2, i, j2) == v / (p as int) ==> i as int == d1 * (p as int)
                + d0,
    ensures
        code_count(rows, seq![j1 as u64, j2 as u64], p as int, v) == 1,
{
    let pi = p as int;
    let cvec = seq![j1 as u64, j2 as u64];
    let t1 = v % pi;
    let t2 = v / pi;
    vstd::arithmetic::div_mod::lemma_fundamental_div_mod(v, pi);
    crate::constructors::bose::lemma_seed_row(p, d1, d0);
    let w = d1 * pi + d0;
    assert(rows[w][j1] == bush_cell(p, 2, w as u64, j1));
    assert(rows[w][j2] == bush_cell(p, 2, w as u64, j2));
    crate::oa::lemma_pair_code(rows[w], j1 as u64, j2 as u64, pi);
    assert(tuple_code(rows[w], cvec, pi) == t1 + pi * t2);
    assert(tuple_code(rows[w], cvec, pi) == v);
    assert forall|i: int|
        0 <= i < rows.len() && i != w implies tuple_code(#[trigger] rows[i], cvec, pi) != v by {
        assert(rows[i][j1] == bush_cell(p, 2, i as u64, j1));
        assert(rows[i][j2] == bush_cell(p, 2, i as u64, j2));
        crate::oa::lemma_pair_code(rows[i], j1 as u64, j2 as u64, pi);
        lemma_bush_cell_t2(p, i as u64, j1);
        lemma_bush_cell_t2(p, i as u64, j2);
        vstd::arithmetic::div_mod::lemma_mod_bound((i as int) % pi + j1 * ((i as int) / pi), pi);
        vstd::arithmetic::div_mod::lemma_mod_bound((i as int) % pi + j2 * ((i as int) / pi), pi);
        if tuple_code(rows[i], cvec, pi) == v {
            crate::constructors::bose::lemma_digit_pair_unique(
                p,
                bush_cell(p, 2, i as u64, j1),
                bush_cell(p, 2, i as u64, j2),
                v,
            );
            assert(bush_cell(p, 2, i as u64, j1) == t1);
            assert(bush_cell(p, 2, i as u64, j2) == t2);
            assert((i as u64) as int == i);
            assert(i == w);
            assert(false);
        }
    }
    crate::oa::lemma_code_count_unique(rows, cvec, pi, v, w);
}

/// Any two columns of a strength-2 Bush point matrix over a prime base,
/// with the dimension count within the polynomial range, are perfectly
/// balanced: every pair of values below `p` is carried by the selected
/// columns of exactly one row. The designated extra column of a
/// `p + 1`-dimensional array is excluded: it repeats the information of the
/// first column, so pairs against it are not balanced.
#[verifier::rlimit(100)]
pub proof fn lemma_bush_pair_balanced_strength2(
    p: u64,
    dims: u64,
    rows: Seq<Seq<u64>>,
    j1: int,
    j2: int,
)
    requires
        is_prime_spec(p),
        dims <= p,
        (p as int) * (p as int) <= u64::MAX as int + 1,
        bush_matrix(p, 2, dims, rows),
        0 <= j1 < j2 < dims as int,
    ensures
        combo_balanced(rows, seq![j1 as u64, j2 as u64], p as int, (p as int) * (p as int), 1),
{
    let pi = p as int;
    let cvec = seq![j1 as u64, j2 as u64];
    assert(pow(pi, 2) == pi * pi) by {
        vstd::arithmetic::power::lemma_pow1(pi);
        vstd::arithmetic::power::lemma_pow_adds(pi, 1, 1);
    }
    assert forall|v: int| 0 <= v < pi * pi implies #[trigger] code_count(rows, cvec, pi, v)
        == 1 by {
        vstd::arithmetic::div_mod::lemma_fundamental_div_mod(v, pi);
        vstd::arithmetic::div_mod::lemma_mod_bound(v, pi);
        vstd::arithmetic::div_mod::lemma_div_pos_is_pos(v, pi);
        let t1 = v % pi;
        let t2 = v / pi;
        assert(t2 < pi) by (nonlinear_arith)
            requires
                v == pi * t2 + t1,
                0 <= t1 < pi,
                0 <= v < pi * pi,
                pi >= 2,
        {}
        vstd::arithmetic::div_mod::lemma_small_mod(t1 as nat, p as nat);
        vstd::arithmetic::div_mod::lemma_small_mod(t2 as nat, p as nat);
        let d = j2 - j1;
        let cc = (t2 - t1) % pi;
        vstd::arithmetic::div_mod::lemma_mod_bound(t2 - t1, pi);
        let d1 = crate::constructors::bose::lemma_mod_solve(d, cc, p);
        let cc0 = (t1 - j1 * d1) % pi;
        vstd::arithmetic::div_mod::lemma_mod_bound(t1 - j1 * d1, pi);
        let d0 = crate::constructors::bose::lemma_mod_solve(1, cc0, p);
        vstd::arithmetic::div_mod::lemma_small_mod(d0 as nat, p as nat);
        assert(d0 == cc0);
        crate::constructors::bose::lemma_seed_row(p, d1, d0);
        let w = d1 * pi + d0;
        assert((w as u64) as int == w);
        lemma_bush_cell_t2(p, w as u64, j1);
        lemma_bush_cell_t2(p, w as u64, j2);
        assert(bush_cell(p, 2, w as u64, j1) == (d0 + j1 * d1) % pi);
        assert(bush_cell(p, 2, w as u64, j2) == (d0 + j2 * d1) % pi);
        vstd::arithmetic::div_mod::lemma_add_mod_noop_right(j1 * d1, t1 - j1 * d1, pi);
        assert((j1 * d1 + cc0) % pi == (j1 * d1 + (t1 - j1 * d1)) % pi);
        assert((d0 + j1 * d1) % pi == t1);
        assert(j2 * d1 == j1 * d1 + d * d1) by (nonlinear_arith)
            requires
                d == j2 - j1,
        {}
        vstd::arithmetic::div_mod::lemma_add_mod_noop(d0 + j1 * d1, d * d1, pi);
        vstd::arithmetic::div_mod::lemma_add_mod_noop_right(t1, t2 - t1, pi);
        assert((d0 + j2 * d1) % pi == ((d0 + j1 * d1) + d * d1) % pi);
        assert(((d0 + j1 * d1) + d * d1) % pi == (t1 + cc) % pi);
        assert((t1 + cc) % pi == (t1 + (t2 - t1)) % pi);
        assert(bush_cell(p, 2, w as u64, j2) == t2);
        assert forall|i: u64|
            0 <= (i as int) < pi * pi && #[trigger] bush_cell(p, 2, i, j1) == t1 && bush_cell(
                p,
                2,
                i,
                j2,
            ) == t2 implies i as int == w by {
            let ii = i as int;
            vstd::arithmetic::div_mod::lemma_fundamental_div_mod(ii, pi);
            vstd::arithmetic::div_mod::lemma_mod_bound(ii, pi);
            vstd::arithmetic::div_mod::lemma_div_pos_is_pos(ii, pi);
            let u0 = ii % pi;
            let u1 = ii / pi;
            assert(u1 < pi) by (nonlinear_arith)
                requires
                    ii == pi * u1 + u0,
                    0 <= u0 < pi,
                    0 <= ii < pi * pi,
                    pi >= 2,
            {}
            lemma_bush_cell_t2(p, i, j1);
            lemma_bush_cell_t2(p, i, j2);
            assert((u0 + j1 * u1) % pi == t1);
            assert((u0 + j2 * u1) % pi == t2);
            assert((u0 + j2 * u1) - (u0 + j1 * u1) == d * u1) by (nonlinear_arith)
                requires
                    d == j2 - j1,
            {}
            vstd::arithmetic::div_mod::lemma_sub_mod_noop(u0 + j2 * u1, u0 + j1 * u1, pi);
            assert((t2 - t1) % pi == (d * u1) % pi);
            assert(u1 == d1);
            vstd::arithmetic::div_mod::lemma_sub_mod_noop(u0 + j1 * u1, j1 * u1, pi);
            vstd::arithmetic::div_mod::lemma_sub_mod_noop_right(t1, j1 * u1, pi);
            vstd::arithmetic::div_mod::lemma_small_mod(u0 as nat, p as nat);
            assert(u0 % pi == (t1 - j1 * d1) % pi);
            assert(u0 == cc0);
            assert(ii == w) by (nonlinear_arith)
                requires
                    ii == pi * u1 + u0,
                    u1 == d1,
                    u0 == d0,
                    w == d1 * pi + d0,
            {}
        }
        lemma_bush_count_from_cells(p, dims, rows, j1, j2, v, d0, d1);
    }
}

/// A strength-2 Bush point matrix over a prime base, with its dimension
/// count within the polynomial range, satisfies the full orthogonal array
/// stratification guarantee at strength 2, levels `p` and index 1. The
/// boundary case of `p + 1` dimensions is excluded: its designated extra
/// column repeats the first column's information shifted by one, so a pair
/// of those two columns is not balanced.
pub proof fn lemma_bush_strength2_stratified(oa: OA)
    requires
        is_prime_spec(oa.levels),
        oa.strength == 2,
        oa.index == 1,
        2 <= oa.factors <= oa.levels,
        (oa.levels as int) * (oa.levels as int) <= u64::MAX as int + 1,
        bush_matrix(oa.levels, 2, oa.factors, oa.rows()),
    ensures
        oa_stratified(oa),
{
    let p = oa.levels;
    let pi = p as int;
    assert(pow(pi, 2) == pi * pi) by {
        vstd::arithmetic::power::lemma_pow1(pi);
        vstd::arithmetic::power::lemma_pow_adds(pi, 1, 1);
    }
    assert forall|c: Seq<u64>| is_col_combo(c, oa.factors, oa.strength as nat) implies
        #[trigger] combo_balanced(
        oa.rows(),
        c,
        pi,
        pow(pi, oa.strength as nat),
        oa.index,
    ) by {
        assert(c.len() == 2);
        assert(c[0] < c[1]);
        assert(c[1] < oa.factors);
        lemma_bush_pair_balanced_strength2(p, oa.factors, oa.rows(), c[0] as int, c[1] as int);
        assert(c =~= seq![c[0], c[1]]);
    }
}


/// At strength 1 every Bush cell below the polynomial range is the row
/// number itself, and the designated extra column shifts it down by one
/// modulo `p`.
proof fn lemma_bush_cell_t1(p: u64, i: u64, j: int)
    requires
        p >= 2,
        (i as int) < p as int,
        0 <= j,
    ensures
        j < p ==> bush_cell(p, 1, i, j) == i,
        j >= p ==> bush_cell(p, 1, i, j) == (i - 1) % (p as int),
{
    let pi = p as int;
    if j < pi {
        let digits = digit_seq(i, p, 1);
        vstd::arithmetic::power::lemma_pow0(pi);
        vstd::arithmetic::div_mod::lemma_div_basics(i as int);
        vstd::arithmetic::div_mod::lemma_small_mod(i as nat, p as nat);
        assert(digits[0] == i);
        assert(horner_value(digits, j) == digits[0] + j * horner_value(digits.skip(1), j));
        assert(digits.skip(1).len() == 0);
        assert(horner_value(digits.skip(1), j) == 0);
        vstd::arithmetic::mul::lemma_mul_by_zero_is_zero(j);
        assert(horner_value(digits, j) == i);
    }
}

/// A strength-1 Bush point matrix over a prime base satisfies the full
/// orthogonal array stratification guarantee at strength 1, levels `p` and
/// index 1: every column, the designated extra column included, carries
/// every value below `p` exactly once.
pub proof fn lemma_bush_strength1_stratified(oa: OA)
    requires
        is_prime_spec(oa.levels),
        oa.strength == 1,
        oa.index == 1,
        2 <= oa.factors <= oa.levels + 1,
        bush_matrix(oa.levels, 1, oa.factors, oa.rows()),
    ensures
        oa_stratified(oa),
{
    let p = oa.levels;
    let pi = p as int;
    let rows = oa.rows();
    vstd::arithmetic::power::lemma_pow1(pi);
    assert(rows.len() == pi);
    assert forall|c: Seq<u64>| is_col_combo(c, oa.factors, oa.strength as nat) implies
        #[trigger] combo_balanced(
        rows,
        c,
        pi,
        pow(pi, oa.strength as nat),
        oa.index,
    ) by {
        assert(c.len() == 1);
        assert(c[0] < oa.factors);
        let j = c[0] as int;
        let cvec = seq![c[0]];
        assert(c =~= cvec);
        assert forall|v: int| 0 <= v < pi implies #[trigger] code_count(rows, cvec, pi, v)
            == 1 by {
            let w: int = if j < pi {
                v
            } else {
                if v + 1 < pi {
                    v + 1
                } else {
                    0
                }
            };
            assert(0 <= w < pi);
            assert(rows[w][j] == bush_cell(p, 1, w as u64, j));
            lemma_bush_cell_t1(p, w as u64, j);
            if j >= pi {
                if v + 1 < pi {
                    vstd::arithmetic::div_mod::lemma_small_mod(v as nat, p as nat);
                } else {
                    vstd::arithmetic::div_mod::lemma_fundamental_div_mod_converse(
                        -1,
                        pi,
                        -1,
                        pi - 1,
                    );
                }
            }
            assert(bush_cell(p, 1, w as u64, j) == v);
            crate::oa::lemma_single_code(rows[w], c[0], pi);
            assert(tuple_code(rows[w], cvec, pi) == v);
            assert forall|i: int|
                0 <= i < rows.len() && i != w implies tuple_code(#[trigger] rows[i], cvec, pi)
                    != v by {
                assert(rows[i][j] == bush_cell(p, 1, i as u64, j));
                crate::oa::lemma_single_code(rows[i], c[0], pi);
                lemma_bush_cell_t1(p, i as u64, j);
                if tuple_code(rows[i], cvec, pi) == v {
                    if j < pi {
                        assert(i == v);
                    } else {
                        assert((i - 1) % pi == v);
                        if i >= 1 {
                            vstd::arithmetic::div_mod::lemma_small_mod((i - 1) as nat, p as nat);
                            assert(i == v + 1);
                        } else {
                            vstd::arithmetic::div_mod::lemma_fundamental_div_mod_converse(
                                -1,
                                pi,
                                -1,
                                pi - 1,
                            );
                            assert(v == pi - 1);
                        }
                    }
                    assert(false);
                }
            }
            crate::oa::lemma_code_count_unique(rows, cvec, pi, v, w);
        }
    }
}


/// The Bush construction followed by verification succeeds at the strengths
/// proven here: any array that meets the Bush construction contract for
/// valid parameters at strength 1, or at strength 2 with the dimension
/// count within the polynomial range, has a consistent shape and satisfies
/// the stratification property that the verifier checks. At strength 2 the
/// boundary case of `p + 1` dimensions is excluded because the designated
/// extra column repeats the first column's information, and the guarantee
/// does not hold there.
pub proof fn lemma_bush_construct_then_verify(b: Bush, oa: OA)
    requires
        bush_params_ok(b.prime_base, b.strength, b.dimensions),
        b.strength == 1 || (b.strength == 2 && b.dimensions <= b.prime_base),
        b.strength == 2 ==> (b.prime_base as int) * (b.prime_base as int) <= u64::MAX as int + 1,
        oa.levels == b.prime_base,
        oa.strength == b.strength,
        oa.factors == b.dimensions,
        oa.index == 1,
        bush_matrix(b.prime_base, b.strength, b.dimensions, oa.rows()),
    ensures
        oa.shape_ok(),
        oa_stratified(oa),
{
    assert forall|i: int| 0 <= i < oa.points@.len() implies (#[trigger] oa.points@[i])@.len()
        == oa.factors by {
        assert(oa.rows()[i] == oa.points@[i]@);
    }
    if b.strength == 1 {
        lemma_bush_strength1_stratified(oa);
    } else {
        lemma_bush_strength2_stratified(oa);
    }
}

} // verus!
