//! The Bose construction technique for orthogonal arrays.

use crate::constructors::{is_prime, is_prime_spec};
use crate::oa::{
    code_count, combo_balanced, is_col_combo, oa_stratified, tuple_code, OA, OAConstructionError,
    OAConstructor, OACErrorKind, OAResult, ParOAConstructor,
};
use crate::utils::{ErrorKind, OarsError, OarsResult};
use rayon::iter::{IntoParallelIterator, ParallelIterator};
use vstd::arithmetic::power::pow;
use vstd::prelude::*;

verus! {

/// The parameters accepted by the Bose construction: a base that fits in 32
/// bits (the machine limit for both the primality test and the `p^2` rows),
/// a prime base, and a number of dimensions between 2 and the base plus one.
pub open spec fn bose_params_ok(prime_base: u64, dimensions: u64) -> bool {
    &&& prime_base <= 0xFFFF_FFFF
    &&& 2 <= dimensions
    &&& dimensions <= prime_base + 1
    &&& is_prime_spec(prime_base)
}

/// The machine can hold the `prime_base^2` rows of the array.
pub open spec fn bose_feasible(prime_base: u64) -> bool {
    (prime_base as int) * (prime_base as int) <= usize::MAX as int
}

/// The value of cell `(i, j)` of the Bose array over base `p`: the two seed
/// columns hold the base-`p` digits of the row number, and every further
/// column `j` evaluates the line through the seeds with slope `j - 1`, all
/// modulo `p`.
pub open spec fn bose_cell(p: u64, i: int, j: int) -> int {
    if j == 0 {
        i / (p as int)
    } else if j == 1 {
        i % (p as int)
    } else {
        (i / (p as int) + (j - 1) * (i % (p as int))) % (p as int)
    }
}

/// The whole Bose point matrix over base `p`: `p^2` rows of `dims` cells,
/// cell by cell equal to `bose_cell`.
pub open spec fn bose_matrix(p: u64, dims: u64, rows: Seq<Seq<u64>>) -> bool {
    &&& rows.len() == (p as int) * (p as int)
    &&& forall|i: int| 0 <= i < rows.len() ==> (#[trigger] rows[i]).len() == dims
    &&& forall|i: int, j: int|
        0 <= i < rows.len() && 0 <= j < dims ==> #[trigger] rows[i][j] == bose_cell(p, i, j)
}

/// Generate an orthogonal array with any prime base and a strength of 2.
///
/// `prime_base` corresponds to p in the literature. The number of total
/// points, n, is p^2. `dimensions` determines how many dimensions the
/// resulting point set will be; it must be between 2 and p + 1, inclusive.
pub struct Bose {
    /// The base of the orthogonal array. It *must* be a prime number.
    pub prime_base: u64,
    /// The dimensionality of the orthogonal array.
    pub dimensions: u64,
}

/// The checked variant of `Bose`: its `verify` method is consumed, yielding
/// the constructor only when the supplied parameters are valid.
pub struct BoseChecked {
    /// The base of the orthogonal array. It *must* be a prime number.
    pub prime_base: u64,
    /// The dimensionality of the orthogonal array.
    pub dimensions: u64,
}

impl BoseChecked {
    /// Check the parameters for Bose construction.
    ///
    /// On success the `BoseChecked` struct is consumed and a `Bose` struct is
    /// returned, ready to generate an orthogonal array.
    pub fn verify(self) -> (r: OarsResult<Bose>)
        ensures
            r is Ok <==> bose_params_ok(self.prime_base, self.dimensions),
            r is Ok ==> r->Ok_0.prime_base == self.prime_base && r->Ok_0.dimensions
                == self.dimensions,
            r is Err ==> r->Err_0.error_type == ErrorKind::InvalidParams,
    {
        if self.prime_base > 0xFFFF_FFFF {
            return Err(OarsError::new(ErrorKind::InvalidParams, "Base does not fit in 32 bits"));
        }
        if self.dimensions < 2 {
            return Err(OarsError::new(ErrorKind::InvalidParams, "Invalid dimensions"));
        }
        if self.dimensions - 1 > self.prime_base {
            return Err(OarsError::new(ErrorKind::InvalidParams, "Invalid dimensions"));
        }
        if !is_prime(self.prime_base) {
            return Err(OarsError::new(ErrorKind::InvalidParams, "Base is not prime"));
        }
        Ok(Bose { prime_base: self.prime_base, dimensions: self.dimensions })
    }
}

/// One row of the Bose array: the seed digits of the row number followed by
/// the dependent columns.
fn bose_row(p: u64, dims: usize, i: u64) -> (r: Vec<u64>)
    requires
        p >= 2,
        dims as int <= p as int + 1,
        (i as int) < (p as int) * (p as int),
        (p as int) * (p as int) <= 0x1_0000_0000_0000_0000,
    ensures
        r@.len() == dims,
        forall|j: int| 0 <= j < dims ==> #[trigger] r@[j] == bose_cell(p, i as int, j),
{
    let c0 = i / p;
    let c1 = i % p;
    proof {
        vstd::arithmetic::div_mod::lemma_fundamental_div_mod(i as int, p as int);
        vstd::arithmetic::div_mod::lemma_mod_bound(i as int, p as int);
        assert(c0 < p) by (nonlinear_arith)
            requires
                i as int == (p as int) * ((i as int) / (p as int)) + (i as int) % (p as int),
                0 <= (i as int) % (p as int) < (p as int),
                (i as int) < (p as int) * (p as int),
                p >= 2,
                c0 == (i as int) / (p as int),
        {}
    }
    let mut row: Vec<u64> = Vec::new();
    let mut j: usize = 0;
    while j < dims
        invariant
            j <= dims,
            row@.len() == j,
            p >= 2,
            dims as int <= p as int + 1,
            (p as int) * (p as int) <= 0x1_0000_0000_0000_0000,
            c0 == (i as int) / (p as int),
            c1 == (i as int) % (p as int),
            c0 < p,
            c1 < p,
            forall|k: int| 0 <= k < j ==> #[trigger] row@[k] == bose_cell(p, i as int, k),
        decreases dims - j,
    {
        if j == 0 {
            row.push(c0);
        } else if j == 1 {
            row.push(c1);
        } else {
            proof {
                assert((c0 as int) + ((j - 1) as int) * (c1 as int) < (p as int) * (p as int))
                    by (nonlinear_arith)
                    requires
                        c0 < p,
                        c1 < p,
                        2 <= j,
                        (j as int) <= (p as int) + 1,
                        p >= 2,
                {}
            }
            let v = (c0 + ((j - 1) as u64) * c1) % p;
            row.push(v);
        }
        j = j + 1;
    }
    row
}

/// All rows of the Bose array over base `p`, built in parallel with one task
/// per row.
///
/// Relies on rayon: a `usize` range is an indexed parallel iterator, and
/// collecting one into a `Vec` keeps the source order, so entry `i` of the
/// result is the value of `bose_row` at `i`, whose contract pins each cell
/// to `bose_cell`.
#[verifier::external_body]
fn bose_rows_par(p: u64, dims: usize, n: u64) -> (r: Vec<Vec<u64>>)
    requires
        p >= 2,
        dims as int <= p as int + 1,
        n as int == (p as int) * (p as int),
        n <= usize::MAX as u64,
    ensures
        r@.len() == n,
        forall|i: int| 0 <= i < n ==> (#[trigger] r@[i])@.len() == dims,
        forall|i: int, j: int|
            0 <= i < n && 0 <= j < dims ==> #[trigger] r@[i]@[j] == bose_cell(p, i, j),
{
    (0..n as usize).into_par_iter().map(|i| bose_row(p, dims, i as u64)).collect()
}

impl Bose {
    /// Verify the parameters for Bose construction and return whether they
    /// are valid.
    fn verify_params(&self) -> (r: bool)
        ensures
            r == bose_params_ok(self.prime_base, self.dimensions),
    {
        if self.prime_base > 0xFFFF_FFFF {
            return false;
        }
        if self.dimensions < 2 {
            return false;
        }
        if self.dimensions - 1 > self.prime_base {
            return false;
        }
        if !is_prime(self.prime_base) {
            return false;
        }
        true
    }

    /// Validate the parameters, then check that the `p^2` rows fit in the
    /// machine's indices; on success return the row count.
    fn checked_size(&self) -> (r: Result<u64, OAConstructionError>)
        ensures
            r is Ok <==> (bose_params_ok(self.prime_base, self.dimensions) && bose_feasible(
                self.prime_base,
            )),
            r is Ok ==> r->Ok_0 as int == (self.prime_base as int) * (self.prime_base as int),
            r is Err ==> r->Err_0.error_type == (if bose_params_ok(
                self.prime_base,
                self.dimensions,
            ) {
                OACErrorKind::RuntimeError
            } else {
                OACErrorKind::InvalidParams
            }),
    {
        if !self.verify_params() {
            return Err(OAConstructionError::new(OACErrorKind::InvalidParams, "invalid parameters"));
        }
        let n = match self.prime_base.checked_mul(self.prime_base) {
            Some(n) => n,
            None => {
                return Err(
                    OAConstructionError::new(
                        OACErrorKind::RuntimeError,
                        "p^2 rows do not fit in the machine's integers",
                    ),
                );
            },
        };
        if n > usize::MAX as u64 {
            return Err(
                OAConstructionError::new(
                    OACErrorKind::RuntimeError,
                    "p^2 rows do not fit in the machine's indices",
                ),
            );
        }
        Ok(n)
    }

    /// Generate the Bose orthogonal array serially.
    ///
    /// The parameters are validated first: invalid parameters yield an
    /// `InvalidParams` error, and parameters whose `p^2` rows cannot be held
    /// by the machine yield a `RuntimeError`. On success every cell of the
    /// returned array equals `bose_cell`, the array has `p^2` rows and
    /// `dimensions` columns, levels `p`, strength 2 and index 1.
    pub fn gen(&self) -> (r: OAResult)
        ensures
            r is Ok <==> (bose_params_ok(self.prime_base, self.dimensions) && bose_feasible(
                self.prime_base,
            )),
            r is Err ==> r->Err_0.error_type == (if bose_params_ok(
                self.prime_base,
                self.dimensions,
            ) {
                OACErrorKind::RuntimeError
            } else {
                OACErrorKind::InvalidParams
            }),
            r is Ok ==> ({
                let oa = r->Ok_0;
                &&& oa.levels == self.prime_base
                &&& oa.strength == 2
                &&& oa.factors == self.dimensions
                &&& oa.index == 1
                &&& bose_matrix(self.prime_base, self.dimensions, oa.rows())
            }),
    {
        let n = match self.checked_size() {
            Ok(n) => n,
            Err(e) => {
                return Err(e);
            },
        };
        let p = self.prime_base;
        proof {
            assert((self.dimensions as int) <= usize::MAX as int) by (nonlinear_arith)
                requires
                    p >= 2,
                    self.dimensions <= p + 1,
                    (p as int) * (p as int) <= usize::MAX as int,
            {}
        }
        let dims = self.dimensions as usize;
        let mut points: Vec<Vec<u64>> = Vec::new();
        let mut i: u64 = 0;
        while i < n
            invariant
                i <= n,
                p == self.prime_base,
                p >= 2,
                dims == self.dimensions,
                dims as int <= p as int + 1,
                n as int == (p as int) * (p as int),
                n <= usize::MAX as u64,
                points@.len() == i,
                forall|k: int| 0 <= k < i ==> (#[trigger] points@[k])@.len() == dims,
                forall|k: int, j: int|
                    0 <= k < i && 0 <= j < dims ==> #[trigger] points@[k]@[j] == bose_cell(p, k, j),
            decreases n - i,
        {
            let row = bose_row(p, dims, i);
            points.push(row);
            i = i + 1;
        }
        let oa = OA { strength: 2, levels: p, factors: self.dimensions, index: 1, points };
        proof {
            assert(bose_matrix(p, self.dimensions, oa.rows()));
        }
        Ok(oa)
    }

    /// Generate the Bose orthogonal array in parallel.
    ///
    /// The two seed columns of every row depend only on the row number, and
    /// every later column only on the seeds of its own row, so rows are
    /// computed as independent tasks. The output contract is identical to
    /// `gen`: the same parameters yield the same point matrix, cell by cell.
    pub fn gen_par(&self) -> (r: OAResult)
        ensures
            r is Ok <==> (bose_params_ok(self.prime_base, self.dimensions) && bose_feasible(
                self.prime_base,
            )),
            r is Err ==> r->Err_0.error_type == (if bose_params_ok(
                self.prime_base,
                self.dimensions,
            ) {
                OACErrorKind::RuntimeError
            } else {
                OACErrorKind::InvalidParams
            }),
            r is Ok ==> ({
                let oa = r->Ok_0;
                &&& oa.levels == self.prime_base
                &&& oa.strength == 2
                &&& oa.factors == self.dimensions
                &&& oa.index == 1
                &&& bose_matrix(self.prime_base, self.dimensions, oa.rows())
            }),
    {
        let n = match self.checked_size() {
            Ok(n) => n,
            Err(e) => {
                return Err(e);
            },
        };
        let p = self.prime_base;
        proof {
            assert((self.dimensions as int) <= usize::MAX as int) by (nonlinear_arith)
                requires
                    p >= 2,
                    self.dimensions <= p + 1,
                    (p as int) * (p as int) <= usize::MAX as int,
            {}
        }
        let dims = self.dimensions as usize;
        let points = bose_rows_par(p, dims, n);
        let oa = OA { strength: 2, levels: p, factors: self.dimensions, index: 1, points };
        proof {
            assert(bose_matrix(p, self.dimensions, oa.rows()));
        }
        Ok(oa)
    }
}

impl OAConstructor for Bose {
    fn gen(&self) -> OAResult {
        Bose::gen(self)
    }
}

impl ParOAConstructor for Bose {
    fn gen_par(&self) -> OAResult {
        Bose::gen_par(self)
    }
}

/// The serial and parallel Bose constructions agree bit for bit: any two
/// point matrices that satisfy the Bose construction contract for the same
/// parameters are equal.
pub proof fn lemma_bose_construction_deterministic(p: u64, dims: u64, a: OA, b: OA)
    requires
        bose_matrix(p, dims, a.rows()),
        bose_matrix(p, dims, b.rows()),
    ensures
        a.rows() == b.rows(),
{
    assert forall|i: int| 0 <= i < a.rows().len() implies a.rows()[i] == b.rows()[i] by {
        assert(a.rows()[i] =~= b.rows()[i]);
    }
    assert(a.rows() =~= b.rows());
}


/// The greatest common divisor of two nonnegative numbers.
pub open spec fn gcd(a: int, b: int) -> int
    recommends
        a >= 0,
        b >= 0,
    decreases a,
{
    if a <= 0 {
        b
    } else {
        gcd(b % a, a)
    }
}

/// The greatest common divisor divides both of its arguments.
proof fn lemma_gcd_divides(a: int, b: int)
    requires
        0 <= a,
        0 <= b,
        a + b >= 1,
    ensures
        gcd(a, b) >= 1,
        a % gcd(a, b) == 0,
        b % gcd(a, b) == 0,
    decreases a,
{
    if a == 0 {
        vstd::arithmetic::div_mod::lemma_small_mod(0, b as nat);
        vstd::arithmetic::div_mod::lemma_mod_self_0(b);
    } else {
        vstd::arithmetic::div_mod::lemma_mod_bound(b, a);
        lemma_gcd_divides(b % a, a);
        let g = gcd(b % a, a);
        vstd::arithmetic::div_mod::lemma_fundamental_div_mod(b, a);
        vstd::arithmetic::div_mod::lemma_mul_mod_noop_left(a, b / a, g);
        vstd::arithmetic::mul::lemma_mul_by_zero_is_zero(b / a);
        vstd::arithmetic::div_mod::lemma_small_mod(0, g as nat);
        assert((a * (b / a)) % g == 0);
        vstd::arithmetic::div_mod::lemma_add_mod_noop(a * (b / a), b % a, g);
        assert(b % g == 0);
    }
}

/// A divisor of a positive number does not exceed it.
proof fn lemma_divisor_le(d: int, x: int)
    requires
        1 <= d,
        1 <= x,
        x % d == 0,
    ensures
        d <= x,
{
    if d > x {
        vstd::arithmetic::div_mod::lemma_small_mod(x as nat, d as nat);
    }
}

/// Bezout coefficients: two integers whose combination with the inputs
/// yields their greatest common divisor.
proof fn lemma_bezout(a: int, b: int) -> (r: (int, int))
    requires
        0 <= a,
        0 <= b,
        a + b >= 1,
    ensures
        a * r.0 + b * r.1 == gcd(a, b),
    decreases a,
{
    if a == 0 {
        (0, 1)
    } else {
        vstd::arithmetic::div_mod::lemma_mod_bound(b, a);
        vstd::arithmetic::div_mod::lemma_fundamental_div_mod(b, a);
        let (x, y) = lemma_bezout(b % a, a);
        assert(a * (y - (b / a) * x) + b * x == (b % a) * x + a * y) by (nonlinear_arith)
            requires
                b == a * (b / a) + b % a,
        {}
        (y - (b / a) * x, x)
    }
}

/// Every number between 1 and a prime has a multiplicative inverse modulo
/// that prime.
proof fn lemma_mod_inverse(a: int, p: u64) -> (inv: int)
    requires
        is_prime_spec(p),
        1 <= a < p as int,
    ensures
        0 <= inv < p as int,
        (a * inv) % (p as int) == 1,
{
    let pi = p as int;
    lemma_gcd_divides(a, pi);
    let g = gcd(a, pi);
    lemma_divisor_le(g, a);
    assert(g == 1) by {
        if g >= 2 {
            assert(pi % g != 0);
        }
    }
    let (x, y) = lemma_bezout(a, pi);
    let inv = x % pi;
    vstd::arithmetic::div_mod::lemma_mod_bound(x, pi);
    vstd::arithmetic::div_mod::lemma_mul_mod_noop_right(a, x, pi);
    assert(a * x == pi * (-y) + 1) by (nonlinear_arith)
        requires
            a * x + pi * y == 1,
    {}
    vstd::arithmetic::div_mod::lemma_mod_multiples_vanish(-y, 1, pi);
    vstd::arithmetic::div_mod::lemma_small_mod(1, p as nat);
    inv
}

/// The congruence `a * x = c (mod p)` with `a` between 1 and the prime `p`
/// has exactly one solution below `p`.
pub(crate) proof fn lemma_mod_solve(a: int, c: int, p: u64) -> (x: int)
    requires
        is_prime_spec(p),
        1 <= a < p as int,
        0 <= c < p as int,
    ensures
        0 <= x < p as int,
        (a * x) % (p as int) == c,
        forall|x2: int| 0 <= x2 < p as int && #[trigger] ((a * x2) % (p as int)) == c ==> x2 == x,
{
    let pi = p as int;
    let inv = lemma_mod_inverse(a, p);
    let x = (inv * c) % pi;
    vstd::arithmetic::div_mod::lemma_mod_bound(inv * c, pi);
    vstd::arithmetic::div_mod::lemma_mul_mod_noop_right(a, inv * c, pi);
    vstd::arithmetic::mul::lemma_mul_is_associative(a, inv, c);
    vstd::arithmetic::div_mod::lemma_mul_mod_noop_left(a * inv, c, pi);
    vstd::arithmetic::div_mod::lemma_small_mod(c as nat, p as nat);
    assert((a * x) % pi == c);
    assert forall|x2: int| 0 <= x2 < pi && #[trigger] ((a * x2) % pi) == c implies x2 == x by {
        vstd::arithmetic::div_mod::lemma_mul_mod_noop_right(inv, a * x2, pi);
        vstd::arithmetic::mul::lemma_mul_is_associative(inv, a, x2);
        vstd::arithmetic::mul::lemma_mul_is_commutative(inv, a);
        vstd::arithmetic::div_mod::lemma_mul_mod_noop_left(a * inv, x2, pi);
        vstd::arithmetic::div_mod::lemma_small_mod(x2 as nat, p as nat);
        assert(x == (inv * (a * x2)) % pi);
        assert((inv * (a * x2)) % pi == ((a * inv) * x2) % pi);
        assert(((a * inv) * x2) % pi == ((a * inv) % pi * x2) % pi);
        assert(x2 == x);
    }
    x
}

/// Every cell of the Bose array lies below the base.
proof fn lemma_bose_cell_bounds(p: u64, i: int, j: int)
    requires
        p >= 2,
        0 <= i < (p as int) * (p as int),
    ensures
        0 <= bose_cell(p, i, j) < p as int,
{
    let pi = p as int;
    vstd::arithmetic::div_mod::lemma_fundamental_div_mod(i, pi);
    vstd::arithmetic::div_mod::lemma_mod_bound(i, pi);
    vstd::arithmetic::div_mod::lemma_div_pos_is_pos(i, pi);
    assert(i / pi < pi) by (nonlinear_arith)
        requires
            i == pi * (i / pi) + (i % pi),
            0 <= i % pi < pi,
            0 <= i < pi * pi,
            pi >= 2,
    {}
    if j != 0 && j != 1 {
        vstd::arithmetic::div_mod::lemma_mod_bound(i / pi + (j - 1) * (i % pi), pi);
    }
}

/// The row number assembled from two seed digits decomposes back into them.
pub(crate) proof fn lemma_seed_row(p: u64, c0: int, c1: int)
    requires
        p >= 1,
        0 <= c0 < p as int,
        0 <= c1 < p as int,
    ensures
        0 <= c0 * (p as int) + c1 < (p as int) * (p as int),
        (c0 * (p as int) + c1) / (p as int) == c0,
        (c0 * (p as int) + c1) % (p as int) == c1,
{
    let pi = p as int;
    assert(0 <= c0 * pi + c1 < pi * pi) by (nonlinear_arith)
        requires
            0 <= c0 < pi,
            0 <= c1 < pi,
    {}
    vstd::arithmetic::div_mod::lemma_fundamental_div_mod_converse(c0 * pi + c1, pi, c0, c1);
}

/// A value below `p^2` is its two base-`p` digits, and no other pair of
/// digits produces it.
pub(crate) proof fn lemma_digit_pair_unique(p: u64, x1: int, x2: int, v: int)
    requires
        p >= 1,
        0 <= x1 < p as int,
        0 <= x2 < p as int,
        v == x1 + (p as int) * x2,
    ensures
        x1 == v % (p as int),
        x2 == v / (p as int),
{
    let pi = p as int;
    assert(v == x2 * pi + x1) by (nonlinear_arith)
        requires
            v == x1 + pi * x2,
    {}
    vstd::arithmetic::div_mod::lemma_fundamental_div_mod_converse(v, pi, x2, x1);
}

/// If the row assembled from the seed digits `(c0, c1)` carries the target
/// pair of cells, and it is the only row number that does, then the pair's
/// code is carried by exactly one row.
proof fn lemma_bose_count_from_cells(
    p: u64,
    dims: u64,
    rows: Seq<Seq<u64>>,
    j1: int,
    j2: int,
    v: int,
    c0: int,
    c1: int,
)
    requires
        p >= 2,
        bose_matrix(p, dims, rows),
        0 <= j1 < j2 < dims as int,
        0 <= v < (p as int) * (p as int),
        0 <= c0 < p as int,
        0 <= c1 < p as int,
        bose_cell(p, c0 * (p as int) + c1, j1) == v % (p as int),
        bose_cell(p, c0 * (p as int) + c1, j2) == v / (p as int),
        forall|i: int|
            0 <= i < (p as int) * (p as int) && #[trigger] bose_cell(p, i, j1) == v % (p as int)
                && bose_cell(p, i, j2) == v / (p as int) ==> i == c0 * (p as int) + c1,
    ensures
        code_count(rows, seq![j1 as u64, j2 as u64], p as int, v) == 1,
{
    let pi = p as int;
    let cvec = seq![j1 as u64, j2 as u64];
    let t1 = v % pi;
    let t2 = v / pi;
    vstd::arithmetic::div_mod::lemma_fundamental_div_mod(v, pi);
    lemma_seed_row(p, c0, c1);
    let w = c0 * pi + c1;
    assert(rows[w][j1] == bose_cell(p, w, j1));
    assert(rows[w][j2] == bose_cell(p, w, j2));
    crate::oa::lemma_pair_code(rows[w], j1 as u64, j2 as u64, pi);
    assert(tuple_code(rows[w], cvec, pi) == t1 + pi * t2);
    assert(tuple_code(rows[w], cvec, pi) == v);
    assert forall|i: int|
        0 <= i < rows.len() && i != w implies tuple_code(#[trigger] rows[i], cvec, pi) != v by {
        assert(rows[i][j1] == bose_cell(p, i, j1));
        assert(rows[i][j2] == bose_cell(p, i, j2));
        crate::oa::lemma_pair_code(rows[i], j1 as u64, j2 as u64, pi);
        lemma_bose_cell_bounds(p, i, j1);
        lemma_bose_cell_bounds(p, i, j2);
        if tuple_code(rows[i], cvec, pi) == v {
            lemma_digit_pair_unique(p, bose_cell(p, i, j1), bose_cell(p, i, j2), v);
            assert(bose_cell(p, i, j1) == t1);
            assert(bose_cell(p, i, j2) == t2);
            assert(i == w);
            assert(false);
        }
    }
    crate::oa::lemma_code_count_unique(rows, cvec, pi, v, w);
}

/// Any two columns of a Bose point matrix over a prime base are perfectly
/// balanced: every pair of values below `p` is carried by the selected
/// columns of exactly one row. The seed digits of that row solve a linear
/// system modulo `p`, which the primality of the base makes uniquely
/// solvable.
#[verifier::rlimit(100)]
pub proof fn lemma_bose_pair_balanced(p: u64, dims: u64, rows: Seq<Seq<u64>>, j1: int, j2: int)
    requires
        is_prime_spec(p),
        dims <= p + 1,
        bose_matrix(p, dims, rows),
        0 <= j1 < j2 < dims as int,
    ensures
        combo_balanced(rows, seq![j1 as u64, j2 as u64], p as int, (p as int) * (p as int), 1),
{
    let pi = p as int;
    let cvec = seq![j1 as u64, j2 as u64];
    assert forall|v: int| 0 <= v < pi * pi implies #[trigger] code_count(rows, cvec, pi, v)
        == 1 by {
        vstd::arithmetic::div_mod::lemma_fundamental_div_mod(v, pi);
        vstd::arithmetic::div_mod::lemma_mod_bound(v, pi);
        vstd::arithmetic::div_mod::lemma_div_pos_is_pos(v, pi);
        let t1 = v % pi;
        let t2 = v / pi;
        assert(t2 < pi) by (nonlinear_arith)
            requires
                v == pi * t2 + t1,
                0 <= t1 < pi,
                0 <= v < pi * pi,
                pi >= 2,
        {}
        vstd::arithmetic::div_mod::lemma_small_mod(t1 as nat, p as nat);
        vstd::arithmetic::div_mod::lemma_small_mod(t2 as nat, p as nat);
        if j1 == 0 && j2 == 1 {
            let c0 = t1;
            let c1 = t2;
            lemma_seed_row(p, c0, c1);
            assert forall|i: int|
                0 <= i < pi * pi && #[trigger] bose_cell(p, i, j1) == t1 && bose_cell(p, i, j2)
                    == t2 implies i == c0 * pi + c1 by {
                vstd::arithmetic::div_mod::lemma_fundamental_div_mod(i, pi);
                assert(i == pi * t1 + t2) by (nonlinear_arith)
                    requires
                        i == pi * (i / pi) + i % pi,
                        i / pi == t1,
                        i % pi == t2,
                {}
                assert(i == c0 * pi + c1) by (nonlinear_arith)
                    requires
                        i == pi * t1 + t2,
                        c0 == t1,
                        c1 == t2,
                {}
            }
            lemma_bose_count_from_cells(p, dims, rows, j1, j2, v, c0, c1);
        } else if j1 == 0 {
            // j2 >= 2: the first cell reads the quotient digit directly and
            // the second solves (j2 - 1) * c1 = t2 - t1 (mod p)
            let beta = j2 - 1;
            let cc = (t2 - t1) % pi;
            vstd::arithmetic::div_mod::lemma_mod_bound(t2 - t1, pi);
            let c1 = lemma_mod_solve(beta, cc, p);
            let c0 = t1;
            lemma_seed_row(p, c0, c1);
            assert(bose_cell(p, c0 * pi + c1, j1) == c0);
            assert(bose_cell(p, c0 * pi + c1, j2) == (c0 + beta * c1) % pi);
            vstd::arithmetic::div_mod::lemma_add_mod_noop_right(c0, beta * c1, pi);
            vstd::arithmetic::div_mod::lemma_add_mod_noop_right(t1, t2 - t1, pi);
            assert((c0 + beta * c1) % pi == (t1 + cc) % pi);
            assert((t1 + cc) % pi == (t1 + (t2 - t1)) % pi);
            assert(bose_cell(p, c0 * pi + c1, j2) == t2);
            assert forall|i: int|
                0 <= i < pi * pi && #[trigger] bose_cell(p, i, j1) == t1 && bose_cell(p, i, j2)
                    == t2 implies i == c0 * pi + c1 by {
                vstd::arithmetic::div_mod::lemma_fundamental_div_mod(i, pi);
                vstd::arithmetic::div_mod::lemma_mod_bound(i, pi);
                let u0 = i / pi;
                let u1 = i % pi;
                assert(u0 == t1);
                assert((u0 + beta * u1) % pi == t2);
                vstd::arithmetic::div_mod::lemma_sub_mod_noop(u0 + beta * u1, u0, pi);
                vstd::arithmetic::div_mod::lemma_small_mod(u0 as nat, p as nat);
                assert((t2 - t1) % pi == (beta * u1) % pi);
                assert(u1 == c1);
                assert(i == c0 * pi + c1) by (nonlinear_arith)
                    requires
                        i == pi * u0 + u1,
                        u0 == c0,
                        u1 == c1,
                {}
            }
            lemma_bose_count_from_cells(p, dims, rows, j1, j2, v, c0, c1);
        } else if j1 == 1 {
            // j2 >= 2: the first cell reads the remainder digit directly and
            // the second solves c0 = t2 - (j2 - 1) * t1 (mod p)
            let beta = j2 - 1;
            let cc = (t2 - beta * t1) % pi;
            vstd::arithmetic::div_mod::lemma_mod_bound(t2 - beta * t1, pi);
            let c0 = lemma_mod_solve(1, cc, p);
            let c1 = t1;
            vstd::arithmetic::div_mod::lemma_small_mod(c0 as nat, p as nat);
            assert(c0 == cc);
            lemma_seed_row(p, c0, c1);
            assert(bose_cell(p, c0 * pi + c1, j1) == c1);
            assert(bose_cell(p, c0 * pi + c1, j2) == (c0 + beta * c1) % pi);
            vstd::arithmetic::div_mod::lemma_add_mod_noop_right(beta * t1, t2 - beta * t1, pi);
            assert((beta * t1 + cc) % pi == (beta * t1 + (t2 - beta * t1)) % pi);
            assert((c0 + beta * c1) % pi == t2);
            assert forall|i: int|
                0 <= i < pi * pi && #[trigger] bose_cell(p, i, j1) == t1 && bose_cell(p, i, j2)
                    == t2 implies i == c0 * pi + c1 by {
                vstd::arithmetic::div_mod::lemma_fundamental_div_mod(i, pi);
                vstd::arithmetic::div_mod::lemma_mod_bound(i, pi);
                vstd::arithmetic::div_mod::lemma_div_pos_is_pos(i, pi);
                let u0 = i / pi;
                let u1 = i % pi;
                assert(u0 < pi) by (nonlinear_arith)
                    requires
                        i == pi * u0 + u1,
                        0 <= u1 < pi,
                        0 <= i < pi * pi,
                        pi >= 2,
                {}
                assert(u1 == t1);
                assert((u0 + beta * u1) % pi == t2);
                vstd::arithmetic::div_mod::lemma_sub_mod_noop(u0 + beta * u1, beta * u1, pi);
                vstd::arithmetic::div_mod::lemma_sub_mod_noop_right(t2, beta * u1, pi);
                vstd::arithmetic::div_mod::lemma_small_mod(u0 as nat, p as nat);
                assert(u0 % pi == (t2 - beta * t1) % pi);
                assert(u0 == cc);
                assert(i == c0 * pi + c1) by (nonlinear_arith)
                    requires
                        i == pi * u0 + u1,
                        u0 == c0,
                        u1 == c1,
                {}
            }
            lemma_bose_count_from_cells(p, dims, rows, j1, j2, v, c0, c1);
        } else {
            // both columns are dependent: their difference solves
            // (j2 - j1) * c1 = t2 - t1 (mod p), then c0 follows
            let d = j2 - j1;
            let cc = (t2 - t1) % pi;
            vstd::arithmetic::div_mod::lemma_mod_bound(t2 - t1, pi);
            let c1 = lemma_mod_solve(d, cc, p);
            let cc0 = (t1 - (j1 - 1) * c1) % pi;
            vstd::arithmetic::div_mod::lemma_mod_bound(t1 - (j1 - 1) * c1, pi);
            let c0 = lemma_mod_solve(1, cc0, p);
            vstd::arithmetic::div_mod::lemma_small_mod(c0 as nat, p as nat);
            assert(c0 == cc0);
            lemma_seed_row(p, c0, c1);
            assert(bose_cell(p, c0 * pi + c1, j1) == (c0 + (j1 - 1) * c1) % pi);
            assert(bose_cell(p, c0 * pi + c1, j2) == (c0 + (j2 - 1) * c1) % pi);
            vstd::arithmetic::div_mod::lemma_add_mod_noop_right(
                (j1 - 1) * c1,
                t1 - (j1 - 1) * c1,
                pi,
            );
            assert(((j1 - 1) * c1 + cc0) % pi == ((j1 - 1) * c1 + (t1 - (j1 - 1) * c1)) % pi);
            assert((c0 + (j1 - 1) * c1) % pi == t1);
            assert((j2 - 1) * c1 == (j1 - 1) * c1 + d * c1) by (nonlinear_arith)
                requires
                    d == j2 - j1,
            {}
            vstd::arithmetic::div_mod::lemma_add_mod_noop(c0 + (j1 - 1) * c1, d * c1, pi);
            vstd::arithmetic::div_mod::lemma_add_mod_noop_right(t1, t2 - t1, pi);
            assert((c0 + (j2 - 1) * c1) % pi == ((c0 + (j1 - 1) * c1) + d * c1) % pi);
            assert(((c0 + (j1 - 1) * c1) + d * c1) % pi == (t1 + cc) % pi);
            assert((t1 + cc) % pi == (t1 + (t2 - t1)) % pi);
            assert(bose_cell(p, c0 * pi + c1, j2) == t2);
            assert forall|i: int|
                0 <= i < pi * pi && #[trigger] bose_cell(p, i, j1) == t1 && bose_cell(p, i, j2)
                    == t2 implies i == c0 * pi + c1 by {
                vstd::arithmetic::div_mod::lemma_fundamental_div_mod(i, pi);
                vstd::arithmetic::div_mod::lemma_mod_bound(i, pi);
                vstd::arithmetic::div_mod::lemma_div_pos_is_pos(i, pi);
                let u0 = i / pi;
                let u1 = i % pi;
                assert(u0 < pi) by (nonlinear_arith)
                    requires
                        i == pi * u0 + u1,
                        0 <= u1 < pi,
                        0 <= i < pi * pi,
                        pi >= 2,
                {}
                assert((u0 + (j1 - 1) * u1) % pi == t1);
                assert((u0 + (j2 - 1) * u1) % pi == t2);
                assert((u0 + (j2 - 1) * u1) - (u0 + (j1 - 1) * u1) == d * u1) by (nonlinear_arith)
                    requires
                        d == j2 - j1,
                {}
                vstd::arithmetic::div_mod::lemma_sub_mod_noop(
                    u0 + (j2 - 1) * u1,
                    u0 + (j1 - 1) * u1,
                    pi,
                );
                assert((t2 - t1) % pi == (d * u1) % pi);
                assert(u1 == c1);
                vstd::arithmetic::div_mod::lemma_sub_mod_noop(
                    u0 + (j1 - 1) * u1,
                    (j1 - 1) * u1,
                    pi,
                );
                vstd::arithmetic::div_mod::lemma_sub_mod_noop_right(t1, (j1 - 1) * u1, pi);
                vstd::arithmetic::div_mod::lemma_small_mod(u0 as nat, p as nat);
                assert(u0 % pi == (t1 - (j1 - 1) * c1) % pi);
                assert(u0 == cc0);
                assert(i == c0 * pi + c1) by (nonlinear_arith)
                    requires
                        i == pi * u0 + u1,
                        u0 == c0,
                        u1 == c1,
                {}
            }
            lemma_bose_count_from_cells(p, dims, rows, j1, j2, v, c0, c1);
        }
    }
}

/// A Bose point matrix over a prime base with an admissible dimension count
/// satisfies the full orthogonal array stratification guarantee at strength
/// 2, levels `p` and index 1.
pub proof fn lemma_bose_stratified(oa: OA)
    requires
        is_prime_spec(oa.levels),
        oa.strength == 2,
        oa.index == 1,
        2 <= oa.factors <= oa.levels + 1,
        bose_matrix(oa.levels, oa.factors, oa.rows()),
    ensures
        oa_stratified(oa),
{
    let p = oa.levels;
    let pi = p as int;
    assert(pow(pi, 2) == pi * pi) by {
        vstd::arithmetic::power::lemma_pow1(pi);
        vstd::arithmetic::power::lemma_pow_adds(pi, 1, 1);
    }
    assert forall|c: Seq<u64>| is_col_combo(c, oa.factors, oa.strength as nat) implies
        #[trigger] combo_balanced(
        oa.rows(),
        c,
        pi,
        pow(pi, oa.strength as nat),
        oa.index,
    ) by {
        assert(c.len() == 2);
        assert(c[0] < c[1]);
        assert(c[1] < oa.factors);
        lemma_bose_pair_balanced(p, oa.factors, oa.rows(), c[0] as int, c[1] as int);
        assert(c =~= seq![c[0], c[1]]);
    }
}

/// The Bose construction followed by verification always succeeds: any
/// array that meets the Bose construction contract for valid parameters has
/// a consistent shape and satisfies the stratification property that the
/// verifier checks, so `verify` returns true on it.
pub proof fn lemma_bose_construct_then_verify(b: Bose, oa: OA)
    requires
        bose_params_ok(b.prime_base, b.dimensions),
        oa.levels == b.prime_base,
        oa.strength == 2,
        oa.factors == b.dimensions,
        oa.index == 1,
        bose_matrix(b.prime_base, b.dimensions, oa.rows()),
    ensures
        oa.shape_ok(),
        oa_stratified(oa),
{
    assert forall|i: int| 0 <= i < oa.points@.len() implies (#[trigger] oa.points@[i])@.len()
        == oa.factors by {
        assert(oa.rows()[i] == oa.points@[i]@);
    }
    lemma_bose_stratified(oa);
}

} // verus!
