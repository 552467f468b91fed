//! The construction method introduced by Liu and Liu.
//!
//! This provides a method of constructing a strong orthogonal array from an
//! orthogonal array and a reduction matrix: the array's point matrix is
//! multiplied by a sparse matrix of block antidiagonal patterns, with an
//! extra column of base powers in the boundary case.

use crate::oa::OA;
use crate::soa::{SOA, SOAConstructionError, SOAConstructor, SOACErrorKind, SOAResult};
use vstd::arithmetic::power::pow;
use vstd::prelude::*;

verus! {

/// The number of whole blocks: the factor count divided by the strength.
pub open spec fn liu_k(oa: OA) -> int {
    oa.factors as int / oa.strength as int
}

/// The remainder of the factor count modulo the strength.
pub open spec fn liu_q(oa: OA) -> int {
    oa.factors as int % oa.strength as int
}

/// Whether the boundary case applies: the remainder reaches half the
/// strength, so the reduction matrix gains one extra column.
pub open spec fn liu_extra(oa: OA) -> bool {
    liu_q(oa) >= oa.strength as int / 2
}

/// The number of columns of the reduction matrix, and of the resulting
/// array.
pub open spec fn liu_width(oa: OA) -> int {
    2 * liu_k(oa) + if liu_extra(oa) {
        1int
    } else {
        0int
    }
}

/// The value of entry `(row, col)` of the reduction matrix: each of the `k`
/// blocks carries the two-column antidiagonal pattern `[i, t - i - 1]` along
/// its own `t` rows; the extra column holds ascending base powers in its
/// first `q` rows and descending ones in its last `q` rows; everything else
/// is zero.
pub open spec fn liu_r_entry(oa: OA, row: int, col: int) -> int {
    let t = oa.strength as int;
    let m = oa.factors as int;
    let s = oa.levels as int;
    let q = liu_q(oa);
    if col < 2 * liu_k(oa) {
        let b = col / 2;
        if b * t <= row < b * t + t {
            if col % 2 == 0 {
                row - b * t
            } else {
                t - 1 - (row - b * t)
            }
        } else {
            0
        }
    } else {
        if row >= m - q {
            pow(s, (t - (m - row)) as nat)
        } else if row < q {
            pow(s, row as nat)
        } else {
            0
        }
    }
}

/// One cell of the product of the array's points with the reduction matrix:
/// the dot product of row `i` of the points with column `c` of the matrix,
/// accumulated from position `j` on.
pub open spec fn liu_dot(oa: OA, i: int, c: int, j: int) -> int
    decreases oa.factors as int - j,
{
    if j < 0 || j >= oa.factors as int {
        0
    } else {
        oa.rows()[i][j] * liu_r_entry(oa, j, c) + liu_dot(oa, i, c, j + 1)
    }
}

/// The value of cell `(i, c)` of the Liu-Liu strong orthogonal array.
pub open spec fn liu_cell(oa: OA, i: int, c: int) -> int {
    liu_dot(oa, i, c, 0)
}

/// The structural conditions under which the Liu-Liu construction is
/// defined: a positive strength and level count, and a consistent shape.
pub open spec fn liu_params_ok(oa: OA) -> bool {
    &&& 1 <= oa.strength
    &&& 1 <= oa.levels
    &&& oa.shape_ok()
    &&& oa.factors <= usize::MAX as u64
}

/// The result fits the machine: the 32-bit metadata can carry the strength
/// and base, the reduction matrix is indexable, its base powers fit the
/// machine's integers, and every product cell fits in 32 bits.
pub open spec fn liu_feasible(oa: OA) -> bool {
    &&& oa.strength <= u32::MAX as u64
    &&& oa.levels <= u32::MAX as u64
    &&& liu_width(oa) <= usize::MAX as int
    &&& (liu_extra(oa) ==> pow(oa.levels as int, (oa.strength - 1) as nat) <= u64::MAX as int)
    &&& forall|i: int, c: int|
        0 <= i < oa.rows().len() && 0 <= c < liu_width(oa) ==> #[trigger] liu_cell(oa, i, c)
            <= u32::MAX as int
}

/// The whole Liu-Liu point matrix derived from `oa`: as many rows as the
/// source, `liu_width` columns, cell by cell the matrix product of the
/// source points with the reduction matrix.
pub open spec fn liu_matrix(oa: OA, rows: Seq<Seq<u32>>) -> bool {
    &&& rows.len() == oa.rows().len()
    &&& forall|i: int| 0 <= i < rows.len() ==> (#[trigger] rows[i]).len() == liu_width(oa)
    &&& forall|i: int, c: int|
        0 <= i < rows.len() && 0 <= c < liu_width(oa) ==> #[trigger] rows[i][c] == liu_cell(
            oa,
            i,
            c,
        )
}

/// Every entry of the reduction matrix is nonnegative.
proof fn lemma_liu_r_entry_nonneg(oa: OA, row: int, col: int)
    requires
        1 <= oa.strength,
        1 <= oa.levels,
        0 <= row < oa.factors as int,
    ensures
        liu_r_entry(oa, row, col) >= 0,
{
    let t = oa.strength as int;
    let m = oa.factors as int;
    let q = liu_q(oa);
    if col < 2 * liu_k(oa) {
    } else {
        if row >= m - q {
            vstd::arithmetic::power::lemma_pow_positive(oa.levels as int, (t - (m - row)) as nat);
        } else if row < q {
            vstd::arithmetic::power::lemma_pow_positive(oa.levels as int, row as nat);
        }
    }
}

/// Dot products of nonnegative values are nonnegative, and no suffix of one
/// exceeds a longer suffix.
proof fn lemma_liu_dot_nonneg(oa: OA, i: int, c: int, j: int)
    requires
        1 <= oa.strength,
        1 <= oa.levels,
        0 <= i < oa.rows().len(),
        oa.shape_ok(),
    ensures
        liu_dot(oa, i, c, j) >= 0,
    decreases oa.factors as int - j,
{
    if 0 <= j < oa.factors as int {
        lemma_liu_dot_nonneg(oa, i, c, j + 1);
        lemma_liu_r_entry_nonneg(oa, j, c);
        assert(oa.rows()[i] == oa.points@[i]@);
        vstd::arithmetic::mul::lemma_mul_nonnegative(
            oa.rows()[i][j] as int,
            liu_r_entry(oa, j, c),
        );
    }
}

/// The construction method introduced by Liu and Liu.
///
/// This is an implementation of the SOA construction method developed by Liu
/// and Liu: it derives a strong orthogonal array from an orthogonal array by
/// multiplying the array's points with a reduction matrix.
pub struct LiuLiu<'a> {
    /// The OA to use to create the SOA.
    pub oa: &'a OA,
}

impl<'a> LiuLiu<'a> {
    /// Build the reduction matrix, `w` columns wide.
    ///
    /// This is a helper method for the main generation method. When the
    /// remainder `q` reaches half the strength the matrix carries one extra
    /// column of base powers beyond its `2k` block columns.
    fn gen_even_r(&self, w: usize) -> (r: Vec<Vec<u64>>)
        requires
            liu_params_ok(*self.oa),
            liu_extra(*self.oa) ==> pow(self.oa.levels as int, (self.oa.strength - 1) as nat)
                <= u64::MAX as int,
            self.oa.strength <= u32::MAX as u64,
            w as int == liu_width(*self.oa),
        ensures
            r@.len() == self.oa.factors,
            forall|row: int| 0 <= row < r@.len() ==> (#[trigger] r@[row])@.len() == w,
            forall|row: int, col: int|
                0 <= row < r@.len() && 0 <= col < w ==> #[trigger] r@[row]@[col] as int
                    == liu_r_entry(*self.oa, row, col),
    {
        let oa = self.oa;
        let t = oa.strength;
        let m = oa.factors as usize;
        let s = oa.levels;
        let k: u64 = oa.factors / t;
        let q: u64 = oa.factors % t;
        proof {
            vstd::arithmetic::div_mod::lemma_mod_bound(oa.factors as int, t as int);
            vstd::arithmetic::div_mod::lemma_div_pos_is_pos(oa.factors as int, t as int);
            if oa.factors < t {
                vstd::arithmetic::div_mod::lemma_small_mod(oa.factors as nat, t as nat);
            }
            assert(q as int <= m as int);
        }
        let mut r: Vec<Vec<u64>> = Vec::new();
        let mut row: usize = 0;
        while row < m
            invariant
                oa == self.oa,
                liu_params_ok(*self.oa),
                liu_extra(*self.oa) ==> pow(oa.levels as int, (oa.strength - 1) as nat)
                    <= u64::MAX as int,
                oa.strength <= u32::MAX as u64,
                w as int == liu_width(*self.oa),
                t == oa.strength,
                m == oa.factors,
                s == oa.levels,
                k as int == liu_k(*self.oa),
                q as int == liu_q(*self.oa),
                q < t,
                q as int <= m as int,
                row <= m,
                r@.len() == row,
                forall|a: int| 0 <= a < row ==> (#[trigger] r@[a])@.len() == w,
                forall|a: int, col: int|
                    0 <= a < row && 0 <= col < w ==> #[trigger] r@[a]@[col] as int == liu_r_entry(
                        *self.oa,
                        a,
                        col,
                    ),
            decreases m - row,
        {
            let mut line: Vec<u64> = Vec::new();
            let mut col: usize = 0;
            while col < w
                invariant
                    oa == self.oa,
                    liu_params_ok(*self.oa),
                    liu_extra(*self.oa) ==> pow(oa.levels as int, (oa.strength - 1) as nat)
                        <= u64::MAX as int,
                    oa.strength <= u32::MAX as u64,
                    w as int == liu_width(*self.oa),
                    t == oa.strength,
                    m == oa.factors,
                    s == oa.levels,
                    k as int == liu_k(*self.oa),
                    q as int == liu_q(*self.oa),
                    q < t,
                    q as int <= m as int,
                    0 <= row < m,
                    col <= w,
                    line@.len() == col,
                    forall|b: int|
                        0 <= b < col ==> #[trigger] line@[b] as int == liu_r_entry(
                            *self.oa,
                            row as int,
                            b,
                        ),
                decreases w - col,
            {
                let v: u64;
                if (col as u64) < 2 * k {
                    let b: u64 = (col as u64) / 2;
                    proof {
                        assert(b < k);
                        assert(b * (t as int) + t <= (k as int) * (t as int)) by (nonlinear_arith)
                            requires
                                (b as int) < (k as int),
                                1 <= t,
                        {}
                        assert((k as int) * (t as int) <= m as int) by {
                            vstd::arithmetic::div_mod::lemma_fundamental_div_mod(
                                m as int,
                                t as int,
                            );
                        }
                    }
                    let lo = b * t;
                    if (row as u64) >= lo && (row as u64) < lo + t {
                        let i: u64 = (row as u64) - lo;
                        if col % 2 == 0 {
                            v = i;
                        } else {
                            v = t - 1 - i;
                        }
                    } else {
                        v = 0;
                    }
                } else {
                    if (row as u64) >= (m as u64) - q {
                        let e: u64 = t - ((m as u64) - (row as u64));
                        proof {
                            assert(liu_extra(*self.oa));
                            assert(e < t);
                            vstd::arithmetic::power::lemma_pow_increases(
                                s as nat,
                                e as nat,
                                (t - 1) as nat,
                            );
                        }
                        v = crate::soa::pow64(s, e as u32);
                    } else if (row as u64) < q {
                        proof {
                            assert(liu_extra(*self.oa));
                            assert((row as u64) < t);
                            vstd::arithmetic::power::lemma_pow_increases(
                                s as nat,
                                row as nat,
                                (t - 1) as nat,
                            );
                        }
                        v = crate::soa::pow64(s, row as u32);
                    } else {
                        v = 0;
                    }
                }
                line.push(v);
                col = col + 1;
            }
            r.push(line);
            row = row + 1;
        }
        r
    }

    /// Generate the Liu-Liu strong orthogonal array.
    ///
    /// The source array must have a positive strength and level count and a
    /// consistent shape; otherwise an `InvalidParams` error is returned. A
    /// result that does not fit the machine's integers yields a
    /// `RuntimeError`. On success every cell of the result is the matrix
    /// product of the source points with the reduction matrix.
    pub fn gen(&self) -> (r: SOAResult)
        ensures
            r is Ok <==> (liu_params_ok(*self.oa) && liu_feasible(*self.oa)),
            r is Err ==> r->Err_0.error_type == (if !liu_params_ok(*self.oa) {
                SOACErrorKind::InvalidParams
            } else {
                SOACErrorKind::RuntimeError
            }),
            r is Ok ==> ({
                let soa = r->Ok_0;
                &&& soa.strength == self.oa.strength
                &&& soa.base == self.oa.levels
                &&& liu_matrix(*self.oa, soa.rows())
            }),
    {
        let oa = self.oa;
        if oa.strength < 1 || oa.levels < 1 || oa.factors > usize::MAX as u64 {
            return Err(
                SOAConstructionError::new(SOACErrorKind::InvalidParams, "invalid array parameters"),
            );
        }
        let n = oa.points.len();
        let factors = oa.factors as usize;
        let mut i: usize = 0;
        while i < n
            invariant
                oa == self.oa,
                i <= n,
                n == oa.points@.len(),
                factors == oa.factors,
                forall|a: int| 0 <= a < i ==> (#[trigger] oa.points@[a])@.len() == oa.factors,
            decreases n - i,
        {
            if oa.points[i].len() != factors {
                proof {
                    assert(oa.points@[i as int]@.len() != oa.factors);
                    assert(!oa.shape_ok());
                }
                return Err(
                    SOAConstructionError::new(
                        SOACErrorKind::InvalidParams,
                        "points shape disagrees with factors",
                    ),
                );
            }
            i = i + 1;
        }
        proof {
            assert(oa.shape_ok());
            assert(liu_params_ok(*oa));
        }
        if oa.strength > u32::MAX as u64 || oa.levels > u32::MAX as u64 {
            return Err(
                SOAConstructionError::new(
                    SOACErrorKind::RuntimeError,
                    "strength or base does not fit in 32 bits",
                ),
            );
        }
        let t = oa.strength;
        let s = oa.levels;
        let k: u64 = oa.factors / t;
        let q: u64 = oa.factors % t;
        let extra = q >= t / 2;
        proof {
            vstd::arithmetic::div_mod::lemma_div_pos_is_pos(oa.factors as int, t as int);
            assert((k as int) <= oa.factors as int) by {
                vstd::arithmetic::div_mod::lemma_div_is_ordered_by_denominator(
                    oa.factors as int,
                    1,
                    t as int,
                );
                vstd::arithmetic::div_mod::lemma_div_basics(oa.factors as int);
            }
        }
        let w64: u64 = match k.checked_mul(2) {
            Some(x) => {
                match x.checked_add(if extra {
                    1
                } else {
                    0
                }) {
                    Some(y) => y,
                    None => {
                        proof {
                            assert(liu_width(*oa) > usize::MAX as int);
                        }
                        return Err(
                            SOAConstructionError::new(
                                SOACErrorKind::RuntimeError,
                                "the reduction matrix does not fit in the machine's indices",
                            ),
                        );
                    },
                }
            },
            None => {
                proof {
                    assert(liu_width(*oa) > usize::MAX as int);
                }
                return Err(
                    SOAConstructionError::new(
                        SOACErrorKind::RuntimeError,
                        "the reduction matrix does not fit in the machine's indices",
                    ),
                );
            },
        };
        if w64 > usize::MAX as u64 {
            return Err(
                SOAConstructionError::new(
                    SOACErrorKind::RuntimeError,
                    "the reduction matrix does not fit in the machine's indices",
                ),
            );
        }
        let w = w64 as usize;
        if extra {
            if t >= 2 {
                let maxpow = crate::soa::checked_pow64(s, t - 1);
                if maxpow.is_none() {
                    return Err(
                        SOAConstructionError::new(
                            SOACErrorKind::RuntimeError,
                            "a base power does not fit in the machine's integers",
                        ),
                    );
                }
            } else {
                proof {
                    vstd::arithmetic::power::lemma_pow0(s as int);
                }
            }
        }
        let rmat = self.gen_even_r(w);
        let mut pts: Vec<Vec<u32>> = Vec::new();
        let mut i: usize = 0;
        while i < n
            invariant
                oa == self.oa,
                liu_params_ok(*oa),
                oa.strength <= u32::MAX as u64,
                oa.levels <= u32::MAX as u64,
                liu_width(*oa) <= usize::MAX as int,
                liu_extra(*oa) ==> pow(oa.levels as int, (oa.strength - 1) as nat) <= u64::MAX
                    as int,
                i <= n,
                n == oa.points@.len(),
                factors == oa.factors,
                w as int == liu_width(*oa),
                rmat@.len() == oa.factors,
                forall|a: int| 0 <= a < rmat@.len() ==> (#[trigger] rmat@[a])@.len() == w,
                forall|a: int, col: int|
                    0 <= a < rmat@.len() && 0 <= col < w ==> #[trigger] rmat@[a]@[col] as int
                        == liu_r_entry(*oa, a, col),
                pts@.len() == i,
                forall|a: int| 0 <= a < i ==> (#[trigger] pts@[a])@.len() == w,
                forall|a: int, c: int|
                    0 <= a < i && 0 <= c < w ==> #[trigger] pts@[a]@[c] as int == liu_cell(
                        *oa,
                        a,
                        c,
                    ),
            decreases n - i,
        {
            let mut line: Vec<u32> = Vec::new();
            let mut c: usize = 0;
            while c < w
                invariant
                    oa == self.oa,
                    liu_params_ok(*oa),
                    oa.strength <= u32::MAX as u64,
                    oa.levels <= u32::MAX as u64,
                    liu_width(*oa) <= usize::MAX as int,
                    liu_extra(*oa) ==> pow(oa.levels as int, (oa.strength - 1) as nat) <= u64::MAX
                        as int,
                    0 <= i < n,
                    n == oa.points@.len(),
                    factors == oa.factors,
                    w as int == liu_width(*oa),
                    rmat@.len() == oa.factors,
                    forall|a: int| 0 <= a < rmat@.len() ==> (#[trigger] rmat@[a])@.len() == w,
                    forall|a: int, col: int|
                        0 <= a < rmat@.len() && 0 <= col < w ==> #[trigger] rmat@[a]@[col] as int
                            == liu_r_entry(*oa, a, col),
                    c <= w,
                    line@.len() == c,
                    forall|b: int|
                        0 <= b < c ==> #[trigger] line@[b] as int == liu_cell(*oa, i as int, b),
                decreases w - c,
            {
                let mut acc: u64 = 0;
                let mut j: usize = factors;
                proof {
                    lemma_liu_dot_nonneg(*oa, i as int, c as int, factors as int);
                }
                while j > 0
                    invariant
                        oa == self.oa,
                        liu_params_ok(*oa),
                        0 <= i < n,
                        n == oa.points@.len(),
                        factors == oa.factors,
                        0 <= (c as int) < w as int,
                        w as int == liu_width(*oa),
                        rmat@.len() == oa.factors,
                        forall|a: int| 0 <= a < rmat@.len() ==> (#[trigger] rmat@[a])@.len() == w,
                        forall|a: int, col: int|
                            0 <= a < rmat@.len() && 0 <= col < w ==> #[trigger] rmat@[a]@[col]
                                as int == liu_r_entry(*oa, a, col),
                        j <= factors,
                        acc as int == liu_dot(*oa, i as int, c as int, j as int),
                    decreases j,
                {
                    j = j - 1;
                    proof {
                        assert(oa.points@[i as int]@.len() == oa.factors);
                        assert(oa.rows()[i as int] == oa.points@[i as int]@);
                        lemma_liu_dot_nonneg(*oa, i as int, c as int, j + 1);
                        lemma_liu_r_entry_nonneg(*oa, j as int, c as int);
                    }
                    let cell = oa.points[i][j];
                    let rv = rmat[j][c];
                    proof {
                        assert(liu_dot(*oa, i as int, c as int, j as int) == oa.rows()[i as int][j as int]
                            * liu_r_entry(*oa, j as int, c as int) + liu_dot(
                            *oa,
                            i as int,
                            c as int,
                            j + 1,
                        ));
                        assert(cell == oa.rows()[i as int][j as int]);
                        assert(rv as int == liu_r_entry(*oa, j as int, c as int));
                    }
                    let term = match cell.checked_mul(rv) {
                        Some(x) => x,
                        None => {
                            proof {
                                assert(liu_dot(*oa, i as int, c as int, j as int) > u32::MAX
                                    as int);
                                lemma_liu_dot_prefix_ge(*oa, i as int, c as int, j as int);
                                assert(liu_cell(*oa, i as int, c as int) > u32::MAX as int);
                                assert(!liu_feasible(*oa));
                            }
                            return Err(
                                SOAConstructionError::new(
                                    SOACErrorKind::RuntimeError,
                                    "a product cell does not fit in 32 bits",
                                ),
                            );
                        },
                    };
                    let sum = match acc.checked_add(term) {
                        Some(x) => x,
                        None => {
                            proof {
                                assert(liu_dot(*oa, i as int, c as int, j as int) > u32::MAX
                                    as int);
                                lemma_liu_dot_prefix_ge(*oa, i as int, c as int, j as int);
                                assert(liu_cell(*oa, i as int, c as int) > u32::MAX as int);
                                assert(!liu_feasible(*oa));
                            }
                            return Err(
                                SOAConstructionError::new(
                                    SOACErrorKind::RuntimeError,
                                    "a product cell does not fit in 32 bits",
                                ),
                            );
                        },
                    };
                    acc = sum;
                }
                if acc > u32::MAX as u64 {
                    proof {
                        assert(liu_cell(*oa, i as int, c as int) > u32::MAX as int);
                        assert(!liu_feasible(*oa));
                    }
                    return Err(
                        SOAConstructionError::new(
                            SOACErrorKind::RuntimeError,
                            "a product cell does not fit in 32 bits",
                        ),
                    );
                }
                line.push(acc as u32);
                c = c + 1;
            }
            pts.push(line);
            i = i + 1;
        }
        let soa = SOA { strength: t as u32, base: s as u32, points: pts };
        proof {
            assert forall|a: int, c: int|
                0 <= a < soa.rows().len() && 0 <= c < liu_width(*oa) implies #[trigger] soa.rows()[a][c]
                == liu_cell(*oa, a, c) by {
                assert(soa.rows()[a] == pts@[a]@);
            }
            assert(liu_matrix(*oa, soa.rows()));
            assert forall|a: int, c: int|
                0 <= a < oa.rows().len() && 0 <= c < liu_width(*oa) implies #[trigger] liu_cell(
                *oa,
                a,
                c,
            ) <= u32::MAX as int by {
                assert(pts@[a]@[c] as int == liu_cell(*oa, a, c));
            }
            assert(liu_feasible(*oa));
        }
        Ok(soa)
    }
}

/// The whole dot product dominates the dot product from any later position
/// on, because every term is nonnegative.
proof fn lemma_liu_dot_prefix_ge(oa: OA, i: int, c: int, j: int)
    requires
        1 <= oa.strength,
        1 <= oa.levels,
        0 <= i < oa.rows().len(),
        oa.shape_ok(),
        0 <= j <= oa.factors as int,
    ensures
        liu_dot(oa, i, c, 0) >= liu_dot(oa, i, c, j),
    decreases j,
{
    if j > 0 {
        lemma_liu_dot_prefix_ge(oa, i, c, j - 1);
        lemma_liu_dot_nonneg(oa, i, c, j);
        lemma_liu_r_entry_nonneg(oa, j - 1, c);
        assert(oa.rows()[i] == oa.points@[i]@);
        vstd::arithmetic::mul::lemma_mul_nonnegative(
            oa.rows()[i][j - 1] as int,
            liu_r_entry(oa, j - 1, c),
        );
        assert(liu_dot(oa, i, c, j - 1) == oa.rows()[i][j - 1] * liu_r_entry(oa, j - 1, c)
            + liu_dot(oa, i, c, j));
    }
}

impl<'a> SOAConstructor for LiuLiu<'a> {
    fn gen(&self) -> SOAResult {
        LiuLiu::gen(self)
    }
}

} // verus!
