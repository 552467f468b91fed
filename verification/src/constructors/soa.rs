//! Constructors for strong orthogonal arrays.

use crate::oa::OA;
use crate::soa::{SOA, SOAConstructionError, SOAConstructor, SOACErrorKind, SOAResult};
use vstd::prelude::*;

verus! {

/// The number of generating columns that the He-Tang construction reads from
/// a strength-3 orthogonal array: all but the last factor.
pub open spec fn het_m_prime(oa: OA) -> int {
    oa.factors - 1
}

/// The structural conditions under which the He-Tang pipeline is defined:
/// a consistent shape, at least one factor, machine-sized rows, a positive
/// level count, and every cell below the level count.
pub open spec fn het_input_ok(oa: OA) -> bool {
    &&& oa.shape_ok()
    &&& 1 <= oa.factors
    &&& oa.factors <= usize::MAX as u64
    &&& 1 <= oa.levels
    &&& forall|i: int, j: int|
        0 <= i < oa.rows().len() && 0 <= j < oa.factors ==> #[trigger] oa.rows()[i][j] < oa.levels
}

/// The resulting array fits the machine: each compressed value is below
/// `levels^3`, which must fit in 32 bits, and the widened intermediate rows
/// of `3 * (factors - 1)` cells must be indexable.
pub open spec fn het_feasible(oa: OA) -> bool {
    &&& (oa.levels as int) * (oa.levels as int) * (oa.levels as int) <= u32::MAX as int + 1
    &&& 3 * (oa.factors - 1) <= usize::MAX as int
}

/// The value of cell `(i, c)` of the generalized orthogonal array built from
/// `oa`: the three interleaved views copy the generating column itself, the
/// last column of the source, and the cyclically next generating column.
pub open spec fn goa_cell(oa: OA, i: int, c: int) -> u64 {
    let g = c / 3;
    if c % 3 == 0 {
        oa.rows()[i][g]
    } else if c % 3 == 1 {
        oa.rows()[i][oa.factors - 1]
    } else {
        oa.rows()[i][(g + 1) % het_m_prime(oa)]
    }
}

/// The value of cell `(i, c)` of the He-Tang strong orthogonal array: the
/// group of three generalized columns collapsed into one integer with the
/// source's level count as radix.
pub open spec fn het_cell(oa: OA, i: int, c: int) -> int {
    (oa.levels as int) * (oa.levels as int) * goa_cell(oa, i, 3 * c) + (oa.levels as int)
        * goa_cell(oa, i, 3 * c + 1) + goa_cell(oa, i, 3 * c + 2)
}

/// The whole He-Tang point matrix derived from `oa`: as many rows as the
/// source, `factors - 1` columns, cell by cell equal to `het_cell`.
pub open spec fn het_matrix(oa: OA, rows: Seq<Seq<u32>>) -> bool {
    &&& rows.len() == oa.rows().len()
    &&& forall|i: int| 0 <= i < rows.len() ==> (#[trigger] rows[i]).len() == het_m_prime(oa)
    &&& forall|i: int, c: int|
        0 <= i < rows.len() && 0 <= c < het_m_prime(oa) ==> #[trigger] rows[i][c] == het_cell(
            oa,
            i,
            c,
        )
}

/// Create a generalized orthogonal array from a strength-3 orthogonal array.
///
/// Creating a generalized orthogonal array (GOA) is an intermediate step
/// used for SOA construction: each of the `factors - 1` generating columns
/// becomes a group of three columns holding the column itself, the last
/// column of the source, and the cyclically next generating column.
pub fn oa_to_goa(oa: &OA) -> (r: Vec<Vec<u64>>)
    requires
        oa.strength == 3,
        oa.shape_ok(),
        1 <= oa.factors,
        3 * (oa.factors - 1) <= usize::MAX as int,
    ensures
        r@.len() == oa.rows().len(),
        forall|i: int| 0 <= i < r@.len() ==> (#[trigger] r@[i])@.len() == 3 * het_m_prime(*oa),
        forall|i: int, c: int|
            0 <= i < r@.len() && 0 <= c < 3 * het_m_prime(*oa) ==> #[trigger] r@[i]@[c] == goa_cell(
                *oa,
                i,
                c,
            ),
{
    let n = oa.points.len();
    let factors = oa.factors as usize;
    let m_prime = factors - 1;
    let mut goa: Vec<Vec<u64>> = Vec::new();
    let mut i: usize = 0;
    while i < n
        invariant
            i <= n,
            n == oa.points@.len(),
            oa.shape_ok(),
            1 <= oa.factors,
            3 * (oa.factors - 1) <= usize::MAX as int,
            factors == oa.factors,
            m_prime == factors - 1,
            goa@.len() == i,
            forall|k: int| 0 <= k < i ==> (#[trigger] goa@[k])@.len() == 3 * het_m_prime(*oa),
            forall|k: int, c: int|
                0 <= k < i && 0 <= c < 3 * het_m_prime(*oa) ==> #[trigger] goa@[k]@[c] == goa_cell(
                    *oa,
                    k,
                    c,
                ),
        decreases n - i,
    {
        let mut row: Vec<u64> = Vec::new();
        let mut c: usize = 0;
        while c < 3 * m_prime
            invariant
                c <= 3 * m_prime,
                0 <= i < n,
                n == oa.points@.len(),
                oa.shape_ok(),
                1 <= oa.factors,
                3 * (oa.factors - 1) <= usize::MAX as int,
                factors == oa.factors,
                m_prime == factors - 1,
                row@.len() == c,
                forall|b: int| 0 <= b < c ==> #[trigger] row@[b] == goa_cell(*oa, i as int, b),
            decreases 3 * m_prime - c,
        {
            let g = c / 3;
            let src_col = if c % 3 == 0 {
                g
            } else if c % 3 == 1 {
                factors - 1
            } else {
                (g + 1) % m_prime
            };
            proof {
                assert(g < m_prime) by {
                    assert(c < 3 * m_prime);
                }
                assert(src_col < factors);
                assert(oa.points@[i as int]@.len() == oa.factors);
                assert(oa.rows()[i as int] == oa.points@[i as int]@);
            }
            row.push(oa.points[i][src_col]);
            c = c + 1;
        }
        goa.push(row);
        i = i + 1;
    }
    goa
}

/// Reduce a generalized orthogonal array to a strong orthogonal array's
/// point matrix.
///
/// Each group of `strength` columns of the generalized array is collapsed
/// back into a single integer, using `levels` as the radix: the first column
/// of a group carries weight `levels^2`, the second `levels`, the third 1.
pub fn goa_to_soa(arr: &Vec<Vec<u64>>, strength: u64, levels: u64, m_prime: usize) -> (r: Vec<
    Vec<u32>,
>)
    requires
        strength == 3,
        1 <= levels,
        (levels as int) * (levels as int) * (levels as int) <= u32::MAX as int + 1,
        3 * m_prime <= usize::MAX as int,
        forall|i: int| 0 <= i < arr@.len() ==> (#[trigger] arr@[i])@.len() >= 3 * m_prime,
        forall|i: int, j: int|
            0 <= i < arr@.len() && 0 <= j < 3 * m_prime ==> #[trigger] arr@[i]@[j] < levels,
    ensures
        r@.len() == arr@.len(),
        forall|i: int| 0 <= i < r@.len() ==> (#[trigger] r@[i])@.len() == m_prime,
        forall|i: int, c: int|
            0 <= i < r@.len() && 0 <= c < m_prime ==> (#[trigger] r@[i]@[c]) as int == (
            levels as int) * (levels as int) * arr@[i]@[3 * c] + (levels as int) * arr@[i]@[3 * c
                + 1] + arr@[i]@[3 * c + 2],
{
    let n = arr.len();
    let mut soa: Vec<Vec<u32>> = Vec::new();
    let mut i: usize = 0;
    while i < n
        invariant
            i <= n,
            n == arr@.len(),
            1 <= levels,
            (levels as int) * (levels as int) * (levels as int) <= u32::MAX as int + 1,
            3 * m_prime <= usize::MAX as int,
            forall|k: int| 0 <= k < arr@.len() ==> (#[trigger] arr@[k])@.len() >= 3 * m_prime,
            forall|k: int, j: int|
                0 <= k < arr@.len() && 0 <= j < 3 * m_prime ==> #[trigger] arr@[k]@[j] < levels,
            soa@.len() == i,
            forall|k: int| 0 <= k < i ==> (#[trigger] soa@[k])@.len() == m_prime,
            forall|k: int, c: int|
                0 <= k < i && 0 <= c < m_prime ==> (#[trigger] soa@[k]@[c]) as int == (
                levels as int) * (levels as int) * arr@[k]@[3 * c] + (levels as int) * arr@[k]@[3
                    * c + 1] + arr@[k]@[3 * c + 2],
        decreases n - i,
    {
        let mut row: Vec<u32> = Vec::new();
        let mut c: usize = 0;
        while c < m_prime
            invariant
                c <= m_prime,
                0 <= i < n,
                n == arr@.len(),
                1 <= levels,
                (levels as int) * (levels as int) * (levels as int) <= u32::MAX as int + 1,
                3 * m_prime <= usize::MAX as int,
                forall|k: int| 0 <= k < arr@.len() ==> (#[trigger] arr@[k])@.len() >= 3 * m_prime,
                forall|k: int, j: int|
                    0 <= k < arr@.len() && 0 <= j < 3 * m_prime ==> #[trigger] arr@[k]@[j] < levels,
                row@.len() == c,
                forall|b: int|
                    0 <= b < c ==> (#[trigger] row@[b]) as int == (levels as int) * (levels as int)
                        * arr@[i as int]@[3 * b] + (levels as int) * arr@[i as int]@[3 * b + 1]
                        + arr@[i as int]@[3 * b + 2],
            decreases m_prime - c,
        {
            let a0 = arr[i][3 * c];
            let a1 = arr[i][3 * c + 1];
            let a2 = arr[i][3 * c + 2];
            proof {
                assert((levels as int) * (levels as int) * (a0 as int) + (levels as int) * (
                a1 as int) + (a2 as int) < (levels as int) * (levels as int) * (levels as int)
                    && (levels as int) * (levels as int) <= (levels as int) * (levels as int) * (
                levels as int) && 0 <= (levels as int) * (levels as int) * (a0 as int) && 0 <= (
                levels as int) * (a1 as int)) by (nonlinear_arith)
                    requires
                        1 <= levels,
                        (a0 as int) < (levels as int),
                        (a1 as int) < (levels as int),
                        (a2 as int) < (levels as int),
                        0 <= a0 as int,
                        0 <= a1 as int,
                        0 <= a2 as int,
                {}
            }
            let v = levels * levels * a0 + levels * a1 + a2;
            row.push(v as u32);
            c = c + 1;
        }
        soa.push(row);
        i = i + 1;
    }
    soa
}

/// The original SOA construction, as described by He and Tang.
///
/// He and Tang described how to construct a strong orthogonal array from a
/// strength-3 orthogonal array: the array is first widened into a
/// generalized orthogonal array, whose column groups are then collapsed back
/// into single base-`levels` encoded digits.
pub struct HeTang<'a> {
    /// The OA to generate the SOA from.
    pub oa: &'a OA,
}

impl<'a> HeTang<'a> {
    /// Generate the He-Tang strong orthogonal array.
    ///
    /// An array whose strength is not 3 is rejected with `UnsupportedParams`;
    /// a structurally inconsistent array with `InvalidParams`; an array whose
    /// compressed values cannot be held in 32 bits with `RuntimeError`. On
    /// success every cell of the result equals `het_cell`.
    pub fn gen(&self) -> (r: SOAResult)
        ensures
            r is Ok <==> (self.oa.strength == 3 && het_input_ok(*self.oa) && het_feasible(
                *self.oa,
            )),
            r is Err ==> r->Err_0.error_type == (if self.oa.strength != 3 {
                SOACErrorKind::UnsupportedParams
            } else if !het_input_ok(*self.oa) {
                SOACErrorKind::InvalidParams
            } else {
                SOACErrorKind::RuntimeError
            }),
            r is Ok ==> ({
                let soa = r->Ok_0;
                &&& soa.strength == 3
                &&& soa.base == self.oa.levels
                &&& het_matrix(*self.oa, soa.rows())
            }),
    {
        let oa = self.oa;
        if oa.strength != 3 {
            return Err(
                SOAConstructionError::new(
                    SOACErrorKind::UnsupportedParams,
                    "only strength-3 orthogonal arrays are supported",
                ),
            );
        }
        if oa.factors < 1 || oa.factors > usize::MAX as u64 || oa.levels < 1 {
            return Err(
                SOAConstructionError::new(SOACErrorKind::InvalidParams, "invalid array parameters"),
            );
        }
        let n = oa.points.len();
        let factors = oa.factors as usize;
        let mut i: usize = 0;
        while i < n
            invariant
                oa == self.oa,
                oa.strength == 3,
                i <= n,
                n == oa.points@.len(),
                factors == oa.factors,
                1 <= oa.levels,
                forall|k: int| 0 <= k < i ==> (#[trigger] oa.points@[k])@.len() == oa.factors,
                forall|k: int, j: int|
                    0 <= k < i && 0 <= j < oa.factors ==> #[trigger] oa.points@[k]@[j] < oa.levels,
            decreases n - i,
        {
            if oa.points[i].len() != factors {
                proof {
                    assert(oa.points@[i as int]@.len() != oa.factors);
                    assert(!oa.shape_ok());
                }
                return Err(
                    SOAConstructionError::new(
                        SOACErrorKind::InvalidParams,
                        "points shape disagrees with factors",
                    ),
                );
            }
            let mut j: usize = 0;
            while j < factors
                invariant
                    oa == self.oa,
                    oa.strength == 3,
                    j <= factors,
                    0 <= i < n,
                    n == oa.points@.len(),
                    factors == oa.factors,
                    oa.points@[i as int]@.len() == factors,
                    forall|b: int| 0 <= b < j ==> #[trigger] oa.points@[i as int]@[b] < oa.levels,
                decreases factors - j,
            {
                if oa.points[i][j] >= oa.levels {
                    proof {
                        assert(oa.rows()[i as int] == oa.points@[i as int]@);
                        assert(oa.rows()[i as int][j as int] >= oa.levels);
                        assert(!het_input_ok(*oa));
                    }
                    return Err(
                        SOAConstructionError::new(
                            SOACErrorKind::InvalidParams,
                            "a cell lies outside the array's levels",
                        ),
                    );
                }
                j = j + 1;
            }
            i = i + 1;
        }
        proof {
            assert(oa.shape_ok());
            assert forall|k: int, j: int|
                0 <= k < oa.rows().len() && 0 <= j < oa.factors implies #[trigger] oa.rows()[k][j]
                < oa.levels by {
                assert(oa.rows()[k] == oa.points@[k]@);
            }
            assert(het_input_ok(*oa));
        }
        let lv = oa.levels;
        if lv > u32::MAX as u64 {
            proof {
                assert((lv as int) * (lv as int) * (lv as int) > u32::MAX as int + 1)
                    by (nonlinear_arith)
                    requires
                        (lv as int) > u32::MAX as int,
                {}
            }
            return Err(
                SOAConstructionError::new(
                    SOACErrorKind::RuntimeError,
                    "levels^3 does not fit in 32 bits",
                ),
            );
        }
        let l2 = match lv.checked_mul(lv) {
            Some(x) => x,
            None => {
                proof {
                    assert(!het_feasible(*oa)) by (nonlinear_arith)
                        requires
                            (lv as int) * (lv as int) > u64::MAX as int,
                            lv == oa.levels,
                            1 <= lv,
                    {}
                }
                return Err(
                    SOAConstructionError::new(
                        SOACErrorKind::RuntimeError,
                        "levels^3 does not fit in 32 bits",
                    ),
                );
            },
        };
        let l3 = match l2.checked_mul(lv) {
            Some(x) => x,
            None => {
                proof {
                    assert(!het_feasible(*oa));
                }
                return Err(
                    SOAConstructionError::new(
                        SOACErrorKind::RuntimeError,
                        "levels^3 does not fit in 32 bits",
                    ),
                );
            },
        };
        if l3 > u32::MAX as u64 + 1 {
            return Err(
                SOAConstructionError::new(
                    SOACErrorKind::RuntimeError,
                    "levels^3 does not fit in 32 bits",
                ),
            );
        }
        if oa.factors - 1 > usize::MAX as u64 / 3 {
            proof {
                assert(3 * (oa.factors - 1) > usize::MAX as int) by (nonlinear_arith)
                    requires
                        (oa.factors - 1) as int > usize::MAX as int / 3,
                        oa.factors >= 1,
                        usize::MAX as int == 3 * (usize::MAX as int / 3) + usize::MAX as int % 3,
                        0 <= usize::MAX as int % 3 < 3,
                {}
            }
            return Err(
                SOAConstructionError::new(
                    SOACErrorKind::RuntimeError,
                    "the widened rows do not fit in the machine's indices",
                ),
            );
        }
        proof {
            assert(3 * (oa.factors - 1) <= usize::MAX as int) by (nonlinear_arith)
                requires
                    (oa.factors - 1) as int <= usize::MAX as int / 3,
                    oa.factors >= 1,
                    usize::MAX as int == 3 * (usize::MAX as int / 3) + usize::MAX as int % 3,
                    0 <= usize::MAX as int % 3 < 3,
            {}
        }
        let m_prime = factors - 1;
        let goa = oa_to_goa(oa);
        proof {
            assert forall|k: int, j: int|
                0 <= k < goa@.len() && 0 <= j < 3 * m_prime implies #[trigger] goa@[k]@[j]
                < oa.levels by {
                assert(goa@[k]@[j] == goa_cell(*oa, k, j));
                if j % 3 == 0 {
                    assert(0 <= j / 3 < het_m_prime(*oa));
                } else if j % 3 == 2 {
                    assert(0 <= (j / 3 + 1) % het_m_prime(*oa) < het_m_prime(*oa));
                }
            }
        }
        let pts = goa_to_soa(&goa, 3, lv, m_prime);
        let soa = SOA { strength: 3, base: lv as u32, points: pts };
        proof {
            assert forall|k: int, c: int|
                0 <= k < soa.rows().len() && 0 <= c < het_m_prime(*oa) implies #[trigger] soa.rows()[k][c]
                == het_cell(*oa, k, c) by {
                assert(soa.rows()[k] == pts@[k]@);
                assert((pts@[k]@[c]) as int == (lv as int) * (lv as int) * goa@[k]@[3 * c] + (
                lv as int) * goa@[k]@[3 * c + 1] + goa@[k]@[3 * c + 2]);
                assert(goa@[k]@[3 * c] == goa_cell(*oa, k, 3 * c));
                assert(goa@[k]@[3 * c + 1] == goa_cell(*oa, k, 3 * c + 1));
                assert(goa@[k]@[3 * c + 2] == goa_cell(*oa, k, 3 * c + 2));
            }
            assert(het_matrix(*oa, soa.rows()));
        }
        Ok(soa)
    }
}

impl<'a> SOAConstructor for HeTang<'a> {
    fn gen(&self) -> SOAResult {
        HeTang::gen(self)
    }
}

} // verus!
