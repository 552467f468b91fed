//! Generic interfaces and definitions for orthogonal arrays (OAs).
//!
//! The definition of an OA together with its exhaustive verifier, which checks
//! the stratification guarantee of an arbitrary point matrix, and the traits
//! for serial and parallel OA construction.

use crate::utils::horner_value;
use itertools::Itertools;
use vstd::arithmetic::power::pow;
use vstd::pervasive::VecAdditionalExecFns;
use vstd::prelude::*;

verus! {

/// The definition of an orthogonal array with its point set and parameters.
#[derive(Debug)]
pub struct OA {
    /// The size of the set that the array can select elements from.
    pub levels: u64,
    /// The size of the tuple whose stratification is guaranteed. In other
    /// words, this is the dimensionality of the stratification guarantee.
    pub strength: u64,
    /// The number of columns in the orthogonal array. This is the
    /// dimensionality of the point set.
    pub factors: u64,
    /// The number of times each tuple is present in the orthogonal array.
    /// Setting this to 1 ensures the Latin hypercube guarantee.
    pub index: u64,
    /// The internal matrix that holds the data for the orthogonal array, one
    /// inner vector per row of points.
    pub points: Vec<Vec<u64>>,
}

impl OA {
    /// The point matrix as a sequence of rows.
    pub open spec fn rows(&self) -> Seq<Seq<u64>> {
        self.points@.map_values(|r: Vec<u64>| r@)
    }

    /// Every row has exactly `factors` entries.
    pub open spec fn shape_ok(&self) -> bool {
        forall|i: int|
            0 <= i < self.points@.len() ==> (#[trigger] self.points@[i])@.len() == self.factors
    }
}

/// The general categories of errors for `OAConstructionError`.
#[derive(Debug, Clone, Copy, PartialEq, Eq, Structural)]
pub enum OACErrorKind {
    /// Invalid parameters were supplied to the constructor.
    InvalidParams,
    /// A runtime condition (such as a size that does not fit in the machine's
    /// integers) prevented the orthogonal array from being properly
    /// constructed.
    RuntimeError,
    /// A point matrix disagrees with the declared number of factors.
    ShapeMismatch,
}

/// An error indicating that there was some error constructing or checking the
/// orthogonal array.
#[derive(Debug)]
pub struct OAConstructionError {
    /// The general category of the error.
    pub error_type: OACErrorKind,
    /// A user-friendly description which can supply additional information
    /// about the error.
    pub desc: String,
}

impl OAConstructionError {
    /// Build an error of the given category carrying a description.
    pub fn new(kind: OACErrorKind, msg: &str) -> (r: Self)
        ensures
            r.error_type == kind,
            r.desc@ == msg@,
    {
        OAConstructionError { error_type: kind, desc: msg.to_string() }
    }
}

/// A result type for orthogonal array construction.
pub type OAResult = Result<OA, OAConstructionError>;

/// A generic trait to demarcate orthogonal array constructors.
pub trait OAConstructor {
    /// The method that generates an orthogonal array. Any necessary
    /// parameters must be handled by the constructor itself.
    fn gen(&self) -> OAResult;
}

/// A generic trait that demarcates a parallelized orthogonal array
/// constructor.
pub trait ParOAConstructor {
    /// Generate an orthogonal array utilizing multithreading. Any necessary
    /// parameters must be handled by the constructor itself.
    fn gen_par(&self) -> OAResult;
}

/// The projection of a row onto the columns selected by `combo`, in order.
pub open spec fn projected(row: Seq<u64>, combo: Seq<u64>) -> Seq<u64> {
    combo.map_values(|c: u64| row[c as int])
}

/// The tuple encoded by the selected columns of a row, read as mixed digits:
/// `row[combo[0]] + row[combo[1]]*levels + row[combo[2]]*levels^2 + ...`.
pub open spec fn tuple_code(row: Seq<u64>, combo: Seq<u64>, levels: int) -> int {
    horner_value(projected(row, combo), levels)
}

/// The number of rows whose projection onto `combo` encodes to `v`.
pub open spec fn code_count(rows: Seq<Seq<u64>>, combo: Seq<u64>, levels: int, v: int) -> nat
    decreases rows.len(),
{
    if rows.len() == 0 {
        0
    } else {
        code_count(rows.drop_last(), combo, levels, v) + if tuple_code(
            rows.last(),
            combo,
            levels,
        ) == v {
            1nat
        } else {
            0nat
        }
    }
}

/// A strictly increasing selection of `t` column indices below `m`.
pub open spec fn is_col_combo(c: Seq<u64>, m: u64, t: nat) -> bool {
    &&& c.len() == t
    &&& forall|i: int| 0 <= i < c.len() ==> #[trigger] c[i] < m
    &&& forall|i: int| 0 <= i < c.len() - 1 ==> #[trigger] c[i] < c[i + 1]
}

/// One column selection is balanced: every tuple code below `cap` is carried
/// by exactly `index` rows.
pub open spec fn combo_balanced(
    rows: Seq<Seq<u64>>,
    combo: Seq<u64>,
    levels: int,
    cap: int,
    index: u64,
) -> bool {
    forall|v: int| 0 <= v < cap ==> #[trigger] code_count(rows, combo, levels, v) == index
}

/// The stratification guarantee of an orthogonal array: for every selection
/// of `strength` distinct columns, every one of the `levels^strength`
/// possible tuples is carried by exactly `index` rows.
pub open spec fn oa_stratified(oa: OA) -> bool {
    forall|c: Seq<u64>|
        is_col_combo(c, oa.factors, oa.strength as nat) ==> #[trigger] combo_balanced(
            oa.rows(),
            c,
            oa.levels as int,
            pow(oa.levels as int, oa.strength as nat),
            oa.index,
        )
}

/// No row carries more than one unit of any count: a count never exceeds the
/// number of rows.
proof fn lemma_code_count_le_rows(rows: Seq<Seq<u64>>, combo: Seq<u64>, levels: int, v: int)
    ensures
        code_count(rows, combo, levels, v) <= rows.len(),
    decreases rows.len(),
{
    if rows.len() > 0 {
        lemma_code_count_le_rows(rows.drop_last(), combo, levels, v);
    }
}

/// If no row's projection encodes to `v`, the count of `v` is zero.
pub(crate) proof fn lemma_code_count_zero(rows: Seq<Seq<u64>>, combo: Seq<u64>, levels: int, v: int)
    requires
        forall|i: int| 0 <= i < rows.len() ==> tuple_code(#[trigger] rows[i], combo, levels) != v,
    ensures
        code_count(rows, combo, levels, v) == 0,
    decreases rows.len(),
{
    if rows.len() > 0 {
        assert(rows.last() == rows[rows.len() - 1]);
        assert forall|i: int| 0 <= i < rows.drop_last().len() implies tuple_code(
            #[trigger] rows.drop_last()[i],
            combo,
            levels,
        ) != v by {
            assert(rows.drop_last()[i] == rows[i]);
        }
        lemma_code_count_zero(rows.drop_last(), combo, levels, v);
    }
}

/// If exactly one row's projection encodes to `v`, the count of `v` is one.
pub(crate) proof fn lemma_code_count_unique(
    rows: Seq<Seq<u64>>,
    combo: Seq<u64>,
    levels: int,
    v: int,
    w: int,
)
    requires
        0 <= w < rows.len(),
        tuple_code(rows[w], combo, levels) == v,
        forall|i: int|
            0 <= i < rows.len() && i != w ==> tuple_code(#[trigger] rows[i], combo, levels) != v,
    ensures
        code_count(rows, combo, levels, v) == 1,
    decreases rows.len(),
{
    assert(rows.last() == rows[rows.len() - 1]);
    if w == rows.len() - 1 {
        assert forall|i: int| 0 <= i < rows.drop_last().len() implies tuple_code(
            #[trigger] rows.drop_last()[i],
            combo,
            levels,
        ) != v by {
            assert(rows.drop_last()[i] == rows[i]);
        }
        lemma_code_count_zero(rows.drop_last(), combo, levels, v);
    } else {
        assert(rows.drop_last()[w] == rows[w]);
        assert forall|i: int|
            0 <= i < rows.drop_last().len() && i != w implies tuple_code(
            #[trigger] rows.drop_last()[i],
            combo,
            levels,
        ) != v by {
            assert(rows.drop_last()[i] == rows[i]);
        }
        lemma_code_count_unique(rows.drop_last(), combo, levels, v, w);
    }
}

/// Every entry of a strictly increasing selection is at least its position.
proof fn lemma_combo_entry_at_least(c: Seq<u64>, m: u64, t: nat, i: int)
    requires
        is_col_combo(c, m, t),
        0 <= i < c.len(),
    ensures
        c[i] >= i,
    decreases i,
{
    if i > 0 {
        lemma_combo_entry_at_least(c, m, t, i - 1);
        assert(c[i - 1] < c[i]);
    }
}

/// The tuple code over a one-column selection is the selected cell itself.
pub(crate) proof fn lemma_single_code(row: Seq<u64>, a: u64, levels: int)
    ensures
        tuple_code(row, seq![a], levels) == row[a as int],
{
    let proj = projected(row, seq![a]);
    assert(proj.len() == 1);
    assert(proj[0] == row[a as int]);
    assert(horner_value(proj, levels) == proj[0] + levels * horner_value(proj.skip(1), levels));
    assert(proj.skip(1).len() == 0);
    assert(horner_value(proj.skip(1), levels) == 0);
    vstd::arithmetic::mul::lemma_mul_by_zero_is_zero(levels);
}

/// The tuple code over a two-column selection is the first selected cell
/// plus `levels` times the second.
pub(crate) proof fn lemma_pair_code(row: Seq<u64>, a: u64, b: u64, levels: int)
    ensures
        tuple_code(row, seq![a, b], levels) == row[a as int] + levels * row[b as int],
{
    let c = seq![a, b];
    let proj = projected(row, c);
    assert(proj.len() == 2);
    assert(proj[0] == row[a as int]);
    assert(proj[1] == row[b as int]);
    assert(horner_value(proj, levels) == proj[0] + levels * horner_value(proj.skip(1), levels));
    assert(proj.skip(1)[0] == proj[1]);
    assert(proj.skip(1).len() == 1);
    assert(horner_value(proj.skip(1), levels) == proj[1] + levels * horner_value(
        proj.skip(1).skip(1),
        levels,
    ));
    assert(proj.skip(1).skip(1).len() == 0);
    assert(horner_value(proj.skip(1).skip(1), levels) == 0);
}

/// Every selection of `t` distinct column indices below `m`, each returned as
/// a strictly increasing vector.
///
/// Relies on itertools' `combinations`: applied to the increasing range
/// `0..m`, it yields each `t`-element subset exactly once, keeping the
/// source iterator's (increasing) order inside every combination.
#[verifier::external_body]
pub(crate) fn column_combinations(m: u64, t: usize) -> (r: Vec<Vec<u64>>)
    ensures
        forall|i: int| 0 <= i < r@.len() ==> is_col_combo((#[trigger] r@[i])@, m, t as nat),
        forall|c: Seq<u64>|
            is_col_combo(c, m, t as nat) ==> exists|i: int|
                0 <= i < r@.len() && (#[trigger] r@[i])@ == c,
{
    (0..m).combinations(t).collect()
}

/// The tuple code of one row over the selected columns, or `None` if the code
/// does not fit in a `u64`.
fn row_code(row: &Vec<u64>, combo: &Vec<u64>, levels: u64) -> (r: Option<u64>)
    requires
        forall|k: int| 0 <= k < combo@.len() ==> #[trigger] combo@[k] < row@.len(),
    ensures
        match r {
            Some(v) => v == tuple_code(row@, combo@, levels as int),
            None => tuple_code(row@, combo@, levels as int) > u64::MAX as int,
        },
{
    let proj = Ghost(projected(row@, combo@));
    let mut acc: u64 = 0;
    let row_len = row.len();
    let mut k: usize = combo.len();
    proof {
        assert(proj@.len() == combo@.len());
        assert(row@.len() == row_len);
    }
    while k > 0
        invariant
            k <= combo@.len(),
            proj@ == projected(row@, combo@),
            proj@.len() == combo@.len(),
            forall|j: int| 0 <= j < combo@.len() ==> #[trigger] combo@[j] < row@.len(),
            row@.len() == row_len,
            acc == horner_value(proj@.skip(k as int), levels as int),
        decreases k,
    {
        k = k - 1;
        proof {
            assert(proj@.skip(k as int).skip(1) =~= proj@.skip(k + 1));
            assert(proj@.skip(k as int)[0] == proj@[k as int]);
            assert(proj@[k as int] == row@[combo@[k as int] as int]);
            crate::utils::lemma_horner_nonneg(proj@.skip(k + 1), levels as int);
        }
        let c = combo[k];
        proof {
            assert(c < row_len);
        }
        let cell = row[c as usize];
        let ghost code_k = horner_value(proj@.skip(k as int), levels as int);
        proof {
            assert(code_k == cell + (levels as int) * horner_value(
                proj@.skip(k + 1),
                levels as int,
            ));
        }
        let prod = match acc.checked_mul(levels) {
            Some(p) => p,
            None => {
                proof {
                    assert(levels >= 1) by {
                        if levels == 0 {
                            vstd::arithmetic::mul::lemma_mul_by_zero_is_zero(acc as int);
                        }
                    }
                    vstd::arithmetic::mul::lemma_mul_is_commutative(acc as int, levels as int);
                    assert(code_k > u64::MAX as int);
                    crate::utils::lemma_horner_suffix_bound(proj@, levels as int, k as int);
                }
                return None;
            },
        };
        let sum = match prod.checked_add(cell) {
            Some(s) => s,
            None => {
                proof {
                    assert(code_k > u64::MAX as int);
                    if levels >= 1 {
                        crate::utils::lemma_horner_suffix_bound(proj@, levels as int, k as int);
                    } else {
                        assert((acc as int) * (levels as int) == 0) by {
                            vstd::arithmetic::mul::lemma_mul_by_zero_is_zero(acc as int);
                        }
                        assert(false);
                    }
                }
                return None;
            },
        };
        proof {
            vstd::arithmetic::mul::lemma_mul_is_commutative(acc as int, levels as int);
            assert(sum == code_k);
        }
        acc = sum;
    }
    proof {
        assert(proj@.skip(0) =~= proj@);
    }
    Some(acc)
}

/// Tally the tuple codes of every row over one column selection and report
/// whether every code below `cap` appears exactly `index` times.
fn combo_is_balanced(
    points: &Vec<Vec<u64>>,
    combo: &Vec<u64>,
    levels: u64,
    cap: usize,
    index: u64,
) -> (r: bool)
    requires
        forall|k: int, i: int|
            0 <= k < combo@.len() && 0 <= i < points@.len() ==> #[trigger] combo@[k] < (
            #[trigger] points@[i])@.len(),
    ensures
        r == combo_balanced(
            points@.map_values(|row: Vec<u64>| row@),
            combo@,
            levels as int,
            cap as int,
            index,
        ),
{
    let ghost rows = points@.map_values(|row: Vec<u64>| row@);
    let n = points.len();
    let mut counts: Vec<u64> = Vec::new();
    while counts.len() < cap
        invariant
            counts@.len() <= cap,
            forall|v: int| 0 <= v < counts@.len() ==> counts@[v] == 0,
        decreases cap - counts@.len(),
    {
        counts.push(0);
    }
    let mut i: usize = 0;
    proof {
        assert(rows.take(0) =~= Seq::<Seq<u64>>::empty());
    }
    while i < n
        invariant
            i <= n,
            n == points@.len(),
            rows == points@.map_values(|row: Vec<u64>| row@),
            counts@.len() == cap,
            forall|k: int, j: int|
                0 <= k < combo@.len() && 0 <= j < points@.len() ==> #[trigger] combo@[k] < (
                #[trigger] points@[j])@.len(),
            forall|v: int|
                0 <= v < cap ==> counts@[v] == code_count(rows.take(i as int), combo@, levels as int, v),
        decreases n - i,
    {
        let code = row_code(&points[i], combo, levels);
        proof {
            assert(rows.take(i + 1).drop_last() =~= rows.take(i as int));
            assert(rows.take(i + 1).last() == rows[i as int]);
            assert(rows[i as int] == points@[i as int]@);
            lemma_code_count_le_rows(rows.take(i as int), combo@, levels as int, 0);
        }
        match code {
            Some(v) => {
                if v < cap as u64 {
                    let vi = v as usize;
                    proof {
                        lemma_code_count_le_rows(rows.take(i as int), combo@, levels as int, v as int);
                        assert(rows.take(i as int).len() <= n);
                    }
                    let cnt = counts[vi];
                    counts.set(vi, cnt + 1);
                }
            },
            None => {
            },
        }
        i = i + 1;
    }
    proof {
        assert(rows.take(n as int) =~= rows);
    }
    let mut v: usize = 0;
    while v < cap
        invariant
            v <= cap,
            counts@.len() == cap,
            rows == points@.map_values(|row: Vec<u64>| row@),
            forall|w: int| 0 <= w < cap ==> counts@[w] == code_count(rows, combo@, levels as int, w),
            forall|w: int| 0 <= w < v ==> code_count(rows, combo@, levels as int, w) == index,
        decreases cap - v,
    {
        if counts[v] != index {
            proof {
                assert(code_count(rows, combo@, levels as int, v as int) != index);
            }
            return false;
        }
        v = v + 1;
    }
    true
}

/// Given some orthogonal array struct, verify that the points are a valid
/// orthogonal array as described by the parameters.
///
/// An orthogonal array is defined by four key parameters, and this function
/// checks whether `points` matches up with the other parameters: for every
/// selection of `strength` columns, every possible tuple over those columns
/// must be present exactly `index` times, where tuples are mapped to integers
/// in base `levels`. A matrix whose rows disagree with `factors` is rejected
/// with a `ShapeMismatch` error before the exhaustive check runs.
///
/// The tally of `levels^strength` possible tuples must fit in the machine's
/// memory indices; that bound and the cast of `strength` are the only
/// preconditions.
pub fn verify(oa: &OA) -> (r: Result<bool, OAConstructionError>)
    requires
        pow(oa.levels as int, oa.strength as nat) <= usize::MAX as int,
        oa.strength <= usize::MAX as u64,
    ensures
        r is Ok <==> oa.shape_ok(),
        r is Err ==> r->Err_0.error_type == OACErrorKind::ShapeMismatch,
        r is Ok ==> r->Ok_0 == oa_stratified(*oa),
{
    let n = oa.points.len();
    let mut i: usize = 0;
    while i < n
        invariant
            i <= n,
            n == oa.points@.len(),
            forall|k: int| 0 <= k < i ==> (#[trigger] oa.points@[k])@.len() == oa.factors,
        decreases n - i,
    {
        if oa.points[i].len() as u64 != oa.factors {
            return Err(
                OAConstructionError::new(
                    OACErrorKind::ShapeMismatch,
                    "points shape disagrees with factors",
                ),
            );
        }
        i = i + 1;
    }
    if oa.strength > oa.factors {
        // no selection of `strength` distinct columns exists, so the
        // stratification guarantee holds vacuously
        proof {
            assert forall|c: Seq<u64>|
                is_col_combo(c, oa.factors, oa.strength as nat) implies #[trigger] combo_balanced(
                oa.rows(),
                c,
                oa.levels as int,
                pow(oa.levels as int, oa.strength as nat),
                oa.index,
            ) by {
                lemma_combo_entry_at_least(c, oa.factors, oa.strength as nat, oa.factors as int);
                assert(c[oa.factors as int] < oa.factors);
                assert(false);
            }
            assert(oa_stratified(*oa));
        }
        return Ok(true);
    }
    let mut cap: u64 = 1;
    let mut e: u64 = 0;
    proof {
        vstd::arithmetic::power::lemma_pow0(oa.levels as int);
    }
    while e < oa.strength
        invariant
            e <= oa.strength,
            cap == pow(oa.levels as int, e as nat),
            pow(oa.levels as int, oa.strength as nat) <= usize::MAX as int,
        decreases oa.strength - e,
    {
        proof {
            vstd::arithmetic::power::lemma_pow1(oa.levels as int);
            vstd::arithmetic::power::lemma_pow_adds(oa.levels as int, e as nat, 1);
            if oa.levels >= 1 {
                vstd::arithmetic::power::lemma_pow_increases(
                    oa.levels as nat,
                    (e + 1) as nat,
                    oa.strength as nat,
                );
            } else {
                vstd::arithmetic::power::lemma0_pow((e + 1) as nat);
            }
            assert((cap as int) * (oa.levels as int) == pow(oa.levels as int, (e + 1) as nat));
            assert((cap as int) * (oa.levels as int) <= usize::MAX as int);
        }
        cap = cap * oa.levels;
        e = e + 1;
    }
    let cap_usize = cap as usize;
    let combos = column_combinations(oa.factors, oa.strength as usize);
    let ghost rows = oa.points@.map_values(|row: Vec<u64>| row@);
    let mut ci: usize = 0;
    while ci < combos.len()
        invariant
            ci <= combos@.len(),
            rows == oa.rows(),
            oa.shape_ok(),
            cap == pow(oa.levels as int, oa.strength as nat),
            cap_usize == cap,
            forall|k: int|
                0 <= k < combos@.len() ==> is_col_combo(
                    (#[trigger] combos@[k])@,
                    oa.factors,
                    oa.strength as nat,
                ),
            forall|c: Seq<u64>|
                is_col_combo(c, oa.factors, oa.strength as nat) ==> exists|k: int|
                    0 <= k < combos@.len() && (#[trigger] combos@[k])@ == c,
            forall|k: int|
                0 <= k < ci ==> #[trigger] combo_balanced(
                    rows,
                    combos@[k]@,
                    oa.levels as int,
                    cap as int,
                    oa.index,
                ),
        decreases combos@.len() - ci,
    {
        let balanced = combo_is_balanced(&oa.points, &combos[ci], oa.levels, cap_usize, oa.index);
        if !balanced {
            proof {
                assert(!combo_balanced(rows, combos@[ci as int]@, oa.levels as int, cap as int, oa.index));
                assert(is_col_combo(combos@[ci as int]@, oa.factors, oa.strength as nat));
                assert(!oa_stratified(*oa));
            }
            return Ok(false);
        }
        ci = ci + 1;
    }
    proof {
        assert forall|c: Seq<u64>| is_col_combo(c, oa.factors, oa.strength as nat) implies
            #[trigger] combo_balanced(
            rows,
            c,
            oa.levels as int,
            pow(oa.levels as int, oa.strength as nat),
            oa.index,
        ) by {
            let k = choose|k: int| 0 <= k < combos@.len() && (#[trigger] combos@[k])@ == c;
            assert(combo_balanced(rows, combos@[k]@, oa.levels as int, cap as int, oa.index));
        }
        assert(oa_stratified(*oa));
    }
    Ok(true)
}


/// Verification is deterministic and free of side effects: `verify` borrows
/// the array immutably, and its contract pins the outcome to the array's
/// value alone, so any two results that meet that contract for the same
/// array carry the same verdict.
pub proof fn lemma_verify_deterministic(
    oa: OA,
    r1: Result<bool, OAConstructionError>,
    r2: Result<bool, OAConstructionError>,
)
    requires
        r1 is Ok <==> oa.shape_ok(),
        r1 is Ok ==> r1->Ok_0 == oa_stratified(oa),
        r2 is Ok <==> oa.shape_ok(),
        r2 is Ok ==> r2->Ok_0 == oa_stratified(oa),
    ensures
        r1 is Ok <==> r2 is Ok,
        r1 is Ok ==> r1->Ok_0 == r2->Ok_0,
{
}

} // verus!
