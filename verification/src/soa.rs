//! Generic interfaces and definitions for strong orthogonal arrays (SOAs).
//!
//! This module defines the strong orthogonal array entity, a trait for
//! constructing SOAs, and the exhaustive verification method that checks that
//! a point set is stratified as an SOA should be: under every way of
//! splitting the strength across the chosen columns, the reduced points must
//! form a balanced design.

use vstd::arithmetic::power::pow;
use vstd::pervasive::VecAdditionalExecFns;
use vstd::prelude::*;

verus! {

/// The general categories of errors for `SOAConstructionError`.
#[derive(Debug, Clone, Copy, PartialEq, Eq, Structural)]
pub enum SOACErrorKind {
    /// Invalid parameters were supplied to the constructor.
    InvalidParams,
    /// A mathematically valid request that the construction method cannot
    /// handle, such as deriving an SOA from an array whose strength is not 3.
    UnsupportedParams,
    /// A runtime condition (such as a size that does not fit in the machine's
    /// integers) prevented the strong orthogonal array from being properly
    /// constructed.
    RuntimeError,
}

/// An error indicating that there was some error constructing the strong
/// orthogonal array.
#[derive(Debug)]
pub struct SOAConstructionError {
    /// The general category of the error.
    pub error_type: SOACErrorKind,
    /// A user-friendly description which can supply additional information
    /// about the error.
    pub desc: String,
}

impl SOAConstructionError {
    /// Build an error of the given category carrying a description.
    pub fn new(kind: SOACErrorKind, msg: &str) -> (r: Self)
        ensures
            r.error_type == kind,
            r.desc@ == msg@,
    {
        SOAConstructionError { error_type: kind, desc: msg.to_string() }
    }
}

/// A result type for strong orthogonal array construction.
pub type SOAResult = Result<SOA, SOAConstructionError>;

/// A trait that demarcates SOA constructors.
pub trait SOAConstructor {
    /// The method that generates an SOA. Any verification for the parameters
    /// must be handled by the constructor itself.
    fn gen(&self) -> SOAResult;
}

/// A structure representing a strong orthogonal array, consisting of the
/// array and associated metadata.
#[derive(Debug)]
pub struct SOA {
    /// The strength of the strong orthogonal array.
    pub strength: u32,
    /// The base `s` used to derive the number of levels and total number of
    /// samples.
    pub base: u32,
    /// The internal matrix that holds the data for the strong orthogonal
    /// array, one inner vector per row of points.
    pub points: Vec<Vec<u32>>,
}

impl SOA {
    /// The point matrix as a sequence of rows.
    pub open spec fn rows(&self) -> Seq<Seq<u32>> {
        self.points@.map_values(|r: Vec<u32>| r@)
    }

    /// The number of columns: the width of the first row of an array that
    /// has any rows.
    pub open spec fn cols(&self) -> int {
        if self.points@.len() == 0 {
            0
        } else {
            self.points@[0]@.len() as int
        }
    }

    /// Every row has the same number of entries.
    pub open spec fn shape_ok(&self) -> bool {
        forall|i: int|
            0 <= i < self.points@.len() ==> (#[trigger] self.points@[i])@.len() == self.cols()
    }
}

/// The sum of a sequence of numbers.
pub open spec fn sum_seq(s: Seq<u32>) -> int
    decreases s.len(),
{
    if s.len() == 0 {
        0
    } else {
        s[0] + sum_seq(s.skip(1))
    }
}

/// An ordered splitting of `t` into positive parts: the parts sum to `t`,
/// and each lies between 1 and `t`.
pub open spec fn is_composition(parts: Seq<u32>, t: u32) -> bool {
    &&& sum_seq(parts) == t
    &&& forall|i: int| 0 <= i < parts.len() ==> 1 <= #[trigger] parts[i] <= t
}

/// Appending an element adds its value to the sum.
proof fn lemma_sum_push(s: Seq<u32>, x: u32)
    ensures
        sum_seq(s.push(x)) == sum_seq(s) + x,
    decreases s.len(),
{
    assert(sum_seq(s.push(x)) == s.push(x)[0] + sum_seq(s.push(x).skip(1)));
    if s.len() == 0 {
        assert(s.push(x).skip(1) =~= Seq::<u32>::empty());
        assert(sum_seq(s.push(x).skip(1)) == 0);
    } else {
        assert(s.push(x).skip(1) =~= s.skip(1).push(x));
        lemma_sum_push(s.skip(1), x);
        assert(sum_seq(s) == s[0] + sum_seq(s.skip(1)));
    }
}

/// A sequence of positive numbers sums to at least its length.
proof fn lemma_sum_ge_len(s: Seq<u32>)
    requires
        forall|i: int| 0 <= i < s.len() ==> 1 <= #[trigger] s[i],
    ensures
        sum_seq(s) >= s.len(),
    decreases s.len(),
{
    if s.len() > 0 {
        lemma_sum_ge_len(s.skip(1));
    }
}

/// No suffix of a sequence sums to more than the whole sequence.
proof fn lemma_sum_suffix_le(s: Seq<u32>, k: int)
    requires
        0 <= k <= s.len(),
    ensures
        0 <= sum_seq(s.skip(k)) <= sum_seq(s),
    decreases k,
{
    lemma_sum_nonneg(s.skip(k));
    if k == 0 {
        assert(s.skip(0) =~= s);
    }
    if k > 0 {
        lemma_sum_suffix_le(s, k - 1);
        assert(s.skip(k - 1).skip(1) =~= s.skip(k));
        assert(sum_seq(s.skip(k - 1)) == s.skip(k - 1)[0] + sum_seq(s.skip(k - 1).skip(1)));
    }
}

/// A sum of numbers is nonnegative.
proof fn lemma_sum_nonneg(s: Seq<u32>)
    ensures
        sum_seq(s) >= 0,
    decreases s.len(),
{
    if s.len() > 0 {
        lemma_sum_nonneg(s.skip(1));
    }
}

/// Copy a vector of numbers.
fn copied(v: &Vec<u32>) -> (r: Vec<u32>)
    ensures
        r@ == v@,
{
    let mut r: Vec<u32> = Vec::new();
    let mut i: usize = 0;
    while i < v.len()
        invariant
            i <= v@.len(),
            r@ =~= v@.take(i as int),
        decreases v@.len() - i,
    {
        r.push(v[i]);
        proof {
            assert(r@ =~= v@.take(i + 1));
        }
        i = i + 1;
    }
    proof {
        assert(v@.take(v@.len() as int) =~= v@);
    }
    r
}

/// The parts of a sequence never decrease from one position to the next.
pub open spec fn nondecreasing(s: Seq<u32>) -> bool {
    forall|i: int| 0 <= i < s.len() - 1 ==> #[trigger] s[i] <= s[i + 1]
}

/// An integer partition of `sum`: positive parts, in nondecreasing order,
/// summing to `sum`.
pub open spec fn is_partition(s: Seq<u32>, sum: u32) -> bool {
    &&& sum_seq(s) == sum
    &&& forall|i: int| 0 <= i < s.len() ==> 1 <= #[trigger] s[i]
    &&& nondecreasing(s)
}

/// The smallest part that may follow the partial combination `s`: its last
/// entry, or 1 when it is empty.
pub open spec fn part_floor(s: Seq<u32>) -> u32 {
    if s.len() == 0 {
        1
    } else {
        s[s.len() - 1]
    }
}

/// One step of the partition enumeration: if the accumulator already holds
/// exactly the admissible extensions of `arr` whose first part is below `k`,
/// and a recursive call has appended exactly the admissible extensions that
/// begin with `k` itself, then the accumulator holds exactly the admissible
/// extensions whose first part is below `k + 1`, still pairwise distinct.
#[verifier::rlimit(100)]
proof fn lemma_sum_perms_step(
    sum: u32,
    reduced_num: u32,
    arr: Seq<u32>,
    k: int,
    base: int,
    before: Seq<Vec<u32>>,
    after: Seq<Vec<u32>>,
)
    requires
        sum_seq(arr) + reduced_num == sum,
        forall|i: int| 0 <= i < arr.len() ==> 1 <= #[trigger] arr[i],
        nondecreasing(arr),
        part_floor(arr) as int <= k <= sum as int,
        1 <= part_floor(arr),
        0 <= base <= before.len() <= after.len(),
        forall|i: int| 0 <= i < before.len() ==> #[trigger] after[i] == before[i],
        forall|i: int|
            base <= i < before.len() ==> ({
                let e = (#[trigger] before[i])@;
                &&& sum_seq(e) == sum
                &&& forall|q: int| 0 <= q < e.len() ==> 1 <= #[trigger] e[q]
                &&& nondecreasing(e)
                &&& e.len() >= arr.len()
                &&& e.take(arr.len() as int) == arr
            }),
        forall|i: int|
            base <= i < before.len() ==> ((#[trigger] before[i])@.len() == arr.len() || (
            before[i]@.len() > arr.len() && (before[i]@[arr.len() as int] as int) < k)),
        forall|ext: Seq<u32>|
            #![trigger sum_seq(ext)]
            sum_seq(ext) == reduced_num && (forall|q: int|
                0 <= q < ext.len() ==> 1 <= #[trigger] ext[q]) && nondecreasing(ext) && (ext.len()
                > 0 ==> part_floor(arr) <= ext[0] && (ext[0] as int) < k) ==> exists|i: int|
                base <= i < before.len() && (#[trigger] before[i])@ == arr + ext,
        forall|i: int, j: int|
            base <= i < j < before.len() ==> (#[trigger] before[i])@ != (#[trigger] before[j])@,
        k > reduced_num ==> after == before,
        k <= reduced_num ==> forall|i: int|
            before.len() <= i < after.len() ==> ({
                let e = (#[trigger] after[i])@;
                &&& sum_seq(e) == sum
                &&& forall|q: int| 0 <= q < e.len() ==> 1 <= #[trigger] e[q]
                &&& nondecreasing(e)
                &&& e.len() >= arr.len() + 1
                &&& e.take(arr.len() as int + 1) == arr.push(k as u32)
            }),
        k <= reduced_num ==> forall|ext: Seq<u32>|
            #![trigger sum_seq(ext)]
            sum_seq(ext) == reduced_num - k && (forall|q: int|
                0 <= q < ext.len() ==> 1 <= #[trigger] ext[q]) && nondecreasing(ext) && (ext.len()
                > 0 ==> k as u32 <= ext[0]) ==> exists|i: int|
                before.len() <= i < after.len() && (#[trigger] after[i])@ == arr.push(k as u32)
                    + ext,
        k <= reduced_num ==> forall|i: int, j: int|
            before.len() <= i < j < after.len() ==> (#[trigger] after[i])@ != (
            #[trigger] after[j])@,
    ensures
        forall|i: int|
            base <= i < after.len() ==> ({
                let e = (#[trigger] after[i])@;
                &&& sum_seq(e) == sum
                &&& forall|q: int| 0 <= q < e.len() ==> 1 <= #[trigger] e[q]
                &&& nondecreasing(e)
                &&& e.len() >= arr.len()
                &&& e.take(arr.len() as int) == arr
            }),
        forall|i: int|
            base <= i < after.len() ==> ((#[trigger] after[i])@.len() == arr.len() || (
            after[i]@.len() > arr.len() && (after[i]@[arr.len() as int] as int) < k + 1)),
        forall|ext: Seq<u32>|
            #![trigger sum_seq(ext)]
            sum_seq(ext) == reduced_num && (forall|q: int|
                0 <= q < ext.len() ==> 1 <= #[trigger] ext[q]) && nondecreasing(ext) && (ext.len()
                > 0 ==> part_floor(arr) <= ext[0] && (ext[0] as int) < k + 1) ==> exists|i: int|
                base <= i < after.len() && (#[trigger] after[i])@ == arr + ext,
        forall|i: int, j: int|
            base <= i < j < after.len() ==> (#[trigger] after[i])@ != (#[trigger] after[j])@,
{
    let next = arr.push(k as u32);
    assert forall|i: int|
        base <= i < after.len() implies ({
            let e = (#[trigger] after[i])@;
            &&& sum_seq(e) == sum
            &&& forall|q: int| 0 <= q < e.len() ==> 1 <= #[trigger] e[q]
            &&& nondecreasing(e)
            &&& e.len() >= arr.len()
            &&& e.take(arr.len() as int) == arr
            &&& (e.len() == arr.len() || (e.len() > arr.len() && (e[arr.len() as int] as int) < k
                + 1))
        }) by {
        let e = after[i]@;
        if i < before.len() {
            assert(after[i] == before[i]);
        } else {
            assert(k <= reduced_num);
            assert(e.take(arr.len() as int + 1) == next);
            assert forall|q: int| 0 <= q < arr.len() implies #[trigger] e[q] == arr[q] by {
                assert(e.take(arr.len() as int + 1)[q] == e[q]);
            }
            assert(e.take(arr.len() as int) =~= arr);
            assert(e.take(arr.len() as int + 1)[arr.len() as int] == e[arr.len() as int]);
            assert(e[arr.len() as int] == k as u32);
        }
    }
    assert forall|ext: Seq<u32>|
        #![trigger sum_seq(ext)]
        sum_seq(ext) == reduced_num && (forall|q: int|
            0 <= q < ext.len() ==> 1 <= #[trigger] ext[q]) && nondecreasing(ext) && (ext.len() > 0
            ==> part_floor(arr) <= ext[0] && (ext[0] as int) < k + 1) implies exists|i: int|
        base <= i < after.len() && (#[trigger] after[i])@ == arr + ext by {
        if ext.len() == 0 || (ext[0] as int) < k {
            let i = choose|i: int|
                base <= i < before.len() && (#[trigger] before[i])@ == arr + ext;
            assert(after[i]@ == arr + ext);
        } else {
            assert(ext[0] as int == k);
            lemma_sum_part_le(ext, 0);
            assert(k <= reduced_num);
            let tail = ext.skip(1);
            assert(sum_seq(ext) == ext[0] + sum_seq(tail));
            assert forall|q: int| 0 <= q < tail.len() implies 1 <= #[trigger] tail[q] by {
                assert(tail[q] == ext[q + 1]);
            }
            assert forall|q: int| 0 <= q < tail.len() - 1 implies #[trigger] tail[q] <= tail[q
                + 1] by {
                assert(tail[q] == ext[q + 1]);
                assert(tail[q + 1] == ext[q + 2]);
            }
            assert(nondecreasing(tail));
            if tail.len() > 0 {
                assert(ext[0] <= ext[1]);
                assert(k as u32 <= tail[0]);
            }
            assert(sum_seq(tail) == reduced_num - k);
            let i = choose|i: int|
                before.len() <= i < after.len() && (#[trigger] after[i])@ == next + tail;
            assert(next + tail =~= arr + ext);
            assert(after[i]@ == arr + ext);
        }
    }
    assert forall|i: int, j: int|
        base <= i < j < after.len() implies (#[trigger] after[i])@ != (#[trigger] after[j])@ by {
        if j < before.len() {
            assert(after[i] == before[i]);
            assert(after[j] == before[j]);
        } else if i >= before.len() {
        } else {
            assert(after[i] == before[i]);
            assert(k <= reduced_num);
            assert(after[j]@.take(arr.len() as int + 1) == next);
            assert(after[j]@.take(arr.len() as int + 1)[arr.len() as int] == after[j]@[arr.len() as int]);
            assert(after[j]@[arr.len() as int] == k as u32);
            assert(after[j]@.len() > arr.len());
            if after[i]@.len() == arr.len() {
                assert(after[i]@.len() != after[j]@.len());
            } else {
                assert((after[i]@[arr.len() as int] as int) < k);
                assert(after[i]@[arr.len() as int] != after[j]@[arr.len() as int]);
            }
        }
    }
}

/// Recursive utility method to determine the combinations of numbers that
/// add up to some given sum.
///
/// `sum` is the target sum, `reduced_num` the portion that remains after the
/// numbers in `arr` have been chosen, and `res` the accumulator: what was
/// already there is left untouched, and the appended entries are exactly the
/// extensions of `arr` by every nondecreasing run of parts, each at least
/// `arr`'s last part, that makes up the remainder -- each such extension
/// exactly once.
#[verifier::rlimit(100)]
pub fn sum_perms_helper(sum: u32, reduced_num: u32, arr: &Vec<u32>, res: &mut Vec<Vec<u32>>)
    requires
        sum_seq(arr@) + reduced_num == sum,
        forall|i: int| 0 <= i < arr@.len() ==> 1 <= #[trigger] arr@[i],
        nondecreasing(arr@),
    ensures
        final(res)@.len() >= old(res)@.len(),
        forall|i: int| 0 <= i < old(res)@.len() ==> final(res)@[i] == old(res)@[i],
        forall|i: int|
            old(res)@.len() <= i < final(res)@.len() ==> ({
                let e = (#[trigger] final(res)@[i])@;
                &&& sum_seq(e) == sum
                &&& forall|q: int| 0 <= q < e.len() ==> 1 <= #[trigger] e[q]
                &&& nondecreasing(e)
                &&& e.len() >= arr@.len()
                &&& e.take(arr@.len() as int) == arr@
            }),
        forall|ext: Seq<u32>|
            #![trigger sum_seq(ext)]
            sum_seq(ext) == reduced_num && (forall|q: int|
                0 <= q < ext.len() ==> 1 <= #[trigger] ext[q]) && nondecreasing(ext) && (ext.len()
                > 0 ==> part_floor(arr@) <= ext[0]) ==> exists|i: int|
                old(res)@.len() <= i < final(res)@.len() && (#[trigger] final(res)@[i])@ == arr@
                    + ext,
        forall|i: int, j: int|
            old(res)@.len() <= i < j < final(res)@.len() ==> (#[trigger] final(res)@[i])@ != (
            #[trigger] final(res)@[j])@,
    decreases reduced_num,
{
    let ghost entered = res@;
    if reduced_num == 0 {
        let complete = copied(arr);
        res.push(complete);
        proof {
            assert(res@[entered.len() as int]@ == arr@);
        }
    }
    proof {
        assert(arr@.take(arr@.len() as int) =~= arr@);
    }
    let prev: u32 = if arr.len() == 0 {
        1
    } else {
        arr[arr.len() - 1]
    };
    proof {
        assert(prev == part_floor(arr@));
        assert forall|ext: Seq<u32>|
            #![trigger sum_seq(ext)]
            sum_seq(ext) == reduced_num && (forall|q: int|
                0 <= q < ext.len() ==> 1 <= #[trigger] ext[q]) && nondecreasing(ext) && (ext.len()
                > 0 ==> part_floor(arr@) <= ext[0] && (ext[0] as int) < prev as int) implies exists|i: int|
            entered.len() <= i < res@.len() && (#[trigger] res@[i])@ == arr@ + ext by {
            assert(ext.len() == 0);
            assert(sum_seq(ext) == 0);
            assert(arr@ + ext =~= arr@);
            assert(res@[entered.len() as int]@ == arr@ + ext);
        }
    }
    let mut k: u64 = prev as u64;
    while k <= sum as u64
        invariant
            sum_seq(arr@) + reduced_num == sum,
            forall|i: int| 0 <= i < arr@.len() ==> 1 <= #[trigger] arr@[i],
            nondecreasing(arr@),
            prev == part_floor(arr@),
            1 <= prev,
            prev as u64 <= k,
            res@.len() >= entered.len(),
            forall|i: int| 0 <= i < entered.len() ==> res@[i] == entered[i],
            forall|i: int|
                entered.len() <= i < res@.len() ==> ({
                    let e = (#[trigger] res@[i])@;
                    &&& sum_seq(e) == sum
                    &&& forall|q: int| 0 <= q < e.len() ==> 1 <= #[trigger] e[q]
                    &&& nondecreasing(e)
                    &&& e.len() >= arr@.len()
                    &&& e.take(arr@.len() as int) == arr@
                }),
            forall|i: int|
                entered.len() <= i < res@.len() ==> ((#[trigger] res@[i])@.len() == arr@.len() || (
                res@[i]@.len() > arr@.len() && (res@[i]@[arr@.len() as int] as int) < k)),
            forall|ext: Seq<u32>|
                #![trigger sum_seq(ext)]
                sum_seq(ext) == reduced_num && (forall|q: int|
                    0 <= q < ext.len() ==> 1 <= #[trigger] ext[q]) && nondecreasing(ext) && (
                ext.len() > 0 ==> part_floor(arr@) <= ext[0] && (ext[0] as int) < k) ==> exists|
                    i: int,
                |
                    entered.len() <= i < res@.len() && (#[trigger] res@[i])@ == arr@ + ext,
            forall|i: int, j: int|
                entered.len() <= i < j < res@.len() ==> (#[trigger] res@[i])@ != (
                #[trigger] res@[j])@,
        decreases sum as int + 1 - k,
    {
        let ghost res_at_head = res@;
        let mut next_arr = copied(arr);
        next_arr.push(k as u32);
        proof {
            lemma_sum_push(arr@, k as u32);
            assert(next_arr@ == arr@.push(k as u32));
            assert forall|i: int| 0 <= i < next_arr@.len() - 1 implies #[trigger] next_arr@[i]
                <= next_arr@[i + 1] by {
                if i < arr@.len() - 1 {
                    assert(next_arr@[i] == arr@[i]);
                    assert(next_arr@[i + 1] == arr@[i + 1]);
                } else {
                    assert(next_arr@[i] == arr@[i]);
                    assert(arr@[i] == part_floor(arr@));
                    assert(next_arr@[i + 1] == k as u32);
                }
            }
            assert(nondecreasing(next_arr@));
            assert forall|i: int| 0 <= i < next_arr@.len() implies 1 <= #[trigger] next_arr@[i] by {
                if i < arr@.len() {
                    assert(next_arr@[i] == arr@[i]);
                }
            }
            assert(part_floor(next_arr@) == k as u32);
        }
        if (k as u32) <= reduced_num {
            sum_perms_helper(sum, reduced_num - (k as u32), &next_arr, res);
        }
        proof {
            assert forall|i: int| 0 <= i < res_at_head.len() implies #[trigger] res@[i]
                == res_at_head[i] by {}
            lemma_sum_perms_step(
                sum,
                reduced_num,
                arr@,
                k as int,
                entered.len() as int,
                res_at_head,
                res@,
            );
        }
        k = k + 1;
    }
    proof {
        assert forall|ext: Seq<u32>|
            #![trigger sum_seq(ext)]
            sum_seq(ext) == reduced_num && (forall|q: int|
                0 <= q < ext.len() ==> 1 <= #[trigger] ext[q]) && nondecreasing(ext) && (ext.len()
                > 0 ==> part_floor(arr@) <= ext[0]) implies exists|i: int|
            entered.len() <= i < res@.len() && (#[trigger] res@[i])@ == arr@ + ext by {
            if ext.len() > 0 {
                lemma_sum_part_le(ext, 0);
                lemma_sum_nonneg(arr@);
                assert((ext[0] as int) < k);
            }
        }
    }
}

/// Given some desired sum, find all of the combinations of numbers that add
/// up to the desired sum: the integer partitions of `sum`, each written in
/// nondecreasing order and each appearing exactly once. This is used to
/// generate the strata when studying a strong orthogonal array.
///
/// This method is a convenience wrapper for the recursive solver.
pub fn sum_perms(sum: u32) -> (r: Vec<Vec<u32>>)
    ensures
        forall|i: int| 0 <= i < r@.len() ==> is_partition((#[trigger] r@[i])@, sum),
        forall|s: Seq<u32>|
            is_partition(s, sum) ==> exists|i: int| 0 <= i < r@.len() && (#[trigger] r@[i])@ == s,
        forall|i: int, j: int| 0 <= i < j < r@.len() ==> (#[trigger] r@[i])@ != (#[trigger] r@[j])@,
{
    let mut res: Vec<Vec<u32>> = Vec::new();
    let arr: Vec<u32> = Vec::new();
    sum_perms_helper(sum, sum, &arr, &mut res);
    proof {
        assert forall|s: Seq<u32>| is_partition(s, sum) implies exists|i: int|
            0 <= i < res@.len() && (#[trigger] res@[i])@ == s by {
            assert(sum_seq(s) == sum);
            let i = choose|i: int| 0 <= i < res@.len() && (#[trigger] res@[i])@ == arr@ + s;
            assert(arr@ + s =~= s);
            assert(res@[i]@ == s);
        }
    }
    res
}

/// Every ordered splitting of `t` into positive parts, each exactly once.
///
/// The first part ranges over 1 to `t`, and the rest is any splitting of
/// what remains: the recursion enumerates every composition, which the
/// ensures clause pins down in both directions.
fn compositions(t: u32) -> (r: Vec<Vec<u32>>)
    ensures
        forall|i: int| 0 <= i < r@.len() ==> is_composition((#[trigger] r@[i])@, t),
        forall|s: Seq<u32>|
            is_composition(s, t) ==> exists|i: int| 0 <= i < r@.len() && (#[trigger] r@[i])@ == s,
    decreases t,
{
    let mut res: Vec<Vec<u32>> = Vec::new();
    if t == 0 {
        let empty: Vec<u32> = Vec::new();
        res.push(empty);
        proof {
            assert forall|s: Seq<u32>| is_composition(s, 0) implies exists|i: int|
                0 <= i < res@.len() && (#[trigger] res@[i])@ == s by {
                lemma_sum_ge_len(s);
                assert(s =~= res@[0]@);
            }
        }
        return res;
    }
    let mut k: u64 = 1;
    while k <= t as u64
        invariant
            1 <= k <= t as u64 + 1,
            t >= 1,
            forall|i: int| 0 <= i < res@.len() ==> is_composition((#[trigger] res@[i])@, t),
            forall|s: Seq<u32>|
                is_composition(s, t) && s.len() > 0 && s[0] < k ==> exists|i: int|
                    0 <= i < res@.len() && (#[trigger] res@[i])@ == s,
        decreases t as int + 1 - k,
    {
        let tk: u32 = t - (k as u32);
        let rest = compositions(tk);
        let mut j: usize = 0;
        while j < rest.len()
            invariant
                1 <= k <= t,
                t >= 1,
                tk == t - k,
                forall|i: int|
                    0 <= i < rest@.len() ==> is_composition((#[trigger] rest@[i])@, tk),
                forall|s: Seq<u32>|
                    is_composition(s, tk) ==> exists|i: int|
                        0 <= i < rest@.len() && (#[trigger] rest@[i])@ == s,
                j <= rest@.len(),
                forall|i: int| 0 <= i < res@.len() ==> is_composition((#[trigger] res@[i])@, t),
                forall|s: Seq<u32>|
                    is_composition(s, t) && s.len() > 0 && s[0] < k ==> exists|i: int|
                        0 <= i < res@.len() && (#[trigger] res@[i])@ == s,
                forall|m: int| #![trigger rest@[m]]
                    0 <= m < j ==> exists|i: int|
                        0 <= i < res@.len() && (#[trigger] res@[i])@ == seq![k as u32].add(rest@[m]@),
            decreases rest@.len() - j,
        {
            let mut comp: Vec<u32> = Vec::new();
            comp.push(k as u32);
            let mut q: usize = 0;
            while q < rest[j].len()
                invariant
                    0 <= j < rest@.len(),
                    q <= rest@[j as int]@.len(),
                    comp@ =~= seq![k as u32].add(rest@[j as int]@.take(q as int)),
                decreases rest@[j as int]@.len() - q,
            {
                comp.push(rest[j][q]);
                proof {
                    assert(comp@ =~= seq![k as u32].add(rest@[j as int]@.take(q + 1)));
                }
                q = q + 1;
            }
            proof {
                assert(rest@[j as int]@.take(rest@[j as int]@.len() as int) =~= rest@[j as int]@);
                assert(comp@ == seq![k as u32].add(rest@[j as int]@));
                assert(comp@.skip(1) =~= rest@[j as int]@);
                assert(comp@[0] == k as u32);
                assert(sum_seq(comp@) == comp@[0] + sum_seq(comp@.skip(1)));
                assert(is_composition(rest@[j as int]@, tk));
                assert forall|q: int| 0 <= q < comp@.len() implies 1 <= #[trigger] comp@[q] <= t
                    by {
                    if q > 0 {
                        assert(comp@[q] == rest@[j as int]@[q - 1]);
                    }
                }
                assert(is_composition(comp@, t));
            }
            let ghost res_before = res@;
            let ghost this_comp = comp@;
            res.push(comp);
            proof {
                assert(res@ == res_before.push(comp));
                assert forall|s: Seq<u32>|
                    is_composition(s, t) && s.len() > 0 && s[0] < k implies exists|i: int|
                    0 <= i < res@.len() && (#[trigger] res@[i])@ == s by {
                    let i = choose|i: int|
                        0 <= i < res_before.len() && (#[trigger] res_before[i])@ == s;
                    assert(res@[i]@ == s);
                }
                assert forall|m: int| #![trigger rest@[m]] 0 <= m < j + 1 implies exists|i: int|
                    0 <= i < res@.len() && (#[trigger] res@[i])@ == seq![k as u32].add(
                    rest@[m]@,
                ) by {
                    if m < j {
                        let i = choose|i: int|
                            0 <= i < res_before.len() && (#[trigger] res_before[i])@ == seq![
                                k as u32,
                            ].add(rest@[m]@);
                        assert(res@[i]@ == seq![k as u32].add(rest@[m]@));
                    } else {
                        assert(res@[res_before.len() as int]@ == seq![k as u32].add(rest@[m]@));
                    }
                }
            }
            j = j + 1;
        }
        proof {
            assert forall|s: Seq<u32>|
                is_composition(s, t) && s.len() > 0 && s[0] < k + 1 implies exists|i: int|
                0 <= i < res@.len() && (#[trigger] res@[i])@ == s by {
                if s[0] == k as u32 {
                    let tail = s.skip(1);
                    assert(sum_seq(s) == s[0] + sum_seq(tail));
                    assert forall|q: int| 0 <= q < tail.len() implies 1 <= #[trigger] tail[q] <= tk
                        by {
                        assert(tail[q] == s[q + 1]);
                        lemma_sum_suffix_le(s, 1);
                        lemma_sum_part_le(tail, q);
                    }
                    assert(is_composition(tail, tk));
                    let m = choose|m: int|
                        0 <= m < rest@.len() && (#[trigger] rest@[m])@ == tail;
                    let i = choose|i: int|
                        0 <= i < res@.len() && (#[trigger] res@[i])@ == seq![k as u32].add(rest@[m]@);
                    assert(seq![k as u32].add(tail) =~= s);
                    assert(res@[i]@ == s);
                }
            }
        }
        k = k + 1;
    }
    proof {
        assert forall|s: Seq<u32>| is_composition(s, t) implies exists|i: int|
            0 <= i < res@.len() && (#[trigger] res@[i])@ == s by {
            assert(s.len() > 0) by {
                if s.len() == 0 {
                    assert(sum_seq(s) == 0);
                }
            }
            assert(s[0] < k);
        }
    }
    res
}

/// One part of a sum of positive numbers is at most the whole sum.
proof fn lemma_sum_part_le(s: Seq<u32>, q: int)
    requires
        0 <= q < s.len(),
        forall|i: int| 0 <= i < s.len() ==> 1 <= #[trigger] s[i],
    ensures
        s[q] <= sum_seq(s),
    decreases q,
{
    lemma_sum_nonneg(s.skip(1));
    if q == 0 {
        lemma_sum_nonneg(s);
        assert(sum_seq(s) == s[0] + sum_seq(s.skip(1)));
    } else {
        lemma_sum_part_le(s.skip(1), q - 1);
        assert(s.skip(1)[q - 1] == s[q]);
    }
}


/// One reduced cell: the top `part` base-`base` digits of a value, obtained
/// by dividing away the `t - part` least significant digits.
pub open spec fn red_cell(v: u32, part: u32, base: u32, t: u32) -> int
    recommends
        base >= 1,
        part <= t,
{
    (v as int) / pow(base as int, (t - part) as nat)
}

/// The reduced cell of one row at position `q` of a column selection.
pub open spec fn red_at(row: Seq<u32>, combo: Seq<u64>, parts: Seq<u32>, base: u32, t: u32, q: int) -> int {
    red_cell(row[combo[q] as int], parts[q], base, t)
}

/// The reduced tuple of one row over the selected columns, encoded as a
/// single integer in the mixed radix given by the parts.
pub open spec fn red_code(row: Seq<u32>, combo: Seq<u64>, parts: Seq<u32>, base: u32, t: u32) -> int
    decreases combo.len(),
{
    if combo.len() == 0 {
        0
    } else {
        red_cell(row[combo[0] as int], parts[0], base, t) + pow(base as int, parts[0] as nat)
            * red_code(row, combo.skip(1), parts.skip(1), base, t)
    }
}

/// Every reduced cell of the row lies below its stratum count
/// `base^parts[q]`.
pub open spec fn red_in_range(row: Seq<u32>, combo: Seq<u64>, parts: Seq<u32>, base: u32, t: u32) -> bool {
    forall|q: int|
        0 <= q < combo.len() ==> #[trigger] red_at(row, combo, parts, base, t, q) < pow(
            base as int,
            parts[q] as nat,
        )
}

/// The number of rows whose reduced tuple over the selected columns encodes
/// to `v`.
pub open spec fn red_count(
    rows: Seq<Seq<u32>>,
    combo: Seq<u64>,
    parts: Seq<u32>,
    base: u32,
    t: u32,
    v: int,
) -> nat
    decreases rows.len(),
{
    if rows.len() == 0 {
        0
    } else {
        red_count(rows.drop_last(), combo, parts, base, t, v) + if red_code(
            rows.last(),
            combo,
            parts,
            base,
            t,
        ) == v {
            1nat
        } else {
            0nat
        }
    }
}

/// A count never exceeds the number of rows.
proof fn lemma_red_count_le_rows(
    rows: Seq<Seq<u32>>,
    combo: Seq<u64>,
    parts: Seq<u32>,
    base: u32,
    t: u32,
    v: int,
)
    ensures
        red_count(rows, combo, parts, base, t, v) <= rows.len(),
    decreases rows.len(),
{
    if rows.len() > 0 {
        lemma_red_count_le_rows(rows.drop_last(), combo, parts, base, t, v);
    }
}

/// One stratification test passes: under the given splitting of the strength
/// and selection of columns, every reduced cell is in range, and every one of
/// the `base^t` possible reduced tuples appears equally often and at least
/// once.
pub open spec fn soa_combo_ok(
    rows: Seq<Seq<u32>>,
    combo: Seq<u64>,
    parts: Seq<u32>,
    base: u32,
    t: u32,
) -> bool {
    &&& forall|i: int|
        0 <= i < rows.len() ==> red_in_range(#[trigger] rows[i], combo, parts, base, t)
    &&& red_count(rows, combo, parts, base, t, 0) >= 1
    &&& forall|v: int|
        0 <= v < pow(base as int, t as nat) ==> #[trigger] red_count(rows, combo, parts, base, t, v)
            == red_count(rows, combo, parts, base, t, 0)
}

/// The strong stratification guarantee: the array's shape is consistent, and
/// for every splitting of the strength into ordered positive parts and every
/// selection of as many columns, the reduced points form a balanced design.
pub open spec fn soa_valid(s: SOA) -> bool {
    &&& s.base >= 1
    &&& s.shape_ok()
    &&& forall|parts: Seq<u32>, combo: Seq<u64>|
        is_composition(parts, s.strength) && crate::oa::is_col_combo(
            combo,
            s.cols() as u64,
            parts.len(),
        ) ==> #[trigger] soa_combo_ok(s.rows(), combo, parts, s.base, s.strength)
}

/// Raise a positive base to a power whose value fits the machine's integers.
pub(crate) fn pow64(b: u64, e: u32) -> (r: u64)
    requires
        b >= 1,
        pow(b as int, e as nat) <= u64::MAX as int,
    ensures
        r as int == pow(b as int, e as nat),
{
    let mut cap: u64 = 1;
    let mut x: u32 = 0;
    proof {
        vstd::arithmetic::power::lemma_pow0(b as int);
    }
    while x < e
        invariant
            b >= 1,
            x <= e,
            cap as int == pow(b as int, x as nat),
            pow(b as int, e as nat) <= u64::MAX as int,
        decreases e - x,
    {
        proof {
            vstd::arithmetic::power::lemma_pow1(b as int);
            vstd::arithmetic::power::lemma_pow_adds(b as int, x as nat, 1);
            vstd::arithmetic::power::lemma_pow_increases(b as nat, (x + 1) as nat, e as nat);
        }
        cap = cap * b;
        x = x + 1;
    }
    cap
}

/// Raise a positive base to a power, reporting whether the value fits the
/// machine's integers.
pub(crate) fn checked_pow64(b: u64, e: u64) -> (r: Option<u64>)
    requires
        b >= 1,
    ensures
        match r {
            Some(v) => v as int == pow(b as int, e as nat),
            None => pow(b as int, e as nat) > u64::MAX as int,
        },
{
    let mut cap: u64 = 1;
    let mut x: u64 = 0;
    proof {
        vstd::arithmetic::power::lemma_pow0(b as int);
    }
    while x < e
        invariant
            b >= 1,
            x <= e,
            cap as int == pow(b as int, x as nat),
        decreases e - x,
    {
        proof {
            vstd::arithmetic::power::lemma_pow1(b as int);
            vstd::arithmetic::power::lemma_pow_adds(b as int, x as nat, 1);
        }
        cap = match cap.checked_mul(b) {
            Some(c) => c,
            None => {
                proof {
                    vstd::arithmetic::power::lemma_pow_increases(
                        b as nat,
                        (x + 1) as nat,
                        e as nat,
                    );
                }
                return None;
            },
        };
        x = x + 1;
    }
    Some(cap)
}

/// The reduced tuple code of one row, or `None` if some reduced cell is out
/// of range.
fn soa_row_code(row: &Vec<u32>, combo: &Vec<u64>, parts: &Vec<u32>, base: u32, t: u32) -> (r:
    Option<u64>)
    requires
        combo@.len() == parts@.len(),
        forall|q: int| 0 <= q < parts@.len() ==> 1 <= #[trigger] parts@[q] <= t,
        sum_seq(parts@) <= t,
        forall|q: int| 0 <= q < combo@.len() ==> #[trigger] combo@[q] < row@.len(),
        base >= 1,
        pow(base as int, t as nat) <= u64::MAX as int,
    ensures
        match r {
            Some(v) => red_in_range(row@, combo@, parts@, base, t) && v as int == red_code(
                row@,
                combo@,
                parts@,
                base,
                t,
            ) && (v as int) < pow(base as int, sum_seq(parts@) as nat),
            None => !red_in_range(row@, combo@, parts@, base, t),
        },
{
    let row_len = row.len();
    let mut acc: u64 = 0;
    let mut k: usize = combo.len();
    proof {
        assert(combo@.skip(k as int).len() == 0);
        assert(parts@.skip(k as int) =~= Seq::<u32>::empty());
        assert(sum_seq(parts@.skip(k as int)) == 0);
        vstd::arithmetic::power::lemma_pow0(base as int);
    }
    while k > 0
        invariant
            k <= combo@.len(),
            combo@.len() == parts@.len(),
            row@.len() == row_len,
            forall|q: int| 0 <= q < parts@.len() ==> 1 <= #[trigger] parts@[q] <= t,
            sum_seq(parts@) <= t,
            forall|q: int| 0 <= q < combo@.len() ==> #[trigger] combo@[q] < row@.len(),
            base >= 1,
            pow(base as int, t as nat) <= u64::MAX as int,
            acc as int == red_code(row@, combo@.skip(k as int), parts@.skip(k as int), base, t),
            (acc as int) < pow(base as int, sum_seq(parts@.skip(k as int)) as nat),
            forall|q: int|
                k <= q < combo@.len() ==> #[trigger] red_at(row@, combo@, parts@, base, t, q)
                    < pow(base as int, parts@[q] as nat),
        decreases k,
    {
        k = k - 1;
        let part = parts[k];
        proof {
            vstd::arithmetic::power::lemma_pow_increases(base as nat, (t - part) as nat, t as nat);
            vstd::arithmetic::power::lemma_pow_increases(base as nat, part as nat, t as nat);
            vstd::arithmetic::power::lemma_pow_positive(base as int, (t - part) as nat);
            vstd::arithmetic::power::lemma_pow_positive(base as int, part as nat);
        }
        let d = pow64(base as u64, t - part);
        let radix = pow64(base as u64, part);
        let c = combo[k];
        proof {
            assert(c < row_len);
        }
        let cell = row[c as usize] as u64;
        let red = cell / d;
        proof {
            assert(red as int == red_cell(row@[c as int], part, base, t));
            assert(red as int == red_at(row@, combo@, parts@, base, t, k as int));
        }
        if red >= radix {
            proof {
                assert(!red_in_range(row@, combo@, parts@, base, t));
            }
            return None;
        }
        let ghost sum_old = sum_seq(parts@.skip(k + 1));
        let ghost pow_old = pow(base as int, sum_old as nat);
        proof {
            assert(combo@.skip(k as int).skip(1) =~= combo@.skip(k + 1));
            assert(parts@.skip(k as int).skip(1) =~= parts@.skip(k + 1));
            assert(combo@.skip(k as int)[0] == combo@[k as int]);
            assert(parts@.skip(k as int)[0] == parts@[k as int]);
            assert(red_code(row@, combo@.skip(k as int), parts@.skip(k as int), base, t)
                == red_cell(row@[c as int], part, base, t) + pow(base as int, part as nat)
                * red_code(row@, combo@.skip(k + 1), parts@.skip(k + 1), base, t));
            assert(sum_seq(parts@.skip(k as int)) == part + sum_old);
            lemma_sum_nonneg(parts@.skip(k + 1));
            vstd::arithmetic::power::lemma_pow_adds(base as int, part as nat, sum_old as nat);
            assert(pow(base as int, (part + sum_old) as nat) == (radix as int) * pow_old);
            assert((red as int) + (radix as int) * (acc as int) < (radix as int) * pow_old)
                by (nonlinear_arith)
                requires
                    (red as int) <= (radix as int) - 1,
                    0 <= (acc as int) <= pow_old - 1,
                    (radix as int) >= 1,
                    pow_old >= 1,
            {}
            lemma_sum_suffix_le(parts@, k as int);
            vstd::arithmetic::power::lemma_pow_increases(
                base as nat,
                sum_seq(parts@.skip(k as int)) as nat,
                t as nat,
            );
        }
        acc = red + radix * acc;
    }
    proof {
        assert(combo@.skip(0) =~= combo@);
        assert(parts@.skip(0) =~= parts@);
    }
    Some(acc)
}

/// Tally the reduced tuples of every row for one splitting of the strength
/// and one selection of columns, and report whether that stratification test
/// passes.
fn soa_combo_check(
    points: &Vec<Vec<u32>>,
    combo: &Vec<u64>,
    parts: &Vec<u32>,
    base: u32,
    t: u32,
    cap: usize,
) -> (r: bool)
    requires
        combo@.len() == parts@.len(),
        forall|q: int| 0 <= q < parts@.len() ==> 1 <= #[trigger] parts@[q] <= t,
        sum_seq(parts@) == t,
        forall|q: int, i: int|
            0 <= q < combo@.len() && 0 <= i < points@.len() ==> #[trigger] combo@[q] < (
            #[trigger] points@[i])@.len(),
        base >= 1,
        cap as int == pow(base as int, t as nat),
    ensures
        r == soa_combo_ok(points@.map_values(|row: Vec<u32>| row@), combo@, parts@, base, t),
{
    let ghost rows = points@.map_values(|row: Vec<u32>| row@);
    let n = points.len();
    proof {
        vstd::arithmetic::power::lemma_pow_positive(base as int, t as nat);
    }
    let mut counts: Vec<u64> = Vec::new();
    while counts.len() < cap
        invariant
            counts@.len() <= cap,
            forall|v: int| 0 <= v < counts@.len() ==> counts@[v] == 0,
        decreases cap - counts@.len(),
    {
        counts.push(0);
    }
    let mut i: usize = 0;
    proof {
        assert(rows.take(0) =~= Seq::<Seq<u32>>::empty());
    }
    while i < n
        invariant
            i <= n,
            n == points@.len(),
            rows == points@.map_values(|row: Vec<u32>| row@),
            counts@.len() == cap,
            combo@.len() == parts@.len(),
            forall|q: int| 0 <= q < parts@.len() ==> 1 <= #[trigger] parts@[q] <= t,
            sum_seq(parts@) == t,
            forall|q: int, j: int|
                0 <= q < combo@.len() && 0 <= j < points@.len() ==> #[trigger] combo@[q] < (
                #[trigger] points@[j])@.len(),
            base >= 1,
            cap as int == pow(base as int, t as nat),
            forall|j: int| 0 <= j < i ==> red_in_range(#[trigger] rows[j], combo@, parts@, base, t),
            forall|v: int|
                0 <= v < cap ==> counts@[v] == red_count(
                    rows.take(i as int),
                    combo@,
                    parts@,
                    base,
                    t,
                    v,
                ),
        decreases n - i,
    {
        proof {
            assert(usize::MAX as int <= u64::MAX as int);
        }
        let code = soa_row_code(&points[i], combo, parts, base, t);
        proof {
            assert(rows.take(i + 1).drop_last() =~= rows.take(i as int));
            assert(rows.take(i + 1).last() == rows[i as int]);
            assert(rows[i as int] == points@[i as int]@);
        }
        match code {
            Some(v) => {
                let vi = v as usize;
                proof {
                    lemma_red_count_le_rows(
                        rows.take(i as int),
                        combo@,
                        parts@,
                        base,
                        t,
                        v as int,
                    );
                    assert(rows.take(i as int).len() <= n);
                }
                let cnt = counts[vi];
                counts.set(vi, cnt + 1);
            },
            None => {
                proof {
                    assert(!soa_combo_ok(rows, combo@, parts@, base, t));
                }
                return false;
            },
        }
        i = i + 1;
    }
    proof {
        assert(rows.take(n as int) =~= rows);
    }
    let first = counts[0];
    if first == 0 {
        proof {
            assert(red_count(rows, combo@, parts@, base, t, 0) == 0);
        }
        return false;
    }
    let mut v: usize = 1;
    while v < cap
        invariant
            1 <= v <= cap,
            counts@.len() == cap,
            rows == points@.map_values(|row: Vec<u32>| row@),
            cap as int == pow(base as int, t as nat),
            first == counts@[0],
            first >= 1,
            forall|w: int|
                0 <= w < cap ==> counts@[w] == red_count(rows, combo@, parts@, base, t, w),
            forall|w: int|
                0 <= w < v ==> #[trigger] red_count(rows, combo@, parts@, base, t, w) == red_count(
                    rows,
                    combo@,
                    parts@,
                    base,
                    t,
                    0,
                ),
        decreases cap - v,
    {
        if counts[v] != first {
            proof {
                assert(red_count(rows, combo@, parts@, base, t, v as int) != red_count(
                    rows,
                    combo@,
                    parts@,
                    base,
                    t,
                    0,
                ));
            }
            return false;
        }
        v = v + 1;
    }
    true
}

/// Verify whether a point set is a valid strong orthogonal array based on
/// the metadata supplied in that struct.
///
/// The check is exhaustive: for every ordered splitting of the strength into
/// positive parts and every selection of as many columns, each selected
/// column is reduced to its top `part` base-`base` digits, and the reduced
/// tuples must be balanced: every one of the `base^strength` possible tuples
/// present, all with the same frequency. The array of `base^strength`
/// tallies must fit in the machine's memory indices; that bound is the only
/// precondition.
#[verifier::rlimit(60)]
pub fn verify(soa: &SOA) -> (r: bool)
    requires
        pow(soa.base as int, soa.strength as nat) <= usize::MAX as int,
    ensures
        r == soa_valid(*soa),
{
    if soa.base == 0 {
        return false;
    }
    let ghost rows = soa.points@.map_values(|row: Vec<u32>| row@);
    let n = soa.points.len();
    let cols: usize = if n == 0 {
        0
    } else {
        soa.points[0].len()
    };
    let mut i: usize = 0;
    while i < n
        invariant
            i <= n,
            n == soa.points@.len(),
            cols as int == soa.cols(),
            forall|j: int| 0 <= j < i ==> (#[trigger] soa.points@[j])@.len() == cols,
        decreases n - i,
    {
        if soa.points[i].len() != cols {
            return false;
        }
        i = i + 1;
    }
    proof {
        assert(soa.shape_ok());
        assert(usize::MAX as int <= u64::MAX as int);
    }
    let cols64: u64 = cols as u64;
    let cap64 = pow64(soa.base as u64, soa.strength);
    let cap = cap64 as usize;
    let comps = compositions(soa.strength);
    let t = soa.strength;
    let base = soa.base;
    let mut ci: usize = 0;
    while ci < comps.len()
        invariant
            ci <= comps@.len(),
            rows == soa.rows(),
            soa.shape_ok(),
            soa.base == base,
            soa.strength == t,
            base >= 1,
            n == soa.points@.len(),
            cols as int == soa.cols(),
            cap as int == pow(base as int, t as nat),
            forall|ki: int| 0 <= ki < comps@.len() ==> is_composition((#[trigger] comps@[ki])@, t),
            forall|s: Seq<u32>|
                is_composition(s, t) ==> exists|ki: int|
                    0 <= ki < comps@.len() && (#[trigger] comps@[ki])@ == s,
            cols64 == cols as u64,
            forall|ki: int, combo: Seq<u64>|
                0 <= ki < ci && crate::oa::is_col_combo(combo, cols64, comps@[ki]@.len())
                    ==> #[trigger] soa_combo_ok(rows, combo, comps@[ki]@, base, t),
        decreases comps@.len() - ci,
    {
        let parts = &comps[ci];
        let combos = crate::oa::column_combinations(cols64, parts.len());
        let mut bi: usize = 0;
        while bi < combos.len()
            invariant
                bi <= combos@.len(),
                0 <= ci < comps@.len(),
                parts == &comps[ci as int],
                is_composition(parts@, t),
                rows == soa.rows(),
                soa.shape_ok(),
                soa.base == base,
                soa.strength == t,
                base >= 1,
                n == soa.points@.len(),
                cols as int == soa.cols(),
                cap as int == pow(base as int, t as nat),
                cols64 == cols as u64,
                forall|m: int|
                    0 <= m < combos@.len() ==> crate::oa::is_col_combo(
                        (#[trigger] combos@[m])@,
                        cols64,
                        parts@.len(),
                    ),
                forall|combo: Seq<u64>|
                    #[trigger] crate::oa::is_col_combo(combo, cols64, parts@.len()) ==> exists|m: int|
                        0 <= m < combos@.len() && (#[trigger] combos@[m])@ == combo,
                forall|m: int|
                    0 <= m < bi ==> #[trigger] soa_combo_ok(rows, combos@[m]@, parts@, base, t),
            decreases combos@.len() - bi,
        {
            let combo = &combos[bi];
            proof {
                assert(combo@.len() == parts@.len());
                assert forall|q: int, j: int|
                    0 <= q < combo@.len() && 0 <= j < soa.points@.len() implies #[trigger] combo@[q]
                    < (#[trigger] soa.points@[j])@.len() by {
                    assert(combo@[q] < cols64);
                    assert(soa.points@[j]@.len() == soa.cols());
                }
            }
            let ok = soa_combo_check(&soa.points, combo, parts, base, t, cap);
            if !ok {
                proof {
                    assert(!soa_combo_ok(rows, combos@[bi as int]@, parts@, base, t));
                    assert(!soa_valid(*soa));
                }
                return false;
            }
            bi = bi + 1;
        }
        proof {
            assert forall|combo: Seq<u64>|
                crate::oa::is_col_combo(combo, cols64, comps@[ci as int]@.len())
                implies #[trigger] soa_combo_ok(rows, combo, comps@[ci as int]@, base, t) by {
                let m = choose|m: int|
                    0 <= m < combos@.len() && (#[trigger] combos@[m])@ == combo;
                assert(soa_combo_ok(rows, combos@[m]@, parts@, base, t));
            }
        }
        ci = ci + 1;
    }
    proof {
        assert forall|parts_s: Seq<u32>, combo: Seq<u64>|
            is_composition(parts_s, t) && crate::oa::is_col_combo(
                combo,
                soa.cols() as u64,
                parts_s.len(),
            ) implies #[trigger] soa_combo_ok(soa.rows(), combo, parts_s, base, t) by {
            let ki = choose|ki: int|
                0 <= ki < comps@.len() && (#[trigger] comps@[ki])@ == parts_s;
            assert(soa_combo_ok(rows, combo, comps@[ki]@, base, t));
        }
        assert(soa_valid(*soa));
    }
    true
}

/// Verify a strong orthogonal array; an equivalent name for `verify` kept
/// from an earlier interface of this module.
pub fn verify_soa(soa: &SOA) -> (r: bool)
    requires
        pow(soa.base as int, soa.strength as nat) <= usize::MAX as int,
    ensures
        r == soa_valid(*soa),
{
    verify(soa)
}


/// The published strength-3, base-2 strong orthogonal array of He and
/// Tang's characterization: eight rows of three columns.
pub open spec fn het_example() -> Seq<Seq<u32>> {
    seq![
        seq![0u32, 0u32, 0u32],
        seq![2u32, 3u32, 6u32],
        seq![3u32, 6u32, 2u32],
        seq![1u32, 5u32, 4u32],
        seq![6u32, 2u32, 3u32],
        seq![4u32, 1u32, 5u32],
        seq![5u32, 4u32, 1u32],
        seq![7u32, 7u32, 7u32],
    ]
}

/// For each column of the published example, the row in which each value
/// appears: every column is a permutation of 0 through 7.
spec fn het_example_row_of() -> Seq<Seq<int>> {
    seq![
        seq![0int, 3int, 1int, 2int, 5int, 6int, 4int, 7int],
        seq![0int, 5int, 4int, 1int, 6int, 3int, 2int, 7int],
        seq![0int, 6int, 2int, 4int, 3int, 5int, 1int, 7int],
    ]
}

/// The published example is eight rows of three cells, each cell below 8,
/// and within each column every cell value names its own row back through
/// the inverse table: each column carries each value exactly once.
proof fn lemma_het_example_facts()
    ensures
        het_example().len() == 8,
        forall|r: int| 0 <= r < 8 ==> (#[trigger] het_example()[r]).len() == 3,
        forall|r: int, j: int|
            0 <= r < 8 && 0 <= j < 3 ==> #[trigger] het_example()[r][j] < 8,
        forall|r: int, j: int|
            0 <= r < 8 && 0 <= j < 3 ==> het_example_row_of()[j][#[trigger] het_example()[r][j]
                as int] == r,
{
    assert forall|r: int| 0 <= r < 8 implies (#[trigger] het_example()[r]).len() == 3 by {
        if r == 0 {
        } else if r == 1 {
        } else if r == 2 {
        } else if r == 3 {
        } else if r == 4 {
        } else if r == 5 {
        } else if r == 6 {
        } else {
        }
    }
    assert forall|r: int, j: int|
        0 <= r < 8 && 0 <= j < 3 implies #[trigger] het_example()[r][j] < 8
            && het_example_row_of()[j][het_example()[r][j] as int] == r by {
        if r == 0 {
        } else if r == 1 {
        } else if r == 2 {
        } else if r == 3 {
        } else if r == 4 {
        } else if r == 5 {
        } else if r == 6 {
        } else {
        }
    }
}

/// The reduced code over a one-column selection whose single part is the
/// whole strength is the selected cell itself.
proof fn lemma_red_single(row: Seq<u32>, a: u64, t: u32, base: u32)
    requires
        base >= 1,
    ensures
        red_code(row, seq![a], seq![t], base, t) == row[a as int],
{
    let combo = seq![a];
    let parts = seq![t];
    assert(combo.skip(1) =~= Seq::<u64>::empty());
    assert(parts.skip(1) =~= Seq::<u32>::empty());
    assert(red_code(row, combo.skip(1), parts.skip(1), base, t) == 0);
    assert(red_code(row, combo, parts, base, t) == red_cell(row[a as int], t, base, t) + pow(
        base as int,
        t as nat,
    ) * red_code(row, combo.skip(1), parts.skip(1), base, t));
    vstd::arithmetic::mul::lemma_mul_by_zero_is_zero(pow(base as int, t as nat));
    vstd::arithmetic::power::lemma_pow0(base as int);
    vstd::arithmetic::div_mod::lemma_div_basics(row[a as int] as int);
}

/// If no row's reduced tuple encodes to `v`, the count of `v` is zero.
proof fn lemma_red_count_zero(
    rows: Seq<Seq<u32>>,
    combo: Seq<u64>,
    parts: Seq<u32>,
    base: u32,
    t: u32,
    v: int,
)
    requires
        forall|i: int|
            0 <= i < rows.len() ==> red_code(#[trigger] rows[i], combo, parts, base, t) != v,
    ensures
        red_count(rows, combo, parts, base, t, v) == 0,
    decreases rows.len(),
{
    if rows.len() > 0 {
        assert(rows.last() == rows[rows.len() - 1]);
        assert forall|i: int| 0 <= i < rows.drop_last().len() implies red_code(
            #[trigger] rows.drop_last()[i],
            combo,
            parts,
            base,
            t,
        ) != v by {
            assert(rows.drop_last()[i] == rows[i]);
        }
        lemma_red_count_zero(rows.drop_last(), combo, parts, base, t, v);
    }
}

/// Any single perturbed cell invalidates the published example: each of its
/// columns carries every value below 8 exactly once, so after the change
/// the touched column no longer carries the value that cell used to hold,
/// and the whole-strength stratification check over that column fails.
pub proof fn lemma_het_example_perturbed_invalid(s: SOA, i: int, j: int, v: u32)
    requires
        s.strength == 3,
        s.base == 2,
        0 <= i < 8,
        0 <= j < 3,
        v < 8,
        v != het_example()[i][j],
        s.rows() == het_example().update(i, het_example()[i].update(j, v)),
    ensures
        !soa_valid(s),
{
    lemma_het_example_facts();
    let e = het_example();
    let rows = s.rows();
    let old_v = e[i][j];
    assert(rows.len() == 8);
    assert(s.points@.len() == 8);
    assert(rows[0] == s.points@[0]@);
    assert(rows[0].len() == 3) by {
        if i == 0 {
            assert(rows[0] == e[0].update(j, v));
        } else {
            assert(rows[0] == e[0]);
        }
    }
    assert(s.cols() == 3);
    let parts = seq![3u32];
    let combo = seq![j as u64];
    assert(parts.skip(1) =~= Seq::<u32>::empty());
    assert(sum_seq(parts) == parts[0] + sum_seq(parts.skip(1)));
    assert(sum_seq(Seq::<u32>::empty()) == 0);
    assert(sum_seq(parts) == 3);
    assert(is_composition(parts, 3));
    assert(crate::oa::is_col_combo(combo, s.cols() as u64, parts.len()));
    assert forall|r: int|
        0 <= r < rows.len() implies red_code(#[trigger] rows[r], combo, parts, 2, 3) != old_v
            as int by {
        lemma_red_single(rows[r], j as u64, 3, 2);
        assert(red_code(rows[r], combo, parts, 2, 3) == rows[r][j]);
        if r == i {
            assert(rows[i] == e[i].update(j, v));
            assert(rows[i][j] == v);
        } else {
            assert(rows[r] == e[r]);
            assert(rows[r][j] == e[r][j]);
            if e[r][j] == old_v {
                assert(het_example_row_of()[j][e[r][j] as int] == r);
                assert(het_example_row_of()[j][e[i][j] as int] == i);
                assert(false);
            }
        }
    }
    lemma_red_count_zero(rows, combo, parts, 2, 3, old_v as int);
    assert(pow(2, 3) == 8) by {
        vstd::arithmetic::power::lemma_pow1(2);
        vstd::arithmetic::power::lemma_pow_adds(2, 1, 1);
        vstd::arithmetic::power::lemma_pow_adds(2, 2, 1);
    }
    assert(!soa_combo_ok(rows, combo, parts, 2, 3)) by {
        if soa_combo_ok(rows, combo, parts, 2, 3) {
            assert(red_count(rows, combo, parts, 2, 3, old_v as int) == red_count(
                rows,
                combo,
                parts,
                2,
                3,
                0,
            ));
            assert(red_count(rows, combo, parts, 2, 3, 0) >= 1);
            assert(false);
        }
    }
    assert(!soa_valid(s));
}

/// Verification is deterministic and free of side effects: `verify` borrows
/// the array immutably, and its contract pins the boolean to the array's
/// value alone, so any two results that meet that contract for the same
/// array are equal.
pub proof fn lemma_verify_deterministic(soa: SOA, r1: bool, r2: bool)
    requires
        r1 == soa_valid(soa),
        r2 == soa_valid(soa),
    ensures
        r1 == r2,
{
}

} // verus!
