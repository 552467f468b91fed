//! Provides an interface for a permutation vector class that makes it easy
//! to randomly shuffle orthogonal arrays, or shuffle any set.

use rand::seq::SliceRandom;
use vstd::prelude::*;

verus! {

/// This is a vector containing the elements 0, 1, ..., n - 1, shuffled
/// around to easily allow for a user to create a permutation.
///
/// For example: the entry at position 0, once the vector is shuffled,
/// names another position. This allows a permutation to be applied in
/// constant time per element.
#[derive(Debug)]
pub struct PermutationVector {
    /// The internal array containing the shuffled elements.
    vec: Vec<usize>,
}

impl PermutationVector {
    /// The entries of the vector.
    pub closed spec fn contents(&self) -> Seq<usize> {
        self.vec@
    }

    /// Create a permutation vector that has not been shuffled: the identity
    /// permutation. If you want a random permutation, you must remember to
    /// call the `shuffle()` method.
    pub fn new(n: usize) -> (r: Self)
        ensures
            r.contents().len() == n,
            forall|i: int| 0 <= i < n ==> #[trigger] r.contents()[i] == i,
    {
        let mut v: Vec<usize> = Vec::new();
        let mut i: usize = 0;
        while i < n
            invariant
                i <= n,
                v@.len() == i,
                forall|k: int| 0 <= k < i ==> #[trigger] v@[k] == k,
            decreases n - i,
        {
            v.push(i);
            i = i + 1;
        }
        PermutationVector { vec: v }
    }

    /// Randomly shuffle the permutation vector.
    ///
    /// Relies on rand's `SliceRandom::shuffle`: it reorders the slice in
    /// place, so the entries afterwards are the same multiset as before.
    /// Which order comes out depends on the thread's generator, so nothing
    /// more is promised.
    #[verifier::external_body]
    pub fn shuffle(&mut self)
        ensures
            final(self).contents().to_multiset() == old(self).contents().to_multiset(),
    {
        let mut rng = rand::rng();
        self.vec.shuffle(&mut rng);
    }

    /// The entry at `index`: the position that `index` is permuted to.
    pub fn index(&self, index: usize) -> (r: usize)
        requires
            index < self.contents().len(),
        ensures
            r == self.contents()[index as int],
    {
        self.vec[index]
    }
}

} // verus!
