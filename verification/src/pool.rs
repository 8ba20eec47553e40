//! The pool of rays of one search: which rays have been consumed by a
//! located target, and which are still free.

use crate::indices::{all_below, indices_where, lemma_indices_where, strictly_increasing};
use std::collections::HashSet;
use vstd::prelude::*;

verus! {

/// The indices below `n` that are not in `used`, in ascending order.
pub open spec fn unused_indices(used: Set<usize>, n: nat) -> Seq<usize> {
    indices_where(n, |i: usize| !used.contains(i))
}

/// The members of `used` that lie below `n`.
pub open spec fn used_below(used: Set<usize>, n: nat) -> Set<usize> {
    used.filter(|i: usize| i < n)
}

/// The list of free rays holds exactly the rays below `n` that are not
/// consumed, each once, in ascending order.
pub proof fn lemma_free_rays(used: Set<usize>, n: nat)
    requires
        n <= usize::MAX,
    ensures
        strictly_increasing(unused_indices(used, n)),
        all_below(unused_indices(used, n), n),
        forall|i: usize| unused_indices(used, n).contains(i) <==> i < n && !used.contains(i),
{
    let keep = |i: usize| !used.contains(i);
    let free = unused_indices(used, n);
    lemma_indices_where(n, keep);
    assert forall|i: usize| free.contains(i) implies i < n && !used.contains(i) by {
        let k = choose|k: int| 0 <= k < free.len() && free[k] == i;
        assert(keep(free[k]));
    }
    assert forall|i: usize| i < n && !used.contains(i) implies free.contains(i) by {
        assert(keep(i));
    }
}

/// Free and consumed indices together make up the whole pool.
pub proof fn lemma_unused_count(used: Set<usize>, n: nat)
    requires
        n <= usize::MAX,
        used.finite(),
    ensures
        unused_indices(used, n).len() + used_below(used, n).len() == n,
    decreases n,
{
    if n == 0 {
        assert(used_below(used, 0) =~= Set::empty());
    } else {
        let m = (n - 1) as nat;
        lemma_unused_count(used, m);
        used.lemma_len_filter(|i: usize| i < m);
        if used.contains(m as usize) {
            assert(used_below(used, n) =~= used_below(used, m).insert(m as usize));
        } else {
            assert(used_below(used, n) =~= used_below(used, m));
        }
    }
}

/// The set of consumed ray indices of one search over `total` rays.
pub struct RayPool {
    total: usize,
    used: HashSet<usize>,
}

impl RayPool {
    /// Number of rays in the pool, free or consumed.
    pub closed spec fn total(&self) -> nat {
        self.total as nat
    }

    /// The consumed ray indices.
    pub closed spec fn used(&self) -> Set<usize> {
        self.used@
    }

    /// Only rays of the pool are ever marked as consumed.
    pub closed spec fn wf(&self) -> bool {
        &&& self.used@.finite()
        &&& forall|i: usize| self.used@.contains(i) ==> i < self.total
    }

    /// The free ray indices in ascending order: position `k` of the result is
    /// the index of the `k`-th free ray.
    pub open spec fn free(&self) -> Seq<usize> {
        unused_indices(self.used(), self.total())
    }

    /// A pool of `total` rays, none of them consumed.
    pub fn new(total: usize) -> (pool: Self)
        ensures
            pool.wf(),
            pool.total() == total,
            pool.used() == Set::<usize>::empty(),
    {
        RayPool { total, used: HashSet::new() }
    }

    /// Number of rays in the pool, free or consumed.
    pub fn total_rays(&self) -> (n: usize)
        ensures
            n == self.total(),
    {
        self.total
    }

    /// Number of consumed rays.
    pub fn used_count(&self) -> (n: usize)
        requires
            self.wf(),
        ensures
            n == self.used().len(),
            n <= self.total(),
    {
        proof {
            self.lemma_used_bounded();
        }
        self.used.len()
    }

    /// Whether ray `index` has been consumed.
    pub fn is_used(&self, index: usize) -> (b: bool)
        ensures
            b == self.used().contains(index),
    {
        self.used.contains(&index)
    }

    /// Lists the free rays in ascending order of their index.
    pub fn remaining(&self) -> (back_map: Vec<usize>)
        ensures
            back_map@ == self.free(),
            strictly_increasing(back_map@),
            all_below(back_map@, self.total()),
            forall|i: usize|
                back_map@.contains(i) <==> i < self.total() && !self.used().contains(i),
    {
        proof {
            lemma_free_rays(self.used@, self.total as nat);
        }
        let mut back_map: Vec<usize> = Vec::new();
        let mut i: usize = 0;
        while i < self.total
            invariant
                i <= self.total,
                back_map@ == unused_indices(self.used@, i as nat),
            decreases self.total - i,
        {
            if !self.used.contains(&i) {
                back_map.push(i);
            }
            i = i + 1;
        }
        back_map
    }

    /// Marks every ray listed in `indices` as consumed.
    pub fn mark_used(&mut self, indices: &Vec<usize>)
        requires
            old(self).wf(),
            forall|k: int| 0 <= k < indices.len() ==> indices[k] < old(self).total(),
        ensures
            final(self).wf(),
            final(self).total() == old(self).total(),
            final(self).used() == old(self).used().union(indices@.to_set()),
    {
        let mut k: usize = 0;
        while k < indices.len()
            invariant
                k <= indices.len(),
                self.wf(),
                self.total == old(self).total,
                forall|j: int| 0 <= j < indices.len() ==> indices[j] < self.total,
                self.used@ == old(self).used@.union(indices@.take(k as int).to_set()),
            decreases indices.len() - k,
        {
            let index: usize = indices[k];
            self.used.insert(index);
            proof {
                let before = indices@.take(k as int);
                assert(indices@.take(k + 1) == before.push(index));
                before.lemma_push_to_set_commute(index);
                assert(self.used@ =~= old(self).used@.union(before.push(index).to_set()));
            }
            k = k + 1;
        }
        proof {
            assert(indices@.take(indices.len() as int) == indices@);
        }
    }

    /// No more rays are consumed than the pool holds.
    pub proof fn lemma_used_bounded(&self)
        requires
            self.wf(),
        ensures
            self.total() <= usize::MAX,
            self.used().len() <= self.total(),
            self.free().len() + self.used().len() == self.total(),
    {
        lemma_unused_count(self.used@, self.total as nat);
        assert(used_below(self.used@, self.total as nat) =~= self.used@);
    }
}

} // verus!
