use vstd::prelude::*;

verus! {

/// A set of small integer identifiers (indices into an arena of facts or
/// rules), stored as a membership bitmap. Identifier `i` is a member iff
/// `i` is below the capacity and the bit at position `i` is set.
#[derive(Debug)]
pub struct IdSet {
    pub bits: Vec<bool>,
}

impl View for IdSet {
    type V = Set<usize>;

    open spec fn view(&self) -> Set<usize> {
        Set::new(|i: usize| i < self.bits@.len() && self.bits@[i as int])
    }
}

impl IdSet {
    /// Identifiers at or above the capacity are never members.
    pub open spec fn capacity(&self) -> nat {
        self.bits@.len()
    }

    /// The empty set over identifiers below `n`.
    pub fn empty(n: usize) -> (r: IdSet)
        ensures
            r@ == Set::<usize>::empty(),
            r.capacity() == n,
    {
        let mut bits: Vec<bool> = Vec::new();
        while bits.len() < n
            invariant
                bits@.len() <= n,
                forall|j: int| 0 <= j < bits@.len() ==> !bits@[j],
            decreases n - bits@.len(),
        {
            bits.push(false);
        }
        let r = IdSet { bits };
        proof {
            assert(r@ =~= Set::<usize>::empty());
        }
        r
    }

    /// The set of all identifiers below `n`.
    pub fn full(n: usize) -> (r: IdSet)
        ensures
            r@ == Set::new(|i: usize| i < n),
            r.capacity() == n,
    {
        let mut bits: Vec<bool> = Vec::new();
        while bits.len() < n
            invariant
                bits@.len() <= n,
                forall|j: int| 0 <= j < bits@.len() ==> bits@[j],
            decreases n - bits@.len(),
        {
            bits.push(true);
        }
        let r = IdSet { bits };
        proof {
            assert(r@ =~= Set::new(|i: usize| i < n));
        }
        r
    }

    /// Membership test; total, so an out-of-range identifier is simply absent.
    pub fn contains(&self, i: usize) -> (r: bool)
        ensures
            r == self@.contains(i),
    {
        i < self.bits.len() && self.bits[i]
    }

    pub fn insert(&mut self, i: usize)
        requires
            i < old(self).capacity(),
        ensures
            final(self)@ == old(self)@.insert(i),
            final(self).capacity() == old(self).capacity(),
    {
        self.bits.set(i, true);
        proof {
            assert(self@ =~= old(self)@.insert(i));
        }
    }

    pub fn remove(&mut self, i: usize)
        requires
            i < old(self).capacity(),
        ensures
            final(self)@ == old(self)@.remove(i),
            final(self).capacity() == old(self).capacity(),
            final(self).bits@ == old(self).bits@.update(i as int, false),
    {
        self.bits.set(i, false);
        proof {
            assert(self@ =~= old(self)@.remove(i));
        }
    }
}

impl Clone for IdSet {
    fn clone(&self) -> (r: Self)
        ensures
            r@ == self@,
            r.capacity() == self.capacity(),
            r.bits@ == self.bits@,
    {
        let mut bits: Vec<bool> = Vec::new();
        let mut j: usize = 0;
        while j < self.bits.len()
            invariant
                j <= self.bits@.len(),
                bits@.len() == j,
                forall|k: int| 0 <= k < j ==> bits@[k] == self.bits@[k],
            decreases self.bits@.len() - j,
        {
            bits.push(self.bits[j]);
            j = j + 1;
        }
        let r = IdSet { bits };
        proof {
            assert(r.bits@ =~= self.bits@);
            assert(r@ =~= self@);
        }
        r
    }
}

} // verus!
