//! Dense sets of small integers, one flag per index.

use vstd::prelude::*;

verus! {

/// A dense set of indices: index `i` is present iff flag `i` is set.
pub struct BitVec {
    bits: Vec<bool>,
}

impl View for BitVec {
    type V = Set<nat>;

    closed spec fn view(&self) -> Set<nat> {
        Set::new(|i: nat| i < self.bits@.len() && self.bits@[i as int])
    }
}

impl BitVec {
    /// An upper bound (exclusive) on the indices that may be present.
    pub closed spec fn limit(&self) -> nat {
        self.bits@.len()
    }

    pub proof fn lemma_limit(&self)
        ensures
            forall|i: nat| #[trigger] self@.contains(i) ==> i < self.limit(),
    {
    }

    /// An empty set.
    pub fn new() -> (r: BitVec)
        ensures
            r@ == Set::<nat>::empty(),
            r.limit() == 0,
    {
        let r = BitVec { bits: Vec::new() };
        assert(r@ =~= Set::<nat>::empty());
        r
    }

    /// Is `i` present?
    pub fn get(&self, i: usize) -> (r: bool)
        ensures
            r == self@.contains(i as nat),
    {
        i < self.bits.len() && self.bits[i]
    }

    /// Adds `i` when `val` holds, takes it out otherwise.
    pub fn set(&mut self, i: usize, val: bool)
        requires
            val ==> i < usize::MAX,
        ensures
            !val ==> final(self).limit() == old(self).limit(),
            val ==> final(self)@ == old(self)@.insert(i as nat),
            !val ==> final(self)@ == old(self)@.remove(i as nat),
            final(self).limit() <= if i as nat + 1 > old(self).limit() {
                i as nat + 1
            } else {
                old(self).limit()
            },
    {
        if i >= self.bits.len() {
            if !val {
                assert(self@ =~= old(self)@.remove(i as nat));
                return;
            }
            while self.bits.len() <= i
                invariant
                    self@ == old(self)@,
                    old(self).bits@.len() <= self.bits@.len() <= i + 1,
                    self.bits@.subrange(0, old(self).bits@.len() as int) == old(self).bits@,
                    forall|k: int| old(self).bits@.len() <= k < self.bits@.len() ==> !self.bits@[k],
                decreases i + 1 - self.bits@.len(),
            {
                let ghost prev = self.bits@;
                self.bits.push(false);
                assert(self@ =~= old(self)@) by {
                    assert(forall|k: int| 0 <= k < prev.len() ==> self.bits@[k] == prev[k]);
                }
                assert(self.bits@.subrange(0, old(self).bits@.len() as int) =~= old(self).bits@) by {
                    assert(prev.subrange(0, old(self).bits@.len() as int) == old(self).bits@);
                }
            }
        }
        self.bits.set(i, val);
        if val {
            assert(self@ =~= old(self)@.insert(i as nat));
        } else {
            assert(self@ =~= old(self)@.remove(i as nat));
        }
    }

    /// A copy of the set.
    pub fn duplicate(&self) -> (r: BitVec)
        ensures
            r@ == self@,
            r.limit() == self.limit(),
    {
        let mut bits: Vec<bool> = Vec::new();
        let mut i: usize = 0;
        while i < self.bits.len()
            invariant
                i <= self.bits@.len(),
                bits@ == self.bits@.subrange(0, i as int),
            decreases self.bits@.len() - i,
        {
            bits.push(self.bits[i]);
            assert(bits@ =~= self.bits@.subrange(0, i + 1));
            i += 1;
        }
        assert(bits@ =~= self.bits@);
        BitVec { bits }
    }

    /// Adds every index of `other`; true iff some index was new.
    pub fn or(&mut self, other: &BitVec) -> (changed: bool)
        requires
            other.limit() < usize::MAX,
        ensures
            final(self)@ == old(self)@.union(other@),
            changed == !other@.subset_of(old(self)@),
            final(self).limit() <= if other.limit() > old(self).limit() {
                other.limit()
            } else {
                old(self).limit()
            },
    {
        let mut changed = false;
        let n = other.bits.len();
        let mut i: usize = 0;
        while i < n
            invariant
                n == other.bits@.len(),
                i <= n,
                self@ == old(self)@.union(other@.filter(|k: nat| k < i)),
                changed == exists|k: nat| k < i && other@.contains(k) && !old(self)@.contains(k),
                self.limit() <= if i > old(self).limit() { i as nat } else { old(self).limit() },
            decreases n - i,
        {
            if other.bits[i] && !self.get(i) {
                self.set(i, true);
                changed = true;
                assert(other@.contains(i as nat));
            }
            assert(self@ =~= old(self)@.union(other@.filter(|k: nat| k < i + 1)));
            i += 1;
        }
        assert(other@.filter(|k: nat| k < n) =~= other@);
        changed
    }

    /// Is the set empty?
    pub fn is_empty(&self) -> (r: bool)
        ensures
            r == (self@ == Set::<nat>::empty()),
    {
        let mut i: usize = 0;
        while i < self.bits.len()
            invariant
                i <= self.bits@.len(),
                forall|k: int| 0 <= k < i ==> !self.bits@[k],
            decreases self.bits@.len() - i,
        {
            if self.bits[i] {
                assert(self@.contains(i as nat));
                return false;
            }
            i += 1;
        }
        assert(self@ =~= Set::<nat>::empty());
        true
    }

    /// The present indices, in increasing order.
    pub fn elements(&self) -> (r: Vec<usize>)
        ensures
            forall|a: int, b: int| 0 <= a < b < r@.len() ==> r@[a] < r@[b],
            index_set(r@) == self@,
    {
        let mut r: Vec<usize> = Vec::new();
        let mut i: usize = 0;
        while i < self.bits.len()
            invariant
                i <= self.bits@.len(),
                forall|a: int, b: int| 0 <= a < b < r@.len() ==> r@[a] < r@[b],
                forall|a: int| 0 <= a < r@.len() ==> r@[a] < i,
                index_set(r@) == self@.filter(|k: nat| k < i),
            decreases self.bits@.len() - i,
        {
            let ghost prev = r@;
            if self.bits[i] {
                r.push(i);
            }
            assert(index_set(r@) =~= self@.filter(|k: nat| k < i + 1)) by {
                assert forall|k: nat| #[trigger] index_set(r@).contains(k) implies self@.contains(k)
                    && k < i + 1 by {
                    let a = choose|a: int| 0 <= a < r@.len() && r@[a] as nat == k;
                    if a < prev.len() {
                        assert(index_set(prev).contains(k));
                    }
                }
                assert forall|k: nat| self@.contains(k) && k < i + 1 implies #[trigger] index_set(
                    r@,
                ).contains(k) by {
                    if k < i {
                        assert(self@.filter(|k: nat| k < i).contains(k));
                        let a = choose|a: int| 0 <= a < prev.len() && prev[a] as nat == k;
                        assert(r@[a] == prev[a]);
                    } else {
                        assert(r@[r@.len() - 1] == i);
                    }
                }
            }
            i += 1;
        }
        assert(self@.filter(|k: nat| k < i) =~= self@);
        r
    }
}

/// The indices held in a sequence, as a set.
pub open spec fn index_set(s: Seq<usize>) -> Set<nat> {
    Set::new(|k: nat| exists|a: int| 0 <= a < s.len() && s[a] as nat == k)
}

} // verus!
