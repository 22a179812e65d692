//! The queue of bundles awaiting allocation, by spill weight.

use vstd::prelude::*;

verus! {

/// Bundles with their weights, in insertion order.
pub struct PrioQueue {
    items: Vec<(u32, u32)>,
}

impl View for PrioQueue {
    type V = Seq<(u32, u32)>;

    /// The (weight, bundle) entries, oldest first.
    closed spec fn view(&self) -> Seq<(u32, u32)> {
        self.items@
    }
}

/// Entry `i` comes out next: no entry weighs more, and every earlier entry
/// weighs less.
pub open spec fn is_next(s: Seq<(u32, u32)>, i: int) -> bool {
    &&& 0 <= i < s.len()
    &&& forall|j: int| 0 <= j < s.len() ==> (#[trigger] s[j]).0 <= s[i].0
    &&& forall|j: int| 0 <= j < i ==> (#[trigger] s[j]).0 < s[i].0
}

impl PrioQueue {
    pub fn new() -> (r: PrioQueue)
        ensures
            r@ == Seq::<(u32, u32)>::empty(),
    {
        PrioQueue { items: Vec::new() }
    }

    pub fn is_empty(&self) -> (r: bool)
        ensures
            r == (self@.len() == 0),
    {
        self.items.len() == 0
    }

    /// Queues `bundle` with `weight`.
    pub fn insert(&mut self, weight: u32, bundle: u32)
        ensures
            final(self)@ == old(self)@.push((weight, bundle)),
    {
        self.items.push((weight, bundle));
    }

    /// Takes out the heaviest bundle, the earliest queued among equals.
    pub fn pop(&mut self) -> (r: Option<u32>)
        ensures
            old(self)@.len() == 0 ==> r is None && final(self)@ == old(self)@,
            old(self)@.len() > 0 ==> exists|i: int|
                is_next(old(self)@, i) && r == Some(old(self)@[i].1) && final(self)@ == old(self)@.remove(i),
    {
        if self.items.len() == 0 {
            return None;
        }
        let mut best: usize = 0;
        let mut k: usize = 1;
        while k < self.items.len()
            invariant
                1 <= k <= self@.len(),
                self@ == self.items@,
                best < k,
                forall|j: int| 0 <= j < k ==> (#[trigger] self@[j]).0 <= self@[best as int].0,
                forall|j: int| 0 <= j < best ==> (#[trigger] self@[j]).0 < self@[best as int].0,
            decreases self@.len() - k,
        {
            if self.items[k].0 > self.items[best].0 {
                best = k;
            }
            k += 1;
        }
        let ghost before = self@;
        let (_, bundle) = self.items.remove(best);
        assert(is_next(before, best as int));
        Some(bundle)
    }
}

} // verus!
