//! Small inline lists of `u32`, kept in a `smallvec::SmallVec`.

use smallvec::SmallVec;
use vstd::prelude::*;

verus! {

/// A list of `u32` with a few items stored inline.
#[verifier::external_body]
pub struct IdxList {
    v: SmallVec<[u32; 4]>,
}

/// The items of a list, in order.
pub uninterp spec fn items_of(l: IdxList) -> Seq<u32>;

impl View for IdxList {
    type V = Seq<u32>;

    open spec fn view(&self) -> Seq<u32> {
        items_of(*self)
    }
}

/// Are the two values different?
pub fn differs(a: u32, b: u32) -> (r: bool)
    ensures
        r == (a != b),
{
    a != b
}

/// Items in strictly increasing order (hence no duplicates).
pub open spec fn strictly_sorted(s: Seq<u32>) -> bool {
    forall|i: int, j: int| 0 <= i < j < s.len() ==> s[i] < s[j]
}

/// Items in non-decreasing order.
pub open spec fn sorted(s: Seq<u32>) -> bool {
    forall|i: int, j: int| 0 <= i <= j < s.len() ==> s[i] <= s[j]
}

impl IdxList {
    /// Relies on `SmallVec::new`: a new vector is empty.
    #[verifier::external_body]
    pub(crate) fn new() -> (r: IdxList)
        ensures
            items_of(r) == Seq::<u32>::empty(),
    {
        IdxList { v: SmallVec::new() }
    }

    /// Relies on `SmallVec::len`: the number of items.
    #[verifier::external_body]
    pub(crate) fn len(&self) -> (r: usize)
        ensures
            r == items_of(*self).len(),
    {
        self.v.len()
    }

    /// Relies on `SmallVec`'s `Index`: the item at position `i`.
    #[verifier::external_body]
    pub(crate) fn get(&self, i: usize) -> (r: u32)
        requires
            i < items_of(*self).len(),
        ensures
            r == items_of(*self)[i as int],
    {
        self.v[i]
    }

    /// Relies on `SmallVec`'s `IndexMut`: overwrites the item at position `i`.
    #[verifier::external_body]
    pub(crate) fn set(&mut self, i: usize, x: u32)
        requires
            i < items_of(*old(self)).len(),
        ensures
            items_of(*final(self)) == items_of(*old(self)).update(i as int, x),
    {
        self.v[i] = x;
    }

    /// Relies on `SmallVec::push`: appends one item at the end.
    #[verifier::external_body]
    pub(crate) fn push(&mut self, x: u32)
        ensures
            items_of(*final(self)) == items_of(*old(self)).push(x),
    {
        self.v.push(x)
    }

    /// Relies on `SmallVec::truncate`: keeps the first `n` items; no effect
    /// when `n` is not below the length.
    #[verifier::external_body]
    pub(crate) fn truncate(&mut self, n: usize)
        ensures
            n < items_of(*old(self)).len() ==> items_of(*final(self)) == items_of(*old(self)).subrange(0, n as int),
            n >= items_of(*old(self)).len() ==> items_of(*final(self)) == items_of(*old(self)),
    {
        self.v.truncate(n)
    }

    /// Relies on `SmallVec::remove`: takes out the item at position `i`,
    /// shifting the later ones down.
    #[verifier::external_body]
    pub(crate) fn remove(&mut self, i: usize) -> (r: u32)
        requires
            i < items_of(*old(self)).len(),
        ensures
            r == items_of(*old(self))[i as int],
            items_of(*final(self)) == items_of(*old(self)).remove(i as int),
    {
        self.v.remove(i)
    }

    /// Relies on `SmallVec`'s `Clone`: an item-by-item copy.
    #[verifier::external_body]
    pub(crate) fn copy(&self) -> (r: IdxList)
        ensures
            items_of(r) == items_of(*self),
    {
        IdxList { v: self.v.clone() }
    }

    /// Relies on the slice method `sort` (through `SmallVec`'s `DerefMut`):
    /// the same items, in non-decreasing order.
    #[verifier::external_body]
    pub(crate) fn sort(&mut self)
        ensures
            items_of(*final(self)).to_multiset() == items_of(*old(self)).to_multiset(),
            items_of(*final(self)).len() == items_of(*old(self)).len(),
            sorted(items_of(*final(self))),
    {
        self.v.sort()
    }

    /// Relies on the slice method `binary_search` (through `SmallVec`'s
    /// `Deref`): on a sorted list, `Ok` with a position holding `x` when `x`
    /// is present, `Err` otherwise.
    #[verifier::external_body]
    pub(crate) fn binary_search(&self, x: u32) -> (r: Result<usize, usize>)
        requires
            sorted(items_of(*self)),
        ensures
            match r {
                Ok(i) => i < items_of(*self).len() && items_of(*self)[i as int] == x,
                Err(_) => !items_of(*self).contains(x),
            },
    {
        self.v.binary_search(&x)
    }

    /// Relies on `SmallVec::retain`: keeps, in order, the items for which
    /// the predicate holds; here, the items other than `x`.
    #[verifier::external_body]
    pub(crate) fn retain_other_than(&mut self, x: u32)
        ensures
            items_of(*final(self)) == items_of(*old(self)).filter(|y: u32| y != x),
    {
        self.v.retain(|e| differs(*e, x))
    }
}

} // verus!
