//! The ranges of program points committed to one physical register, each
//! with the bundle that owns it.

use vstd::prelude::*;

verus! {

/// A half-open range `[from, to)` of program-point indices owned by a
/// bundle.
#[derive(Clone, Copy, Debug, PartialEq, Eq, Structural)]
pub struct Commitment {
    pub from: u64,
    pub to: u64,
    pub bundle: u32,
}

/// Does the commitment meet the range `[from, to)`?
pub open spec fn overlaps(c: Commitment, from: int, to: int) -> bool {
    c.from < to && from < c.to
}

/// The owners of the first `k` commitments that meet `[from, to)`, in
/// order.
pub open spec fn owners_meeting(s: Seq<Commitment>, from: int, to: int, k: int) -> Seq<u32>
    decreases k,
{
    if k <= 0 {
        Seq::empty()
    } else if overlaps(s[k - 1], from, to) {
        owners_meeting(s, from, to, k - 1).push(s[k - 1].bundle)
    } else {
        owners_meeting(s, from, to, k - 1)
    }
}

/// Non-empty ranges, in increasing order, pairwise disjoint.
pub open spec fn sorted_disjoint(s: Seq<Commitment>) -> bool {
    &&& forall|k: int| 0 <= k < s.len() ==> (#[trigger] s[k]).from < s[k].to
    &&& forall|i: int, j: int| 0 <= i < j < s.len() ==> s[i].to <= s[j].from
}

/// The commitments of one physical register.
pub struct PRegCommitments {
    items: Vec<Commitment>,
}

impl View for PRegCommitments {
    type V = Seq<Commitment>;

    closed spec fn view(&self) -> Seq<Commitment> {
        self.items@
    }
}

impl PRegCommitments {
    pub open spec fn wf(&self) -> bool {
        sorted_disjoint(self@)
    }

    /// No commitments.
    pub fn new() -> (r: PRegCommitments)
        ensures
            r.wf(),
            r@ == Seq::<Commitment>::empty(),
    {
        PRegCommitments { items: Vec::new() }
    }

    /// The owners of the commitments that meet `[from, to)`, in program
    /// order.
    pub fn conflicts(&self, from: u64, to: u64) -> (r: Vec<u32>)
        ensures
            r@ == owners_meeting(self@, from as int, to as int, self@.len() as int),
    {
        let mut r: Vec<u32> = Vec::new();
        let mut k: usize = 0;
        while k < self.items.len()
            invariant
                k <= self@.len(),
                self@ == self.items@,
                r@ == owners_meeting(self@, from as int, to as int, k as int),
            decreases self@.len() - k,
        {
            let c = self.items[k];
            if c.from < to && from < c.to {
                r.push(c.bundle);
            }
            k += 1;
        }
        r
    }

    /// Commits `[from, to)` to `bundle`, where nothing is committed yet;
    /// returns the position the new commitment takes.
    pub fn commit(&mut self, from: u64, to: u64, bundle: u32) -> (p: usize)
        requires
            old(self).wf(),
            from < to,
            forall|k: int| 0 <= k < old(self)@.len() ==> !overlaps(#[trigger] old(self)@[k], from as int, to as int),
        ensures
            final(self).wf(),
            p <= old(self)@.len(),
            final(self)@ == old(self)@.insert(p as int, Commitment { from, to, bundle }),
    {
        let mut p: usize = 0;
        while p < self.items.len() && self.items[p].from < to
            invariant
                p <= self@.len(),
                self@ == self.items@,
                forall|k: int| 0 <= k < p ==> (#[trigger] self@[k]).from < to,
            decreases self@.len() - p,
        {
            p += 1;
        }
        let ghost before = self@;
        self.items.insert(p, Commitment { from, to, bundle });
        proof {
            let after = self@;
            assert(after =~= before.insert(p as int, Commitment { from, to, bundle }));
            assert forall|i: int, j: int| 0 <= i < j < after.len() implies after[i].to <= after[j].from by {
                if i < p && j < p {
                    assert(before[i].to <= before[j].from);
                } else if i < p && j == p {
                    assert(!overlaps(before[i], from as int, to as int));
                } else if i < p {
                    assert(before[i].to <= before[j - 1].from);
                } else if i == p {
                    assert(before[j - 1].from >= to) by {
                        if j - 1 > p {
                            assert(before[p as int].to <= before[j - 1].from);
                        }
                    }
                } else {
                    assert(before[i - 1].to <= before[j - 1].from);
                }
            }
        }
        p
    }

    /// Takes out every commitment of `bundle`, keeping the others in order.
    pub fn remove_bundle(&mut self, bundle: u32)
        requires
            old(self).wf(),
        ensures
            final(self).wf(),
            final(self)@ == old(self)@.filter(|c: Commitment| c.bundle != bundle),
    {
        let ghost orig = self@;
        let mut kept: Vec<Commitment> = Vec::new();
        let mut k: usize = 0;
        while k < self.items.len()
            invariant
                k <= orig.len(),
                self@ == orig,
                self.items@ == orig,
                sorted_disjoint(orig),
                kept@ == orig.subrange(0, k as int).filter(|c: Commitment| c.bundle != bundle),
                sorted_disjoint(kept@),
                kept@.len() > 0 ==> exists|j: int| 0 <= j < k && orig[j] == kept@.last(),
            decreases orig.len() - k,
        {
            let c = self.items[k];
            proof {
                assert(orig.subrange(0, k + 1) =~= orig.subrange(0, k as int).push(c));
                orig.subrange(0, k as int).lemma_filter_push(c, |c: Commitment| c.bundle != bundle);
            }
            if c.bundle != bundle {
                proof {
                    if kept@.len() > 0 {
                        let j = choose|j: int| 0 <= j < k && orig[j] == kept@.last();
                        assert(orig[j].to <= orig[k as int].from);
                    }
                    assert forall|a: int, b: int| 0 <= a < b < kept@.len() + 1 implies kept@.push(c)[a].to <= kept@.push(c)[b].from by {
                        if b == kept@.len() && a < kept@.len() - 1 {
                            assert(kept@[a].to <= kept@[kept@.len() - 1].from);
                        }
                    }
                }
                kept.push(c);
                proof {
                    assert(orig[k as int] == kept@.last());
                }
            }
            k += 1;
        }
        proof {
            assert(orig.subrange(0, orig.len() as int) =~= orig);
        }
        self.items = kept;
    }
}

} // verus!
