//! Union-find over dense indices, for classes of coalesced bundles.

use vstd::prelude::*;

verus! {

/// Disjoint classes of the indices `0..n`, as parent links to a root.
pub struct UnionFind {
    parent: Vec<u32>,
    /// Each index's root.
    rep: Ghost<Seq<nat>>,
    /// A height that grows along parent links, so that walks end.
    rank: Ghost<Seq<nat>>,
    /// A bound on every height.
    max_rank: Ghost<nat>,
}

impl View for UnionFind {
    type V = Seq<nat>;

    /// The root of each index's class: two indices are in one class iff
    /// they have the same root.
    closed spec fn view(&self) -> Seq<nat> {
        self.rep@
    }
}

impl UnionFind {
    pub closed spec fn wf(&self) -> bool {
        let n = self.parent@.len();
        &&& n <= u32::MAX
        &&& self.rep@.len() == n
        &&& self.rank@.len() == n
        &&& forall|x: int| 0 <= x < n ==> (#[trigger] self.parent@[x]) < n
        &&& forall|x: int| 0 <= x < n ==> (#[trigger] self.rep@[x]) < n
        &&& forall|x: int| 0 <= x < n ==> self.rank@[x] <= self.max_rank@
        &&& forall|x: int|
            0 <= x < n && #[trigger] self.parent@[x] == x ==> self.rep@[x] == x
        &&& forall|x: int|
            0 <= x < n && #[trigger] self.parent@[x] != x ==> self.rep@[x] == self.rep@[self.parent@[x] as int]
                && self.rank@[self.parent@[x] as int] > self.rank@[x]
    }

    /// `i` is the root of its class.
    pub closed spec fn is_root(&self, i: int) -> bool {
        self.parent@[i] == i
    }

    /// `n` classes of one index each.
    pub fn new(n: usize) -> (r: UnionFind)
        requires
            n <= u32::MAX,
        ensures
            r.wf(),
            r@.len() == n,
            forall|x: int| 0 <= x < n ==> #[trigger] r@[x] == x,
    {
        let mut parent: Vec<u32> = Vec::new();
        while parent.len() < n
            invariant
                parent@.len() <= n,
                n <= u32::MAX,
                forall|x: int| 0 <= x < parent@.len() ==> #[trigger] parent@[x] == x,
            decreases n - parent@.len(),
        {
            parent.push(parent.len() as u32);
        }
        UnionFind {
            parent,
            rep: Ghost(Seq::new(n as nat, |x: int| x as nat)),
            rank: Ghost(Seq::new(n as nat, |x: int| 0nat)),
            max_rank: Ghost(0),
        }
    }

    /// The root of `x`'s class.
    pub fn find(&self, x: usize) -> (r: usize)
        requires
            self.wf(),
            x < self@.len(),
        ensures
            r == self@[x as int],
            self.is_root(r as int),
    {
        let mut cur = x;
        while self.parent[cur] as usize != cur
            invariant
                self.wf(),
                cur < self.parent@.len(),
                self.rep@[cur as int] == self.rep@[x as int],
            decreases self.max_rank@ - self.rank@[cur as int],
        {
            cur = self.parent[cur] as usize;
        }
        cur
    }

    /// Joins the classes of `a` and `b`; true iff they were apart. The
    /// members of `a`'s class take `b`'s root.
    pub fn union(&mut self, a: usize, b: usize) -> (merged: bool)
        requires
            old(self).wf(),
            a < old(self)@.len(),
            b < old(self)@.len(),
        ensures
            final(self).wf(),
            merged == (old(self)@[a as int] != old(self)@[b as int]),
            final(self)@ == old(self)@.map_values(
                |r: nat| if r == old(self)@[a as int] { old(self)@[b as int] } else { r },
            ),
    {
        let ra = self.find(a);
        let rb = self.find(b);
        if ra == rb {
            assert(self@ =~= old(self)@.map_values(
                |r: nat| if r == old(self)@[a as int] { old(self)@[b as int] } else { r },
            ));
            return false;
        }
        let ghost old_rep = self.rep@;
        let ghost old_rank = self.rank@;
        let ghost old_parent = self.parent@;
        self.parent.set(ra, rb as u32);
        proof {
            self.rep@ = old_rep.map_values(|r: nat| if r == ra as nat { rb as nat } else { r });
            let new_rank = if old_rank[rb as int] > old_rank[ra as int] { old_rank[rb as int] } else { old_rank[ra as int] + 1 };
            self.rank@ = old_rank.update(rb as int, new_rank);
            if new_rank > self.max_rank@ {
                self.max_rank@ = new_rank;
            }
            assert(old_rep[rb as int] == rb);
            assert(old_rep[ra as int] == ra);
            assert forall|x: int| 0 <= x < self.parent@.len() && #[trigger] self.parent@[x] != x implies self.rep@[x]
                == self.rep@[self.parent@[x] as int] && self.rank@[self.parent@[x] as int] > self.rank@[x] by {
                if x != ra {
                    assert(old_parent[x] != x);
                    assert(x != rb);
                }
            }
            assert forall|x: int| 0 <= x < self.parent@.len() && #[trigger] self.parent@[x] == x implies self.rep@[x] == x by {
                assert(x != ra);
                assert(old_parent[x] == x);
            }
        }
        true
    }
}

} // verus!
