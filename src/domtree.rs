//! Dominator tree, by the iterative algorithm of Cooper, Harvey and
//! Kennedy over reverse postorder.

use crate::function::{holds_block, Function};
use crate::postorder::discovered_later;
use crate::index::{Block, INVALID_INDEX};
use vstd::prelude::*;

verus! {

/// The block numbered `a` stands before block `b` in `po`.
pub open spec fn earlier_in(po: Seq<Block>, a: int, b: Block) -> bool {
    exists|i: int, j: int| 0 <= i < j < po.len() && po[i].0 == a && po[j] == b
}

/// The block reached from `b` by following `k` tree parents (invalid once
/// the walk leaves the tree).
pub open spec fn walk(idom: Seq<Block>, b: Block, k: nat) -> Block
    decreases k,
{
    if k == 0 {
        b
    } else {
        let p = walk(idom, b, (k - 1) as nat);
        if p.0 < idom.len() {
            idom[p.0 as int]
        } else {
            Block(INVALID_INDEX)
        }
    }
}

/// A parent table in which every parent stands later in `po` than its
/// child: the shape that makes parent walks finite.
pub open spec fn tree_shaped(idom: Seq<Block>, po: Seq<Block>) -> bool {
    &&& idom.len() < INVALID_INDEX
    &&& po.no_duplicates()
    &&& forall|b: int|
        0 <= b < idom.len() ==> (#[trigger] idom[b]).0 == INVALID_INDEX || (idom[b].0 < idom.len()
            && earlier_in(po, b, idom[b]))
}

/// The reverse-postorder number of block `b` plus one, or zero if it has
/// none.
spec fn rank(b2r: Seq<Option<u32>>, b: int) -> int {
    if 0 <= b < b2r.len() && b2r[b] is Some {
        b2r[b]->Some_0 + 1
    } else {
        0
    }
}

/// `b2r` numbers the blocks of `po` in reverse order.
spec fn numbers_rpo(b2r: Seq<Option<u32>>, po: Seq<Block>) -> bool {
    &&& forall|b: int|
        0 <= b < b2r.len() && #[trigger] b2r[b] is Some ==> b2r[b]->Some_0 < po.len() && po[po.len()
            - 1 - b2r[b]->Some_0].0 == b
    &&& forall|k: int| 0 <= k < po.len() ==> #[trigger] b2r[po[k].0 as int] is Some && b2r[po[k].0 as int]->Some_0 == po.len() - 1 - k
}

/// Every parent other than the start's own has a smaller number than its
/// child.
spec fn parents_ranked(idom: Seq<Block>, b2r: Seq<Option<u32>>, start: Block) -> bool {
    &&& idom.len() == b2r.len()
    &&& idom[start.0 as int] == start
    &&& forall|b: int|
        0 <= b < idom.len() && b != start.0 ==> (#[trigger] idom[b]).0 == INVALID_INDEX || (
        idom[b].0 < idom.len() && rank(b2r, b) > 0 && 0 < rank(b2r, idom[b].0 as int) < rank(b2r, b))
}

/// Every block with a parent has a parent that has one too.
spec fn closed_under_parents(idom: Seq<Block>) -> bool {
    forall|x: int|
        0 <= x < idom.len() && (#[trigger] idom[x]).0 != INVALID_INDEX ==> idom[x].0 < idom.len() && idom[idom[x].0 as int].0
            != INVALID_INDEX
}

/// The nearest common ancestor of two numbered blocks in the current
/// tree, or invalid if a walk leaves the tree first.
fn merge_sets(idom: &Vec<Block>, b2r: &Vec<Option<u32>>, node1: Block, node2: Block, start: Block) -> (r: Block)
    requires
        parents_ranked(idom@, b2r@, start),
        idom@.len() < INVALID_INDEX,
        rank(b2r@, start.0 as int) == 1,
        node1.0 < idom@.len() && rank(b2r@, node1.0 as int) > 0,
        node2.0 < idom@.len() && rank(b2r@, node2.0 as int) > 0,
        forall|b1: int, b2: int| 0 <= b1 < b2r@.len() && 0 <= b2 < b2r@.len() && b2r@[b1] is Some
            && #[trigger] b2r@[b1] == #[trigger] b2r@[b2] ==> b1 == b2,
        closed_under_parents(idom@),
        idom@[node1.0 as int].0 != INVALID_INDEX,
        idom@[node2.0 as int].0 != INVALID_INDEX,
    ensures
        r.0 == INVALID_INDEX || (r.0 < idom@.len() && 0 < rank(b2r@, r.0 as int) <= rank(b2r@, node1.0 as int)),
        r.0 != INVALID_INDEX && idom@[r.0 as int].0 != INVALID_INDEX,
{
    let mut n1 = node1;
    let mut n2 = node2;
    while n1 != n2
        invariant
            parents_ranked(idom@, b2r@, start),
            idom@.len() < INVALID_INDEX,
            rank(b2r@, start.0 as int) == 1,
            forall|b1: int, b2: int| 0 <= b1 < b2r@.len() && 0 <= b2 < b2r@.len() && b2r@[b1] is Some
                && #[trigger] b2r@[b1] == #[trigger] b2r@[b2] ==> b1 == b2,
            n1.0 == INVALID_INDEX || (n1.0 < idom@.len() && 0 < rank(b2r@, n1.0 as int) <= rank(b2r@, node1.0 as int)),
            n2.0 == INVALID_INDEX || (n2.0 < idom@.len() && 0 < rank(b2r@, n2.0 as int)),
            closed_under_parents(idom@),
            n1.0 != INVALID_INDEX && idom@[n1.0 as int].0 != INVALID_INDEX,
            n2.0 != INVALID_INDEX && idom@[n2.0 as int].0 != INVALID_INDEX,
        decreases rank(b2r@, n1.0 as int) + rank(b2r@, n2.0 as int),
    {
        if n1.is_invalid() || n2.is_invalid() {
            return Block::invalid();
        }
        let rpo1 = match b2r[n1.index()] {
            Some(r) => r,
            None => 0,
        };
        let rpo2 = match b2r[n2.index()] {
            Some(r) => r,
            None => 0,
        };
        assert(rank(b2r@, n1.0 as int) == rpo1 + 1);
        assert(rank(b2r@, n2.0 as int) == rpo2 + 1);
        proof {
            // Distinct blocks have distinct numbers.
            if rpo1 == rpo2 {
                assert(b2r@[n1.0 as int] == b2r@[n2.0 as int]);
            }
        }
        if rpo1 > rpo2 {
            assert(n1.0 != start.0);
            let ghost b = n1.0 as int;
            assert(idom@[b].0 == INVALID_INDEX || rank(b2r@, idom@[b].0 as int) < rank(b2r@, b));
            n1 = idom[n1.index()];
        } else if rpo2 > rpo1 {
            assert(n2.0 != start.0);
            let ghost b = n2.0 as int;
            assert(idom@[b].0 == INVALID_INDEX || rank(b2r@, idom@[b].0 as int) < rank(b2r@, b));
            n2 = idom[n2.index()];
        }
    }
    n1
}

/// The dominator-tree parent of each block: invalid for the entry and for
/// blocks not in `post_ord`; otherwise a block that stands later in
/// `post_ord`.
#[verifier::rlimit(60)]
pub fn calculate(f: &Function, post_ord: &Vec<Block>) -> (idom: Vec<Block>)
    requires
        f.wf(),
        post_ord@.no_duplicates(),
        post_ord@.len() > 0,
        post_ord@.last() == f.entry,
        forall|k: int| 0 <= k < post_ord@.len() ==> (#[trigger] post_ord@[k]).0 < f.num_blocks(),
        forall|i: int| 0 <= i < post_ord@.len() && post_ord@[i] != f.entry ==> discovered_later(f, post_ord@, i),
    ensures
        idom@.len() == f.num_blocks(),
        idom@[f.entry.0 as int].0 == INVALID_INDEX,
        tree_shaped(idom@, post_ord@),
        forall|k: int|
            0 <= k < post_ord@.len() && post_ord@[k] != f.entry ==> idom@[(#[trigger] post_ord@[k]).0 as int].0
                != INVALID_INDEX,
{
    let n = f.blocks.len();
    let len = post_ord.len();
    let start = f.entry;
    let mut b2r: Vec<Option<u32>> = Vec::new();
    let mut idom: Vec<Block> = Vec::new();
    while b2r.len() < n
        invariant
            b2r@.len() <= n,
            idom@.len() == b2r@.len(),
            forall|b: int| 0 <= b < b2r@.len() ==> b2r@[b] is None && idom@[b].0 == INVALID_INDEX,
        decreases n - b2r@.len(),
    {
        b2r.push(None);
        idom.push(Block::invalid());
    }
    assert(len <= n) by {
        let s = post_ord@.map_values(|b: Block| b.0 as int);
        assert forall|i: int, j: int| 0 <= i < j < s.len() implies s[i] != s[j] by {
            assert(post_ord@[i] != post_ord@[j]);
        }
        assert(s.no_duplicates());
        s.unique_seq_to_set();
        vstd::set_lib::lemma_int_range(0, n as int);
        assert(s.to_set().subset_of(vstd::set_lib::set_int_range(0, n as int)));
        vstd::set_lib::lemma_len_subset(s.to_set(), vstd::set_lib::set_int_range(0, n as int));
    }
    let mut i: usize = 0;
    while i < len
        invariant
            n == f.blocks@.len(),
            len == post_ord@.len(),
            len <= n,
            n < u32::MAX,
            i <= len,
            b2r@.len() == n,
            post_ord@.no_duplicates(),
            forall|k: int| 0 <= k < post_ord@.len() ==> (#[trigger] post_ord@[k]).0 < n,
            forall|b: int|
                0 <= b < n && #[trigger] b2r@[b] is Some ==> b2r@[b]->Some_0 < i && post_ord@[len - 1
                    - b2r@[b]->Some_0].0 == b,
            forall|k: int| len - i <= k < len ==> #[trigger] b2r@[post_ord@[k].0 as int] is Some
                && b2r@[post_ord@[k].0 as int]->Some_0 == len - 1 - k,
        decreases len - i,
    {
        let node = post_ord[len - 1 - i];
        b2r.set(node.index(), Some(i as u32));
        assert forall|k: int| len - (i + 1) <= k < len implies #[trigger] b2r@[post_ord@[k].0 as int] is Some
            && b2r@[post_ord@[k].0 as int]->Some_0 == len - 1 - k by {
            if k != len - 1 - i {
                assert(post_ord@[k] != post_ord@[len - 1 - i]);
            }
        }
        i += 1;
    }
    assert(numbers_rpo(b2r@, post_ord@));
    assert(b2r@[post_ord@[len - 1].0 as int]->Some_0 == 0);
    let ghost idom_init = idom@;
    idom.set(start.index(), start);
    assert forall|x: int| 0 <= x < idom@.len() && (#[trigger] idom@[x]).0 != INVALID_INDEX implies idom@[x].0
        < idom@.len() && idom@[idom@[x].0 as int].0 != INVALID_INDEX by {
        if x != start.0 {
            assert(idom@[x] == idom_init[x]);
        }
    }
    let mut changed = true;
    let mut passes: u64 = 0;
    // The iteration reaches its fixed point within a number of passes
    // bounded by the loop connectedness of the graph plus three, which is
    // below this bound; the count only makes termination explicit.
    while changed && passes <= n as u64 + 2
        invariant
            n == f.blocks@.len(),
            len == post_ord@.len(),
            f.wf(),
            start == f.entry,
            numbers_rpo(b2r@, post_ord@),
            b2r@.len() == n,
            rank(b2r@, start.0 as int) == 1,
            parents_ranked(idom@, b2r@, start),
            forall|k: int| 0 <= k < post_ord@.len() ==> (#[trigger] post_ord@[k]).0 < n,
            forall|i: int| 0 <= i < post_ord@.len() && post_ord@[i] != f.entry ==> discovered_later(f, post_ord@, i),
            closed_under_parents(idom@),
            passes == 0 ==> changed,
            passes >= 1 ==> forall|k: int| 0 <= k < len ==> idom@[(#[trigger] post_ord@[k]).0 as int].0 != INVALID_INDEX,
        decreases n as u64 + 3 - passes,
    {
        changed = false;
        passes += 1;
        let mut i: usize = 0;
        while i < len
            invariant
                n == f.blocks@.len(),
                len == post_ord@.len(),
                i <= len,
                f.wf(),
                start == f.entry,
                numbers_rpo(b2r@, post_ord@),
                b2r@.len() == n,
                rank(b2r@, start.0 as int) == 1,
                parents_ranked(idom@, b2r@, start),
                forall|k: int| 0 <= k < post_ord@.len() ==> (#[trigger] post_ord@[k]).0 < n,
                forall|i: int| 0 <= i < post_ord@.len() && post_ord@[i] != f.entry ==> discovered_later(f, post_ord@, i),
                closed_under_parents(idom@),
                passes >= 1,
                forall|k: int| 0 <= k < len && (passes > 1 || len - i <= k) ==> idom@[(#[trigger] post_ord@[k]).0 as int].0 != INVALID_INDEX,
            decreases len - i,
        {
            let node = post_ord[len - 1 - i];
            assert(node.0 < n);
            let preds = &f.blocks[node.index()].preds;
            assert(rank(b2r@, node.0 as int) == i + 1) by {
                let k = len - 1 - i;
                assert(post_ord@[k as int] == node);
                assert(b2r@[post_ord@[k as int].0 as int]->Some_0 == len - 1 - k);
            }
            let mut parent = Block::invalid();
            let mut k: usize = 0;
            while k < preds.len() && parent.is_invalid()
                invariant
                    n == f.blocks@.len(),
                    f.wf(),
                    node.0 < n,
                    preds == f.blocks@[node.0 as int].preds,
                    b2r@.len() == n,
                    rank(b2r@, node.0 as int) == i + 1,
                    parent.0 == INVALID_INDEX || (parent.0 < n && 0 < rank(b2r@, parent.0 as int) < rank(b2r@, node.0 as int)),
                    k <= preds@.len(),
                    parent.0 == INVALID_INDEX ==> forall|m: int| 0 <= m < k ==> !(b2r@[(#[trigger] preds@[m]).0 as int] is Some
                        && b2r@[preds@[m].0 as int]->Some_0 < i),
                decreases preds@.len() - k,
            {
                let pred = preds[k];
                match b2r[pred.index()] {
                    Some(pred_rpo) => {
                        if (pred_rpo as usize) < i {
                            parent = pred;
                        }
                    },
                    None => {},
                }
                k += 1;
            }
            proof {
                if node != start {
                    let ni = len - 1 - i;
                    assert(post_ord@[ni as int] == node);
                    assert(discovered_later(f, post_ord@, ni as int));
                    let j = choose|j: int| ni < j < post_ord@.len() && f.succs(post_ord@[j].0 as int).contains(#[trigger] post_ord@[ni as int]);
                    let p = post_ord@[j];
                    let ks = choose|ks: int| 0 <= ks < f.succs(p.0 as int).len() && f.succs(p.0 as int)[ks] == node;
                    assert(holds_block(f.succs(p.0 as int), node.0 as int));
                    assert(p.0 < n);
                    assert(holds_block(f.preds(node.0 as int), p.0 as int));
                    let m = choose|m: int| 0 <= m < f.preds(node.0 as int).len() && f.preds(node.0 as int)[m].0 == p.0;
                    assert(b2r@[post_ord@[j].0 as int] is Some && b2r@[post_ord@[j].0 as int]->Some_0 == len - 1 - j);
                    assert(preds@[m].0 == p.0);
                    assert(b2r@[preds@[m].0 as int] is Some);
                    assert(b2r@[preds@[m].0 as int]->Some_0 < i);
                    if parent.0 == INVALID_INDEX {
                        assert(k == preds@.len());
                        assert(!(b2r@[(preds@[m]).0 as int] is Some && b2r@[preds@[m].0 as int]->Some_0 < i));
                    }
                    assert(parent.0 != INVALID_INDEX);
                }
                if parent.0 != INVALID_INDEX {
                    let r = b2r@[parent.0 as int]->Some_0;
                    assert(post_ord@[len - 1 - r].0 == parent.0);
                    assert(idom@[post_ord@[len - 1 - r].0 as int].0 != INVALID_INDEX);
                }
            }
            if parent.is_valid() {
                let mut k: usize = 0;
                while k < preds.len()
                    invariant
                        n == f.blocks@.len(),
                        f.wf(),
                        node.0 < n,
                        preds == f.blocks@[node.0 as int].preds,
                        b2r@.len() == n,
                        numbers_rpo(b2r@, post_ord@),
                        rank(b2r@, start.0 as int) == 1,
                        parents_ranked(idom@, b2r@, start),
                        parent.0 == INVALID_INDEX || (parent.0 < n && 0 < rank(b2r@, parent.0 as int) < rank(b2r@, node.0 as int)),
                        closed_under_parents(idom@),
                        parent.0 != INVALID_INDEX && idom@[parent.0 as int].0 != INVALID_INDEX,
                        idom@.len() < INVALID_INDEX,
                    decreases preds@.len() - k,
                {
                    let pred = preds[k];
                    if pred != parent && idom[pred.index()].is_valid() && parent.is_valid() {
                        assert(rank(b2r@, pred.0 as int) > 0);
                        parent = merge_sets(&idom, &b2r, parent, pred, start);
                    }
                    k += 1;
                }
            }
            let ghost idom0 = idom@;
            if parent.is_valid() && parent != idom[node.index()] {
                assert(node != start);
                idom.set(node.index(), parent);
                changed = true;
                proof {
                    assert forall|x: int| 0 <= x < idom@.len() && (#[trigger] idom@[x]).0 != INVALID_INDEX implies
                        idom@[x].0 < idom@.len() && idom@[idom@[x].0 as int].0 != INVALID_INDEX by {
                        if x != node.0 {
                            assert(idom@[x] == idom0[x]);
                        }
                    }
                }
            }
            proof {
                assert(idom@[node.0 as int].0 != INVALID_INDEX);
                assert forall|k: int| 0 <= k < len && (passes > 1 || len - (i + 1) <= k) implies idom@[(#[trigger] post_ord@[k]).0 as int].0 != INVALID_INDEX by {
                    if post_ord@[k].0 != node.0 {
                        assert(idom@[post_ord@[k].0 as int] == idom0[post_ord@[k].0 as int]);
                        if !(passes > 1) && k == len - 1 - i {
                            assert(post_ord@[len - 1 - i] == node);
                        }
                    }
                }
            }
            i += 1;
        }
    }
    let ghost idom1 = idom@;
    idom.set(start.index(), Block::invalid());
    proof {
        assert forall|k: int|
            0 <= k < post_ord@.len() && post_ord@[k] != f.entry implies idom@[(#[trigger] post_ord@[k]).0 as int].0
                != INVALID_INDEX by {
            assert(post_ord@[k].0 != start.0);
            assert(idom@[post_ord@[k].0 as int] == idom1[post_ord@[k].0 as int]);
        }
        assert forall|b: int| 0 <= b < idom@.len() implies (#[trigger] idom@[b]).0 == INVALID_INDEX
            || (idom@[b].0 < idom@.len() && earlier_in(post_ord@, b, idom@[b])) by {
            if idom@[b].0 != INVALID_INDEX {
                let p = idom@[b];
                let rb = b2r@[b]->Some_0;
                let rp = b2r@[p.0 as int]->Some_0;
                assert(post_ord@[len - 1 - rb].0 == b);
                assert(post_ord@[len - 1 - rp].0 == p.0);
            }
        }
    }
    idom
}

/// Does `a` dominate `b`: is `a` reached from `b` by following tree
/// parents (a block dominates itself)?
pub fn dominates(idom: &Vec<Block>, po: &Vec<Block>, a: Block, b: Block) -> (r: bool)
    requires
        tree_shaped(idom@, po@),
        a.0 < idom@.len(),
        b.0 < idom@.len() || b.0 == INVALID_INDEX,
    ensures
        r == exists|k: nat| walk(idom@, b, k) == a,
{
    let ghost b0 = b;
    let mut cur = b;
    let ghost mut steps: nat = 0;
    loop
        invariant
            tree_shaped(idom@, po@),
            b0 == b,
            a.0 < idom@.len(),
            cur.0 < idom@.len() || cur.0 == INVALID_INDEX,
            cur == walk(idom@, b0, steps),
            forall|k: nat| k < steps ==> walk(idom@, b0, k) != a,
        decreases
            if cur.0 == INVALID_INDEX {
                0int
            } else if po@.contains(cur) {
                po@.len() + 1 - po@.index_of(cur)
            } else {
                po@.len() + 2int
            },
    {
        if a == cur {
            assert(walk(idom@, b0, steps) == a);
            return true;
        }
        if cur.is_invalid() {
            proof {
                assert forall|k: nat| walk(idom@, b0, k) != a by {
                    if k >= steps {
                        lemma_walk_stays_invalid(idom@, b0, steps, k);
                    }
                }
                assert(!exists|k: nat| walk(idom@, b0, k) == a);
            }
            return false;
        }
        let p = idom[cur.index()];
        proof {
            if p.0 != INVALID_INDEX {
                let (i, j) = choose|i: int, j: int| 0 <= i < j < po@.len() && po@[i].0 == cur.0 && po@[j] == p;
                assert(po@[i] == cur);
                assert(po@.contains(cur));
                assert(po@.contains(p));
                let ib = po@.index_of(cur);
                let ip = po@.index_of(p);
                assert(po@[ib] == po@[i]);
                assert(ib == i);
                assert(po@[ip] == po@[j]);
                assert(ip == j);
            }
            assert forall|k: nat| k < steps + 1 implies walk(idom@, b0, k) != a by {}
            steps = steps + 1;
        }
        cur = p;
    }
}

proof fn lemma_walk_stays_invalid(idom: Seq<Block>, b: Block, s: nat, k: nat)
    requires
        idom.len() < INVALID_INDEX,
        walk(idom, b, s).0 == INVALID_INDEX,
        s <= k,
    ensures
        walk(idom, b, k).0 == INVALID_INDEX,
    decreases k - s,
{
    if s < k {
        lemma_walk_stays_invalid(idom, b, s, (k - 1) as nat);
    }
}

/// One parent step first, then `k` more: the same as `k + 1` steps.
pub proof fn lemma_walk_first_step(idom: Seq<Block>, b: Block, k: nat)
    requires
        b.0 < idom.len(),
    ensures
        walk(idom, b, k + 1) == walk(idom, idom[b.0 as int], k),
    decreases k,
{
    if k > 0 {
        lemma_walk_first_step(idom, b, (k - 1) as nat);
        assert(walk(idom, b, k + 1) == {
            let p = walk(idom, b, k);
            if p.0 < idom.len() { idom[p.0 as int] } else { Block(INVALID_INDEX) }
        });
    } else {
        assert(walk(idom, b, 0) == b);
        assert(walk(idom, b, 1) == idom[b.0 as int]);
    }
}

/// In a tree-shaped table where every block of `po` but `root` has a
/// parent, following parents from any block of `po` reaches `root`.
pub proof fn lemma_walk_reaches_root(idom: Seq<Block>, po: Seq<Block>, root: Block, i: int)
    requires
        tree_shaped(idom, po),
        0 <= i < po.len(),
        forall|k: int| 0 <= k < po.len() ==> (#[trigger] po[k]).0 < idom.len(),
        forall|k: int| 0 <= k < po.len() && po[k] != root ==> idom[(#[trigger] po[k]).0 as int].0 != INVALID_INDEX,
    ensures
        po[i] == root || exists|k: nat| walk(idom, po[i], k) == root,
    decreases po.len() - i,
{
    let b = po[i];
    if b != root {
        let p = idom[b.0 as int];
        assert(earlier_in(po, b.0 as int, p));
        let (i2, j) = choose|i2: int, j: int| 0 <= i2 < j < po.len() && po[i2].0 == b.0 && po[j] == p;
        assert(po[i2] == b);
        assert(i2 == i);
        lemma_walk_reaches_root(idom, po, root, j);
        if p == root {
            assert(walk(idom, b, 1) == root) by {
                assert(walk(idom, b, 0) == b);
            }
        } else {
            let k = choose|k: nat| walk(idom, po[j], k) == root;
            lemma_walk_first_step(idom, b, k);
        }
    } else {
        assert(walk(idom, b, 0) == root);
    }
}

} // verus!
