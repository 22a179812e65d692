//! Postorder of the blocks reachable from the entry.

use crate::function::Function;
use crate::index::Block;
use vstd::prelude::*;
use vstd::set_lib::{lemma_int_range, lemma_len_subset, set_int_range};

verus! {

/// Block `po[i]` is a successor of a block that stands later in `po`.
pub open spec fn discovered_later(f: &Function, po: Seq<Block>, i: int) -> bool {
    exists|j: int| i < j < po.len() && f.succs(po[j].0 as int).contains(#[trigger] po[i])
}

/// Block `ret[i]` is a successor of a block on `stack` or later in `ret`.
spec fn discovered_pending(f: &Function, ret: Seq<Block>, stack: Seq<Block>, i: int) -> bool {
    exists|p: Block|
        #[trigger] f.succs(p.0 as int).contains(ret[i]) && (stack.contains(p) || exists|j: int|
            i < j < ret.len() && ret[j] == p)
}

/// The blocks reachable from the entry, each once, in depth-first
/// postorder: a block comes after every block that the search entered from
/// it.
pub fn calculate(f: &Function) -> (r: Vec<Block>)
    requires
        f.wf(),
    ensures
        r@.no_duplicates(),
        r@.contains(f.entry),
        r@.last() == f.entry,
        forall|i: int| 0 <= i < r@.len() && r@[i] != f.entry ==> discovered_later(f, r@, i),
        forall|k: int| 0 <= k < r@.len() ==> r@[k].0 < f.num_blocks() && f.reachable(#[trigger] r@[k]),
        forall|k: int, j: int|
            0 <= k < r@.len() && 0 <= j < f.succs(r@[k].0 as int).len() ==> r@.contains(
                #[trigger] f.succs(r@[k].0 as int)[j],
            ),
{
    let n = f.blocks.len();
    let mut visited: Vec<bool> = Vec::new();
    while visited.len() < n
        invariant
            visited@.len() <= n,
            forall|b: int| 0 <= b < visited@.len() ==> !visited@[b],
        decreases n - visited@.len(),
    {
        visited.push(false);
    }
    let mut ret: Vec<Block> = Vec::new();
    let mut stack_blocks: Vec<Block> = Vec::new();
    let mut stack_next: Vec<usize> = Vec::new();
    let entry = f.entry;
    visited.set(entry.index(), true);
    stack_blocks.push(entry);
    stack_next.push(0);
    let ghost mut vis: Set<int> = set![entry.0 as int];
    proof {
        assert(f.is_path(seq![entry]) && seq![entry].last() == entry);
        assert(vis =~= Set::new(|b: int| 0 <= b < n && visited@[b]));
        lemma_int_range(0, n as int);
        lemma_len_subset(vis, set_int_range(0, n as int));
    }
    while stack_blocks.len() > 0
        invariant
            f.wf(),
            n == f.blocks@.len(),
            entry == f.entry,
            visited@.len() == n,
            visited@[entry.0 as int],
            vis == Set::new(|b: int| 0 <= b < n && visited@[b]),
            vis.finite(),
            vis.len() <= n,
            stack_next@.len() == stack_blocks@.len(),
            stack_blocks@.len() > 0 ==> stack_blocks@[0] == entry,
            forall|k: int|
                0 < k < stack_blocks@.len() ==> f.succs(stack_blocks@[k - 1].0 as int).contains(
                    #[trigger] stack_blocks@[k],
                ),
            forall|i: int|
                0 <= i < ret@.len() && ret@[i] != entry ==> #[trigger] discovered_pending(f, ret@, stack_blocks@, i),
            stack_blocks@.len() == 0 ==> ret@.len() > 0 && ret@.last() == entry,
            ret@.no_duplicates(),
            stack_blocks@.no_duplicates(),
            forall|k: int| 0 <= k < ret@.len() ==> !stack_blocks@.contains(#[trigger] ret@[k]),
            forall|b: int|
                0 <= b < n ==> (#[trigger] visited@[b] <==> (ret@.contains(Block(b as u32))
                    || stack_blocks@.contains(Block(b as u32)))),
            forall|k: int|
                0 <= k < ret@.len() ==> ret@[k].0 < n && f.reachable(#[trigger] ret@[k]),
            forall|k: int|
                0 <= k < stack_blocks@.len() ==> stack_blocks@[k].0 < n && f.reachable(
                    #[trigger] stack_blocks@[k],
                ),
            forall|k: int, j: int|
                0 <= k < ret@.len() && 0 <= j < f.succs(ret@[k].0 as int).len()
                    ==> visited@[#[trigger] f.succs(ret@[k].0 as int)[j].0 as int],
            forall|k: int|
                0 <= k < stack_blocks@.len() ==> #[trigger] stack_next@[k] <= f.succs(
                    stack_blocks@[k].0 as int,
                ).len(),
            forall|k: int, j: int|
                0 <= k < stack_blocks@.len() && 0 <= j < stack_next@[k] ==> visited@[
                #[trigger] f.succs(stack_blocks@[k].0 as int)[j].0 as int],
        decreases
            n - vis.len(),
            stack_blocks@.len(),
            if stack_blocks@.len() > 0 {
                f.succs(stack_blocks@.last().0 as int).len() - stack_next@.last()
            } else {
                0
            },
    {
        let top = stack_blocks.len() - 1;
        let b = stack_blocks[top];
        let next = stack_next[top];
        let succs = &f.blocks[b.index()].succs;
        if next < succs.len() {
            let s = succs[next];
            assert(s.0 < n);
            stack_next.set(top, next + 1);
            if !visited[s.index()] {
                proof {
                    let p = choose|p: Seq<Block>| f.is_path(p) && p.last() == b;
                    assert(f.is_path(p.push(s)));
                    assert(p.push(s).last() == s);
                    assert(!ret@.contains(s));
                    assert(!stack_blocks@.contains(s));
                }
                let ghost sb0 = stack_blocks@;
                visited.set(s.index(), true);
                stack_blocks.push(s);
                stack_next.push(0);
                proof {
                    assert(f.succs(b.0 as int)[next as int] == s);
                    assert(stack_blocks@[top as int] == b);
                    assert forall|k: int|
                        0 < k < stack_blocks@.len() implies f.succs(stack_blocks@[k - 1].0 as int).contains(
                            #[trigger] stack_blocks@[k]) by {
                        if k < top + 1 {
                            assert(stack_blocks@[k] == sb0[k] && stack_blocks@[k - 1] == sb0[k - 1]);
                        } else {
                            assert(f.succs(b.0 as int)[next as int] == s);
                        }
                    }
                    assert forall|i: int| 0 <= i < ret@.len() && ret@[i] != entry implies
                        #[trigger] discovered_pending(f, ret@, stack_blocks@, i) by {
                        assert(discovered_pending(f, ret@, sb0, i));
                        let p = choose|p: Block| #[trigger] f.succs(p.0 as int).contains(ret@[i]) && (sb0.contains(p) || exists|j: int|
                            i < j < ret@.len() && ret@[j] == p);
                        if sb0.contains(p) {
                            let k = choose|k: int| 0 <= k < sb0.len() && sb0[k] == p;
                            assert(stack_blocks@[k] == p);
                        }
                    }
                    let old_vis = vis;
                    vis = vis.insert(s.0 as int);
                    assert(vis =~= Set::new(|b: int| 0 <= b < n && visited@[b]));
                    assert(!old_vis.contains(s.0 as int));
                    lemma_int_range(0, n as int);
                    lemma_len_subset(vis, set_int_range(0, n as int));
                    assert forall|k: int| 0 <= k < ret@.len() implies !stack_blocks@.contains(
                        #[trigger] ret@[k],
                    ) by {
                        assert(ret@[k] != s);
                        assert(!stack_blocks@.drop_last().contains(ret@[k]));
                        assert(stack_blocks@.drop_last() =~= stack_blocks@.subrange(0, top + 1));
                    }
                    assert forall|b2: int| 0 <= b2 < n implies (#[trigger] visited@[b2] <==> (
                    ret@.contains(Block(b2 as u32)) || stack_blocks@.contains(Block(b2 as u32)))) by {
                        let x = Block(b2 as u32);
                        if sb0.contains(x) {
                            let i = choose|i: int| 0 <= i < sb0.len() && sb0[i] == x;
                            assert(stack_blocks@[i] == x);
                        }
                        if stack_blocks@.contains(x) && x != s {
                            let i = choose|i: int| 0 <= i < stack_blocks@.len() && stack_blocks@[i] == x;
                            assert(i < sb0.len());
                            assert(sb0[i] == x);
                        }
                        if x == s {
                            assert(stack_blocks@[sb0.len() as int] == s);
                        }
                    }
                }
            }
        } else {
            let ghost sb0 = stack_blocks@;
            let ghost sn0 = stack_next@;
            let ghost r0 = ret@;
            proof {
                assert(sb0[top as int] == b);
                if top > 0 {
                    assert(sb0[0] == entry);
                    assert(b != entry);
                }
                assert(!ret@.contains(b));
            }
            ret.push(b);
            stack_blocks.pop();
            stack_next.pop();
            proof {
                assert(stack_blocks@ =~= sb0.subrange(0, top as int));
                assert(stack_next@ =~= sn0.subrange(0, top as int));
                assert(ret@ =~= r0.push(b));
                assert(!stack_blocks@.contains(b)) by {
                    if stack_blocks@.contains(b) {
                        let k = choose|k: int| 0 <= k < stack_blocks@.len() && stack_blocks@[k] == b;
                        assert(sb0[k] == sb0[top as int]);
                    }
                }
                assert forall|k: int| 0 <= k < ret@.len() implies !stack_blocks@.contains(
                    #[trigger] ret@[k],
                ) by {
                    if k < r0.len() {
                        assert(ret@[k] == r0[k]);
                        assert(!sb0.contains(r0[k]));
                        if stack_blocks@.contains(r0[k]) {
                            let i = choose|i: int| 0 <= i < stack_blocks@.len() && stack_blocks@[i] == r0[k];
                            assert(sb0[i] == r0[k]);
                        }
                    }
                }
                assert forall|b2: int| 0 <= b2 < n implies (#[trigger] visited@[b2] <==> (
                ret@.contains(Block(b2 as u32)) || stack_blocks@.contains(Block(b2 as u32)))) by {
                    let x = Block(b2 as u32);
                    if sb0.contains(x) && x != b {
                        let i = choose|i: int| 0 <= i < sb0.len() && sb0[i] == x;
                        assert(i != top);
                        assert(stack_blocks@[i] == x);
                    }
                    if r0.contains(x) {
                        let i = choose|i: int| 0 <= i < r0.len() && r0[i] == x;
                        assert(ret@[i] == x);
                    }
                    if ret@.contains(x) && x != b {
                        let i = choose|i: int| 0 <= i < ret@.len() && ret@[i] == x;
                        assert(r0[i] == x);
                    }
                    if x == b {
                        assert(ret@[r0.len() as int] == b);
                    }
                    if stack_blocks@.contains(x) {
                        let i = choose|i: int| 0 <= i < stack_blocks@.len() && stack_blocks@[i] == x;
                        assert(sb0[i] == x);
                    }
                }
                assert forall|k: int|
                    0 < k < stack_blocks@.len() implies f.succs(stack_blocks@[k - 1].0 as int).contains(
                        #[trigger] stack_blocks@[k]) by {
                    assert(stack_blocks@[k] == sb0[k] && stack_blocks@[k - 1] == sb0[k - 1]);
                }
                assert forall|i: int| 0 <= i < ret@.len() && ret@[i] != entry implies
                    #[trigger] discovered_pending(f, ret@, stack_blocks@, i) by {
                    if i < r0.len() {
                        assert(discovered_pending(f, r0, sb0, i));
                        let p = choose|p: Block| #[trigger] f.succs(p.0 as int).contains(r0[i]) && (sb0.contains(p) || exists|j: int|
                            i < j < r0.len() && r0[j] == p);
                        assert(ret@[i] == r0[i]);
                        if sb0.contains(p) {
                            let k = choose|k: int| 0 <= k < sb0.len() && sb0[k] == p;
                            if k == top {
                                assert(ret@[r0.len() as int] == p);
                            } else {
                                assert(stack_blocks@[k] == p);
                            }
                        } else {
                            let j = choose|j: int| i < j < r0.len() && r0[j] == p;
                            assert(ret@[j] == p);
                        }
                        assert(f.succs(p.0 as int).contains(ret@[i]));
                    } else {
                        assert(ret@[i] == b);
                        assert(top > 0);
                        let p = sb0[top - 1];
                        assert(f.succs(p.0 as int).contains(sb0[top as int]));
                        assert(stack_blocks@[top - 1] == p);
                        assert(stack_blocks@.contains(p));
                        assert(f.succs(p.0 as int).contains(ret@[i]));
                    }
                }
                assert forall|k: int, j: int|
                    0 <= k < ret@.len() && 0 <= j < f.succs(ret@[k].0 as int).len()
                        implies visited@[#[trigger] f.succs(ret@[k].0 as int)[j].0 as int] by {
                    if k == r0.len() {
                        assert(sn0[top as int] == f.succs(b.0 as int).len());
                    } else {
                        assert(ret@[k] == r0[k]);
                    }
                }
            }
        }
    }
    proof {
        assert forall|k: int, j: int|
            0 <= k < ret@.len() && 0 <= j < f.succs(ret@[k].0 as int).len() implies ret@.contains(
            #[trigger] f.succs(ret@[k].0 as int)[j]) by {
            let s = f.succs(ret@[k].0 as int)[j];
            assert(visited@[s.0 as int]);
            assert(Block(s.0 as u32) == s);
        }
        assert(Block(entry.0 as u32) == entry);
        assert forall|i: int| 0 <= i < ret@.len() && ret@[i] != f.entry implies discovered_later(f, ret@, i) by {
            assert(discovered_pending(f, ret@, stack_blocks@, i));
            let p = choose|p: Block| #[trigger] f.succs(p.0 as int).contains(ret@[i]) && (stack_blocks@.contains(p) || exists|j: int|
                i < j < ret@.len() && ret@[j] == p);
            let j = choose|j: int| i < j < ret@.len() && ret@[j] == p;
            assert(f.succs(ret@[j].0 as int).contains(ret@[i]));
        }
    }
    ret
}

/// A list of blocks that holds the entry and the successors of each of its
/// blocks holds every block reachable from the entry; with `calculate`'s
/// contract, its result is exactly the reachable blocks.
pub proof fn lemma_closed_list_holds_reachable(f: &Function, po: Seq<Block>, b: Block)
    requires
        f.wf(),
        po.contains(f.entry),
        forall|k: int, j: int|
            0 <= k < po.len() && 0 <= j < f.succs(po[k].0 as int).len() ==> po.contains(
                #[trigger] f.succs(po[k].0 as int)[j],
            ),
        f.reachable(b),
    ensures
        po.contains(b),
{
    let p = choose|p: Seq<Block>| f.is_path(p) && p.last() == b;
    lemma_path_in_closed_list(f, po, p, p.len() - 1);
}

proof fn lemma_path_in_closed_list(f: &Function, po: Seq<Block>, p: Seq<Block>, i: int)
    requires
        f.wf(),
        po.contains(f.entry),
        forall|k: int, j: int|
            0 <= k < po.len() && 0 <= j < f.succs(po[k].0 as int).len() ==> po.contains(
                #[trigger] f.succs(po[k].0 as int)[j],
            ),
        f.is_path(p),
        0 <= i < p.len(),
    ensures
        po.contains(p[i]),
    decreases i,
{
    if i > 0 {
        lemma_path_in_closed_list(f, po, p, i - 1);
        let k = choose|k: int| 0 <= k < po.len() && po[k] == p[i - 1];
        let m = i - 1;
        assert(f.succs(p[m].0 as int).contains(p[m + 1]));
        let s = f.succs(p[i - 1].0 as int);
        let j = choose|j: int| 0 <= j < s.len() && #[trigger] s[j] == p[i];
        assert(po.contains(f.succs(po[k].0 as int)[j]));
    }
}

} // verus!
