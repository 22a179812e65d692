//! The input program: blocks of instructions over virtual registers.

use crate::index::{Block, Inst, Operand, OperandKind, VReg};
use vstd::prelude::*;

verus! {

/// One basic block.
pub struct BlockData {
    /// The first instruction of the block.
    pub first: Inst,
    /// The last instruction of the block (its branch).
    pub last: Inst,
    pub succs: Vec<Block>,
    pub preds: Vec<Block>,
    /// The values the block receives from its predecessors.
    pub params: Vec<VReg>,
    /// Where, among the branch's operands, the block-parameter arguments
    /// begin.
    pub branch_arg_offset: u32,
}

/// One instruction.
pub struct InstData {
    pub operands: Vec<Operand>,
}

/// A function to allocate.
pub struct Function {
    pub entry: Block,
    pub blocks: Vec<BlockData>,
    pub insts: Vec<InstData>,
    pub num_vregs: usize,
}

/// Some item of `s` is block number `x`.
pub open spec fn holds_block(s: Seq<Block>, x: int) -> bool {
    exists|k: int| 0 <= k < s.len() && s[k].0 == x
}

/// The number of successor entries of blocks `0..k`.
pub open spec fn edges_upto(blocks: Seq<BlockData>, k: int) -> nat
    decreases k,
{
    if k <= 0 {
        0
    } else {
        edges_upto(blocks, k - 1) + blocks[k - 1].succs@.len()
    }
}

pub proof fn lemma_edges_upto_mono(blocks: Seq<BlockData>, j: int, k: int)
    requires
        0 <= j <= k,
    ensures
        edges_upto(blocks, j) <= edges_upto(blocks, k),
    decreases k - j,
{
    if j < k {
        lemma_edges_upto_mono(blocks, j, k - 1);
    }
}

impl Function {
    pub open spec fn num_blocks(&self) -> int {
        self.blocks@.len() as int
    }

    pub open spec fn succs(&self, b: int) -> Seq<Block> {
        self.blocks@[b].succs@
    }

    pub open spec fn preds(&self, b: int) -> Seq<Block> {
        self.blocks@[b].preds@
    }

    /// Does block `b` hold instruction `i`?
    pub open spec fn block_holds(&self, b: int, i: int) -> bool {
        self.blocks@[b].first.0 <= i <= self.blocks@[b].last.0
    }

    /// Does instruction `i` define `v` through an operand?
    pub open spec fn inst_defines(&self, i: int, v: int) -> bool {
        exists|k: int|
            0 <= k < self.insts@[i].operands@.len() && #[trigger] self.insts@[i].operands@[k].kind
                == OperandKind::Def && self.insts@[i].operands@[k].vreg.id == v
    }

    /// The shape every analysis relies on: indices in range, blocks that
    /// are non-empty and disjoint runs of instructions.
    pub open spec fn wf(&self) -> bool {
        let n = self.blocks@.len();
        &&& 0 < n < u32::MAX
        &&& self.insts@.len() < u32::MAX
        &&& self.num_vregs <= u32::MAX
        &&& self.entry.0 < n
        &&& edges_upto(self.blocks@, n as int) <= u32::MAX
        &&& forall|b: int|
            0 <= b < n ==> {
                let bd = #[trigger] self.blocks@[b];
                &&& bd.first.0 <= bd.last.0 < self.insts@.len()
                &&& bd.preds@.len() < u32::MAX
                &&& bd.params@.len() < u32::MAX
                &&& forall|k: int| 0 <= k < bd.succs@.len() ==> bd.succs@[k].0 < n
                &&& forall|k: int| 0 <= k < bd.preds@.len() ==> bd.preds@[k].0 < n
                &&& forall|k: int| 0 <= k < bd.params@.len() ==> bd.params@[k].id < self.num_vregs
            }
        &&& forall|b: int, p: int|
            0 <= b < n && 0 <= p < n ==> (holds_block(#[trigger] self.preds(b), p) <==> holds_block(
                #[trigger] self.succs(p),
                b,
            ))
        &&& forall|b1: int, b2: int|
            0 <= b1 < n && 0 <= b2 < n && b1 != b2 ==> #[trigger] self.blocks@[b1].last.0
                < #[trigger] self.blocks@[b2].first.0 || self.blocks@[b2].last.0
                < self.blocks@[b1].first.0
        &&& forall|i: int, k: int|
            0 <= i < self.insts@.len() && 0 <= k < self.insts@[i].operands@.len()
                ==> #[trigger] self.insts@[i].operands@[k].vreg.id < self.num_vregs
    }

    /// The number of predecessors of `b`, counting a virtual one for the
    /// entry.
    pub open spec fn pred_count(&self, b: int) -> int {
        self.preds(b).len() + if b == self.entry.0 { 1int } else { 0int }
    }

    /// The edge from `p` into `b` is critical: `b` has several
    /// predecessors and `p` several successors.
    pub open spec fn crit_edge(&self, b: int, p: Block) -> bool {
        &&& self.pred_count(b) > 1
        &&& self.preds(b).contains(p)
        &&& self.succs(p.0 as int).len() > 1
    }

    /// `b` branches to a block with several predecessors while passing
    /// arguments other than block parameters.
    pub open spec fn bad_branch_args(&self, b: int) -> bool {
        &&& exists|k: int|
            0 <= k < self.succs(b).len() && self.pred_count(#[trigger] self.succs(b)[k].0 as int) > 1
        &&& self.blocks@[b].branch_arg_offset > 0
    }

    /// Block `b` meets the intake conditions.
    pub open spec fn block_ok(&self, b: int) -> bool {
        &&& forall|p: Block| !self.crit_edge(b, p)
        &&& !self.bad_branch_args(b)
    }

    /// A path of blocks from the entry, each followed by one of its
    /// successors.
    pub open spec fn is_path(&self, p: Seq<Block>) -> bool {
        &&& p.len() > 0
        &&& p[0] == self.entry
        &&& forall|k: int| 0 <= k < p.len() - 1 ==> #[trigger] self.succs(p[k].0 as int).contains(
            p[k + 1],
        )
    }

    /// Can block `b` be reached from the entry?
    pub open spec fn reachable(&self, b: Block) -> bool {
        exists|p: Seq<Block>| self.is_path(p) && p.last() == b
    }
}

} // verus!
