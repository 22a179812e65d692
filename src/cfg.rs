//! Lightweight CFG analyses.

use crate::domtree;
use crate::function::{edges_upto, holds_block, lemma_edges_upto_mono, Function};
use crate::index::{Block, Inst, InstPosition, OperandKind, ProgPoint, RegAllocError, INVALID_INDEX};
use crate::list::IdxList;
use crate::postorder;
use vstd::prelude::*;

verus! {

/// Checks the intake conditions block by block and, for each block with
/// several predecessors, records each predecessor's position in its list.
fn check_edges(f: &Function) -> (r: Result<Vec<usize>, RegAllocError>)
    requires
        f.wf(),
    ensures
        match r {
            Ok(pred_pos) => {
                &&& forall|b: int| 0 <= b < f.num_blocks() ==> f.block_ok(b)
                &&& pred_pos@.len() == f.num_blocks()
                &&& forall|b: int, k: int|
                    0 <= b < f.num_blocks() && f.pred_count(b) > 1 && 0 <= k < f.preds(b).len()
                        ==> {
                        let p = #[trigger] f.preds(b)[k];
                        pred_pos@[p.0 as int] < f.preds(b).len() && f.preds(b)[pred_pos@[p.0 as int] as int]
                            == p
                    }
                &&& forall|p: int|
                    0 <= p < f.num_blocks() && (forall|b: int|
                        0 <= b < f.num_blocks() && f.pred_count(b) > 1 ==> !holds_block(
                            #[trigger] f.preds(b),
                            p,
                        )) ==> pred_pos@[p] == 0
            },
            Err(RegAllocError::CritEdge(p, b)) => {
                &&& b.0 < f.num_blocks()
                &&& f.crit_edge(b.0 as int, p)
                &&& forall|c: int| 0 <= c < b.0 ==> f.block_ok(c)
            },
            Err(RegAllocError::DisallowedBranchArg(i)) => exists|b: int|
                0 <= b < f.num_blocks() && i == f.blocks@[b].last && (forall|p: Block|
                    !f.crit_edge(b, p)) && f.bad_branch_args(b) && forall|c: int|
                    0 <= c < b ==> f.block_ok(c),
            Err(_) => false,
        },
{
    let n = f.blocks.len();
    let mut pred_pos: Vec<usize> = Vec::new();
    while pred_pos.len() < n
        invariant
            pred_pos@.len() <= n,
            forall|p: int| 0 <= p < pred_pos@.len() ==> pred_pos@[p] == 0,
        decreases n - pred_pos@.len(),
    {
        pred_pos.push(0);
    }
    let mut block: usize = 0;
    while block < n
        invariant
            f.wf(),
            n == f.num_blocks(),
            block <= n,
            pred_pos@.len() == n,
            forall|c: int| 0 <= c < block ==> f.block_ok(c),
            forall|b: int, k: int|
                0 <= b < block && f.pred_count(b) > 1 && 0 <= k < f.preds(b).len() ==> {
                    let p = #[trigger] f.preds(b)[k];
                    pred_pos@[p.0 as int] < f.preds(b).len() && f.preds(b)[pred_pos@[p.0 as int] as int]
                        == p
                },
            forall|p: int|
                0 <= p < n && (forall|b: int|
                    0 <= b < block && f.pred_count(b) > 1 ==> !holds_block(#[trigger] f.preds(b), p))
                    ==> pred_pos@[p] == 0,
        decreases n - block,
    {
        let bd = &f.blocks[block];
        let preds = &bd.preds;
        let np = preds.len() + if block == f.entry.index() { 1 } else { 0 };
        if np > 1 {
            let mut i: usize = 0;
            while i < preds.len()
                invariant
                    f.wf(),
                    n == f.num_blocks(),
                    block < n,
                    preds == f.blocks@[block as int].preds,
                    f.pred_count(block as int) > 1,
                    i <= preds@.len(),
                    pred_pos@.len() == n,
                    forall|k: int| 0 <= k < i ==> !f.crit_edge(block as int, #[trigger] preds@[k]),
                    forall|k: int| 0 <= k < i ==> f.succs((#[trigger] preds@[k]).0 as int).len() <= 1,
                    forall|b: int, k: int|
                        0 <= b < block && f.pred_count(b) > 1 && 0 <= k < f.preds(b).len() ==> {
                            let p = #[trigger] f.preds(b)[k];
                            pred_pos@[p.0 as int] < f.preds(b).len() && f.preds(b)[pred_pos@[p.0 as int] as int]
                                == p
                        },
                    forall|k: int|
                        0 <= k < i ==> {
                            let p = #[trigger] preds@[k];
                            pred_pos@[p.0 as int] < preds@.len() && preds@[pred_pos@[p.0 as int] as int]
                                == p
                        },
                    forall|p: int|
                        0 <= p < n && (forall|b: int|
                            0 <= b < block && f.pred_count(b) > 1 ==> !holds_block(#[trigger] f.preds(b), p))
                            && !holds_block(preds@.subrange(0, i as int), p) ==> pred_pos@[p] == 0,
                    forall|c: int| 0 <= c < block ==> f.block_ok(c),
                decreases preds@.len() - i,
            {
                let pred = preds[i];
                let succs = f.blocks[pred.index()].succs.len();
                if succs > 1 {
                    assert(preds@.contains(pred));
                    return Err(RegAllocError::CritEdge(pred, Block::new(block)));
                }
                proof {
                    assert(holds_block(f.preds(block as int), pred.0 as int));
                    assert(holds_block(f.succs(pred.0 as int), block as int));
                    assert forall|b: int, k: int|
                        0 <= b < block && f.pred_count(b) > 1 && 0 <= k < f.preds(b).len()
                            implies #[trigger] f.preds(b)[k].0 != pred.0 by {
                        if f.preds(b)[k].0 == pred.0 {
                            assert(holds_block(f.preds(b), pred.0 as int));
                            assert(holds_block(f.succs(pred.0 as int), b));
                        }
                    }
                    assert(!f.crit_edge(block as int, pred));
                }
                let ghost pp0 = pred_pos@;
                pred_pos.set(pred.index(), i);
                proof {
                    assert forall|p: int|
                        0 <= p < n && (forall|b: int|
                            0 <= b < block && f.pred_count(b) > 1 ==> !holds_block(#[trigger] f.preds(b), p))
                            && !holds_block(preds@.subrange(0, i + 1), p) implies pred_pos@[p] == 0 by {
                        if p != pred.0 {
                            if holds_block(preds@.subrange(0, i as int), p) {
                                let k = choose|k: int| 0 <= k < i && preds@.subrange(0, i as int)[k].0 == p;
                                assert(preds@.subrange(0, i + 1)[k].0 == p);
                            }
                        } else {
                            assert(preds@.subrange(0, i + 1)[i as int].0 == p);
                        }
                    }
                }
                i += 1;
            }
            proof {
                assert forall|p: Block| !f.crit_edge(block as int, p) by {
                    if f.preds(block as int).contains(p) {
                        let k = choose|k: int| 0 <= k < preds@.len() && preds@[k] == p;
                        assert(!f.crit_edge(block as int, preds@[k]));
                    }
                }
                assert forall|p: int|
                    0 <= p < n && (forall|b: int|
                        0 <= b < block + 1 && f.pred_count(b) > 1 ==> !holds_block(#[trigger] f.preds(b), p))
                        implies pred_pos@[p] == 0 by {
                    assert(!holds_block(f.preds(block as int), p));
                    if holds_block(preds@.subrange(0, preds@.len() as int), p) {
                        let k = choose|k: int| 0 <= k < preds@.len() && preds@.subrange(0, preds@.len() as int)[k].0 == p;
                        assert(preds@[k].0 == p);
                    }
                }
            }
        } else {
            assert forall|p: Block| !f.crit_edge(block as int, p) by {}
        }
        let mut require_no_branch_args = false;
        let succs = &bd.succs;
        let mut k: usize = 0;
        while k < succs.len()
            invariant
                f.wf(),
                n == f.num_blocks(),
                block < n,
                succs == f.blocks@[block as int].succs,
                k <= succs@.len(),
                require_no_branch_args == exists|j: int|
                    0 <= j < k && f.pred_count(#[trigger] succs@[j].0 as int) > 1,
                forall|p: Block| !f.crit_edge(block as int, p),
                forall|c: int| 0 <= c < block ==> f.block_ok(c),
            decreases succs@.len() - k,
        {
            let succ = succs[k];
            let sp = f.blocks[succ.index()].preds.len() + if succ == f.entry { 1 } else { 0 };
            if sp > 1 {
                require_no_branch_args = true;
            }
            k += 1;
        }
        if require_no_branch_args && bd.branch_arg_offset > 0 {
            proof {
                let j = choose|j: int| 0 <= j < succs@.len() && f.pred_count(#[trigger] succs@[j].0 as int) > 1;
                assert(f.succs(block as int)[j] == succs@[j]);
                assert(f.pred_count(f.succs(block as int)[j].0 as int) > 1);
                assert(bd.last == f.blocks@[block as int].last);
                assert(f.bad_branch_args(block as int));
            }
            return Err(RegAllocError::DisallowedBranchArg(bd.last));
        }
        assert(f.block_ok(block as int));
        block += 1;
    }
    Ok(pred_pos)
}

/// Each block's entry (before its first instruction) and exit (after its
/// last).
fn block_points(f: &Function) -> (r: (Vec<ProgPoint>, Vec<ProgPoint>))
    requires
        f.wf(),
    ensures
        r.0@.len() == f.num_blocks(),
        r.1@.len() == f.num_blocks(),
        forall|b: int| 0 <= b < f.num_blocks() ==> #[trigger] r.0@[b] == (ProgPoint {
            inst: f.blocks@[b].first,
            pos: InstPosition::Before,
        }),
        forall|b: int| 0 <= b < f.num_blocks() ==> #[trigger] r.1@[b] == (ProgPoint {
            inst: f.blocks@[b].last,
            pos: InstPosition::After,
        }),
{
    let n = f.blocks.len();
    let mut entries: Vec<ProgPoint> = Vec::new();
    let mut exits: Vec<ProgPoint> = Vec::new();
    let mut b: usize = 0;
    while b < n
        invariant
            n == f.num_blocks(),
            b <= n,
            entries@.len() == b,
            exits@.len() == b,
            forall|c: int| 0 <= c < b ==> #[trigger] entries@[c] == (ProgPoint {
                inst: f.blocks@[c].first,
                pos: InstPosition::Before,
            }),
            forall|c: int| 0 <= c < b ==> #[trigger] exits@[c] == (ProgPoint {
                inst: f.blocks@[c].last,
                pos: InstPosition::After,
            }),
        decreases n - b,
    {
        entries.push(ProgPoint::before(f.blocks[b].first));
        exits.push(ProgPoint::after(f.blocks[b].last));
        b += 1;
    }
    (entries, exits)
}

/// For each instruction, the block that holds it (invalid if none does).
fn inst_blocks(f: &Function) -> (r: Vec<Block>)
    requires
        f.wf(),
    ensures
        inst_blocks_ok(f, r@),
{
    let n = f.blocks.len();
    let ni = f.insts.len();
    let mut r: Vec<Block> = Vec::new();
    while r.len() < ni
        invariant
            r@.len() <= ni,
            forall|i: int| 0 <= i < r@.len() ==> r@[i].0 == INVALID_INDEX,
        decreases ni - r@.len(),
    {
        r.push(Block::invalid());
    }
    let mut block: usize = 0;
    while block < n
        invariant
            f.wf(),
            n == f.num_blocks(),
            ni == f.insts@.len(),
            block <= n,
            r@.len() == ni,
            forall|b: int, i: int| 0 <= b < block && 0 <= i < ni && #[trigger] f.block_holds(b, i) ==> r@[i].0 == b,
            forall|i: int| 0 <= i < ni ==> (#[trigger] r@[i]).0 == INVALID_INDEX || (r@[i].0 < block && f.block_holds(r@[i].0 as int, i)),
        decreases n - block,
    {
        let first = f.blocks[block].first.index();
        let last = f.blocks[block].last.index();
        assert(f.blocks@[block as int].first.0 <= f.blocks@[block as int].last.0 < ni);
        let mut j: usize = first;
        while j <= last
            invariant
                f.wf(),
                n == f.num_blocks(),
                ni == f.insts@.len(),
                block < n,
                first == f.blocks@[block as int].first.0,
                last == f.blocks@[block as int].last.0,
                last < ni,
                first <= j <= last + 1,
                r@.len() == ni,
                forall|b: int, i: int| 0 <= b < block && 0 <= i < ni && #[trigger] f.block_holds(b, i) ==> r@[i].0 == b,
                forall|i: int| first <= i < j ==> (#[trigger] r@[i]).0 == block,
                forall|i: int| 0 <= i < ni ==> (#[trigger] r@[i]).0 == INVALID_INDEX || (r@[i].0 <= block && f.block_holds(r@[i].0 as int, i)),
            decreases last + 1 - j,
        {
            proof {
                assert forall|b: int| 0 <= b < block implies !f.block_holds(b, j as int) by {
                    assert(f.blocks@[b].last.0 < f.blocks@[block as int].first.0 || f.blocks@[block as int].last.0 < f.blocks@[b].first.0);
                }
            }
            r.set(j, Block::new(block));
            j += 1;
        }
        block += 1;
    }
    r
}

/// Instruction-to-block map: exact for instructions that a block holds.
pub open spec fn inst_blocks_ok(f: &Function, r: Seq<Block>) -> bool {
    &&& r.len() == f.insts@.len()
    &&& forall|b: int, i: int|
        0 <= b < f.num_blocks() && 0 <= i < r.len() && #[trigger] f.block_holds(b, i) ==> r[i].0 == b
    &&& forall|i: int|
        0 <= i < r.len() ==> (#[trigger] r[i]).0 == INVALID_INDEX || (r[i].0 < f.num_blocks()
            && f.block_holds(r[i].0 as int, i))
}

/// Each value's defining instruction: invalid, or an instruction of some
/// block that defines it; valid whenever a block's instruction defines it.
pub open spec fn def_insts_ok(f: &Function, r: Seq<Inst>) -> bool {
    &&& r.len() == f.num_vregs
    &&& forall|v: int|
        0 <= v < r.len() ==> (#[trigger] r[v]).0 == INVALID_INDEX || (r[v].0 < f.insts@.len()
            && f.inst_defines(r[v].0 as int, v) && exists|b: int| 0 <= b < f.num_blocks() && f.block_holds(b, r[v].0 as int))
    &&& forall|b: int, i: int, v: int|
        0 <= b < f.num_blocks() && #[trigger] f.block_holds(b, i) && 0 <= v < r.len()
            && #[trigger] f.inst_defines(i, v) ==> r[v].0 != INVALID_INDEX
}

/// Each value's defining block parameter (block, index): invalid, or a
/// parameter that is the value; valid whenever some parameter is the value.
pub open spec fn def_params_ok(f: &Function, r: Seq<(Block, u32)>) -> bool {
    &&& r.len() == f.num_vregs
    &&& forall|v: int|
        0 <= v < r.len() ==> (#[trigger] r[v]).0.0 == INVALID_INDEX || (r[v].0.0 < f.num_blocks()
            && r[v].1 < f.blocks@[r[v].0.0 as int].params@.len() && f.blocks@[r[v].0.0 as int].params@[r[v].1 as int].id == v)
    &&& forall|b: int, k: int|
        0 <= b < f.num_blocks() && 0 <= k < f.blocks@[b].params@.len() ==> r[
        (#[trigger] f.blocks@[b].params@[k]).id as int].0.0 != INVALID_INDEX
}

/// Finds where each value is defined: by an instruction's def operand or as
/// a block parameter.
#[verifier::rlimit(60)]
fn vreg_defs(f: &Function) -> (r: (Vec<Inst>, Vec<(Block, u32)>))
    requires
        f.wf(),
    ensures
        def_insts_ok(f, r.0@),
        def_params_ok(f, r.1@),
{
    let n = f.blocks.len();
    let nv = f.num_vregs;
    let mut def_inst: Vec<Inst> = Vec::new();
    let mut def_param: Vec<(Block, u32)> = Vec::new();
    while def_inst.len() < nv
        invariant
            def_inst@.len() <= nv,
            def_param@.len() == def_inst@.len(),
            forall|v: int| 0 <= v < def_inst@.len() ==> (#[trigger] def_inst@[v]).0 == INVALID_INDEX,
            forall|v: int| 0 <= v < def_param@.len() ==> (#[trigger] def_param@[v]).0.0 == INVALID_INDEX,
        decreases nv - def_inst@.len(),
    {
        def_inst.push(Inst::invalid());
        def_param.push((Block::invalid(), 0));
    }
    let mut block: usize = 0;
    while block < n
        invariant
            f.wf(),
            n == f.num_blocks(),
            nv == f.num_vregs,
            block <= n,
            def_insts_partial(f, def_inst@, block as int, 0, 0),
            def_params_partial(f, def_param@, block as int, 0),
        decreases n - block,
    {
        let params = &f.blocks[block].params;
        let mut k: usize = 0;
        while k < params.len()
            invariant
                f.wf(),
                n == f.num_blocks(),
                nv == f.num_vregs,
                block < n,
                params == f.blocks@[block as int].params,
                k <= params@.len(),
                def_param@.len() == nv,
                def_params_partial(f, def_param@, block as int, k as int),
            decreases params@.len() - k,
        {
            let v = params[k].vreg();
            def_param.set(v, (Block::new(block), k as u32));
            k += 1;
        }
        assert(def_params_partial(f, def_param@, block + 1, 0));
        let first = f.blocks[block].first.index();
        let last = f.blocks[block].last.index();
        assert(f.blocks@[block as int].first.0 <= f.blocks@[block as int].last.0 < f.insts@.len());
        let mut j: usize = first;
        while j <= last
            invariant
                f.wf(),
                n == f.num_blocks(),
                nv == f.num_vregs,
                block < n,
                first == f.blocks@[block as int].first.0,
                last == f.blocks@[block as int].last.0,
                last < f.insts@.len(),
                first <= j <= last + 1,
                def_insts_partial(f, def_inst@, block as int, j as int, 0),
            decreases last + 1 - j,
        {
            let ops = &f.insts[j].operands;
            let mut k: usize = 0;
            while k < ops.len()
                invariant
                    f.wf(),
                    n == f.num_blocks(),
                    nv == f.num_vregs,
                    block < n,
                    first == f.blocks@[block as int].first.0,
                    last == f.blocks@[block as int].last.0,
                    last < f.insts@.len(),
                    first <= j <= last,
                    ops == f.insts@[j as int].operands,
                    k <= ops@.len(),
                    def_insts_partial(f, def_inst@, block as int, j as int, k as int),
                decreases ops@.len() - k,
            {
                let op = ops[k];
                if op.kind == OperandKind::Def {
                    def_inst.set(op.vreg.vreg(), Inst::new(j));
                    assert(f.block_holds(block as int, j as int));
                }
                k += 1;
            }
            assert(def_insts_partial(f, def_inst@, block as int, j + 1, 0));
            j += 1;
        }
        assert(def_insts_partial(f, def_inst@, block + 1, 0, 0));
        block += 1;
    }
    (def_inst, def_param)
}

/// `def_insts_ok` for the blocks before `block`, the instructions of
/// `block` before `j` and the first `k` operands of instruction `j`.
spec fn def_insts_partial(f: &Function, r: Seq<Inst>, block: int, j: int, k: int) -> bool {
    &&& r.len() == f.num_vregs
    &&& forall|v: int|
        0 <= v < r.len() ==> (#[trigger] r[v]).0 == INVALID_INDEX || (r[v].0 < f.insts@.len()
            && f.inst_defines(r[v].0 as int, v) && exists|b: int| 0 <= b < f.num_blocks() && f.block_holds(b, r[v].0 as int))
    &&& forall|b: int, i: int, v: int|
        0 <= b < block && #[trigger] f.block_holds(b, i) && 0 <= v < r.len()
            && #[trigger] f.inst_defines(i, v) ==> r[v].0 != INVALID_INDEX
    &&& forall|i: int, v: int|
        0 <= block < f.num_blocks() && f.blocks@[block].first.0 <= i < j && 0 <= v < r.len()
            && #[trigger] f.inst_defines(i, v) ==> r[v].0 != INVALID_INDEX
    &&& forall|m: int|
        0 <= m < k && 0 <= j < f.insts@.len() && m < f.insts@[j].operands@.len() && (#[trigger] f.insts@[j].operands@[m]).kind == OperandKind::Def
            ==> r[f.insts@[j].operands@[m].vreg.id as int].0 != INVALID_INDEX
}

/// `def_params_ok` for the blocks before `block` and the first `k`
/// parameters of `block`.
spec fn def_params_partial(f: &Function, r: Seq<(Block, u32)>, block: int, k: int) -> bool {
    &&& r.len() == f.num_vregs
    &&& forall|v: int|
        0 <= v < r.len() ==> (#[trigger] r[v]).0.0 == INVALID_INDEX || (r[v].0.0 < f.num_blocks()
            && r[v].1 < f.blocks@[r[v].0.0 as int].params@.len() && f.blocks@[r[v].0.0 as int].params@[r[v].1 as int].id == v)
    &&& forall|b: int, m: int|
        0 <= b < block && 0 <= m < f.blocks@[b].params@.len() ==> r[
        (#[trigger] f.blocks@[b].params@[m]).id as int].0.0 != INVALID_INDEX
    &&& forall|m: int|
        0 <= block < f.num_blocks() && 0 <= m < k && m < f.blocks@[block].params@.len() ==> r[
        (#[trigger] f.blocks@[block].params@[m]).id as int].0.0 != INVALID_INDEX
}

/// Block `b` is the target of a back edge: an edge from a block numbered
/// no lower than `b`.
pub open spec fn is_loop_header(f: &Function, b: int) -> bool {
    exists|p: int, k: int|
        0 <= p < f.num_blocks() && 0 <= k < f.succs(p).len() && #[trigger] f.succs(p)[k].0 == b && b
            <= p
}

/// Block `p` is the source of a back edge.
pub open spec fn has_back_edge(f: &Function, p: int) -> bool {
    exists|k: int| 0 <= k < f.succs(p).len() && (#[trigger] f.succs(p)[k]).0 <= p
}

/// How many of the first `k` blocks of `s` are block `x`.
pub open spec fn count_eq(s: Seq<Block>, x: int, k: int) -> nat
    decreases k,
{
    if k <= 0 {
        0
    } else {
        count_eq(s, x, k - 1) + if s[k - 1].0 == x { 1nat } else { 0nat }
    }
}

/// How many of the first `k` blocks of `s` are numbered at most `x`.
pub open spec fn count_le(s: Seq<Block>, x: int, k: int) -> nat
    decreases k,
{
    if k <= 0 {
        0
    } else {
        count_le(s, x, k - 1) + if s[k - 1].0 <= x { 1nat } else { 0nat }
    }
}

/// The number of back edges into block `x` from blocks `0..p`.
pub open spec fn back_in(f: &Function, x: int, p: int) -> nat
    decreases p,
{
    if p <= 0 {
        0
    } else {
        back_in(f, x, p - 1) + if x <= p - 1 {
            count_eq(f.succs(p - 1), x, f.succs(p - 1).len() as int)
        } else {
            0nat
        }
    }
}

/// The number of back edges out of block `p`.
pub open spec fn back_out(f: &Function, p: int) -> nat {
    count_le(f.succs(p), p, f.succs(p).len() as int)
}

/// For each block, how many back edges enter it and how many leave it.
fn backedge_counts(f: &Function) -> (r: (Vec<u32>, Vec<u32>))
    requires
        f.wf(),
    ensures
        r.0@.len() == f.num_blocks(),
        r.1@.len() == f.num_blocks(),
        forall|b: int| 0 <= b < f.num_blocks() ==> (#[trigger] r.0@[b] > 0 <==> is_loop_header(f, b)),
        forall|b: int| 0 <= b < f.num_blocks() ==> (#[trigger] r.1@[b] > 0 <==> has_back_edge(f, b)),
        forall|b: int| 0 <= b < f.num_blocks() ==> #[trigger] r.0@[b] == back_in(f, b, f.num_blocks()),
        forall|b: int| 0 <= b < f.num_blocks() ==> #[trigger] r.1@[b] == back_out(f, b),
{
    let n = f.blocks.len();
    let mut bin: Vec<u32> = Vec::new();
    let mut bout: Vec<u32> = Vec::new();
    while bin.len() < n
        invariant
            bin@.len() <= n,
            bout@.len() == bin@.len(),
            forall|b: int| 0 <= b < bin@.len() ==> #[trigger] bin@[b] == 0,
            forall|b: int| 0 <= b < bout@.len() ==> #[trigger] bout@[b] == 0,
        decreases n - bin@.len(),
    {
        bin.push(0);
        bout.push(0);
    }
    let mut block: usize = 0;
    while block < n
        invariant
            f.wf(),
            n == f.num_blocks(),
            block <= n,
            bin@.len() == n,
            bout@.len() == n,
            forall|b: int| 0 <= b < n ==> #[trigger] bin@[b] <= edges_upto(f.blocks@, block as int),
            forall|b: int| 0 <= b < n ==> #[trigger] bout@[b] <= edges_upto(f.blocks@, block as int),
            forall|b: int|
                0 <= b < n ==> (#[trigger] bin@[b] > 0 <==> exists|p: int, k: int|
                    0 <= p < block && 0 <= k < f.succs(p).len() && #[trigger] f.succs(p)[k].0 == b && b <= p),
            forall|b: int| 0 <= b < n ==> (#[trigger] bout@[b] > 0 <==> (b < block && has_back_edge(f, b))),
            forall|x: int| 0 <= x < n ==> #[trigger] bin@[x] == back_in(f, x, block as int),
            forall|x: int| 0 <= x < n ==> #[trigger] bout@[x] == if x < block { back_out(f, x) } else { 0 },
        decreases n - block,
    {
        let succs = &f.blocks[block].succs;
        proof {
            lemma_edges_upto_mono(f.blocks@, block + 1, n as int);
        }
        let mut k: usize = 0;
        while k < succs.len()
            invariant
                f.wf(),
                n == f.num_blocks(),
                block < n,
                succs == f.blocks@[block as int].succs,
                k <= succs@.len(),
                bin@.len() == n,
                bout@.len() == n,
                edges_upto(f.blocks@, block + 1) <= u32::MAX,
                forall|b: int| 0 <= b < n ==> #[trigger] bin@[b] <= edges_upto(f.blocks@, block as int) + k,
                forall|b: int| 0 <= b < n ==> #[trigger] bout@[b] <= edges_upto(f.blocks@, block as int) + k,
                forall|b: int|
                    0 <= b < n ==> (#[trigger] bin@[b] > 0 <==> (exists|p: int, j: int|
                        0 <= p < block && 0 <= j < f.succs(p).len() && #[trigger] f.succs(p)[j].0 == b && b <= p)
                        || exists|j: int| 0 <= j < k && #[trigger] succs@[j].0 == b && b <= block),
                forall|b: int| 0 <= b < n && b != block ==> (#[trigger] bout@[b] > 0 <==> (b < block && has_back_edge(f, b))),
                bout@[block as int] > 0 <==> exists|j: int| 0 <= j < k && (#[trigger] succs@[j]).0 <= block,
                forall|x: int| 0 <= x < n ==> #[trigger] bin@[x] == back_in(f, x, block as int) + if x <= block {
                    count_eq(succs@, x, k as int)
                } else {
                    0
                },
                forall|x: int| 0 <= x < n && x != block ==> #[trigger] bout@[x] == if x < block { back_out(f, x) } else { 0 },
                bout@[block as int] == count_le(succs@, block as int, k as int),
            decreases succs@.len() - k,
        {
            let succ = succs[k];
            if succ.index() <= block {
                bin.set(succ.index(), bin[succ.index()] + 1);
                bout.set(block, bout[block] + 1);
            }
            proof {
                assert forall|b: int| 0 <= b < n implies (#[trigger] bin@[b] > 0 <==> (exists|p: int, j: int|
                    0 <= p < block && 0 <= j < f.succs(p).len() && #[trigger] f.succs(p)[j].0 == b && b <= p)
                    || exists|j: int| 0 <= j < k + 1 && #[trigger] succs@[j].0 == b && b <= block) by {
                    if b == succ.0 && b <= block {
                        assert(succs@[k as int].0 == b);
                    }
                }
            }
            k += 1;
        }
        proof {
            assert forall|x: int| 0 <= x < n implies #[trigger] bin@[x] == back_in(f, x, block + 1) by {
                assert(back_in(f, x, block + 1) == back_in(f, x, block as int) + if x <= block {
                    count_eq(f.succs(block as int), x, f.succs(block as int).len() as int)
                } else {
                    0nat
                });
            }
            assert forall|b: int| 0 <= b < n implies (#[trigger] bin@[b] > 0 <==> exists|p: int, j: int|
                0 <= p < block + 1 && 0 <= j < f.succs(p).len() && #[trigger] f.succs(p)[j].0 == b && b <= p) by {
                if exists|j: int| 0 <= j < succs@.len() && #[trigger] succs@[j].0 == b && b <= block {
                    let j = choose|j: int| 0 <= j < succs@.len() && #[trigger] succs@[j].0 == b && b <= block;
                    assert(f.succs(block as int)[j].0 == b);
                }
                if exists|p: int, j: int| 0 <= p < block + 1 && 0 <= j < f.succs(p).len() && #[trigger] f.succs(p)[j].0 == b && b <= p {
                    let (p, j) = choose|p: int, j: int| 0 <= p < block + 1 && 0 <= j < f.succs(p).len() && #[trigger] f.succs(p)[j].0 == b && b <= p;
                    if p == block {
                        assert(succs@[j].0 == b);
                    }
                }
            }
            assert(bout@[block as int] > 0 <==> has_back_edge(f, block as int)) by {
                if has_back_edge(f, block as int) {
                    let j = choose|j: int| 0 <= j < f.succs(block as int).len() && (#[trigger] f.succs(block as int)[j]).0 <= block;
                    assert(succs@[j].0 <= block);
                }
            }
        }
        block += 1;
    }
    (bin, bout)
}

/// Approximate loop depth of each block, from the back-edge counts: a
/// block entered by back edges opens a level, which closes once as many
/// back edges have left later blocks. Exact for a reducible graph whose
/// blocks are in reverse postorder.
fn loop_depths(backedge_in: &Vec<u32>, backedge_out: Vec<u32>) -> (r: Vec<u32>)
    requires
        backedge_out@.len() == backedge_in@.len(),
        backedge_in@.len() < u32::MAX,
    ensures
        depths_ok(backedge_in@, r@),
        forall|b: int| 0 <= b < r@.len() ==> #[trigger] r@[b] == stack_entered(backedge_in@, backedge_out@, b).len(),
{
    let n = backedge_in.len();
    let ghost bout0 = backedge_out@;
    let mut backedge_out = backedge_out;
    let mut r: Vec<u32> = Vec::new();
    let mut stack = IdxList::new();
    let mut cur_depth: u32 = 0;
    let mut block: usize = 0;
    while block < n
        invariant
            n == backedge_in@.len(),
            n < u32::MAX,
            backedge_out@.len() == n,
            block <= n,
            r@.len() == block,
            cur_depth == stack@.len(),
            cur_depth <= block,
            forall|i: int| 0 <= i < stack@.len() ==> #[trigger] stack@[i] > 0,
            block == 0 ==> cur_depth == 0,
            block > 0 ==> cur_depth <= r@[block - 1],
            depths_ok(backedge_in@.subrange(0, block as int), r@),
            bout0.len() == n,
            stack@ == stack_before(backedge_in@, bout0, block as int),
            forall|b: int| 0 <= b < block ==> #[trigger] r@[b] == stack_entered(backedge_in@, bout0, b).len(),
            forall|b: int| block <= b < n ==> #[trigger] backedge_out@[b] == bout0[b],
        decreases n - block,
    {
        let ghost before = cur_depth;
        if backedge_in[block] > 0 {
            cur_depth += 1;
            stack.push(backedge_in[block]);
        }
        r.push(cur_depth);
        assert(stack@ == stack_entered(backedge_in@, bout0, block as int));
        assert(stack_before(backedge_in@, bout0, block + 1) == pop_edges(stack@, bout0[block as int] as nat));
        proof {
            let bi = backedge_in@.subrange(0, block + 1);
            assert(bi.subrange(0, block as int) =~= backedge_in@.subrange(0, block as int));
            assert(depths_ok(bi, r@));
        }
        while stack.len() > 0 && backedge_out[block] > 0
            invariant
                n == backedge_in@.len(),
                n < u32::MAX,
                backedge_out@.len() == n,
                block < n,
                r@.len() == block + 1,
                cur_depth == stack@.len(),
                cur_depth <= r@[block as int],
                forall|i: int| 0 <= i < stack@.len() ==> #[trigger] stack@[i] > 0,
                bout0.len() == n,
                pop_edges(stack@, backedge_out@[block as int] as nat) == stack_before(backedge_in@, bout0, block + 1),
                forall|b: int| block < b < n ==> #[trigger] backedge_out@[b] == bout0[b],
            decreases backedge_out@[block as int],
        {
            backedge_out.set(block, backedge_out[block] - 1);
            let top = stack.len() - 1;
            let ghost s0 = stack@;
            let t = stack.get(top) - 1;
            stack.set(top, t);
            if t == 0 {
                cur_depth -= 1;
                stack.truncate(top);
                assert(stack@ =~= s0.drop_last());
            } else {
                assert(stack@ =~= s0.drop_last().push(t));
            }
        }
        block += 1;
    }
    assert(backedge_in@.subrange(0, n as int) =~= backedge_in@);
    r
}

/// Back edges into each block, as counts.
pub open spec fn back_in_counts(f: &Function) -> Seq<u32> {
    Seq::new(f.num_blocks() as nat, |b: int| back_in(f, b, f.num_blocks()) as u32)
}

/// Back edges out of each block, as counts.
pub open spec fn back_out_counts(f: &Function) -> Seq<u32> {
    Seq::new(f.num_blocks() as nat, |b: int| back_out(f, b) as u32)
}

/// The depth stack after `out` back edges leave a block: each closes one
/// edge of the innermost open level, which ends when none are left.
pub open spec fn pop_edges(stack: Seq<u32>, out: nat) -> Seq<u32>
    decreases out,
{
    if out == 0 || stack.len() == 0 {
        stack
    } else {
        let top = (stack.last() - 1) as u32;
        let rest = if top == 0 {
            stack.drop_last()
        } else {
            stack.drop_last().push(top)
        };
        pop_edges(rest, (out - 1) as nat)
    }
}

/// The depth stack before block `k` is entered.
pub open spec fn stack_before(bin: Seq<u32>, bout: Seq<u32>, k: int) -> Seq<u32>
    decreases k, 0int,
{
    if k <= 0 {
        Seq::empty()
    } else {
        pop_edges(stack_entered(bin, bout, k - 1), bout[k - 1] as nat)
    }
}

/// The depth stack inside block `k`: a level is opened, holding its count
/// of entering back edges, when some enter it.
pub open spec fn stack_entered(bin: Seq<u32>, bout: Seq<u32>, k: int) -> Seq<u32>
    decreases k, 1int,
{
    if k < 0 {
        Seq::empty()
    } else if bin[k] > 0 {
        stack_before(bin, bout, k).push(bin[k])
    } else {
        stack_before(bin, bout, k)
    }
}

/// Loop depths `d` fit the back-edge counts `bin`: a block entered by back
/// edges has depth at least one, and the depth rises by at most one from a
/// block to the next, and only into a block entered by back edges.
pub open spec fn depths_ok(bin: Seq<u32>, d: Seq<u32>) -> bool {
    &&& d.len() == bin.len()
    &&& forall|b: int| 0 <= b < d.len() && bin[b] > 0 ==> #[trigger] d[b] >= 1
    &&& d.len() > 0 ==> d[0] <= 1 && (bin[0] == 0 ==> d[0] == 0)
    &&& forall|b: int| 0 < b < d.len() ==> #[trigger] d[b] <= d[b - 1] + 1
    &&& forall|b: int| 0 < b < d.len() && #[trigger] d[b] > d[b - 1] ==> bin[b] > 0
}

/// The entries of the blocks where the loop depth rises over the previous
/// block's, among the first `k` blocks, in block order.
pub open spec fn transitions(depth: Seq<u32>, entries: Seq<ProgPoint>, k: int) -> Seq<ProgPoint>
    decreases k,
{
    if k <= 1 {
        Seq::empty()
    } else if depth[k - 1] > depth[k - 2] {
        transitions(depth, entries, k - 1).push(entries[k - 1])
    } else {
        transitions(depth, entries, k - 1)
    }
}

/// The program points where the loop depth rises.
fn transition_points(depth: &Vec<u32>, entries: &Vec<ProgPoint>) -> (r: Vec<ProgPoint>)
    requires
        depth@.len() > 0,
        entries@.len() == depth@.len(),
    ensures
        r@ == transitions(depth@, entries@, depth@.len() as int),
{
    let mut r: Vec<ProgPoint> = Vec::new();
    let mut last_depth = depth[0];
    let mut block: usize = 0;
    while block < depth.len()
        invariant
            entries@.len() == depth@.len(),
            0 < depth@.len(),
            block <= depth@.len(),
            last_depth == if block == 0 { depth@[0] } else { depth@[block - 1] },
            r@ == transitions(depth@, entries@, block as int),
        decreases depth@.len() - block,
    {
        let d = depth[block];
        if d > last_depth {
            r.push(entries[block]);
        }
        last_depth = d;
        block += 1;
    }
    r
}

/// Results of the CFG analyses of one function.
pub struct CFGInfo {
    /// Postorder traversal of the reachable blocks.
    pub postorder: Vec<Block>,
    /// Dominator-tree parents, indexed by block.
    pub domtree: Vec<Block>,
    /// For each instruction, the block it belongs to.
    pub insn_block: Vec<Block>,
    /// For each value, the instruction that defines it, if any.
    pub vreg_def_inst: Vec<Inst>,
    /// For each value, the block and parameter index that define it, if
    /// any.
    pub vreg_def_blockparam: Vec<(Block, u32)>,
    /// For each block, the point before its first instruction.
    pub block_entry: Vec<ProgPoint>,
    /// For each block, the point after its last instruction.
    pub block_exit: Vec<ProgPoint>,
    /// For each block, its position in its successor's predecessor list.
    /// With critical edges split, a block either has one successor or is
    /// the only predecessor of each of its successors, so one position per
    /// block is enough (zero in the second case).
    pub pred_pos: Vec<usize>,
    /// For each block, the approximate loop depth.
    pub approx_loop_depth: Vec<u32>,
    /// The block entries where the loop depth rises.
    pub loop_transition_points: Vec<ProgPoint>,
}

/// `pred_pos` gives each predecessor of a block with several predecessors
/// its position in that block's list, and zero to every other block.
pub open spec fn pred_pos_ok(f: &Function, pred_pos: Seq<usize>) -> bool {
    &&& pred_pos.len() == f.num_blocks()
    &&& forall|b: int, k: int|
        0 <= b < f.num_blocks() && f.pred_count(b) > 1 && 0 <= k < f.preds(b).len() ==> {
            let p = #[trigger] f.preds(b)[k];
            pred_pos[p.0 as int] < f.preds(b).len() && f.preds(b)[pred_pos[p.0 as int] as int] == p
        }
    &&& forall|p: int|
        0 <= p < f.num_blocks() && (forall|b: int|
            0 <= b < f.num_blocks() && f.pred_count(b) > 1 ==> !holds_block(#[trigger] f.preds(b), p))
            ==> pred_pos[p] == 0
}

impl CFGInfo {
    /// The dominator tree hangs off the postorder so that parent walks end.
    pub open spec fn wf(&self) -> bool {
        &&& domtree::tree_shaped(self.domtree@, self.postorder@)
        &&& self.pred_pos@.len() == self.domtree@.len()
    }

    /// What the analyses establish about `f`.
    pub open spec fn describes(&self, f: &Function) -> bool {
        let n = f.num_blocks();
        &&& self.wf()
        &&& self.postorder@.no_duplicates()
        &&& self.postorder@.contains(f.entry)
        &&& self.postorder@.last() == f.entry
        &&& forall|k: int|
            0 <= k < self.postorder@.len() ==> self.postorder@[k].0 < n && f.reachable(
                #[trigger] self.postorder@[k],
            )
        &&& forall|k: int, j: int|
            0 <= k < self.postorder@.len() && 0 <= j < f.succs(self.postorder@[k].0 as int).len()
                ==> self.postorder@.contains(#[trigger] f.succs(self.postorder@[k].0 as int)[j])
        &&& self.domtree@.len() == n
        &&& self.domtree@[f.entry.0 as int].0 == INVALID_INDEX
        &&& forall|b: Block|
            #[trigger] f.reachable(b) && b != f.entry ==> self.domtree@[b.0 as int].0 != INVALID_INDEX
        &&& forall|k: int|
            0 <= k < self.postorder@.len() && self.postorder@[k] != f.entry ==> self.domtree@[(
            #[trigger] self.postorder@[k]).0 as int].0 != INVALID_INDEX
        &&& inst_blocks_ok(f, self.insn_block@)
        &&& def_insts_ok(f, self.vreg_def_inst@)
        &&& def_params_ok(f, self.vreg_def_blockparam@)
        &&& self.block_entry@.len() == n
        &&& self.block_exit@.len() == n
        &&& forall|b: int| 0 <= b < n ==> #[trigger] self.block_entry@[b] == (ProgPoint {
            inst: f.blocks@[b].first,
            pos: InstPosition::Before,
        })
        &&& forall|b: int| 0 <= b < n ==> #[trigger] self.block_exit@[b] == (ProgPoint {
            inst: f.blocks@[b].last,
            pos: InstPosition::After,
        })
        &&& pred_pos_ok(f, self.pred_pos@)
        &&& self.approx_loop_depth@.len() == n
        &&& forall|b: int| 0 <= b < n && is_loop_header(f, b) ==> #[trigger] self.approx_loop_depth@[b] >= 1
        &&& self.approx_loop_depth@[0] <= 1
        &&& !is_loop_header(f, 0) ==> self.approx_loop_depth@[0] == 0
        &&& forall|b: int|
            0 <= b < n ==> #[trigger] self.approx_loop_depth@[b] == stack_entered(
                back_in_counts(f),
                back_out_counts(f),
                b,
            ).len()
        &&& forall|b: int| 0 < b < n ==> #[trigger] self.approx_loop_depth@[b] <= self.approx_loop_depth@[b - 1] + 1
        &&& forall|b: int| 0 < b < n && #[trigger] self.approx_loop_depth@[b] > self.approx_loop_depth@[b - 1] ==> is_loop_header(f, b)
        &&& self.loop_transition_points@ == transitions(self.approx_loop_depth@, self.block_entry@, n)
    }

    /// Analyses `f`, or reports the first block (in index order) that breaks
    /// the intake conditions: a critical edge into it (`CritEdge(pred,
    /// block)`), else branch arguments out of it toward a block with several
    /// predecessors (`DisallowedBranchArg` of its last instruction).
    pub fn new(f: &Function) -> (r: Result<CFGInfo, RegAllocError>)
        requires
            f.wf(),
        ensures
            match r {
                Ok(info) => (forall|b: int| 0 <= b < f.num_blocks() ==> f.block_ok(b)) && info.describes(f),
                Err(RegAllocError::CritEdge(p, b)) => {
                    &&& b.0 < f.num_blocks()
                    &&& f.crit_edge(b.0 as int, p)
                    &&& forall|c: int| 0 <= c < b.0 ==> f.block_ok(c)
                },
                Err(RegAllocError::DisallowedBranchArg(i)) => exists|b: int|
                    0 <= b < f.num_blocks() && i == f.blocks@[b].last && (forall|p: Block|
                        !f.crit_edge(b, p)) && f.bad_branch_args(b) && forall|c: int|
                        0 <= c < b ==> f.block_ok(c),
                Err(_) => false,
            },
    {
        let postorder = postorder::calculate(f);
        let domtree = domtree::calculate(f, &postorder);
        let pred_pos = match check_edges(f) {
            Ok(p) => p,
            Err(e) => {
                return Err(e);
            },
        };
        let insn_block = inst_blocks(f);
        let (vreg_def_inst, vreg_def_blockparam) = vreg_defs(f);
        let (block_entry, block_exit) = block_points(f);
        let (backedge_in, backedge_out) = backedge_counts(f);
        proof {
            assert(backedge_in@ =~= back_in_counts(f));
            assert(backedge_out@ =~= back_out_counts(f));
        }
        let approx_loop_depth = loop_depths(&backedge_in, backedge_out);
        let loop_transition_points = transition_points(&approx_loop_depth, &block_entry);
        let info = CFGInfo {
            postorder,
            domtree,
            insn_block,
            vreg_def_inst,
            vreg_def_blockparam,
            block_entry,
            block_exit,
            pred_pos,
            approx_loop_depth,
            loop_transition_points,
        };
        proof {
            assert forall|b: Block| #[trigger] f.reachable(b) && b != f.entry implies info.domtree@[b.0 as int].0
                != INVALID_INDEX by {
                postorder::lemma_closed_list_holds_reachable(f, info.postorder@, b);
                let k = choose|k: int| 0 <= k < info.postorder@.len() && info.postorder@[k] == b;
                assert(info.postorder@[k] != f.entry);
            }
        }
        assert(info.describes(f));
        Ok(info)
    }

    /// Does `a` dominate `b`: is `a` reached from `b` by following
    /// dominator-tree parents (a block dominates itself)?
    pub fn dominates(&self, a: Block, b: Block) -> (r: bool)
        requires
            self.wf(),
            a.0 < self.domtree@.len(),
            b.0 < self.domtree@.len() || b.0 == INVALID_INDEX,
        ensures
            r == exists|k: nat| domtree::walk(self.domtree@, b, k) == a,
    {
        domtree::dominates(&self.domtree, &self.postorder, a, b)
    }

    /// The position of `block` in its successor's predecessor list.
    pub fn pred_position(&self, block: Block) -> (r: usize)
        requires
            block.0 < self.pred_pos@.len(),
        ensures
            r == self.pred_pos@[block.0 as int],
    {
        self.pred_pos[block.index()]
    }

    /// The entry dominates every block reachable from it: following
    /// dominator-tree parents from the block reaches the entry.
    pub proof fn lemma_entry_dominates_reachable(&self, f: &Function, b: Block)
        requires
            f.wf(),
            self.describes(f),
            f.reachable(b),
        ensures
            exists|k: nat| domtree::walk(self.domtree@, b, k) == f.entry,
    {
        postorder::lemma_closed_list_holds_reachable(f, self.postorder@, b);
        let i = choose|i: int| 0 <= i < self.postorder@.len() && self.postorder@[i] == b;
        domtree::lemma_walk_reaches_root(self.domtree@, self.postorder@, f.entry, i);
        if b == f.entry {
            assert(domtree::walk(self.domtree@, b, 0) == f.entry);
        }
    }
}

} // verus!
