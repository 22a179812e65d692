//! Liveness of values at block boundaries, by iteration to a fixed point.

use crate::function::Function;
use crate::index::{Operand, OperandKind, OperandPos, RegAllocError, VReg};
use crate::set::IntSet;
use vstd::prelude::*;
use vstd::set_lib::{lemma_len_subset, FiniteRange};

verus! {

/// One operand's effect on the live set, scanning backward: a def ends
/// the value's life, a use or mod makes it live.
pub open spec fn op_step(live: Set<nat>, o: Operand) -> Set<nat> {
    if o.kind == OperandKind::Def {
        live.remove(o.vreg.id as nat)
    } else {
        live.insert(o.vreg.id as nat)
    }
}

/// The effects of the first `k` operands that act at `pos`, in order.
pub open spec fn apply_ops(live: Set<nat>, ops: Seq<Operand>, pos: OperandPos, k: int) -> Set<nat>
    decreases k,
{
    if k <= 0 {
        live
    } else {
        let l = apply_ops(live, ops, pos, k - 1);
        if ops[k - 1].pos == pos {
            op_step(l, ops[k - 1])
        } else {
            l
        }
    }
}

/// The live set before an instruction, from the one after it: the late
/// operands act first, then the early ones.
pub open spec fn inst_step(live: Set<nat>, ops: Seq<Operand>) -> Set<nat> {
    apply_ops(
        apply_ops(live, ops, OperandPos::Late, ops.len() as int),
        ops,
        OperandPos::Early,
        ops.len() as int,
    )
}

/// The live set before instruction `i` of block `b`, given the set live
/// out of the block.
pub open spec fn live_before(f: &Function, b: int, out: Set<nat>, i: int) -> Set<nat>
    decreases f.blocks@[b].last.0 + 1 - i,
{
    if i > f.blocks@[b].last.0 {
        out
    } else {
        inst_step(live_before(f, b, out, i + 1), f.insts@[i].operands@)
    }
}

/// `live` without the values of the first `k` parameters.
pub open spec fn without_params(live: Set<nat>, params: Seq<VReg>, k: int) -> Set<nat>
    decreases k,
{
    if k <= 0 {
        live
    } else {
        without_params(live, params, k - 1).remove(params[k - 1].id as nat)
    }
}

/// The values live into block `b`, given those live out of it.
pub open spec fn block_live_in(f: &Function, b: int, out: Set<nat>) -> Set<nat> {
    let params = f.blocks@[b].params@;
    without_params(live_before(f, b, out, f.blocks@[b].first.0 as int), params, params.len() as int)
}

/// The union of the live-in sets of the first `k` successors of `b`.
pub open spec fn succ_union(f: &Function, b: int, ins: Seq<Set<nat>>, k: int) -> Set<nat>
    decreases k,
{
    if k <= 0 {
        Set::empty()
    } else {
        succ_union(f, b, ins, k - 1).union(ins[f.succs(b)[k - 1].0 as int])
    }
}

/// The values of operands `from..k` of `ops`.
pub open spec fn operand_values(ops: Seq<Operand>, from: int, k: int) -> Set<nat> {
    Set::new(|v: nat| exists|j: int| from <= j < k && 0 <= j < ops.len() && ops[j].vreg.id == v)
}

/// The values that block `b`'s branch passes to successors' block
/// parameters: the operands of its last instruction from
/// `branch_arg_offset` on, when it has a successor.
pub open spec fn branch_args(f: &Function, b: int) -> Set<nat> {
    let ops = f.insts@[f.blocks@[b].last.0 as int].operands@;
    if f.succs(b).len() > 0 {
        operand_values(ops, f.blocks@[b].branch_arg_offset as int, ops.len() as int)
    } else {
        Set::empty()
    }
}

/// The values live out of block `b`: those live into its successors, and
/// those its branch passes to their block parameters.
pub open spec fn block_live_out(f: &Function, b: int, ins: Seq<Set<nat>>) -> Set<nat> {
    succ_union(f, b, ins, f.succs(b).len() as int).union(branch_args(f, b))
}

/// `ins` and `outs` solve the liveness equations of `f`.
pub open spec fn is_fixpoint(f: &Function, ins: Seq<Set<nat>>, outs: Seq<Set<nat>>) -> bool {
    &&& ins.len() == f.num_blocks()
    &&& outs.len() == f.num_blocks()
    &&& forall|b: int|
        0 <= b < f.num_blocks() ==> #[trigger] outs[b] == block_live_out(f, b, ins) && ins[b]
            == block_live_in(f, b, outs[b])
}

/// The sets that a vector of integer sets holds.
pub open spec fn views(v: Seq<IntSet>) -> Seq<Set<nat>> {
    v.map_values(|s: IntSet| s@)
}

/// Values below `nv`.
pub open spec fn below(s: Set<nat>, nv: nat) -> bool {
    forall|x: nat| #[trigger] s.contains(x) ==> x < nv
}

proof fn lemma_apply_ops_mono(a: Set<nat>, c: Set<nat>, ops: Seq<Operand>, pos: OperandPos, k: int)
    requires
        a.subset_of(c),
    ensures
        apply_ops(a, ops, pos, k).subset_of(apply_ops(c, ops, pos, k)),
    decreases k,
{
    if k > 0 {
        lemma_apply_ops_mono(a, c, ops, pos, k - 1);
    }
}

proof fn lemma_apply_ops_below(a: Set<nat>, ops: Seq<Operand>, pos: OperandPos, k: int, nv: nat)
    requires
        below(a, nv),
        forall|m: int| 0 <= m < ops.len() ==> (#[trigger] ops[m]).vreg.id < nv,
        k <= ops.len(),
    ensures
        below(apply_ops(a, ops, pos, k), nv),
    decreases k,
{
    if k > 0 {
        lemma_apply_ops_below(a, ops, pos, k - 1, nv);
        assert(ops[k - 1].vreg.id < nv);
    }
}

proof fn lemma_live_before_mono(f: &Function, b: int, a: Set<nat>, c: Set<nat>, i: int)
    requires
        a.subset_of(c),
    ensures
        live_before(f, b, a, i).subset_of(live_before(f, b, c, i)),
    decreases f.blocks@[b].last.0 + 1 - i,
{
    if i <= f.blocks@[b].last.0 {
        lemma_live_before_mono(f, b, a, c, i + 1);
        let ops = f.insts@[i].operands@;
        let x = live_before(f, b, a, i + 1);
        let y = live_before(f, b, c, i + 1);
        lemma_apply_ops_mono(x, y, ops, OperandPos::Late, ops.len() as int);
        lemma_apply_ops_mono(
            apply_ops(x, ops, OperandPos::Late, ops.len() as int),
            apply_ops(y, ops, OperandPos::Late, ops.len() as int),
            ops,
            OperandPos::Early,
            ops.len() as int,
        );
    }
}

proof fn lemma_live_before_below(f: &Function, b: int, a: Set<nat>, i: int)
    requires
        f.wf(),
        0 <= b < f.num_blocks(),
        0 <= i,
        below(a, f.num_vregs as nat),
    ensures
        below(live_before(f, b, a, i), f.num_vregs as nat),
    decreases f.blocks@[b].last.0 + 1 - i,
{
    if i <= f.blocks@[b].last.0 {
        lemma_live_before_below(f, b, a, i + 1);
        let ops = f.insts@[i].operands@;
        assert(f.blocks@[b].last.0 < f.insts@.len());
        assert forall|m: int| 0 <= m < ops.len() implies (#[trigger] ops[m]).vreg.id < f.num_vregs by {
            assert(f.insts@[i].operands@[m].vreg.id < f.num_vregs);
        }
        lemma_apply_ops_below(live_before(f, b, a, i + 1), ops, OperandPos::Late, ops.len() as int, f.num_vregs as nat);
        lemma_apply_ops_below(
            apply_ops(live_before(f, b, a, i + 1), ops, OperandPos::Late, ops.len() as int),
            ops,
            OperandPos::Early,
            ops.len() as int,
            f.num_vregs as nat,
        );
    }
}

proof fn lemma_without_params(a: Set<nat>, c: Set<nat>, params: Seq<VReg>, k: int)
    requires
        a.subset_of(c),
    ensures
        without_params(a, params, k).subset_of(without_params(c, params, k)),
        without_params(a, params, k).subset_of(a),
    decreases k,
{
    if k > 0 {
        lemma_without_params(a, c, params, k - 1);
    }
}

/// The live-in transfer is monotone in the live-out set, and keeps values
/// below the number of values.
pub proof fn lemma_block_live_in_mono(f: &Function, b: int, a: Set<nat>, c: Set<nat>)
    requires
        f.wf(),
        0 <= b < f.num_blocks(),
        a.subset_of(c),
        below(c, f.num_vregs as nat),
    ensures
        block_live_in(f, b, a).subset_of(block_live_in(f, b, c)),
        below(block_live_in(f, b, c), f.num_vregs as nat),
{
    let first = f.blocks@[b].first.0 as int;
    let params = f.blocks@[b].params@;
    lemma_live_before_mono(f, b, a, c, first);
    lemma_live_before_below(f, b, c, first);
    lemma_without_params(live_before(f, b, a, first), live_before(f, b, c, first), params, params.len() as int);
    lemma_without_params(live_before(f, b, c, first), live_before(f, b, c, first), params, params.len() as int);
}

proof fn lemma_succ_union_mono(f: &Function, b: int, ins1: Seq<Set<nat>>, ins2: Seq<Set<nat>>, k: int, nv: nat)
    requires
        f.wf(),
        0 <= b < f.num_blocks(),
        ins1.len() == f.num_blocks(),
        ins2.len() == f.num_blocks(),
        forall|c: int| 0 <= c < ins1.len() ==> (#[trigger] ins1[c]).subset_of(ins2[c]),
        forall|c: int| 0 <= c < ins2.len() ==> below(#[trigger] ins2[c], nv),
        k <= f.succs(b).len(),
    ensures
        succ_union(f, b, ins1, k).subset_of(succ_union(f, b, ins2, k)),
        below(succ_union(f, b, ins2, k), nv),
    decreases k,
{
    if k > 0 {
        lemma_succ_union_mono(f, b, ins1, ins2, k - 1, nv);
        let s = f.succs(b)[k - 1].0 as int;
        assert(f.blocks@[b].succs@[k - 1].0 < f.num_blocks());
        assert(ins1[s].subset_of(ins2[s]));
        assert(below(ins2[s], nv));
    }
}

/// The sum of the sizes of the first `k` sets.
pub open spec fn sum_lens(s: Seq<Set<nat>>, k: int) -> int
    decreases k,
{
    if k <= 0 {
        0
    } else {
        sum_lens(s, k - 1) + s[k - 1].len()
    }
}

proof fn lemma_sum_update(s: Seq<Set<nat>>, i: int, x: Set<nat>, k: int)
    requires
        0 <= i < s.len(),
        k <= s.len(),
    ensures
        sum_lens(s.update(i, x), k) == sum_lens(s, k) + if i < k {
            x.len() - s[i].len()
        } else {
            0
        },
    decreases k,
{
    if k > 0 {
        lemma_sum_update(s, i, x, k - 1);
    }
}

proof fn lemma_sum_bound(s: Seq<Set<nat>>, k: int, nv: int)
    requires
        0 <= k <= s.len(),
        0 <= nv,
        forall|c: int| 0 <= c < k ==> (#[trigger] s[c]).len() <= nv,
    ensures
        sum_lens(s, k) <= k * nv,
    decreases k,
{
    if k > 0 {
        lemma_sum_bound(s, k - 1, nv);
        assert((k - 1) * nv + nv == k * nv) by (nonlinear_arith);
    }
}

/// A set of values below `nv` is finite, with at most `nv` members.
proof fn lemma_below_len(s: Set<nat>, nv: nat)
    requires
        below(s, nv),
    ensures
        s.finite(),
        s.len() <= nv,
{
    let r = <nat as FiniteRange>::range_set(0, nv);
    <nat as FiniteRange>::range_properties(0, nv);
    assert(s.subset_of(r));
    lemma_len_subset(s, r);
}

/// A finite set that strictly contains another is larger.
proof fn lemma_strict_growth(a: Set<nat>, c: Set<nat>)
    requires
        c.finite(),
        a.subset_of(c),
        a != c,
    ensures
        a.len() < c.len(),
{
    let x = choose|x: nat| c.contains(x) && !a.contains(x);
    assert(exists|x: nat| c.contains(x) && !a.contains(x)) by {
        if !(exists|x: nat| c.contains(x) && !a.contains(x)) {
            assert(a =~= c);
        }
    }
    assert(a.subset_of(c.remove(x)));
    lemma_len_subset(a, c.remove(x));
}

/// Applies the operands of `ops` that act at `pos`, in order.
fn apply_pass(live: &mut IntSet, ops: &Vec<Operand>, pos: OperandPos, nv: usize)
    requires
        old(live).wf(),
        nv <= u32::MAX,
        forall|m: int| 0 <= m < ops@.len() ==> (#[trigger] ops@[m]).vreg.id < nv,
    ensures
        final(live).wf(),
        final(live)@ == apply_ops(old(live)@, ops@, pos, ops@.len() as int),
{
    let mut k: usize = 0;
    while k < ops.len()
        invariant
            live.wf(),
            nv <= u32::MAX,
            k <= ops@.len(),
            forall|m: int| 0 <= m < ops@.len() ==> (#[trigger] ops@[m]).vreg.id < nv,
            live@ == apply_ops(old(live)@, ops@, pos, k as int),
        decreases ops@.len() - k,
    {
        let op = ops[k];
        assert(op.vreg.id < nv);
        if op.pos == pos {
            if op.kind == OperandKind::Def {
                live.remove(op.vreg.vreg());
            } else {
                live.add(op.vreg.vreg());
            }
        }
        k += 1;
    }
}

/// The values live into block `b`, given those live out of it.
fn block_transfer(f: &Function, b: usize, out: &IntSet) -> (r: IntSet)
    requires
        f.wf(),
        b < f.num_blocks(),
        out.wf(),
    ensures
        r.wf(),
        r@ == block_live_in(f, b as int, out@),
{
    let nv = f.num_vregs;
    let mut live = out.duplicate();
    let first = f.blocks[b].first.index();
    let last = f.blocks[b].last.index();
    assert(f.blocks@[b as int].first.0 <= f.blocks@[b as int].last.0 < f.insts@.len());
    let mut i: usize = last + 1;
    while i > first
        invariant
            f.wf(),
            b < f.num_blocks(),
            nv == f.num_vregs,
            first == f.blocks@[b as int].first.0,
            last == f.blocks@[b as int].last.0,
            last < f.insts@.len(),
            first <= i <= last + 1,
            live.wf(),
            live@ == live_before(f, b as int, out@, i as int),
        decreases i,
    {
        i -= 1;
        let ops = &f.insts[i].operands;
        assert forall|m: int| 0 <= m < ops@.len() implies (#[trigger] ops@[m]).vreg.id < nv by {
            assert(f.insts@[i as int].operands@[m].vreg.id < f.num_vregs);
        }
        apply_pass(&mut live, ops, OperandPos::Late, nv);
        apply_pass(&mut live, ops, OperandPos::Early, nv);
    }
    let params = &f.blocks[b].params;
    let mut k: usize = 0;
    while k < params.len()
        invariant
            f.wf(),
            b < f.num_blocks(),
            nv == f.num_vregs,
            first == f.blocks@[b as int].first.0,
            params == f.blocks@[b as int].params,
            k <= params@.len(),
            live.wf(),
            live@ == without_params(live_before(f, b as int, out@, first as int), params@, k as int),
        decreases params@.len() - k,
    {
        assert(params@[k as int].id < f.num_vregs);
        live.remove(params[k].vreg());
        k += 1;
    }
    live
}

/// The union of the live-in sets of the successors of `b`.
fn live_out(f: &Function, b: usize, ins: &Vec<IntSet>) -> (r: IntSet)
    requires
        f.wf(),
        b < f.num_blocks(),
        ins@.len() == f.num_blocks(),
        forall|c: int| 0 <= c < ins@.len() ==> (#[trigger] ins@[c]).wf(),
    ensures
        r.wf(),
        r@ == block_live_out(f, b as int, views(ins@)),
{
    let succs = &f.blocks[b].succs;
    let mut out = IntSet::new();
    let mut k: usize = 0;
    while k < succs.len()
        invariant
            f.wf(),
            b < f.num_blocks(),
            succs == f.blocks@[b as int].succs,
            ins@.len() == f.num_blocks(),
            forall|c: int| 0 <= c < ins@.len() ==> (#[trigger] ins@[c]).wf(),
            k <= succs@.len(),
            out.wf(),
            out@ == succ_union(f, b as int, views(ins@), k as int),
        decreases succs@.len() - k,
    {
        let s = succs[k].index();
        assert(f.blocks@[b as int].succs@[k as int].0 < f.num_blocks());
        let mut other = ins[s].duplicate();
        out.merge(&mut other);
        assert(views(ins@)[s as int] == ins@[s as int]@);
        k += 1;
    }
    let ghost succ_part = out@;
    let last = f.blocks[b].last.index();
    assert(f.blocks@[b as int].last.0 < f.insts@.len());
    let ops = &f.insts[last].operands;
    let from = f.blocks[b].branch_arg_offset as usize;
    let mut j: usize = if succs.len() > 0 { from } else { ops.len() };
    proof {
        if succs.len() == 0 {
            assert(out@.union(Set::<nat>::empty()) =~= out@);
        }
    }
    while j < ops.len()
        invariant
            f.wf(),
            last < f.insts@.len(),
            ops == f.insts@[last as int].operands,
            succs == f.blocks@[b as int].succs,
            from <= j || succs@.len() == 0,
            j <= ops@.len() || j == from,
            out.wf(),
            succs@.len() > 0 ==> out@ == succ_part.union(operand_values(ops@, from as int, j as int)),
            succs@.len() == 0 ==> out@ == succ_part && j == ops@.len(),
        decreases ops@.len() - j,
    {
        let v = ops[j].vreg;
        assert(f.insts@[last as int].operands@[j as int].vreg.id < f.num_vregs);
        out.add(v.vreg());
        assert(operand_values(ops@, from as int, j + 1) =~= operand_values(ops@, from as int, j as int).insert(v.id as nat));
        j += 1;
    }
    proof {
        if succs@.len() > 0 {
            assert(operand_values(ops@, from as int, j as int) =~= operand_values(ops@, from as int, ops@.len() as int));
        } else {
            assert(succ_part.union(Set::<nat>::empty()) =~= succ_part);
        }
    }
    out
}

/// Each set of `sets` lies within the matching set of `bound`.
pub open spec fn pointwise_within(sets: Seq<Set<nat>>, bound: Seq<Set<nat>>) -> bool {
    forall|b: int| 0 <= b < sets.len() ==> (#[trigger] sets[b]).subset_of(bound[b])
}

/// `ins` and `outs` lie within every solution of the liveness equations.
pub open spec fn within_every_fixpoint(f: &Function, ins: Seq<Set<nat>>, outs: Seq<Set<nat>>) -> bool {
    forall|i2: Seq<Set<nat>>, o2: Seq<Set<nat>>|
        #[trigger] is_fixpoint(f, i2, o2) ==> pointwise_within(ins, i2) && pointwise_within(outs, o2)
}

proof fn lemma_succ_union_sub(f: &Function, b: int, ins1: Seq<Set<nat>>, ins2: Seq<Set<nat>>, k: int)
    requires
        f.wf(),
        0 <= b < f.num_blocks(),
        ins1.len() == f.num_blocks(),
        ins2.len() == f.num_blocks(),
        pointwise_within(ins1, ins2),
        k <= f.succs(b).len(),
    ensures
        succ_union(f, b, ins1, k).subset_of(succ_union(f, b, ins2, k)),
    decreases k,
{
    if k > 0 {
        lemma_succ_union_sub(f, b, ins1, ins2, k - 1);
        let s = f.succs(b)[k - 1].0 as int;
        assert(f.blocks@[b].succs@[k - 1].0 < f.num_blocks());
        assert(ins1[s].subset_of(ins2[s]));
    }
}

proof fn lemma_live_in_sub(f: &Function, b: int, a: Set<nat>, c: Set<nat>)
    requires
        a.subset_of(c),
    ensures
        block_live_in(f, b, a).subset_of(block_live_in(f, b, c)),
{
    let first = f.blocks@[b].first.0 as int;
    let params = f.blocks@[b].params@;
    lemma_live_before_mono(f, b, a, c, first);
    lemma_without_params(live_before(f, b, a, first), live_before(f, b, c, first), params, params.len() as int);
}

/// Every block's live-in set is within what the equations give it.
pub open spec fn below_equations(f: &Function, ins: Seq<Set<nat>>) -> bool {
    forall|b: int|
        0 <= b < f.num_blocks() ==> (#[trigger] ins[b]).subset_of(
            block_live_in(f, b, block_live_out(f, b, ins)),
        )
}

/// Computes the values live into and out of each block, as the solution of
/// the liveness equations reached by iterating from empty sets, block by
/// block from the last, until nothing changes. Fails with `EntryLivein`
/// when a value is live into the entry block.
pub fn compute_liveness(f: &Function) -> (r: Result<(Vec<IntSet>, Vec<IntSet>), RegAllocError>)
    requires
        f.wf(),
    ensures
        match r {
            Ok((ins, outs)) => {
                &&& is_fixpoint(f, views(ins@), views(outs@))
                &&& within_every_fixpoint(f, views(ins@), views(outs@))
                &&& ins@[f.entry.0 as int]@ == Set::<nat>::empty()
                &&& forall|b: int| 0 <= b < ins@.len() ==> (#[trigger] ins@[b]).wf()
                &&& forall|b: int| 0 <= b < outs@.len() ==> (#[trigger] outs@[b]).wf()
            },
            Err(e) => e == RegAllocError::EntryLivein && exists|ins: Seq<Set<nat>>, outs: Seq<Set<nat>>|
                is_fixpoint(f, ins, outs) && within_every_fixpoint(f, ins, outs) && ins[f.entry.0 as int]
                    != Set::<nat>::empty(),
        },
{
    let n = f.blocks.len();
    let nv = f.num_vregs;
    let mut ins: Vec<IntSet> = Vec::new();
    let mut outs: Vec<IntSet> = Vec::new();
    while ins.len() < n
        invariant
            ins@.len() <= n,
            outs@.len() == ins@.len(),
            forall|b: int| 0 <= b < ins@.len() ==> (#[trigger] ins@[b]).wf() && ins@[b]@ == Set::<nat>::empty(),
            forall|b: int| 0 <= b < outs@.len() ==> (#[trigger] outs@[b]).wf() && outs@[b]@ == Set::<nat>::empty(),
        decreases n - ins@.len(),
    {
        ins.push(IntSet::new());
        outs.push(IntSet::new());
    }
    proof {
        assert forall|b: int| 0 <= b < n implies (#[trigger] views(ins@)[b]).subset_of(
            block_live_in(f, b, block_live_out(f, b, views(ins@))),
        ) by {
            assert(views(ins@)[b] == ins@[b]@);
        }
        assert(sum_lens(views(ins@), n as int) == 0) by {
            lemma_sum_zero(views(ins@), n as int);
        }
        assert forall|i2: Seq<Set<nat>>, o2: Seq<Set<nat>>| #[trigger] is_fixpoint(f, i2, o2) implies
            pointwise_within(views(ins@), i2) && pointwise_within(views(outs@), o2) by {
            assert forall|c: int| 0 <= c < views(ins@).len() implies (#[trigger] views(ins@)[c]).subset_of(i2[c]) by {
                assert(views(ins@)[c] == ins@[c]@);
            }
            assert forall|c: int| 0 <= c < views(outs@).len() implies (#[trigger] views(outs@)[c]).subset_of(o2[c]) by {
                assert(views(outs@)[c] == outs@[c]@);
            }
        }
    }
    let ghost bound: int = n as int * nv as int;
    proof {
        assert(0 <= n as int * nv as int) by (nonlinear_arith);
    }
    let mut changed = true;
    while changed
        invariant
            f.wf(),
            n == f.num_blocks(),
            nv == f.num_vregs,
            bound == n as int * nv as int,
            ins@.len() == n,
            outs@.len() == n,
            forall|b: int| 0 <= b < n ==> (#[trigger] ins@[b]).wf(),
            forall|b: int| 0 <= b < n ==> (#[trigger] outs@[b]).wf(),
            forall|b: int| 0 <= b < n ==> below(#[trigger] views(ins@)[b], nv as nat),
            below_equations(f, views(ins@)),
            sum_lens(views(ins@), n as int) <= bound,
            within_every_fixpoint(f, views(ins@), views(outs@)),
            !changed ==> is_fixpoint(f, views(ins@), views(outs@)),
        decreases 2 * (bound - sum_lens(views(ins@), n as int)) + if changed { 1int } else { 0int },
    {
        changed = false;
        let ghost start_total = sum_lens(views(ins@), n as int);
        let mut i: usize = n;
        while i > 0
            invariant
                f.wf(),
                n == f.num_blocks(),
                nv == f.num_vregs,
                bound == n as int * nv as int,
                ins@.len() == n,
                outs@.len() == n,
                i <= n,
                forall|b: int| 0 <= b < n ==> (#[trigger] ins@[b]).wf(),
                forall|b: int| 0 <= b < n ==> (#[trigger] outs@[b]).wf(),
                forall|b: int| 0 <= b < n ==> below(#[trigger] views(ins@)[b], nv as nat),
                below_equations(f, views(ins@)),
                sum_lens(views(ins@), n as int) <= bound,
                sum_lens(views(ins@), n as int) >= start_total,
                within_every_fixpoint(f, views(ins@), views(outs@)),
                changed ==> sum_lens(views(ins@), n as int) > start_total,
                !changed ==> forall|b: int| i <= b < n ==> #[trigger] views(outs@)[b] == block_live_out(f, b, views(ins@))
                    && views(ins@)[b] == block_live_in(f, b, views(outs@)[b]),
            decreases i,
        {
            i -= 1;
            let ghost before = views(ins@);
            let ghost outs_before = views(outs@);
            let out = live_out(f, i, &ins);
            let mut new_in = block_transfer(f, i, &out);
            proof {
                assert(below_equations(f, before));
                assert(before[i as int].subset_of(new_in@));
                lemma_succ_union_mono(f, i as int, before, before, f.succs(i as int).len() as int, nv as nat);
                lemma_block_live_in_mono(f, i as int, out@, out@);
            }
            let mut cur = ins[i].duplicate();
            let grew = cur.merge(&mut new_in);
            proof {
                assert(cur@ =~= new_in@);
            }
            ins.set(i, cur);
            outs.set(i, out);
            proof {
                let after = views(ins@);
                assert(after =~= before.update(i as int, new_in@));
                assert(views(outs@) =~= outs_before.update(i as int, out@));
                lemma_sum_update(before, i as int, new_in@, n as int);
                lemma_below_len(new_in@, nv as nat);
                lemma_len_subset(before[i as int], new_in@);
                if grew {
                    lemma_strict_growth(before[i as int], new_in@);
                } else {
                    assert(new_in@ =~= before[i as int]);
                    assert(after =~= before);
                    if !changed {
                        assert forall|b: int| i <= b < n implies #[trigger] views(outs@)[b] == block_live_out(f, b, views(ins@))
                            && views(ins@)[b] == block_live_in(f, b, views(outs@)[b]) by {
                            if b == i {
                                assert(views(outs@)[b] == out@);
                            } else {
                                assert(views(outs@)[b] == outs_before[b]);
                            }
                        }
                    }
                }
                assert forall|b: int| 0 <= b < n implies (#[trigger] after[b]).len() <= nv by {
                    lemma_below_len(after[b], nv as nat);
                }
                lemma_sum_bound(after, n as int, nv as int);
                assert forall|i2: Seq<Set<nat>>, o2: Seq<Set<nat>>| #[trigger] is_fixpoint(f, i2, o2) implies
                    pointwise_within(after, i2) && pointwise_within(views(outs@), o2) by {
                    assert(pointwise_within(before, i2));
                    assert(pointwise_within(outs_before, o2));
                    lemma_succ_union_sub(f, i as int, before, i2, f.succs(i as int).len() as int);
                    assert(o2[i as int] == block_live_out(f, i as int, i2));
                    lemma_live_in_sub(f, i as int, out@, o2[i as int]);
                    assert forall|c: int| 0 <= c < after.len() implies (#[trigger] after[c]).subset_of(i2[c]) by {
                        if c != i {
                            assert(after[c] == before[c]);
                        }
                    }
                    assert forall|c: int| 0 <= c < views(outs@).len() implies (#[trigger] views(outs@)[c]).subset_of(o2[c]) by {
                        if c != i {
                            assert(views(outs@)[c] == outs_before[c]);
                        }
                    }
                }
                assert forall|c: int| 0 <= c < before.len() implies (#[trigger] before[c]).subset_of(after[c]) by {}
                assert forall|b: int| 0 <= b < n implies (#[trigger] after[b]).subset_of(
                    block_live_in(f, b, block_live_out(f, b, after)),
                ) by {
                    lemma_succ_union_mono(f, b, before, after, f.succs(b).len() as int, nv as nat);
                    lemma_block_live_in_mono(f, b, block_live_out(f, b, before), block_live_out(f, b, after));
                    assert(before[b].subset_of(block_live_in(f, b, block_live_out(f, b, before))));
                }
            }
            if grew {
                changed = true;
            }
        }
    }
    proof {
        assert(views(ins@)[f.entry.0 as int] == ins@[f.entry.0 as int]@);
    }
    if !ins[f.entry.index()].is_empty() {
        return Err(RegAllocError::EntryLivein);
    }
    Ok((ins, outs))
}

proof fn lemma_sum_zero(s: Seq<Set<nat>>, k: int)
    requires
        0 <= k <= s.len(),
        forall|c: int| 0 <= c < k ==> #[trigger] s[c] == Set::<nat>::empty(),
    ensures
        sum_lens(s, k) == 0,
    decreases k,
{
    if k > 0 {
        lemma_sum_zero(s, k - 1);
        assert(s[k - 1].len() == 0);
    }
}

} // verus!
