use regalloc2::function::{BlockData, Function, InstData};
use regalloc2::index::{Block, Inst, Operand, OperandConstraint, OperandKind, OperandPos, RegAllocError, RegClass, VReg};
use regalloc2::liveness::compute_liveness;
use regalloc2::set::IntSet;

fn op(v: u32, kind: OperandKind, pos: OperandPos) -> Operand {
    Operand {
        vreg: VReg { id: v, class: RegClass::Int },
        kind,
        constraint: OperandConstraint::Any,
        pos,
    }
}

fn def(v: u32) -> Operand {
    op(v, OperandKind::Def, OperandPos::Late)
}

fn use_(v: u32) -> Operand {
    op(v, OperandKind::Use, OperandPos::Early)
}

fn block(first: u32, last: u32, succs: &[u32], preds: &[u32], params: &[u32]) -> BlockData {
    BlockData {
        first: Inst(first),
        last: Inst(last),
        succs: succs.iter().map(|&b| Block(b)).collect(),
        preds: preds.iter().map(|&b| Block(b)).collect(),
        params: params.iter().map(|&v| VReg { id: v, class: RegClass::Int }).collect(),
        branch_arg_offset: 0,
    }
}

fn values(s: &IntSet) -> Vec<usize> {
    let mut it = s.iter();
    let mut out = Vec::new();
    while let Some(v) = it.next() {
        out.push(v);
    }
    out
}

#[test]
fn straight_line_has_nothing_live_at_edges() {
    // v0 = def; v1 = def; v2 = add v0, v1
    let f = Function {
        entry: Block(0),
        blocks: vec![block(0, 2, &[], &[], &[])],
        insts: vec![
            InstData { operands: vec![def(0)] },
            InstData { operands: vec![def(1)] },
            InstData { operands: vec![use_(0), use_(1), def(2)] },
        ],
        num_vregs: 3,
    };
    let (ins, outs) = compute_liveness(&f).ok().unwrap();
    assert!(ins[0].is_empty());
    assert!(outs[0].is_empty());
}

#[test]
fn value_used_in_successor_is_live_across_edge() {
    // b0: v0 = def; jump b1.  b1: use v0.
    let f = Function {
        entry: Block(0),
        blocks: vec![block(0, 0, &[1], &[], &[]), block(1, 1, &[], &[0], &[])],
        insts: vec![InstData { operands: vec![def(0)] }, InstData { operands: vec![use_(0)] }],
        num_vregs: 1,
    };
    let (ins, outs) = compute_liveness(&f).ok().unwrap();
    assert_eq!(values(&outs[0]), vec![0]);
    assert_eq!(values(&ins[1]), vec![0]);
    assert!(ins[0].is_empty());
    assert!(outs[1].is_empty());
}

#[test]
fn loop_carried_value_is_live_around_back_edge() {
    // b0: v0 = def; jump b1.  b1(header): use v0; jump b2.
    // b2: branch to b3 (latch) or b4 (exit).  b3: jump b1.  b4: ret.
    let f = Function {
        entry: Block(0),
        blocks: vec![
            block(0, 0, &[1], &[], &[]),
            block(1, 1, &[2], &[0, 3], &[]),
            block(2, 2, &[3, 4], &[1], &[]),
            block(3, 3, &[1], &[2], &[]),
            block(4, 4, &[], &[2], &[]),
        ],
        insts: vec![
            InstData { operands: vec![def(0)] },
            InstData { operands: vec![use_(0)] },
            InstData { operands: vec![] },
            InstData { operands: vec![] },
            InstData { operands: vec![] },
        ],
        num_vregs: 1,
    };
    let (ins, outs) = compute_liveness(&f).ok().unwrap();
    assert_eq!(values(&ins[1]), vec![0]);
    assert_eq!(values(&ins[2]), vec![0]);
    assert_eq!(values(&ins[3]), vec![0]);
    assert_eq!(values(&outs[2]), vec![0]);
    assert!(ins[4].is_empty());
    assert!(ins[0].is_empty());
}

#[test]
fn block_parameter_is_not_live_in() {
    // b0: v0 = def; jump b1(v0).  b1(v1): use v1.
    let f = Function {
        entry: Block(0),
        blocks: vec![block(0, 1, &[1], &[], &[]), block(2, 2, &[], &[0], &[1])],
        insts: vec![
            InstData { operands: vec![def(0)] },
            InstData { operands: vec![use_(0)] },
            InstData { operands: vec![use_(1)] },
        ],
        num_vregs: 2,
    };
    let (ins, outs) = compute_liveness(&f).ok().unwrap();
    assert!(ins[1].is_empty());
    // v0 is passed to b1's parameter, so it is live out of b0.
    assert_eq!(values(&outs[0]), vec![0]);
}

#[test]
fn use_without_def_is_live_into_entry() {
    let f = Function {
        entry: Block(0),
        blocks: vec![block(0, 0, &[], &[], &[])],
        insts: vec![InstData { operands: vec![use_(0)] }],
        num_vregs: 1,
    };
    match compute_liveness(&f) {
        Err(e) => assert_eq!(e, RegAllocError::EntryLivein),
        Ok(_) => panic!("live-in value at entry accepted"),
    }
}

#[test]
fn mod_operand_keeps_value_live() {
    let f = Function {
        entry: Block(0),
        blocks: vec![block(0, 1, &[], &[], &[])],
        insts: vec![
            InstData { operands: vec![def(0)] },
            InstData { operands: vec![op(0, OperandKind::Mod, OperandPos::Early)] },
        ],
        num_vregs: 1,
    };
    assert!(compute_liveness(&f).is_ok());
}

