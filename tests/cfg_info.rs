use regalloc2::cfg::CFGInfo;
use regalloc2::function::{BlockData, Function, InstData};
use regalloc2::index::{
    Block, Inst, InstPosition, Operand, OperandConstraint, OperandKind, OperandPos, ProgPoint,
    RegAllocError, RegClass, VReg, INVALID_INDEX,
};

fn op(v: u32, kind: OperandKind) -> Operand {
    Operand {
        vreg: VReg { id: v, class: RegClass::Int },
        kind,
        constraint: OperandConstraint::Reg,
        pos: if kind == OperandKind::Def { OperandPos::Late } else { OperandPos::Early },
    }
}

fn block(first: u32, last: u32, succs: &[u32], preds: &[u32], params: &[u32], arg_offset: u32) -> BlockData {
    BlockData {
        first: Inst(first),
        last: Inst(last),
        succs: succs.iter().map(|&b| Block(b)).collect(),
        preds: preds.iter().map(|&b| Block(b)).collect(),
        params: params.iter().map(|&v| VReg { id: v, class: RegClass::Int }).collect(),
        branch_arg_offset: arg_offset,
    }
}

fn inst(ops: Vec<Operand>) -> InstData {
    InstData { operands: ops }
}

/// Entry branches to 1 or 2, both jump to 3, which takes parameter v3.
fn diamond() -> Function {
    Function {
        entry: Block(0),
        blocks: vec![
            block(0, 1, &[1, 2], &[], &[], 0),
            block(2, 3, &[3], &[0], &[], 0),
            block(4, 5, &[3], &[0], &[], 0),
            block(6, 6, &[], &[1, 2], &[3], 0),
        ],
        insts: vec![
            inst(vec![op(0, OperandKind::Def)]),
            inst(vec![op(0, OperandKind::Use)]),
            inst(vec![op(1, OperandKind::Def)]),
            inst(vec![op(1, OperandKind::Use)]),
            inst(vec![op(2, OperandKind::Def)]),
            inst(vec![op(2, OperandKind::Use)]),
            inst(vec![op(3, OperandKind::Use)]),
        ],
        num_vregs: 4,
    }
}

/// 0 -> 1 (header) -> 2 -> {4 (latch) -> 1, 3 (exit)}.
fn simple_loop() -> Function {
    Function {
        entry: Block(0),
        blocks: vec![
            block(0, 0, &[1], &[], &[], 0),
            block(1, 1, &[2], &[0, 4], &[], 0),
            block(2, 2, &[4, 3], &[1], &[], 0),
            block(3, 3, &[], &[2], &[], 0),
            block(4, 4, &[1], &[2], &[], 0),
        ],
        insts: (0..5).map(|_| inst(vec![])).collect(),
        num_vregs: 0,
    }
}

#[test]
fn diamond_analyses() {
    let f = diamond();
    let info = CFGInfo::new(&f).ok().unwrap();
    assert_eq!(info.postorder.last(), Some(&Block(0)));
    assert_eq!(info.postorder.len(), 4);
    assert_eq!(info.domtree[0].0, INVALID_INDEX);
    assert_eq!(info.domtree[1], Block(0));
    assert_eq!(info.domtree[2], Block(0));
    assert_eq!(info.domtree[3], Block(0));
    assert!(info.dominates(Block(0), Block(3)));
    assert!(info.dominates(Block(3), Block(3)));
    assert!(!info.dominates(Block(1), Block(3)));
    assert!(!info.dominates(Block(3), Block(0)));
    assert_eq!(info.pred_position(Block(1)), 0);
    assert_eq!(info.pred_position(Block(2)), 1);
    assert_eq!(info.pred_position(Block(0)), 0);
    assert_eq!(info.insn_block, vec![Block(0), Block(0), Block(1), Block(1), Block(2), Block(2), Block(3)]);
    assert_eq!(info.vreg_def_inst, vec![Inst(0), Inst(2), Inst(4), Inst(INVALID_INDEX)]);
    assert_eq!(info.vreg_def_blockparam[3], (Block(3), 0));
    assert_eq!(info.vreg_def_blockparam[0].0, Block(INVALID_INDEX));
    assert_eq!(info.block_entry[1], ProgPoint { inst: Inst(2), pos: InstPosition::Before });
    assert_eq!(info.block_exit[1], ProgPoint { inst: Inst(3), pos: InstPosition::After });
    assert_eq!(info.approx_loop_depth, vec![0, 0, 0, 0]);
    assert!(info.loop_transition_points.is_empty());
}

#[test]
fn loop_depth_and_transitions() {
    let f = simple_loop();
    let info = CFGInfo::new(&f).ok().unwrap();
    assert_eq!(info.approx_loop_depth, vec![0, 1, 1, 1, 1]);
    assert_eq!(info.loop_transition_points, vec![ProgPoint { inst: Inst(1), pos: InstPosition::Before }]);
    assert_eq!(info.postorder.len(), 5);
    assert!(info.dominates(Block(1), Block(4)));
    assert!(info.dominates(Block(2), Block(3)));
    assert!(!info.dominates(Block(4), Block(1)));
    assert_eq!(info.domtree[4], Block(2));
    assert_eq!(info.pred_position(Block(4)), 1);
}

#[test]
fn critical_edge_rejected() {
    // 0 -> {1, 2}, 1 -> 2: the edge 0 -> 2 is critical.
    let f = Function {
        entry: Block(0),
        blocks: vec![
            block(0, 0, &[1, 2], &[], &[], 0),
            block(1, 1, &[2], &[0], &[], 0),
            block(2, 2, &[], &[0, 1], &[], 0),
        ],
        insts: (0..3).map(|_| inst(vec![])).collect(),
        num_vregs: 0,
    };
    match CFGInfo::new(&f) {
        Err(e) => assert_eq!(e, RegAllocError::CritEdge(Block(0), Block(2))),
        Ok(_) => panic!("critical edge accepted"),
    }
}

#[test]
fn branch_arguments_into_join_rejected() {
    let mut f = diamond();
    f.blocks[2].branch_arg_offset = 1;
    match CFGInfo::new(&f) {
        Err(e) => assert_eq!(e, RegAllocError::DisallowedBranchArg(Inst(5))),
        Ok(_) => panic!("branch arguments accepted"),
    }
}

#[test]
fn entry_with_back_edge_counts_virtual_predecessor() {
    // 0 -> {1, 2}, 1 -> 0: the entry has a real and a virtual predecessor,
    // so its predecessor 1 must have one successor (it has).
    let f = Function {
        entry: Block(0),
        blocks: vec![
            block(0, 0, &[1, 2], &[1], &[], 0),
            block(1, 1, &[0], &[0], &[], 0),
            block(2, 2, &[], &[0], &[], 0),
        ],
        insts: (0..3).map(|_| inst(vec![])).collect(),
        num_vregs: 0,
    };
    let info = CFGInfo::new(&f).ok().unwrap();
    assert_eq!(info.pred_position(Block(1)), 0);
    assert_eq!(info.approx_loop_depth, vec![1, 1, 0]);
}

#[test]
fn unreachable_block_left_out_of_postorder() {
    let f = Function {
        entry: Block(0),
        blocks: vec![
            block(0, 0, &[], &[], &[], 0),
            block(1, 1, &[], &[], &[], 0),
        ],
        insts: (0..2).map(|_| inst(vec![])).collect(),
        num_vregs: 0,
    };
    let info = CFGInfo::new(&f).ok().unwrap();
    assert_eq!(info.postorder, vec![Block(0)]);
    assert_eq!(info.domtree[1].0, INVALID_INDEX);
    assert!(!info.dominates(Block(0), Block(1)));
}

#[test]
fn two_block_loop_depths() {
    // 0 -> 1; 1 -> {2, 3}; 2 -> 1 (back edge).
    let f = Function {
        entry: Block(0),
        blocks: vec![
            block(0, 0, &[1], &[], &[], 0),
            block(1, 1, &[2, 3], &[0, 2], &[], 0),
            block(2, 2, &[1], &[1], &[], 0),
            block(3, 3, &[], &[1], &[], 0),
        ],
        insts: (0..4).map(|_| inst(vec![])).collect(),
        num_vregs: 0,
    };
    let info = CFGInfo::new(&f).ok().unwrap();
    assert_eq!(info.approx_loop_depth, vec![0, 1, 1, 0]);
    assert_eq!(info.loop_transition_points, vec![info.block_entry[1]]);
    assert_eq!(info.domtree[1], Block(0));
    assert_eq!(info.domtree[2], Block(1));
    assert_eq!(info.domtree[3], Block(1));
}
