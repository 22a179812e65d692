use regalloc2::index::{Operand, OperandConstraint, OperandKind, OperandPos, PReg, RegClass, VReg};
use regalloc2::moves::resolve;
use regalloc2::requirement::{operands_requirement, Allocation, Requirement};
use std::collections::HashMap;

fn reg(n: u8) -> Allocation {
    Allocation::Reg(PReg { hw_enc: n, class: RegClass::Int })
}

fn preg(n: u8) -> PReg {
    PReg { hw_enc: n, class: RegClass::Int }
}

fn run_seq(moves: &[(Allocation, Allocation)], init: &HashMap<Allocation, i32>) -> HashMap<Allocation, i32> {
    let mut s = init.clone();
    for &(src, dst) in moves {
        let v = *s.get(&src).unwrap_or(&-1);
        s.insert(dst, v);
    }
    s
}

fn run_par(moves: &[(Allocation, Allocation)], init: &HashMap<Allocation, i32>) -> HashMap<Allocation, i32> {
    let mut s = init.clone();
    for &(src, dst) in moves {
        s.insert(dst, *init.get(&src).unwrap_or(&-1));
    }
    s
}

fn check(moves: Vec<(Allocation, Allocation)>, scratch: Allocation) -> Vec<(Allocation, Allocation)> {
    let mut init = HashMap::new();
    for n in 0..8u8 {
        init.insert(reg(n), n as i32 * 10);
    }
    init.insert(Allocation::Stack(0), 1000);
    init.insert(Allocation::Stack(1), 1001);
    let out = resolve(&moves, scratch);
    let seq = run_seq(&out, &init);
    let par = run_par(&moves, &init);
    for (loc, v) in par.iter() {
        if *loc != scratch {
            assert_eq!(seq.get(loc), Some(v), "location {:?}", loc);
        }
    }
    for &(src, dst) in &out {
        assert_ne!(src, dst);
    }
    out
}

#[test]
fn chain_is_ordered_back_to_front() {
    // p0 -> p1 and p1 -> p2 at once: p1 must be read before it is written.
    let out = check(vec![(reg(0), reg(1)), (reg(1), reg(2))], reg(7));
    assert_eq!(out, vec![(reg(1), reg(2)), (reg(0), reg(1))]);
}

#[test]
fn swap_uses_scratch() {
    let out = check(vec![(reg(0), reg(1)), (reg(1), reg(0))], reg(7));
    assert_eq!(out.len(), 3);
    assert!(out.iter().any(|&(_, d)| d == reg(7)));
}

#[test]
fn three_cycle_and_stack_slots() {
    let out = check(
        vec![(reg(0), reg(1)), (reg(1), Allocation::Stack(0)), (Allocation::Stack(0), reg(0)), (reg(3), Allocation::Stack(1))],
        reg(7),
    );
    assert_eq!(out.len(), 5);
}

#[test]
fn self_move_is_dropped() {
    let out = check(vec![(reg(2), reg(2)), (reg(3), reg(4))], reg(7));
    assert_eq!(out, vec![(reg(3), reg(4))]);
}

#[test]
fn empty_parallel_move() {
    assert!(check(vec![], reg(7)).is_empty());
}

#[test]
fn requirement_merge_table() {
    assert_eq!(Requirement::Unknown.merge(Requirement::Any), Requirement::Any);
    assert_eq!(Requirement::Any.merge(Requirement::Register), Requirement::Register);
    assert_eq!(Requirement::Register.merge(Requirement::Fixed(preg(3))), Requirement::Fixed(preg(3)));
    assert_eq!(Requirement::Fixed(preg(3)).merge(Requirement::Fixed(preg(3))), Requirement::Fixed(preg(3)));
    assert_eq!(Requirement::Fixed(preg(3)).merge(Requirement::Fixed(preg(4))), Requirement::Conflict);
    assert_eq!(Requirement::Stack.merge(Requirement::Register), Requirement::Conflict);
    assert_eq!(Requirement::Stack.merge(Requirement::Fixed(preg(0))), Requirement::Conflict);
    assert_eq!(Requirement::Stack.merge(Requirement::Any), Requirement::Stack);
    assert_eq!(Requirement::Unknown.merge(Requirement::Unknown), Requirement::Unknown);
    assert_eq!(Requirement::Conflict.merge(Requirement::Unknown), Requirement::Conflict);
}

fn operand(c: OperandConstraint) -> Operand {
    Operand {
        vreg: VReg { id: 0, class: RegClass::Int },
        kind: OperandKind::Use,
        constraint: c,
        pos: OperandPos::Early,
    }
}

#[test]
fn two_fixed_uses_of_one_register_conflict_only_when_different() {
    let same = vec![operand(OperandConstraint::FixedReg(preg(0))), operand(OperandConstraint::FixedReg(preg(0)))];
    assert_eq!(operands_requirement(&same), Requirement::Fixed(preg(0)));
    let diff = vec![operand(OperandConstraint::FixedReg(preg(0))), operand(OperandConstraint::FixedReg(preg(1)))];
    assert_eq!(operands_requirement(&diff), Requirement::Conflict);
    let mixed = vec![operand(OperandConstraint::Any), operand(OperandConstraint::Reuse(0)), operand(OperandConstraint::Reg)];
    assert_eq!(operands_requirement(&mixed), Requirement::Register);
    assert_eq!(operands_requirement(&vec![]), Requirement::Unknown);
}
