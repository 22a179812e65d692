use regalloc2::index::{PReg, RegClass};
use regalloc2::requirement::Allocation;
use regalloc2::stackmap::safepoint_slots;

#[test]
fn stack_slots_sorted_once_each() {
    let allocs = vec![
        Allocation::Stack(7),
        Allocation::Reg(PReg { hw_enc: 1, class: RegClass::Int }),
        Allocation::Stack(2),
        Allocation::Stack(7),
        Allocation::Unassigned,
        Allocation::Stack(0),
    ];
    assert_eq!(safepoint_slots(&allocs), vec![0, 2, 7]);
}

#[test]
fn no_references_no_slots() {
    assert!(safepoint_slots(&vec![]).is_empty());
}
