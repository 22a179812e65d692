use regalloc2::ranges::Span;
use regalloc2::spill::{allocate_spillslots, SpillSetInfo};

fn set(spans: &[(u64, u64)], size: u32) -> SpillSetInfo {
    SpillSetInfo {
        spans: spans.iter().map(|&(from, to)| Span { from, to }).collect(),
        size,
    }
}

#[test]
fn disjoint_sets_share_a_slot() {
    let sets = vec![set(&[(0, 4)], 1), set(&[(4, 8)], 1), set(&[(2, 6)], 1)];
    let (slots, n) = allocate_spillslots(&sets);
    assert_eq!(slots, vec![0, 0, 1]);
    assert_eq!(n, 2);
}

#[test]
fn sizes_never_share() {
    let sets = vec![set(&[(0, 4)], 1), set(&[(10, 14)], 2), set(&[(20, 24)], 2)];
    let (slots, n) = allocate_spillslots(&sets);
    assert_eq!(slots, vec![0, 1, 1]);
    assert_eq!(n, 2);
}

#[test]
fn no_spill_sets_no_slots() {
    let (slots, n) = allocate_spillslots(&vec![]);
    assert!(slots.is_empty());
    assert_eq!(n, 0);
}
