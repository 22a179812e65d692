use regalloc2::commitments::PRegCommitments;

#[test]
fn commit_keeps_order_and_reports_conflicts() {
    let mut c = PRegCommitments::new();
    assert_eq!(c.commit(10, 20, 1), 0);
    assert_eq!(c.commit(30, 40, 2), 1);
    assert_eq!(c.commit(0, 10, 3), 0);
    assert_eq!(c.commit(20, 30, 4), 2);
    assert_eq!(c.conflicts(15, 35), vec![1, 4, 2]);
    assert_eq!(c.conflicts(40, 50), Vec::<u32>::new());
    assert_eq!(c.conflicts(9, 10), vec![3]);
    assert_eq!(c.conflicts(0, 100), vec![3, 1, 4, 2]);
}

#[test]
fn evicting_a_bundle_frees_its_ranges() {
    let mut c = PRegCommitments::new();
    c.commit(0, 4, 7);
    c.commit(4, 8, 8);
    c.commit(8, 12, 7);
    c.remove_bundle(7);
    assert_eq!(c.conflicts(0, 12), vec![8]);
    assert_eq!(c.commit(0, 4, 9), 0);
    assert_eq!(c.conflicts(0, 12), vec![9, 8]);
}

#[test]
fn two_values_fixed_to_one_register_at_one_point_conflict() {
    // Both values must be in the same register across the same
    // instruction (points 4 and 5): the second finds the first.
    let mut p0 = PRegCommitments::new();
    p0.commit(4, 6, 0);
    assert_eq!(p0.conflicts(4, 6), vec![0]);
}
