use regalloc2::ranges::{merge_spans, spans_overlap, Span};

fn sp(from: u64, to: u64) -> Span {
    Span { from, to }
}

#[test]
fn touching_spans_do_not_overlap() {
    let a = vec![sp(0, 4), sp(10, 12)];
    let b = vec![sp(4, 10), sp(12, 20)];
    assert!(!spans_overlap(&a, &b));
    assert_eq!(merge_spans(&a, &b), vec![sp(0, 4), sp(4, 10), sp(10, 12), sp(12, 20)]);
}

#[test]
fn shared_point_is_an_overlap() {
    let a = vec![sp(0, 4), sp(10, 12)];
    let b = vec![sp(5, 6), sp(11, 13)];
    assert!(spans_overlap(&a, &b));
    assert!(spans_overlap(&b, &a));
}

#[test]
fn empty_side_never_overlaps() {
    let a = vec![sp(2, 3)];
    let b: Vec<Span> = vec![];
    assert!(!spans_overlap(&a, &b));
    assert_eq!(merge_spans(&b, &a), vec![sp(2, 3)]);
}
