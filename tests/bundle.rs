use regalloc2::bundle::{try_merge, Bundle};
use regalloc2::index::{PReg, RegClass};
use regalloc2::ranges::Span;
use regalloc2::requirement::Requirement;

fn bundle(spans: &[(u64, u64)], class: RegClass, requirement: Requirement) -> Bundle {
    Bundle {
        spans: spans.iter().map(|&(from, to)| Span { from, to }).collect(),
        class,
        requirement,
    }
}

#[test]
fn disjoint_bundles_of_one_class_merge() {
    let a = bundle(&[(0, 4)], RegClass::Int, Requirement::Any);
    let b = bundle(&[(4, 9)], RegClass::Int, Requirement::Register);
    let m = try_merge(&a, &b).unwrap();
    assert_eq!(m.spans, vec![Span { from: 0, to: 4 }, Span { from: 4, to: 9 }]);
    assert_eq!(m.requirement, Requirement::Register);
    assert_eq!(m.class, RegClass::Int);
}

#[test]
fn overlapping_bundles_are_kept_apart() {
    let a = bundle(&[(0, 5)], RegClass::Int, Requirement::Any);
    let b = bundle(&[(4, 9)], RegClass::Int, Requirement::Any);
    assert!(try_merge(&a, &b).is_none());
}

#[test]
fn classes_never_mix() {
    let a = bundle(&[(0, 2)], RegClass::Int, Requirement::Any);
    let b = bundle(&[(2, 4)], RegClass::Float, Requirement::Any);
    assert!(try_merge(&a, &b).is_none());
}

#[test]
fn conflicting_fixed_registers_are_kept_apart() {
    let p0 = PReg { hw_enc: 0, class: RegClass::Int };
    let p1 = PReg { hw_enc: 1, class: RegClass::Int };
    let a = bundle(&[(0, 2)], RegClass::Int, Requirement::Fixed(p0));
    let b = bundle(&[(2, 4)], RegClass::Int, Requirement::Fixed(p1));
    assert!(try_merge(&a, &b).is_none());
    let c = bundle(&[(2, 4)], RegClass::Int, Requirement::Stack);
    assert!(try_merge(&a, &c).is_none());
    let d = bundle(&[(2, 4)], RegClass::Int, Requirement::Fixed(p0));
    assert_eq!(try_merge(&a, &d).unwrap().requirement, Requirement::Fixed(p0));
}
