use regalloc2::set::IntSet;
use std::collections::HashSet;

fn collect(s: &IntSet) -> Vec<usize> {
    let mut it = s.iter();
    let mut out = Vec::new();
    while let Some(v) = it.next() {
        out.push(v);
    }
    out
}

fn sorted_oracle(o: &HashSet<usize>) -> Vec<usize> {
    let mut v: Vec<usize> = o.iter().cloned().collect();
    v.sort();
    v
}

#[test]
fn new_set_is_empty() {
    let s = IntSet::new();
    assert!(s.is_empty());
    assert_eq!(collect(&s), Vec::<usize>::new());
    let d = IntSet::default();
    assert!(d.is_empty());
}

#[test]
fn small_values_add_contains_remove() {
    let mut s = IntSet::new();
    s.add(3);
    s.add(100);
    s.add(3);
    assert!(!s.is_empty());
    assert!(s.contains(3));
    assert!(s.contains(100));
    assert!(!s.contains(4));
    assert_eq!(collect(&s), vec![3, 100]);
    s.remove(3);
    assert!(!s.contains(3));
    assert_eq!(collect(&s), vec![100]);
    s.remove(100);
    assert!(s.is_empty());
}

#[test]
fn large_value_switches_to_list() {
    let mut s = IntSet::new();
    s.add(5);
    s.add(511);
    s.add(512);
    s.add(70000);
    assert!(matches!(s, IntSet::Unsorted(_)));
    assert!(s.contains(5));
    assert!(s.contains(511));
    assert!(s.contains(512));
    assert!(s.contains(70000));
    assert!(!s.contains(513));
    assert_eq!(collect(&s), vec![5, 511, 512, 70000]);
    s.remove(512);
    assert!(!s.contains(512));
    assert_eq!(collect(&s), vec![5, 511, 70000]);
}

#[test]
fn first_large_value_gives_sorted_list() {
    let mut s = IntSet::new();
    s.add(1000);
    assert!(matches!(s, IntSet::Sorted(_)));
    assert!(s.contains(1000));
    s.remove(1000);
    assert!(s.is_empty());
}

#[test]
fn duplicates_in_unsorted_list_are_yielded_once() {
    let mut s = IntSet::new();
    for v in [900usize, 600, 900, 700, 600, 900] {
        s.add(v);
    }
    assert_eq!(collect(&s), vec![600, 700, 900]);
    s.sort();
    assert!(matches!(s, IntSet::Sorted(_)));
    assert_eq!(collect(&s), vec![600, 700, 900]);
}

#[test]
fn long_unsorted_list_is_sorted_on_probe() {
    let mut s = IntSet::new();
    for v in (0..20usize).rev() {
        s.add(1000 + v);
    }
    assert!(matches!(s, IntSet::Unsorted(_)));
    assert!(s.contains(1007));
    assert!(matches!(s, IntSet::Sorted(_)));
    assert!(!s.contains(999));
    assert_eq!(collect(&s).len(), 20);
}

#[test]
fn remove_takes_out_every_copy() {
    let mut s = IntSet::new();
    s.add(800);
    s.add(801);
    s.add(800);
    s.remove(800);
    assert!(!s.contains(800));
    assert_eq!(collect(&s), vec![801]);
}

#[test]
fn clear_empties() {
    let mut s = IntSet::new();
    s.add(1);
    s.add(5000);
    s.clear();
    assert!(s.is_empty());
    assert!(!s.contains(1));
}

#[test]
fn merge_reports_change() {
    let mut a = IntSet::new();
    let mut b = IntSet::new();
    assert!(!a.merge(&mut b));
    b.add(7);
    assert!(a.merge(&mut b));
    assert!(!a.merge(&mut b));
    assert!(a.contains(7));
    assert!(b.contains(7));
}

#[test]
fn merge_small_into_small() {
    let mut a = IntSet::new();
    let mut b = IntSet::new();
    a.add(1);
    a.add(2);
    b.add(2);
    b.add(300);
    assert!(a.merge(&mut b));
    assert_eq!(collect(&a), vec![1, 2, 300]);
    assert_eq!(collect(&b), vec![2, 300]);
    assert!(!a.merge(&mut b));
}

#[test]
fn merge_mixed_modes() {
    let mut small = IntSet::new();
    small.add(4);
    small.add(9);
    let mut list = IntSet::new();
    list.add(4);
    list.add(2000);

    let mut a = small.duplicate();
    let mut l = list.duplicate();
    assert!(a.merge(&mut l));
    assert_eq!(collect(&a), vec![4, 9, 2000]);

    let mut l2 = list.duplicate();
    let mut s2 = small.duplicate();
    assert!(l2.merge(&mut s2));
    assert_eq!(collect(&l2), vec![4, 9, 2000]);

    let mut l3 = list.duplicate();
    let mut just4 = IntSet::new();
    just4.add(4);
    assert!(!l3.merge(&mut just4));
    assert_eq!(collect(&l3), vec![4, 2000]);
}

#[test]
fn merge_sorted_lists() {
    let mut a = IntSet::new();
    let mut b = IntSet::new();
    for v in [1000usize, 3000, 5000] {
        a.add(v);
    }
    for v in [2000usize, 3000, 6000] {
        b.add(v);
    }
    assert!(a.merge(&mut b));
    assert_eq!(collect(&a), vec![1000, 2000, 3000, 5000, 6000]);
    let mut sub = IntSet::new();
    sub.add(3000);
    sub.add(1000);
    assert!(!a.merge(&mut sub));
}

#[test]
fn merge_into_empty_copies() {
    let mut a = IntSet::new();
    let mut b = IntSet::new();
    b.add(10);
    b.add(10000);
    assert!(a.merge(&mut b));
    assert_eq!(collect(&a), vec![10, 10000]);
    b.add(11);
    assert!(!a.contains(11));
}

#[test]
fn agrees_with_naive_set_on_action_sequences() {
    for seed in 1..40u64 {
        let mut state = seed;
        let mut next = || {
            state = state.wrapping_mul(6364136223846793005).wrapping_add(1442695040888963407);
            state >> 33
        };
        let mut left = IntSet::new();
        let mut right = IntSet::new();
        let mut left_oracle: HashSet<usize> = HashSet::new();
        let mut right_oracle: HashSet<usize> = HashSet::new();
        for _ in 0..200 {
            let action = next() % 10;
            let val = if next() % 3 == 0 { (next() % 65536) as usize } else { (next() % 600) as usize };
            match action {
                0 => {
                    left_oracle.insert(val);
                    left.add(val);
                }
                1 => {
                    right_oracle.insert(val);
                    right.add(val);
                }
                2 => {
                    let x = left_oracle.remove(&val);
                    assert_eq!(x, left.contains(val));
                    left.remove(val);
                }
                3 => {
                    let x = right_oracle.remove(&val);
                    assert_eq!(x, right.contains(val));
                    right.remove(val);
                }
                4 => assert_eq!(left_oracle.contains(&val), left.contains(val)),
                5 => assert_eq!(right_oracle.contains(&val), right.contains(val)),
                6 => {
                    if next() % 4 == 0 {
                        left_oracle.clear();
                        left.clear();
                    }
                }
                7 => {
                    if next() % 4 == 0 {
                        right_oracle.clear();
                        right.clear();
                    }
                }
                8 => {
                    let before = right_oracle.clone();
                    for &v in &left_oracle {
                        right_oracle.insert(v);
                    }
                    assert_eq!(right_oracle != before, right.merge(&mut left));
                }
                _ => {
                    let before = left_oracle.clone();
                    for &v in &right_oracle {
                        left_oracle.insert(v);
                    }
                    assert_eq!(left_oracle != before, left.merge(&mut right));
                }
            }
            assert_eq!(sorted_oracle(&left_oracle), collect(&left));
            assert_eq!(sorted_oracle(&right_oracle), collect(&right));
            assert_eq!(left_oracle.is_empty(), left.is_empty());
        }
    }
}
