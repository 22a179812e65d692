//! Stack maps: which stack slots hold references at a safepoint.

use crate::list::{strictly_sorted, IdxList};
use crate::requirement::Allocation;
use crate::set::{lemma_list_set_multiset, lemma_list_set_push, list_set, remove_dups};
use vstd::prelude::*;

verus! {

/// The slots among `allocs` that are on the stack.
pub open spec fn stack_slots(allocs: Seq<Allocation>) -> Set<nat> {
    Set::new(|s: nat| exists|k: int| 0 <= k < allocs.len() && allocs[k] == Allocation::Stack(s as u32) && s <= u32::MAX)
}

/// The stack map of one safepoint, from the locations of the references
/// live there: the stack slots among them, each once, in increasing order.
pub fn safepoint_slots(live_ref_allocs: &Vec<Allocation>) -> (r: Vec<u32>)
    ensures
        forall|i: int, j: int| 0 <= i < j < r@.len() ==> r@[i] < r@[j],
        list_set(r@) == stack_slots(live_ref_allocs@),
{
    let mut list = IdxList::new();
    let mut k: usize = 0;
    while k < live_ref_allocs.len()
        invariant
            k <= live_ref_allocs@.len(),
            list_set(list@) == stack_slots(live_ref_allocs@.subrange(0, k as int)),
        decreases live_ref_allocs@.len() - k,
    {
        let a = live_ref_allocs[k];
        let ghost prev = live_ref_allocs@.subrange(0, k as int);
        let ghost next = live_ref_allocs@.subrange(0, k + 1);
        proof {
            assert(prev.push(a) =~= next);
        }
        match a {
            Allocation::Stack(s) => {
                proof {
                    lemma_list_set_push(list@, s);
                    assert(stack_slots(next) =~= stack_slots(prev).insert(s as nat)) by {
                        assert(next[k as int] == a);
                        assert forall|x: nat| #[trigger] stack_slots(next).contains(x) implies stack_slots(prev).insert(s as nat).contains(x) by {
                            let m = choose|m: int| 0 <= m < next.len() && next[m] == Allocation::Stack(x as u32) && x <= u32::MAX;
                            if m < k {
                                assert(prev[m] == next[m]);
                            }
                        }
                        assert forall|x: nat| #[trigger] stack_slots(prev).insert(s as nat).contains(x) implies stack_slots(next).contains(x) by {
                            if x != s as nat {
                                let m = choose|m: int| 0 <= m < prev.len() && prev[m] == Allocation::Stack(x as u32) && x <= u32::MAX;
                                assert(next[m] == prev[m]);
                            }
                        }
                    }
                }
                list.push(s);
            },
            _ => {
                proof {
                    assert(stack_slots(next) =~= stack_slots(prev)) by {
                        assert forall|x: nat| #[trigger] stack_slots(next).contains(x) implies stack_slots(prev).contains(x) by {
                            let m = choose|m: int| 0 <= m < next.len() && next[m] == Allocation::Stack(x as u32) && x <= u32::MAX;
                            assert(m != k);
                            assert(prev[m] == next[m]);
                        }
                        assert forall|x: nat| #[trigger] stack_slots(prev).contains(x) implies stack_slots(next).contains(x) by {
                            let m = choose|m: int| 0 <= m < prev.len() && prev[m] == Allocation::Stack(x as u32) && x <= u32::MAX;
                            assert(next[m] == prev[m]);
                        }
                    }
                }
            },
        }
        k += 1;
    }
    assert(live_ref_allocs@.subrange(0, k as int) =~= live_ref_allocs@);
    let ghost unsorted = list@;
    list.sort();
    proof {
        lemma_list_set_multiset(unsorted, list@);
    }
    remove_dups(&mut list);
    let n = list.len();
    let mut r: Vec<u32> = Vec::new();
    let mut i: usize = 0;
    while i < n
        invariant
            n == list@.len(),
            i <= n,
            r@ == list@.subrange(0, i as int),
        decreases n - i,
    {
        r.push(list.get(i));
        assert(r@ =~= list@.subrange(0, i + 1));
        i += 1;
    }
    assert(r@ =~= list@);
    r
}

} // verus!
