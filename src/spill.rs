//! Assigning stack slots to spill sets.

use crate::ranges::{covers, merge_spans, spans_ok, spans_overlap, Span};
use vstd::prelude::*;

verus! {

/// The ranges where a spill set's value must be on the stack, and the size
/// of slot it needs.
pub struct SpillSetInfo {
    pub spans: Vec<Span>,
    pub size: u32,
}

/// What a slot holds so far: its size and the union of the ranges of the
/// spill sets placed in it.
struct SlotUse {
    size: u32,
    spans: Vec<Span>,
}

/// Slot `s` could not take set `i` when it was placed: the sets placed in
/// it before have another size, or one of them meets set `i`.
pub open spec fn slot_refused(sets: Seq<SpillSetInfo>, assign: Seq<u32>, i: int, s: int) -> bool {
    exists|j: int|
        0 <= j < i && assign[j] == s && (sets[j].size != sets[i].size || exists|p: int|
            covers(sets[j].spans@, p) && covers(sets[i].spans@, p))
}

/// Some set before set `i` went to slot `t`.
spec fn slot_used(assign: Seq<u32>, i: int, t: int) -> bool {
    exists|j: int| 0 <= j < i && #[trigger] assign[j] == t
}

/// Set `i` went to the first slot that could take it: every lower slot
/// refused it, and its slot is either used before or the next new one.
pub open spec fn first_fit(sets: Seq<SpillSetInfo>, assign: Seq<u32>, i: int) -> bool {
    &&& forall|s: int| 0 <= s < assign[i] ==> #[trigger] slot_refused(sets, assign, i, s)
    &&& (exists|j: int| 0 <= j < i && assign[j] == assign[i]) || forall|j: int| 0 <= j < i ==> assign[j] < assign[i]
}

/// Places each spill set in a slot: the first slot of its size whose
/// occupied ranges do not meet its own, else a new slot. Returns the slot
/// of each set and the number of slots. Two sets that share a slot have
/// one size and no program point in common.
pub fn allocate_spillslots(sets: &Vec<SpillSetInfo>) -> (r: (Vec<u32>, u32))
    requires
        sets@.len() <= u32::MAX,
        forall|i: int| 0 <= i < sets@.len() ==> spans_ok(#[trigger] sets@[i].spans@),
    ensures
        r.0@.len() == sets@.len(),
        forall|i: int| 0 <= i < r.0@.len() ==> #[trigger] r.0@[i] < r.1,
        r.1 <= sets@.len(),
        forall|i: int, j: int|
            0 <= i < sets@.len() && 0 <= j < sets@.len() && i != j && #[trigger] r.0@[i] == #[trigger] r.0@[j]
                ==> sets@[i].size == sets@[j].size && !exists|p: int| covers(sets@[i].spans@, p) && covers(
                sets@[j].spans@,
                p,
            ),
        forall|i: int| 0 <= i < sets@.len() ==> #[trigger] first_fit(sets@, r.0@, i),
{
    let mut slots: Vec<SlotUse> = Vec::new();
    let mut assign: Vec<u32> = Vec::new();
    let mut i: usize = 0;
    while i < sets.len()
        invariant
            i <= sets@.len(),
            sets@.len() <= u32::MAX,
            forall|k: int| 0 <= k < sets@.len() ==> spans_ok(#[trigger] sets@[k].spans@),
            assign@.len() == i,
            slots@.len() <= i,
            forall|k: int| 0 <= k < i ==> #[trigger] assign@[k] < slots@.len(),
            forall|s: int| 0 <= s < slots@.len() ==> spans_ok(#[trigger] slots@[s].spans@),
            forall|k: int| 0 <= k < i ==> #[trigger] slots@[assign@[k] as int].size == sets@[k].size,
            forall|s: int, p: int|
                0 <= s < slots@.len() ==> (#[trigger] covers(slots@[s].spans@, p) <==> exists|k: int|
                    0 <= k < i && assign@[k] == s && #[trigger] covers(sets@[k].spans@, p)),
            forall|k: int, j: int|
                0 <= k < i && 0 <= j < i && k != j && #[trigger] assign@[k] == #[trigger] assign@[j]
                    ==> sets@[k].size == sets@[j].size && !exists|p: int| covers(sets@[k].spans@, p)
                    && covers(sets@[j].spans@, p),
            forall|k: int| 0 <= k < i ==> #[trigger] first_fit(sets@, assign@, k),
            forall|t: int| 0 <= t < slots@.len() ==> #[trigger] slot_used(assign@, i as int, t),
        decreases sets@.len() - i,
    {
        let set = &sets[i];
        let mut chosen: usize = slots.len();
        let mut s: usize = 0;
        while s < slots.len() && chosen == slots.len()
            invariant
                s <= slots@.len(),
                set == &sets@[i as int],
                spans_ok(set.spans@),
                forall|t: int| 0 <= t < slots@.len() ==> spans_ok(#[trigger] slots@[t].spans@),
                chosen == slots@.len() || (chosen < slots@.len() && slots@[chosen as int].size == set.size
                    && !exists|p: int| covers(slots@[chosen as int].spans@, p) && covers(set.spans@, p)),
                chosen == slots@.len() ==> forall|t: int| 0 <= t < s ==> (#[trigger] slots@[t]).size != set.size
                    || exists|p: int| covers(slots@[t].spans@, p) && covers(set.spans@, p),
                chosen < slots@.len() ==> forall|t: int| 0 <= t < chosen ==> (#[trigger] slots@[t]).size != set.size
                    || exists|p: int| covers(slots@[t].spans@, p) && covers(set.spans@, p),
            decreases slots@.len() - s,
        {
            if slots[s].size == set.size && !spans_overlap(&slots[s].spans, &set.spans) {
                chosen = s;
            }
            s += 1;
        }
        let ghost slots0 = slots@;
        let ghost assign0 = assign@;
        if chosen == slots.len() {
            let mut spans: Vec<Span> = Vec::new();
            let mut t: usize = 0;
            while t < set.spans.len()
                invariant
                    t <= set.spans@.len(),
                    spans@ == set.spans@.subrange(0, t as int),
                decreases set.spans@.len() - t,
            {
                spans.push(set.spans[t]);
                assert(spans@ =~= set.spans@.subrange(0, t + 1));
                t += 1;
            }
            assert(spans@ =~= set.spans@);
            slots.push(SlotUse { size: set.size, spans });
        } else {
            let merged = merge_spans(&slots[chosen].spans, &set.spans);
            let size = slots[chosen].size;
            slots.set(chosen, SlotUse { size, spans: merged });
        }
        assign.push(chosen as u32);
        proof {
            assert forall|t: int| 0 <= t < chosen implies #[trigger] slot_refused(sets@, assign@, i as int, t) by {
                assert(slot_used(assign0, i as int, t));
                let j0 = choose|j: int| 0 <= j < i && #[trigger] assign0[j] == t;
                assert(assign@[j0] == t);
                if slots0[t].size != sets@[i as int].size {
                    assert(slots0[assign0[j0] as int].size == sets@[j0].size);
                } else {
                    let p = choose|p: int| covers(slots0[t].spans@, p) && covers(sets@[i as int].spans@, p);
                    let j = choose|j: int| 0 <= j < i && assign0[j] == t && #[trigger] covers(sets@[j].spans@, p);
                    assert(assign@[j] == t);
                }
            }
            assert(first_fit(sets@, assign@, i as int)) by {
                if chosen < slots0.len() {
                    assert(slot_used(assign0, i as int, chosen as int));
                    let j0 = choose|j: int| 0 <= j < i && #[trigger] assign0[j] == chosen;
                    assert(assign@[j0] == assign@[i as int]);
                } else {
                    assert forall|j: int| 0 <= j < i implies assign@[j] < assign@[i as int] by {
                        assert(assign@[j] == assign0[j]);
                    }
                }
            }
            assert forall|k: int| 0 <= k < i + 1 implies #[trigger] first_fit(sets@, assign@, k) by {
                if k < i {
                    assert(first_fit(sets@, assign0, k));
                    assert forall|s2: int| 0 <= s2 < assign@[k] implies #[trigger] slot_refused(sets@, assign@, k, s2) by {
                        assert(slot_refused(sets@, assign0, k, s2));
                        let j = choose|j: int| 0 <= j < k && assign0[j] == s2 && (sets@[j].size != sets@[k].size || exists|p: int|
                            covers(sets@[j].spans@, p) && covers(sets@[k].spans@, p));
                        assert(assign@[j] == assign0[j]);
                    }
                    if exists|j: int| 0 <= j < k && assign0[j] == assign0[k] {
                        let j = choose|j: int| 0 <= j < k && assign0[j] == assign0[k];
                        assert(assign@[j] == assign0[j]);
                    } else {
                        assert forall|j: int| 0 <= j < k implies assign@[j] < assign@[k] by {
                            assert(assign@[j] == assign0[j]);
                        }
                    }
                }
            }
            assert forall|t: int| 0 <= t < slots@.len() implies #[trigger] slot_used(assign@, i + 1, t) by {
                if t < slots0.len() {
                    assert(slot_used(assign0, i as int, t));
                    let j = choose|j: int| 0 <= j < i && #[trigger] assign0[j] == t;
                    assert(assign@[j] == t);
                } else {
                    assert(assign@[i as int] == t);
                }
            }
            assert(assign@ == assign0.push(chosen as u32));
            assert forall|k: int| 0 <= k < i + 1 implies #[trigger] slots@[assign@[k] as int].size == sets@[k].size by {
                if k < i {
                    assert(assign@[k] == assign0[k]);
                }
            }
            assert forall|s2: int, p: int|
                0 <= s2 < slots@.len() implies (#[trigger] covers(slots@[s2].spans@, p) <==> exists|k: int|
                    0 <= k < i + 1 && assign@[k] == s2 && #[trigger] covers(sets@[k].spans@, p)) by {
                if covers(slots@[s2].spans@, p) {
                    if s2 == chosen && covers(sets@[i as int].spans@, p) {
                        assert(assign@[i as int] == s2);
                    } else {
                        assert(s2 < slots0.len());
                        assert(covers(slots0[s2].spans@, p));
                        let k = choose|k: int| 0 <= k < i && assign0[k] == s2 && #[trigger] covers(sets@[k].spans@, p);
                        assert(assign@[k] == s2);
                    }
                }
                if exists|k: int| 0 <= k < i + 1 && assign@[k] == s2 && #[trigger] covers(sets@[k].spans@, p) {
                    let k = choose|k: int| 0 <= k < i + 1 && assign@[k] == s2 && #[trigger] covers(sets@[k].spans@, p);
                    if k < i {
                        assert(assign0[k] == s2);
                        assert(covers(slots0[s2].spans@, p));
                    }
                }
            }
            assert forall|k: int, j: int|
                0 <= k < i + 1 && 0 <= j < i + 1 && k != j && #[trigger] assign@[k] == #[trigger] assign@[j]
                    implies sets@[k].size == sets@[j].size && !exists|p: int| covers(sets@[k].spans@, p)
                    && covers(sets@[j].spans@, p) by {
                if k < i && j < i {
                    assert(assign0[k] == assign@[k] && assign0[j] == assign@[j]);
                } else {
                    let other = if k == i { j } else { k };
                    assert(assign0[other] == chosen);
                    assert(chosen < slots0.len());
                    assert forall|p: int| !(covers(sets@[other].spans@, p) && covers(sets@[i as int].spans@, p)) by {
                        if covers(sets@[other].spans@, p) {
                            assert(covers(slots0[chosen as int].spans@, p));
                        }
                    }
                }
            }
        }
        i += 1;
    }
    (assign, slots.len() as u32)
}

} // verus!
