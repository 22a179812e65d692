//! Sequencing a parallel move: a set of moves at one program point whose
//! combined effect is simultaneous.

use crate::requirement::Allocation;
use vstd::prelude::*;

verus! {

/// A move of a value from the first location to the second.
pub type Move = (Allocation, Allocation);

/// No two moves write the same location.
pub open spec fn distinct_dsts(moves: Seq<Move>) -> bool {
    forall|i: int, j: int| 0 <= i < j < moves.len() ==> moves[i].1 != moves[j].1
}

/// Some move reads location `l`.
pub open spec fn is_src(moves: Seq<Move>, l: Allocation) -> bool {
    exists|k: int| 0 <= k < moves.len() && (#[trigger] moves[k]).0 == l
}

/// Some move writes location `l`.
pub open spec fn is_dst(moves: Seq<Move>, l: Allocation) -> bool {
    exists|k: int| 0 <= k < moves.len() && (#[trigger] moves[k]).1 == l
}

/// What location `l` holds after the moves run at once from state `s`:
/// the old value of the source of the move that writes `l`, if any.
pub open spec fn par_value(s: spec_fn(Allocation) -> int, moves: Seq<Move>, l: Allocation) -> int {
    if is_dst(moves, l) {
        s(moves[choose|k: int| 0 <= k < moves.len() && (#[trigger] moves[k]).1 == l].0)
    } else {
        s(l)
    }
}

/// What location `l` holds after the first `k` moves run one after another
/// from state `s`.
pub open spec fn seq_value(s: spec_fn(Allocation) -> int, moves: Seq<Move>, k: int, l: Allocation) -> int
    decreases k,
{
    if k <= 0 {
        s(l)
    } else if l == moves[k - 1].1 {
        seq_value(s, moves, k - 1, moves[k - 1].0)
    } else {
        seq_value(s, moves, k - 1, l)
    }
}

/// The state after running `out` from `s`, one move after another.
pub open spec fn after(s: spec_fn(Allocation) -> int, out: Seq<Move>) -> spec_fn(Allocation) -> int {
    |l: Allocation| seq_value(s, out, out.len() as int, l)
}

proof fn lemma_par_value_at(s: spec_fn(Allocation) -> int, moves: Seq<Move>, k: int)
    requires
        distinct_dsts(moves),
        0 <= k < moves.len(),
    ensures
        par_value(s, moves, moves[k].1) == s(moves[k].0),
{
    assert(is_dst(moves, moves[k].1));
    let c = choose|c: int| 0 <= c < moves.len() && (#[trigger] moves[c]).1 == moves[k].1;
    assert(c == k);
}

/// Running a move whose destination no other pending move reads, then
/// dropping it, keeps what the pending moves will produce.
proof fn lemma_safe_step(t: spec_fn(Allocation) -> int, p: Seq<Move>, i: int, l: Allocation)
    requires
        distinct_dsts(p),
        0 <= i < p.len(),
        !is_src(p, p[i].1),
    ensures
        par_value(|x: Allocation| if x == p[i].1 { t(p[i].0) } else { t(x) }, p.remove(i), l)
            == par_value(t, p, l),
{
    let t2 = |x: Allocation| if x == p[i].1 { t(p[i].0) } else { t(x) };
    let q = p.remove(i);
    assert(distinct_dsts(q)) by {
        assert forall|a: int, b: int| 0 <= a < b < q.len() implies q[a].1 != q[b].1 by {
            let a2 = if a < i { a } else { a + 1 };
            let b2 = if b < i { b } else { b + 1 };
            assert(q[a] == p[a2]);
            assert(q[b] == p[b2]);
        }
    }
    if l == p[i].1 {
        lemma_par_value_at(t, p, i);
        assert(!is_dst(q, l)) by {
            if is_dst(q, l) {
                let k = choose|k: int| 0 <= k < q.len() && (#[trigger] q[k]).1 == l;
                let k2 = if k < i { k } else { k + 1 };
                assert(q[k] == p[k2]);
            }
        }
    } else if is_dst(q, l) {
        let k = choose|k: int| 0 <= k < q.len() && (#[trigger] q[k]).1 == l;
        let k2 = if k < i { k } else { k + 1 };
        assert(q[k] == p[k2]);
        lemma_par_value_at(t2, q, k);
        lemma_par_value_at(t, p, k2);
        assert(p[k2].0 != p[i].1);
    } else {
        assert(!is_dst(p, l)) by {
            if is_dst(p, l) {
                let k = choose|k: int| 0 <= k < p.len() && (#[trigger] p[k]).1 == l;
                assert(k != i);
                let k2 = if k < i { k } else { k - 1 };
                assert(q[k2] == p[k]);
            }
        }
    }
}

/// `p` with every read of `d` turned into a read of `scratch`.
pub open spec fn redirect(p: Seq<Move>, d: Allocation, scratch: Allocation) -> Seq<Move> {
    p.map_values(|m: Move| if m.0 == d { (scratch, m.1) } else { m })
}

/// Saving `d` into the scratch location and redirecting its readers there
/// keeps what the pending moves will produce everywhere but the scratch.
proof fn lemma_break_step(t: spec_fn(Allocation) -> int, p: Seq<Move>, d: Allocation, scratch: Allocation, l: Allocation)
    requires
        distinct_dsts(p),
        !is_src(p, scratch),
        !is_dst(p, scratch),
        l != scratch,
    ensures
        par_value(|x: Allocation| if x == scratch { t(d) } else { t(x) }, redirect(p, d, scratch), l)
            == par_value(t, p, l),
{
    let t2 = |x: Allocation| if x == scratch { t(d) } else { t(x) };
    let q = redirect(p, d, scratch);
    assert(distinct_dsts(q));
    if is_dst(p, l) {
        let k = choose|k: int| 0 <= k < p.len() && (#[trigger] p[k]).1 == l;
        assert(q[k].1 == l);
        lemma_par_value_at(t2, q, k);
        lemma_par_value_at(t, p, k);
        assert(p[k].0 != scratch);
    } else {
        assert(!is_dst(q, l)) by {
            if is_dst(q, l) {
                let k = choose|k: int| 0 <= k < q.len() && (#[trigger] q[k]).1 == l;
                assert(p[k].1 == l);
            }
        }
    }
}

/// If every destination is also read, a location that no move writes is
/// read by none either: the reads and the writes are the same set.
proof fn lemma_all_blocked(p: Seq<Move>, scratch: Allocation)
    requires
        distinct_dsts(p),
        forall|i: int| 0 <= i < p.len() ==> is_src(p, #[trigger] p[i].1),
        !is_dst(p, scratch),
    ensures
        !is_src(p, scratch),
{
    let dsts = p.map_values(|m: Move| m.1);
    let srcs = p.map_values(|m: Move| m.0);
    assert(dsts.no_duplicates()) by {
        assert forall|i: int, j: int| 0 <= i < dsts.len() && 0 <= j < dsts.len() && i != j implies dsts[i] != dsts[j] by {
            if i < j {
                assert(p[i].1 != p[j].1);
            } else {
                assert(p[j].1 != p[i].1);
            }
        }
    }
    dsts.unique_seq_to_set();
    srcs.lemma_cardinality_of_set();
    if is_src(p, scratch) {
        let k = choose|k: int| 0 <= k < p.len() && (#[trigger] p[k]).0 == scratch;
        assert(srcs[k] == scratch);
        assert(srcs.to_set().contains(scratch));
        assert(dsts.to_set().subset_of(srcs.to_set().remove(scratch))) by {
            assert forall|x: Allocation| dsts.to_set().contains(x) implies srcs.to_set().remove(scratch).contains(x) by {
                let i = choose|i: int| 0 <= i < dsts.len() && dsts[i] == x;
                assert(is_src(p, p[i].1));
                let j = choose|j: int| 0 <= j < p.len() && (#[trigger] p[j]).0 == p[i].1;
                assert(srcs[j] == x);
                assert(x != scratch) by {
                    if x == scratch {
                        assert(p[i].1 == scratch);
                    }
                }
            }
        }
        vstd::set_lib::lemma_len_subset(dsts.to_set(), srcs.to_set().remove(scratch));
    }
}

/// Does some move of `p` read `l`?
fn reads(p: &Vec<Move>, l: Allocation) -> (r: bool)
    ensures
        r == is_src(p@, l),
{
    let mut j: usize = 0;
    while j < p.len()
        invariant
            j <= p@.len(),
            forall|k: int| 0 <= k < j ==> (#[trigger] p@[k]).0 != l,
        decreases p@.len() - j,
    {
        if p[j].0 == l {
            assert(p@[j as int].0 == l);
            return true;
        }
        j += 1;
    }
    false
}

/// A move whose destination no move of `p` reads, if there is one.
fn find_safe(p: &Vec<Move>) -> (r: Option<usize>)
    ensures
        match r {
            Some(i) => i < p@.len() && !is_src(p@, p@[i as int].1),
            None => forall|i: int| 0 <= i < p@.len() ==> is_src(p@, #[trigger] p@[i].1),
        },
{
    let mut i: usize = 0;
    while i < p.len()
        invariant
            i <= p@.len(),
            forall|k: int| 0 <= k < i ==> is_src(p@, #[trigger] p@[k].1),
        decreases p@.len() - i,
    {
        if !reads(p, p[i].1) {
            return Some(i);
        }
        i += 1;
    }
    None
}

/// Orders a parallel move into single moves. Running the result one move
/// after another, from any state, leaves every location but `scratch`
/// holding what the parallel move gives it. Moves of a location to itself
/// are dropped; a cycle is broken by saving one value in `scratch`.
pub fn resolve(moves: &Vec<Move>, scratch: Allocation) -> (r: Vec<Move>)
    requires
        distinct_dsts(moves@),
        !is_src(moves@, scratch),
        !is_dst(moves@, scratch),
    ensures
        forall|s: spec_fn(Allocation) -> int, l: Allocation|
            l != scratch ==> seq_value(s, r@, r@.len() as int, l) == #[trigger] par_value(s, moves@, l),
        forall|k: int| 0 <= k < r@.len() ==> (#[trigger] r@[k]).0 != r@[k].1,
{
    let mut pending: Vec<Move> = Vec::new();
    let ghost mut idx: Seq<int> = Seq::empty();
    let mut i: usize = 0;
    while i < moves.len()
        invariant
            i <= moves@.len(),
            idx.len() == pending@.len(),
            forall|a: int, b: int| 0 <= a < b < idx.len() ==> idx[a] < idx[b],
            forall|k: int| 0 <= k < idx.len() ==> 0 <= #[trigger] idx[k] < i && pending@[k] == moves@[idx[k]],
            forall|k: int| 0 <= k < pending@.len() ==> (#[trigger] pending@[k]).0 != pending@[k].1,
            forall|j: int| 0 <= j < i && (#[trigger] moves@[j]).0 != moves@[j].1 ==> exists|k: int|
                0 <= k < idx.len() && idx[k] == j,
        decreases moves@.len() - i,
    {
        let m = moves[i];
        let ghost idx0 = idx;
        if m.0 != m.1 {
            pending.push(m);
            proof {
                idx = idx.push(i as int);
            }
        }
        proof {
            assert forall|j: int| 0 <= j < i + 1 && (#[trigger] moves@[j]).0 != moves@[j].1 implies exists|k: int|
                0 <= k < idx.len() && idx[k] == j by {
                if j == i {
                    assert(idx[idx.len() - 1] == j);
                } else {
                    let k = choose|k: int| 0 <= k < idx0.len() && idx0[k] == j;
                    assert(idx[k] == j);
                }
            }
        }
        i += 1;
    }
    proof {
        assert(distinct_dsts(pending@)) by {
            assert forall|a: int, b: int| 0 <= a < b < pending@.len() implies pending@[a].1 != pending@[b].1 by {
                assert(idx[a] < idx[b]);
            }
        }
        assert(!is_dst(pending@, scratch)) by {
            if is_dst(pending@, scratch) {
                let k = choose|k: int| 0 <= k < pending@.len() && (#[trigger] pending@[k]).1 == scratch;
                assert(moves@[idx[k]].1 == scratch);
            }
        }
        assert(!is_src(pending@, scratch)) by {
            if is_src(pending@, scratch) {
                let k = choose|k: int| 0 <= k < pending@.len() && (#[trigger] pending@[k]).0 == scratch;
                assert(moves@[idx[k]].0 == scratch);
            }
        }
        assert forall|s: spec_fn(Allocation) -> int, l: Allocation| l != scratch implies par_value(
            after(s, Seq::<Move>::empty()), pending@, l) == #[trigger] par_value(s, moves@, l) by {
            assert(after(s, Seq::<Move>::empty()) =~= s);
            if is_dst(moves@, l) {
                let j = choose|j: int| 0 <= j < moves@.len() && (#[trigger] moves@[j]).1 == l;
                lemma_par_value_at(s, moves@, j);
                if moves@[j].0 != moves@[j].1 {
                    let k = choose|k: int| 0 <= k < idx.len() && idx[k] == j;
                    lemma_par_value_at(s, pending@, k);
                } else {
                    assert(!is_dst(pending@, l)) by {
                        if is_dst(pending@, l) {
                            let k = choose|k: int| 0 <= k < pending@.len() && (#[trigger] pending@[k]).1 == l;
                            assert(moves@[idx[k]].1 == l);
                            assert(idx[k] == j) by {
                                if idx[k] < j {
                                    assert(moves@[idx[k]].1 != moves@[j].1);
                                } else if idx[k] > j {
                                    assert(moves@[j].1 != moves@[idx[k]].1);
                                }
                            }
                        }
                    }
                }
            } else {
                assert(!is_dst(pending@, l)) by {
                    if is_dst(pending@, l) {
                        let k = choose|k: int| 0 <= k < pending@.len() && (#[trigger] pending@[k]).1 == l;
                        assert(moves@[idx[k]].1 == l);
                    }
                }
            }
        }
    }
    let mut out: Vec<Move> = Vec::new();
    while pending.len() > 0
        invariant
            distinct_dsts(pending@),
            !is_dst(pending@, scratch),
            forall|k: int| 0 <= k < pending@.len() ==> (#[trigger] pending@[k]).0 != pending@[k].1,
            forall|k: int| 0 <= k < out@.len() ==> (#[trigger] out@[k]).0 != out@[k].1,
            forall|s: spec_fn(Allocation) -> int, l: Allocation|
                l != scratch ==> par_value(after(s, out@), pending@, l) == #[trigger] par_value(s, moves@, l),
        decreases pending@.len(), if is_src(pending@, scratch) { 0int } else { 1int },
    {
        match find_safe(&pending) {
            Some(i) => {
                let m = pending[i];
                let ghost p0 = pending@;
                let ghost o0 = out@;
                out.push(m);
                pending.remove(i);
                proof {
                    assert forall|s: spec_fn(Allocation) -> int, l: Allocation| l != scratch implies par_value(
                        after(s, out@), pending@, l) == #[trigger] par_value(s, moves@, l) by {
                        let t = after(s, o0);
                        assert(after(s, out@) =~= (|x: Allocation| if x == m.1 { t(m.0) } else { t(x) })) by {
                            assert forall|x: Allocation| #[trigger] after(s, out@)(x) == (if x == m.1 { t(m.0) } else { t(x) }) by {
                                assert(out@[out@.len() - 1] == m);
                                assert(out@.subrange(0, o0.len() as int) =~= o0);
                                lemma_seq_value_prefix(s, out@, o0, o0.len() as int, x);
                                lemma_seq_value_prefix(s, out@, o0, o0.len() as int, m.0);
                            }
                        }
                        lemma_safe_step(t, p0, i as int, l);
                    }
                    assert(distinct_dsts(pending@)) by {
                        assert forall|a: int, b: int| 0 <= a < b < pending@.len() implies pending@[a].1 != pending@[b].1 by {
                            let a2 = if a < i { a } else { a + 1 };
                            let b2 = if b < i { b } else { b + 1 };
                            assert(pending@[a] == p0[a2]);
                            assert(pending@[b] == p0[b2]);
                        }
                    }
                    assert(!is_dst(pending@, scratch)) by {
                        if is_dst(pending@, scratch) {
                            let k = choose|k: int| 0 <= k < pending@.len() && (#[trigger] pending@[k]).1 == scratch;
                            let k2 = if k < i { k } else { k + 1 };
                            assert(pending@[k] == p0[k2]);
                        }
                    }
                    assert forall|k: int| 0 <= k < pending@.len() implies (#[trigger] pending@[k]).0 != pending@[k].1 by {
                        let k2 = if k < i { k } else { k + 1 };
                        assert(pending@[k] == p0[k2]);
                    }
                }
            },
            None => {
                proof {
                    lemma_all_blocked(pending@, scratch);
                }
                let d = pending[0].0;
                let ghost p0 = pending@;
                let ghost o0 = out@;
                assert(d != scratch);
                out.push((d, scratch));
                let mut k: usize = 0;
                while k < pending.len()
                    invariant
                        pending@.len() == p0.len(),
                        k <= p0.len(),
                        forall|j: int| 0 <= j < k ==> pending@[j] == redirect(p0, d, scratch)[j],
                        forall|j: int| k <= j < p0.len() ==> pending@[j] == p0[j],
                    decreases p0.len() - k,
                {
                    let m = pending[k];
                    if m.0 == d {
                        pending.set(k, (scratch, m.1));
                    }
                    k += 1;
                }
                proof {
                    assert(pending@ =~= redirect(p0, d, scratch));
                    assert forall|s: spec_fn(Allocation) -> int, l: Allocation| l != scratch implies par_value(
                        after(s, out@), pending@, l) == #[trigger] par_value(s, moves@, l) by {
                        let t = after(s, o0);
                        assert(after(s, out@) =~= (|x: Allocation| if x == scratch { t(d) } else { t(x) })) by {
                            assert forall|x: Allocation| #[trigger] after(s, out@)(x) == (if x == scratch { t(d) } else { t(x) }) by {
                                assert(out@[out@.len() - 1] == (d, scratch));
                                assert(out@.subrange(0, o0.len() as int) =~= o0);
                                lemma_seq_value_prefix(s, out@, o0, o0.len() as int, x);
                                lemma_seq_value_prefix(s, out@, o0, o0.len() as int, d);
                            }
                        }
                        lemma_break_step(t, p0, d, scratch, l);
                    }
                    assert(pending@[0].0 == scratch);
                    assert(is_src(pending@, scratch));
                    assert(!is_dst(pending@, scratch)) by {
                        if is_dst(pending@, scratch) {
                            let j = choose|j: int| 0 <= j < pending@.len() && (#[trigger] pending@[j]).1 == scratch;
                            assert(p0[j].1 == scratch);
                        }
                    }
                    assert forall|j: int| 0 <= j < pending@.len() implies (#[trigger] pending@[j]).0 != pending@[j].1 by {
                        assert(p0[j].1 != scratch);
                    }
                    assert(distinct_dsts(pending@)) by {
                        assert forall|a: int, b: int| 0 <= a < b < pending@.len() implies pending@[a].1 != pending@[b].1 by {
                            assert(p0[a].1 != p0[b].1);
                        }
                    }
                }
            },
        }
    }
    proof {
        assert forall|s: spec_fn(Allocation) -> int, l: Allocation|
            l != scratch implies seq_value(s, out@, out@.len() as int, l) == #[trigger] par_value(s, moves@, l) by {
            assert(!is_dst(pending@, l));
        }
    }
    out
}

/// Running a sequence whose first `k` moves are `pre`: the value of `x`
/// after those `k` moves is the value after `pre`.
proof fn lemma_seq_value_prefix(s: spec_fn(Allocation) -> int, full: Seq<Move>, pre: Seq<Move>, k: int, x: Allocation)
    requires
        0 <= k <= full.len(),
        k == pre.len(),
        full.subrange(0, k) == pre,
    ensures
        seq_value(s, full, k, x) == seq_value(s, pre, k, x),
    decreases k,
{
    if k > 0 {
        assert(full.subrange(0, k - 1) == pre.subrange(0, k - 1));
        assert(full[k - 1] == pre[k - 1]);
        lemma_seq_value_prefix_gen(s, full, pre, k - 1, x);
        lemma_seq_value_prefix_gen(s, full, pre, k - 1, full[k - 1].0);
    }
}

proof fn lemma_seq_value_prefix_gen(s: spec_fn(Allocation) -> int, full: Seq<Move>, pre: Seq<Move>, k: int, x: Allocation)
    requires
        0 <= k <= full.len(),
        k <= pre.len(),
        forall|j: int| 0 <= j < k ==> full[j] == pre[j],
    ensures
        seq_value(s, full, k, x) == seq_value(s, pre, k, x),
    decreases k,
{
    if k > 0 {
        lemma_seq_value_prefix_gen(s, full, pre, k - 1, x);
        lemma_seq_value_prefix_gen(s, full, pre, k - 1, full[k - 1].0);
    }
}

} // verus!
