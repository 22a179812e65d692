//! Sorted lists of disjoint program-point ranges, as a bundle holds them.

use vstd::prelude::*;

verus! {

/// A half-open range `[from, to)` of program-point indices.
#[derive(Clone, Copy, Debug, PartialEq, Eq, Structural)]
pub struct Span {
    pub from: u64,
    pub to: u64,
}

/// Non-empty spans, in increasing order, pairwise disjoint.
pub open spec fn spans_ok(s: Seq<Span>) -> bool {
    &&& forall|k: int| 0 <= k < s.len() ==> (#[trigger] s[k]).from < s[k].to
    &&& forall|i: int, j: int| 0 <= i < j < s.len() ==> s[i].to <= s[j].from
}

/// Some span of `s` holds point `p`.
pub open spec fn covers(s: Seq<Span>, p: int) -> bool {
    exists|k: int| 0 <= k < s.len() && (#[trigger] s[k]).from <= p < s[k].to
}

/// Do two bundles' spans share a program point?
pub fn spans_overlap(a: &Vec<Span>, b: &Vec<Span>) -> (r: bool)
    requires
        spans_ok(a@),
        spans_ok(b@),
    ensures
        r == exists|p: int| covers(a@, p) && covers(b@, p),
{
    let mut i: usize = 0;
    let mut j: usize = 0;
    while i < a.len() && j < b.len()
        invariant
            spans_ok(a@),
            spans_ok(b@),
            i <= a@.len(),
            j <= b@.len(),
            forall|k: int, m: int| 0 <= k < i && 0 <= m < b@.len() ==> (#[trigger] a@[k]).to <= (#[trigger] b@[m]).from
                || b@[m].to <= a@[k].from,
            forall|k: int, m: int| 0 <= k < a@.len() && 0 <= m < j ==> (#[trigger] a@[k]).to <= (#[trigger] b@[m]).from
                || b@[m].to <= a@[k].from,
        decreases a@.len() + b@.len() - i - j,
    {
        let x = a[i];
        let y = b[j];
        if x.to <= y.from {
            assert forall|m: int| 0 <= m < b@.len() implies a@[i as int].to <= (#[trigger] b@[m]).from
                || b@[m].to <= a@[i as int].from by {
                if m > j {
                    assert(b@[j as int].to <= b@[m].from);
                }
            }
            i += 1;
        } else if y.to <= x.from {
            assert forall|k: int| 0 <= k < a@.len() implies (#[trigger] a@[k]).to <= b@[j as int].from
                || b@[j as int].to <= a@[k].from by {
                if k > i {
                    assert(a@[i as int].to <= a@[k].from);
                }
            }
            j += 1;
        } else {
            let p = if x.from > y.from { x.from } else { y.from };
            assert(covers(a@, p as int) && covers(b@, p as int)) by {
                assert(a@[i as int].from <= p < a@[i as int].to);
                assert(b@[j as int].from <= p < b@[j as int].to);
            }
            return true;
        }
    }
    proof {
        assert forall|p: int| !(covers(a@, p) && covers(b@, p)) by {
            if covers(a@, p) && covers(b@, p) {
                let k = choose|k: int| 0 <= k < a@.len() && (#[trigger] a@[k]).from <= p < a@[k].to;
                let m = choose|m: int| 0 <= m < b@.len() && (#[trigger] b@[m]).from <= p < b@[m].to;
                assert(a@[k].to <= b@[m].from || b@[m].to <= a@[k].from);
            }
        }
    }
    false
}

/// The spans of two bundles with no point in common, as one sorted list.
pub fn merge_spans(a: &Vec<Span>, b: &Vec<Span>) -> (r: Vec<Span>)
    requires
        spans_ok(a@),
        spans_ok(b@),
        !exists|p: int| covers(a@, p) && covers(b@, p),
    ensures
        spans_ok(r@),
        forall|p: int| covers(r@, p) == (covers(a@, p) || covers(b@, p)),
{
    let mut r: Vec<Span> = Vec::new();
    let mut i: usize = 0;
    let mut j: usize = 0;
    while i < a.len() || j < b.len()
        invariant
            spans_ok(a@),
            spans_ok(b@),
            !exists|p: int| covers(a@, p) && covers(b@, p),
            i <= a@.len(),
            j <= b@.len(),
            spans_ok(r@),
            forall|p: int| covers(r@, p) == (covers(a@.subrange(0, i as int), p) || covers(b@.subrange(0, j as int), p)),
            r@.len() > 0 && i < a@.len() ==> r@.last().to <= a@[i as int].from,
            r@.len() > 0 && j < b@.len() ==> r@.last().to <= b@[j as int].from,
        decreases a@.len() + b@.len() - i - j,
    {
        let ghost r0 = r@;
        let take_a = if i < a.len() && j < b.len() { a[i].from < b[j].from } else { i < a.len() };
        let s = if take_a { a[i] } else { b[j] };
        proof {
            if take_a && j < b@.len() {
                let x = a@[i as int];
                let y = b@[j as int];
                if y.from < x.to {
                    assert(covers(a@, y.from as int) && covers(b@, y.from as int));
                }
            }
            if !take_a && i < a@.len() {
                let x = a@[i as int];
                let y = b@[j as int];
                if x.from < y.to {
                    assert(covers(a@, x.from as int) && covers(b@, x.from as int));
                }
            }
        }
        r.push(s);
        proof {
            assert(spans_ok(r@)) by {
                assert forall|u: int, v: int| 0 <= u < v < r@.len() implies r@[u].to <= r@[v].from by {
                    if v == r@.len() - 1 && u < v {
                        if u < r0.len() - 1 {
                            assert(r0[u].to <= r0[r0.len() - 1].from);
                        }
                    }
                }
            }
        }
        if take_a {
            proof {
                assert forall|p: int| covers(r@, p) == (covers(a@.subrange(0, i + 1), p) || covers(b@.subrange(0, j as int), p)) by {
                    lemma_covers_push(r0, s, p);
                    lemma_covers_push(a@.subrange(0, i as int), s, p);
                    assert(a@.subrange(0, i as int).push(s) =~= a@.subrange(0, i + 1));
                }
                if i + 1 < a@.len() {
                    assert(a@[i as int].to <= a@[i + 1].from);
                }
            }
            i += 1;
        } else {
            proof {
                assert forall|p: int| covers(r@, p) == (covers(a@.subrange(0, i as int), p) || covers(b@.subrange(0, j + 1), p)) by {
                    lemma_covers_push(r0, s, p);
                    lemma_covers_push(b@.subrange(0, j as int), s, p);
                    assert(b@.subrange(0, j as int).push(s) =~= b@.subrange(0, j + 1));
                }
                if j + 1 < b@.len() {
                    assert(b@[j as int].to <= b@[j + 1].from);
                }
            }
            j += 1;
        }
    }
    proof {
        assert(a@.subrange(0, a@.len() as int) =~= a@);
        assert(b@.subrange(0, b@.len() as int) =~= b@);
    }
    r
}

proof fn lemma_covers_push(s: Seq<Span>, x: Span, p: int)
    ensures
        covers(s.push(x), p) == (covers(s, p) || (x.from <= p < x.to)),
{
    let t = s.push(x);
    if covers(s, p) {
        let k = choose|k: int| 0 <= k < s.len() && (#[trigger] s[k]).from <= p < s[k].to;
        assert(t[k] == s[k]);
    }
    if x.from <= p < x.to {
        assert(t[s.len() as int] == x);
    }
    if covers(t, p) {
        let k = choose|k: int| 0 <= k < t.len() && (#[trigger] t[k]).from <= p < t[k].to;
        if k < s.len() {
            assert(t[k] == s[k]);
        }
    }
}

} // verus!
