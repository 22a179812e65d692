//! Sets of integer indices for liveness analysis and other purposes.

use crate::bitvec::{index_set, BitVec};
use crate::list::{sorted, strictly_sorted, IdxList};
use vstd::prelude::*;

verus! {

/// If any index is at or above this threshold, the set is kept as a list.
pub const SPARSE_THRESHOLD: usize = 512;

/// An unsorted list at least this long is sorted before it is probed
/// (shorter ones are searched linearly).
pub const SORT_THRESHOLD: usize = 16;

/// The values held in a list, as a set.
pub open spec fn list_set(s: Seq<u32>) -> Set<nat> {
    Set::new(|k: nat| exists|a: int| 0 <= a < s.len() && s[a] as nat == k)
}

pub proof fn lemma_list_set_push(s: Seq<u32>, x: u32)
    ensures
        list_set(s.push(x)) == list_set(s).insert(x as nat),
{
    let t = s.push(x);
    assert forall|k: nat| list_set(s).insert(x as nat).contains(k) implies #[trigger] list_set(
        t,
    ).contains(k) by {
        if k == x as nat {
            assert(t[s.len() as int] == x);
        } else {
            let a = choose|a: int| 0 <= a < s.len() && s[a] as nat == k;
            assert(t[a] == s[a]);
        }
    }
    assert forall|k: nat| #[trigger] list_set(t).contains(k) implies list_set(s).insert(
        x as nat,
    ).contains(k) by {
        let a = choose|a: int| 0 <= a < t.len() && t[a] as nat == k;
        if a < s.len() {
            assert(s[a] == t[a]);
        }
    }
    assert(list_set(t) =~= list_set(s).insert(x as nat));
}

pub proof fn lemma_list_set_contains(s: Seq<u32>, x: u32)
    ensures
        list_set(s).contains(x as nat) == s.contains(x),
{
    if s.contains(x) {
        let a = choose|a: int| 0 <= a < s.len() && s[a] == x;
        assert(list_set(s).contains(x as nat));
    }
}

pub proof fn lemma_list_set_multiset(s: Seq<u32>, t: Seq<u32>)
    requires
        s.to_multiset() == t.to_multiset(),
    ensures
        list_set(s) == list_set(t),
{
    broadcast use vstd::seq_lib::to_multiset_contains;

    assert forall|k: nat| #[trigger] list_set(s).contains(k) implies list_set(t).contains(k) by {
        let a = choose|a: int| 0 <= a < s.len() && s[a] as nat == k;
        assert(s.contains(s[a]));
        assert(s.to_multiset().count(s[a]) > 0);
        assert(t.contains(s[a]));
        lemma_list_set_contains(t, s[a]);
    }
    assert forall|k: nat| #[trigger] list_set(t).contains(k) implies list_set(s).contains(k) by {
        let a = choose|a: int| 0 <= a < t.len() && t[a] as nat == k;
        assert(t.contains(t[a]));
        assert(t.to_multiset().count(t[a]) > 0);
        assert(s.contains(t[a]));
        lemma_list_set_contains(s, t[a]);
    }
    assert(list_set(s) =~= list_set(t));
}

/// The first `k` items of `s` with each run of equal adjacent items
/// collapsed to one item.
pub open spec fn collapse_runs(s: Seq<u32>, k: int) -> Seq<u32>
    decreases k,
{
    if k <= 0 {
        Seq::empty()
    } else if k == 1 || s[k - 1] != s[k - 2] {
        collapse_runs(s, k - 1).push(s[k - 1])
    } else {
        collapse_runs(s, k - 1)
    }
}

/// Collapses each run of equal adjacent items to one item, keeping the
/// order: on a sorted list, the result is strictly sorted and holds the
/// same values.
pub(crate) fn remove_dups(list: &mut IdxList)
    ensures
        final(list)@ == collapse_runs(old(list)@, old(list)@.len() as int),
        sorted(old(list)@) ==> strictly_sorted(final(list)@),
        list_set(final(list)@) == list_set(old(list)@),
{
    let ghost orig = list@;
    let n = list.len();
    let mut out_idx: usize = 0;
    let mut last: Option<u32> = None;
    let mut i: usize = 0;
    while i < n
        invariant
            n == orig.len(),
            list@.len() == n,
            out_idx <= i <= n,
            forall|k: int| i <= k < n ==> list@[k] == orig[k],
            sorted(orig) ==> strictly_sorted(list@.subrange(0, out_idx as int)),
            list_set(list@.subrange(0, out_idx as int)) == list_set(orig.subrange(0, i as int)),
            list@.subrange(0, out_idx as int) == collapse_runs(orig, i as int),
            i == 0 ==> last is None && out_idx == 0,
            i > 0 ==> out_idx > 0 && last == Some(orig[i - 1]) && list@[out_idx - 1] == orig[i
                - 1],
        decreases n - i,
    {
        let x = list.get(i);
        let ghost prefix = list@.subrange(0, out_idx as int);
        let ghost before = list@;
        proof {
            lemma_list_set_push(orig.subrange(0, i as int), x);
            assert(orig.subrange(0, i as int).push(x) =~= orig.subrange(0, i + 1));
        }
        if Some(x) != last {
            if out_idx < i {
                list.set(out_idx, x);
            }
            proof {
                assert(list@.subrange(0, out_idx + 1) =~= prefix.push(x));
                lemma_list_set_push(prefix, x);
                assert(x == orig[i as int]);
                if i > 0 {
                    assert(x != orig[i - 1]);
                }
                if i > 0 && sorted(orig) {
                    assert(orig[i - 1] <= orig[i as int]);
                    assert(prefix[out_idx - 1] < x);
                    assert forall|a: int| 0 <= a < out_idx implies prefix[a] < x by {
                        if a < out_idx - 1 {
                            assert(prefix[a] < prefix[out_idx - 1]);
                        }
                    }
                }
                assert(sorted(orig) ==> strictly_sorted(prefix.push(x)));
            }
            out_idx += 1;
        } else {
            proof {
                assert(x == orig[i as int] && x == orig[i - 1]);
                assert(list_set(prefix).contains(x as nat)) by {
                    assert(prefix[out_idx - 1] == x);
                }
                assert(list_set(prefix).insert(x as nat) =~= list_set(prefix));
            }
        }
        last = Some(x);
        i += 1;
    }
    let ghost kept = list@.subrange(0, out_idx as int);
    list.truncate(out_idx);
    proof {
        assert(list@ =~= kept);
        assert(orig.subrange(0, n as int) =~= orig);
    }
}

/// The values of a small bit vector as a list, in increasing order.
fn small_to_list(bv: &BitVec) -> (r: IdxList)
    requires
        bv.limit() <= SPARSE_THRESHOLD,
    ensures
        list_set(r@) == bv@,
        strictly_sorted(r@),
{
    let elems = bv.elements();
    proof {
        bv.lemma_limit();
    }
    let mut r = IdxList::new();
    let mut i: usize = 0;
    while i < elems.len()
        invariant
            i <= elems@.len(),
            r@.len() == i,
            forall|a: int| 0 <= a < i ==> r@[a] as nat == elems@[a] as nat,
            forall|a: int, b: int| 0 <= a < b < elems@.len() ==> elems@[a] < elems@[b],
            index_set(elems@) == bv@,
            forall|k: nat| #[trigger] bv@.contains(k) ==> k < SPARSE_THRESHOLD,
        decreases elems@.len() - i,
    {
        let e = elems[i];
        assert(index_set(elems@).contains(e as nat));
        r.push(e as u32);
        i += 1;
    }
    assert(list_set(r@) =~= index_set(elems@)) by {
        assert forall|k: nat| #[trigger] list_set(r@).contains(k) implies index_set(elems@).contains(k) by {
            let a = choose|a: int| 0 <= a < r@.len() && r@[a] as nat == k;
        }
        assert forall|k: nat| #[trigger] index_set(elems@).contains(k) implies list_set(r@).contains(k) by {
            let a = choose|a: int| 0 <= a < elems@.len() && elems@[a] as nat == k;
            assert(r@[a] as nat == k);
        }
    }
    r
}

/// Dropping every occurrence of `x` from a list drops `x` from its values.
pub proof fn lemma_list_set_filter_other(s: Seq<u32>, x: u32)
    ensures
        list_set(s.filter(|y: u32| y != x)) == list_set(s).remove(x as nat),
{
    let pred = |y: u32| y != x;
    let t = s.filter(pred);
    broadcast use vstd::seq_lib::group_filter_ensures;
    assert forall|k: nat| #[trigger] list_set(t).contains(k) implies list_set(s).remove(x as nat).contains(k) by {
        let a = choose|a: int| 0 <= a < t.len() && t[a] as nat == k;
        assert(t.contains(t[a]));
        s.lemma_filter_contains_rev(pred, t[a]);
        assert(pred(t[a]));
        let b = choose|b: int| 0 <= b < s.len() && s[b] == t[a];
    }
    assert forall|k: nat| #[trigger] list_set(s).remove(x as nat).contains(k) implies list_set(t).contains(k) by {
        let a = choose|a: int| 0 <= a < s.len() && s[a] as nat == k;
        assert(pred(s[a]));
        s.lemma_filter_contains(pred, a);
        assert(t.contains(s[a]));
        let b = choose|b: int| 0 <= b < t.len() && t[b] == s[a];
    }
    assert(list_set(t) =~= list_set(s).remove(x as nat));
}

/// Is `x` among the items of the list?
fn linear_search(list: &IdxList, x: u32) -> (r: bool)
    ensures
        r == list@.contains(x),
{
    let n = list.len();
    let mut i: usize = 0;
    while i < n
        invariant
            n == list@.len(),
            i <= n,
            forall|a: int| 0 <= a < i ==> list@[a] != x,
        decreases n - i,
    {
        if list.get(i) == x {
            assert(list@[i as int] == x);
            return true;
        }
        i += 1;
    }
    false
}

/// Extending a prefix of `s` by one item adds that item's value.
pub proof fn lemma_index_set_prefix(s: Seq<usize>, j: int)
    requires
        0 <= j < s.len(),
    ensures
        index_set(s.subrange(0, j + 1)) == index_set(s.subrange(0, j)).insert(s[j] as nat),
{
    let s0 = s.subrange(0, j);
    let s1 = s.subrange(0, j + 1);
    assert forall|k: nat| #[trigger] index_set(s1).contains(k) implies index_set(s0).insert(
        s[j] as nat,
    ).contains(k) by {
        let a = choose|a: int| 0 <= a < s1.len() && s1[a] as nat == k;
        if a < j {
            assert(s0[a] == s1[a]);
        }
    }
    assert forall|k: nat| #[trigger] index_set(s0).insert(s[j] as nat).contains(k) implies index_set(
        s1,
    ).contains(k) by {
        if k == s[j] as nat {
            assert(s1[j] == s[j]);
        } else {
            let a = choose|a: int| 0 <= a < s0.len() && s0[a] as nat == k;
            assert(s1[a] == s0[a]);
        }
    }
    assert(index_set(s1) =~= index_set(s0).insert(s[j] as nat));
}

/// The union of an arbitrary list and a small bit vector, as an unsorted
/// list: the list's items followed by the vector's values. Also says
/// whether the list held a value the vector lacks.
fn union_list_small(list: &IdxList, bv: &BitVec) -> (r: (IdxList, bool))
    requires
        bv.limit() <= SPARSE_THRESHOLD,
    ensures
        list_set(r.0@) == list_set(list@).union(bv@),
        r.1 == !list_set(list@).subset_of(bv@),
{
    let mut out = list.copy();
    let n = list.len();
    let mut changed = false;
    let mut i: usize = 0;
    while i < n
        invariant
            n == list@.len(),
            i <= n,
            changed == exists|k: int| 0 <= k < i && !bv@.contains(#[trigger] list@[k] as nat),
        decreases n - i,
    {
        if !bv.get(list.get(i) as usize) {
            changed = true;
        }
        i += 1;
    }
    assert(changed == !list_set(list@).subset_of(bv@)) by {
        if changed {
            let k = choose|k: int| 0 <= k < n && !bv@.contains(#[trigger] list@[k] as nat);
            assert(list_set(list@).contains(list@[k] as nat));
        } else {
            assert forall|v: nat| #[trigger] list_set(list@).contains(v) implies bv@.contains(v) by {
                let k = choose|k: int| 0 <= k < n && list@[k] as nat == v;
            }
        }
    }
    let elems = bv.elements();
    proof {
        bv.lemma_limit();
    }
    let m = elems.len();
    let mut j: usize = 0;
    while j < m
        invariant
            m == elems@.len(),
            j <= m,
            index_set(elems@) == bv@,
            forall|k: nat| #[trigger] bv@.contains(k) ==> k < SPARSE_THRESHOLD,
            list_set(out@) == list_set(list@).union(index_set(elems@.subrange(0, j as int))),
        decreases m - j,
    {
        let e = elems[j];
        assert(index_set(elems@).contains(e as nat));
        proof {
            lemma_list_set_push(out@, e as u32);
            lemma_index_set_prefix(elems@, j as int);
        }
        out.push(e as u32);
        j += 1;
    }
    assert(elems@.subrange(0, m as int) =~= elems@);
    (out, changed)
}

/// The union of a strictly sorted list and a small bit vector, as an
/// unsorted list: the list's items followed by the vector's values that it
/// lacks. Also says whether any value was added.
fn union_sorted_small(list: IdxList, bv: &BitVec) -> (r: (IdxList, bool))
    requires
        strictly_sorted(list@),
        bv.limit() <= SPARSE_THRESHOLD,
    ensures
        list_set(r.0@) == list_set(list@).union(bv@),
        r.1 == !bv@.subset_of(list_set(list@)),
{
    let mut list = list;
    let ghost orig = list@;
    let elems = bv.elements();
    proof {
        bv.lemma_limit();
    }
    let mut extra = IdxList::new();
    let mut changed = false;
    let m = elems.len();
    let mut j: usize = 0;
    while j < m
        invariant
            m == elems@.len(),
            j <= m,
            list@ == orig,
            strictly_sorted(orig),
            index_set(elems@) == bv@,
            forall|k: nat| #[trigger] bv@.contains(k) ==> k < SPARSE_THRESHOLD,
            list_set(orig).union(list_set(extra@)) == list_set(orig).union(
                index_set(elems@.subrange(0, j as int)),
            ),
            changed == !index_set(elems@.subrange(0, j as int)).subset_of(list_set(orig)),
        decreases m - j,
    {
        let e = elems[j];
        assert(index_set(elems@).contains(e as nat));
        let ghost s0 = elems@.subrange(0, j as int);
        let ghost s1 = elems@.subrange(0, j + 1);
        proof {
            lemma_index_set_prefix(elems@, j as int);
            lemma_list_set_contains(orig, e as u32);
            lemma_list_set_push(extra@, e as u32);
        }
        match list.binary_search(e as u32) {
            Ok(_) => {
                assert(list_set(orig).union(index_set(s1)) =~= list_set(orig).union(index_set(s0)));
            },
            Err(_) => {
                changed = true;
                let ghost x0 = extra@;
                extra.push(e as u32);
                assert(list_set(extra@) == list_set(x0).insert(e as nat));
                assert(list_set(orig).union(list_set(x0)) == list_set(orig).union(index_set(s0)));
                assert(list_set(orig).union(list_set(extra@)) =~= list_set(orig).union(list_set(x0)).insert(e as nat));
                assert(list_set(orig).union(index_set(s1)) =~= list_set(orig).union(index_set(s0)).insert(e as nat));
            },
        }
        j += 1;
    }
    assert(elems@.subrange(0, m as int) =~= elems@);
    let k = extra.len();
    let mut t: usize = 0;
    while t < k
        invariant
            k == extra@.len(),
            t <= k,
            list_set(list@) == list_set(orig).union(list_set(extra@.subrange(0, t as int))),
        decreases k - t,
    {
        let e = extra.get(t);
        proof {
            lemma_list_set_push(list@, e);
            lemma_list_set_push(extra@.subrange(0, t as int), e);
            assert(extra@.subrange(0, t as int).push(e) =~= extra@.subrange(0, t + 1));
        }
        list.push(e);
        assert(list_set(list@) =~= list_set(orig).union(list_set(extra@.subrange(0, t + 1))));
        t += 1;
    }
    assert(extra@.subrange(0, k as int) =~= extra@);
    assert(list_set(list@) =~= list_set(orig).union(bv@));
    (list, changed)
}

/// The union of two strictly sorted lists, strictly sorted. Also says
/// whether the second held a value that the first lacks.
fn merge_sorted(l1: &IdxList, l2: &IdxList) -> (r: (IdxList, bool))
    requires
        strictly_sorted(l1@),
        strictly_sorted(l2@),
    ensures
        strictly_sorted(r.0@),
        list_set(r.0@) == list_set(l1@).union(list_set(l2@)),
        r.1 == !list_set(l2@).subset_of(list_set(l1@)),
{
    let n1 = l1.len();
    let n2 = l2.len();
    let mut merged = IdxList::new();
    let mut changed = false;
    let mut i: usize = 0;
    let mut j: usize = 0;
    proof {
        assert(list_set(merged@) =~= list_set(l1@.subrange(0, 0)).union(list_set(l2@.subrange(0, 0))));
    }
    while i < n1 || j < n2
        invariant
            n1 == l1@.len(),
            n2 == l2@.len(),
            i <= n1,
            j <= n2,
            strictly_sorted(l1@),
            strictly_sorted(l2@),
            strictly_sorted(merged@),
            list_set(merged@) == list_set(l1@.subrange(0, i as int)).union(
                list_set(l2@.subrange(0, j as int)),
            ),
            forall|k: int| 0 <= k < merged@.len() && i < n1 ==> merged@[k] < l1@[i as int],
            forall|k: int| 0 <= k < merged@.len() && j < n2 ==> merged@[k] < l2@[j as int],
            forall|k: int| 0 <= k < i && j < n2 ==> l1@[k] < l2@[j as int],
            forall|k: int| 0 <= k < j && i < n1 ==> l2@[k] < l1@[i as int],
            changed == !list_set(l2@.subrange(0, j as int)).subset_of(list_set(l1@)),
        decreases n1 + n2 - i - j,
    {
        let ghost m0 = merged@;
        let ghost a0 = l1@.subrange(0, i as int);
        let ghost b0 = l2@.subrange(0, j as int);
        if i < n1 && j < n2 && l1.get(i) == l2.get(j) {
            let x = l1.get(i);
            merged.push(x);
            proof {
                lemma_list_set_push(m0, x);
                lemma_list_set_push(a0, x);
                lemma_list_set_push(b0, x);
                assert(a0.push(x) =~= l1@.subrange(0, i + 1));
                assert(b0.push(x) =~= l2@.subrange(0, j + 1));
                lemma_list_set_contains(l1@, x);
                assert(list_set(m0).insert(x as nat) =~= list_set(a0).insert(x as nat).union(
                    list_set(b0).insert(x as nat)));
            }
            i += 1;
            j += 1;
        } else if i < n1 && (j >= n2 || l1.get(i) < l2.get(j)) {
            let x = l1.get(i);
            merged.push(x);
            proof {
                lemma_list_set_push(m0, x);
                lemma_list_set_push(a0, x);
                assert(a0.push(x) =~= l1@.subrange(0, i + 1));
                assert(list_set(m0).insert(x as nat) =~= list_set(a0).insert(x as nat).union(
                    list_set(b0)));
            }
            i += 1;
        } else {
            let y = l2.get(j);
            merged.push(y);
            proof {
                lemma_list_set_push(m0, y);
                lemma_list_set_push(b0, y);
                assert(b0.push(y) =~= l2@.subrange(0, j + 1));
                assert(list_set(m0).insert(y as nat) =~= list_set(a0).union(
                    list_set(b0).insert(y as nat)));
                assert(!l1@.contains(y)) by {
                    assert forall|k: int| 0 <= k < n1 implies l1@[k] != y by {
                        if k >= i {
                            assert(l1@[k] >= l1@[i as int]);
                        }
                    }
                }
                lemma_list_set_contains(l1@, y);
                assert(list_set(b0).insert(y as nat).contains(y as nat));
            }
            changed = true;
            j += 1;
        }
    }
    proof {
        assert(l1@.subrange(0, n1 as int) =~= l1@);
        assert(l2@.subrange(0, n2 as int) =~= l2@);
    }
    (merged, changed)
}

/// A set of integers, kept as a dense bit vector while every value is
/// small and as a list of `u32` otherwise.
pub enum IntSet {
    /// No values.
    Empty,
    /// Every value is below `SPARSE_THRESHOLD`.
    Small(BitVec),
    /// A list in no particular order, possibly with duplicates.
    Unsorted(IdxList),
    /// A strictly increasing list.
    Sorted(IdxList),
}

impl View for IntSet {
    type V = Set<nat>;

    open spec fn view(&self) -> Set<nat> {
        match self {
            IntSet::Empty => Set::empty(),
            IntSet::Small(bv) => bv@,
            IntSet::Unsorted(l) => list_set(l@),
            IntSet::Sorted(l) => list_set(l@),
        }
    }
}

impl IntSet {
    /// The representation invariant.
    pub open spec fn wf(&self) -> bool {
        match self {
            IntSet::Small(bv) => bv.limit() <= SPARSE_THRESHOLD,
            IntSet::Sorted(l) => strictly_sorted(l@),
            _ => true,
        }
    }

    /// An empty set.
    pub fn new() -> (r: IntSet)
        ensures
            r.wf(),
            r@ == Set::<nat>::empty(),
    {
        IntSet::Empty
    }

    /// Removes every value.
    pub fn clear(&mut self)
        ensures
            final(self).wf(),
            final(self)@ == Set::<nat>::empty(),
    {
        *self = IntSet::Empty;
    }

    /// Is the set empty?
    pub fn is_empty(&self) -> (r: bool)
        ensures
            r == (self@ == Set::<nat>::empty()),
    {
        match self {
            IntSet::Empty => true,
            IntSet::Small(bv) => bv.is_empty(),
            IntSet::Unsorted(l) | IntSet::Sorted(l) => {
                let n = l.len();
                if n > 0 {
                    assert(list_set(l@).contains(l@[0] as nat));
                } else {
                    assert(list_set(l@) =~= Set::<nat>::empty());
                }
                n == 0
            },
        }
    }

    /// Adds a value.
    pub fn add(&mut self, val: usize)
        requires
            old(self).wf(),
            val <= u32::MAX,
        ensures
            final(self).wf(),
            final(self)@ == old(self)@.insert(val as nat),
            *old(self) is Empty ==> (val < SPARSE_THRESHOLD ==> *final(self) is Small) && (val
                >= SPARSE_THRESHOLD ==> *final(self) is Sorted),
            *old(self) is Small ==> (val < SPARSE_THRESHOLD ==> *final(self) is Small) && (val
                >= SPARSE_THRESHOLD ==> *final(self) is Unsorted),
            (*old(self) is Unsorted || *old(self) is Sorted) ==> *final(self) is Unsorted,
    {
        let x = val as u32;
        let mut cur = IntSet::Empty;
        std::mem::swap(self, &mut cur);
        let new_self = match cur {
            IntSet::Empty => {
                if val >= SPARSE_THRESHOLD {
                    let mut list = IdxList::new();
                    list.push(x);
                    proof {
                        lemma_list_set_push(Seq::empty(), x);
                        assert(Seq::<u32>::empty().push(x) =~= seq![x]);
                        assert(list_set(Seq::<u32>::empty()) =~= Set::<nat>::empty());
                    }
                    IntSet::Sorted(list)
                } else {
                    let mut bv = BitVec::new();
                    bv.set(val, true);
                    IntSet::Small(bv)
                }
            },
            IntSet::Small(mut bv) => {
                if val >= SPARSE_THRESHOLD {
                    let mut list = small_to_list(&bv);
                    proof {
                        lemma_list_set_push(list@, x);
                    }
                    list.push(x);
                    IntSet::Unsorted(list)
                } else {
                    bv.set(val, true);
                    IntSet::Small(bv)
                }
            },
            IntSet::Unsorted(mut list) => {
                proof {
                    lemma_list_set_push(list@, x);
                }
                list.push(x);
                IntSet::Unsorted(list)
            },
            IntSet::Sorted(mut list) => {
                proof {
                    lemma_list_set_push(list@, x);
                }
                list.push(x);
                IntSet::Unsorted(list)
            },
        };
        *self = new_self;
    }

    /// Sorts the list (and drops its duplicates) if it is unsorted.
    pub fn sort(&mut self)
        requires
            old(self).wf(),
        ensures
            final(self).wf(),
            final(self)@ == old(self)@,
            *old(self) is Unsorted ==> *final(self) is Sorted,
            !(*old(self) is Unsorted) ==> *final(self) == *old(self),
    {
        let mut cur = IntSet::Empty;
        std::mem::swap(self, &mut cur);
        let new_self = match cur {
            IntSet::Unsorted(mut list) => {
                let ghost before = list@;
                list.sort();
                proof {
                    lemma_list_set_multiset(before, list@);
                }
                remove_dups(&mut list);
                IntSet::Sorted(list)
            },
            x => x,
        };
        *self = new_self;
    }

    /// An unsorted list of at least `SORT_THRESHOLD` items.
    pub open spec fn is_long_unsorted(&self) -> bool {
        match self {
            IntSet::Unsorted(l) => l@.len() >= SORT_THRESHOLD,
            _ => false,
        }
    }

    /// Is `val` present? A long unsorted list is sorted first.
    pub fn contains(&mut self, val: usize) -> (r: bool)
        requires
            old(self).wf(),
            val <= u32::MAX,
        ensures
            final(self).wf(),
            final(self)@ == old(self)@,
            r == old(self)@.contains(val as nat),
            old(self).is_long_unsorted() ==> *final(self) is Sorted,
            !old(self).is_long_unsorted() ==> *final(self) == *old(self),
    {
        let long_unsorted = match self {
            IntSet::Unsorted(l) => l.len() >= SORT_THRESHOLD,
            _ => false,
        };
        if long_unsorted {
            self.sort();
        }
        let x = val as u32;
        match &*self {
            IntSet::Empty => false,
            IntSet::Small(bv) => bv.get(val),
            IntSet::Unsorted(list) => {
                proof {
                    lemma_list_set_contains(list@, x);
                }
                linear_search(list, x)
            },
            IntSet::Sorted(list) => {
                proof {
                    lemma_list_set_contains(list@, x);
                }
                match list.binary_search(x) {
                    Ok(_) => true,
                    Err(_) => false,
                }
            },
        }
    }

    /// Removes a value.
    pub fn remove(&mut self, val: usize)
        requires
            old(self).wf(),
            val <= u32::MAX,
        ensures
            final(self).wf(),
            final(self)@ == old(self)@.remove(val as nat),
    {
        let x = val as u32;
        let mut cur = IntSet::Empty;
        std::mem::swap(self, &mut cur);
        let new_self = match cur {
            IntSet::Empty => {
                assert(Set::<nat>::empty().remove(val as nat) =~= Set::<nat>::empty());
                IntSet::Empty
            },
            IntSet::Small(mut bv) => {
                bv.set(val, false);
                IntSet::Small(bv)
            },
            IntSet::Unsorted(mut list) => {
                proof {
                    lemma_list_set_filter_other(list@, x);
                }
                list.retain_other_than(x);
                IntSet::Unsorted(list)
            },
            IntSet::Sorted(mut list) => {
                proof {
                    lemma_list_set_contains(list@, x);
                }
                match list.binary_search(x) {
                    Ok(idx) => {
                        let ghost before = list@;
                        list.remove(idx);
                        proof {
                            let after = list@;
                            assert(strictly_sorted(after)) by {
                                assert forall|a: int, b: int| 0 <= a < b < after.len() implies after[a]
                                    < after[b] by {
                                    let a2 = if a < idx { a } else { a + 1 };
                                    let b2 = if b < idx { b } else { b + 1 };
                                    assert(after[a] == before[a2]);
                                    assert(after[b] == before[b2]);
                                }
                            }
                            assert(list_set(after) =~= list_set(before).remove(val as nat)) by {
                                assert forall|k: nat| #[trigger] list_set(after).contains(k)
                                    implies list_set(before).remove(val as nat).contains(k) by {
                                    let a = choose|a: int| 0 <= a < after.len() && after[a] as nat == k;
                                    let a2 = if a < idx { a } else { a + 1 };
                                    assert(after[a] == before[a2]);
                                    assert(a2 != idx);
                                }
                                assert forall|k: nat| #[trigger] list_set(before).remove(val as nat).contains(k)
                                    implies list_set(after).contains(k) by {
                                    let a = choose|a: int| 0 <= a < before.len() && before[a] as nat == k;
                                    let a2 = if a < idx { a } else { a - 1 };
                                    assert(a != idx);
                                    assert(after[a2] == before[a]);
                                }
                            }
                        }
                    },
                    Err(_) => {
                        assert(list_set(list@).remove(val as nat) =~= list_set(list@));
                    },
                }
                IntSet::Sorted(list)
            },
        };
        *self = new_self;
    }

    /// A copy of the set.
    pub fn duplicate(&self) -> (r: IntSet)
        requires
            self.wf(),
        ensures
            r.wf(),
            r@ == self@,
    {
        match self {
            IntSet::Empty => IntSet::Empty,
            IntSet::Small(bv) => IntSet::Small(bv.duplicate()),
            IntSet::Unsorted(l) => IntSet::Unsorted(l.copy()),
            IntSet::Sorted(l) => IntSet::Sorted(l.copy()),
        }
    }

    /// Adds every value of `other` (which is sorted, if it was unsorted,
    /// but keeps its values). True iff some value was new.
    pub fn merge(&mut self, other: &mut IntSet) -> (changed: bool)
        requires
            old(self).wf(),
            old(other).wf(),
        ensures
            final(self).wf(),
            final(other).wf(),
            final(other)@ == old(other)@,
            final(self)@ == old(self)@.union(old(other)@),
            changed == !old(other)@.subset_of(old(self)@),
    {
        self.sort();
        other.sort();
        let mut cur = IntSet::Empty;
        std::mem::swap(self, &mut cur);
        let (new_self, changed) = match cur {
            IntSet::Empty => {
                let c = !other.is_empty();
                proof {
                    assert(Set::<nat>::empty().union(other@) =~= other@);
                    if other@.subset_of(Set::<nat>::empty()) {
                        assert(other@ =~= Set::<nat>::empty());
                    }
                }
                (other.duplicate(), c)
            },
            IntSet::Small(mut bv) => match &*other {
                IntSet::Empty => {
                    assert(bv@.union(Set::<nat>::empty()) =~= bv@);
                    (IntSet::Small(bv), false)
                },
                IntSet::Small(obv) => {
                    let c = bv.or(obv);
                    (IntSet::Small(bv), c)
                },
                IntSet::Sorted(l) | IntSet::Unsorted(l) => {
                    let (nl, c) = union_list_small(l, &bv);
                    assert(list_set(l@).union(bv@) =~= bv@.union(list_set(l@)));
                    (IntSet::Unsorted(nl), c)
                },
            },
            IntSet::Sorted(l1) | IntSet::Unsorted(l1) => match &*other {
                IntSet::Empty => {
                    assert(list_set(l1@).union(Set::<nat>::empty()) =~= list_set(l1@));
                    (IntSet::Sorted(l1), false)
                },
                IntSet::Small(obv) => {
                    let (nl, c) = union_sorted_small(l1, obv);
                    (IntSet::Unsorted(nl), c)
                },
                IntSet::Sorted(l2) | IntSet::Unsorted(l2) => {
                    let (merged, c) = merge_sorted(&l1, l2);
                    (IntSet::Sorted(merged), c)
                },
            },
        };
        *self = new_self;
        changed
    }

    /// The values, each once, in increasing order.
    pub fn iter(&self) -> (r: SetIter)
        requires
            self.wf(),
        ensures
            r.wf(),
            index_set(r@) == self@,
            forall|a: int, b: int| 0 <= a < b < r@.len() ==> r@[a] < r@[b],
    {
        let values = match self {
            IntSet::Empty => {
                return SetIter::Empty;
            },
            IntSet::Small(bv) => bv.elements(),
            IntSet::Unsorted(l) => {
                let mut list = l.copy();
                list.sort();
                proof {
                    lemma_list_set_multiset(l@, list@);
                }
                remove_dups(&mut list);
                widen(&list)
            },
            IntSet::Sorted(l) => widen(l),
        };
        let r = SetIter::Items { values, next: 0 };
        assert(r@ =~= values@);
        r
    }
}

impl Default for IntSet {
    fn default() -> (r: IntSet)
        ensures
            r.wf(),
            r@ == Set::<nat>::empty(),
    {
        IntSet::Empty
    }
}

/// A strictly sorted list's items as `usize` values.
fn widen(list: &IdxList) -> (r: Vec<usize>)
    requires
        strictly_sorted(list@),
    ensures
        index_set(r@) == list_set(list@),
        forall|a: int, b: int| 0 <= a < b < r@.len() ==> r@[a] < r@[b],
{
    let n = list.len();
    let mut r: Vec<usize> = Vec::new();
    let mut i: usize = 0;
    while i < n
        invariant
            n == list@.len(),
            i <= n,
            r@.len() == i,
            forall|a: int| 0 <= a < i ==> r@[a] as nat == list@[a] as nat,
        decreases n - i,
    {
        r.push(list.get(i) as usize);
        i += 1;
    }
    assert(index_set(r@) =~= list_set(list@)) by {
        assert forall|k: nat| #[trigger] index_set(r@).contains(k) implies list_set(list@).contains(k) by {
            let a = choose|a: int| 0 <= a < r@.len() && r@[a] as nat == k;
        }
        assert forall|k: nat| #[trigger] list_set(list@).contains(k) implies index_set(r@).contains(k) by {
            let a = choose|a: int| 0 <= a < list@.len() && list@[a] as nat == k;
            assert(r@[a] as nat == k);
        }
    }
    assert forall|a: int, b: int| 0 <= a < b < r@.len() implies r@[a] < r@[b] by {
        assert(list@[a] < list@[b]);
    }
    r
}

/// The values of a set, handed out one at a time.
pub enum SetIter {
    /// Nothing left.
    Empty,
    /// `values[next..]` are left.
    Items { values: Vec<usize>, next: usize },
}

impl View for SetIter {
    type V = Seq<usize>;

    open spec fn view(&self) -> Seq<usize> {
        match self {
            SetIter::Empty => Seq::empty(),
            SetIter::Items { values, next } => values@.subrange(*next as int, values@.len() as int),
        }
    }
}

impl SetIter {
    pub open spec fn wf(&self) -> bool {
        match self {
            SetIter::Empty => true,
            SetIter::Items { values, next } => *next <= values@.len(),
        }
    }

    /// The next value, or `None` when all have been handed out.
    pub fn next(&mut self) -> (r: Option<usize>)
        requires
            old(self).wf(),
        ensures
            final(self).wf(),
            old(self)@.len() == 0 ==> r is None && final(self)@ == old(self)@,
            old(self)@.len() > 0 ==> r == Some(old(self)@[0]) && final(self)@ == old(self)@.drop_first(),
    {
        match self {
            SetIter::Empty => None,
            SetIter::Items { values, next } => {
                if *next < values.len() {
                    let v = values[*next];
                    *next = *next + 1;
                    assert(values@.subrange(*next as int, values@.len() as int) =~= old(self)@.drop_first());
                    Some(v)
                } else {
                    None
                }
            },
        }
    }
}

} // verus!
