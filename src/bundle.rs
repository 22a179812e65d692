//! Bundles: sets of ranges assigned together to one location.

use crate::index::RegClass;
use crate::ranges::{covers, merge_spans, spans_ok, spans_overlap, Span};
use crate::requirement::{Allocation, Requirement};
use vstd::prelude::*;

verus! {

/// The ranges of a bundle, its register class and the folded demand of its
/// operands.
pub struct Bundle {
    pub spans: Vec<Span>,
    pub class: RegClass,
    pub requirement: Requirement,
}

/// Two bundles may be coalesced: they share no program point, have one
/// class, and some location satisfies both of their demands.
pub open spec fn can_merge(a: &Bundle, b: &Bundle) -> bool {
    &&& !exists|p: int| covers(a.spans@, p) && covers(b.spans@, p)
    &&& a.class == b.class
    &&& exists|l: Allocation| a.requirement.allows(l) && b.requirement.allows(l)
}

/// Coalesces two bundles where that is allowed: the result covers the
/// points of both, with both demands folded together. `None` where the
/// bundles share a point, differ in class, or demand incompatible
/// locations.
pub fn try_merge(a: &Bundle, b: &Bundle) -> (r: Option<Bundle>)
    requires
        spans_ok(a.spans@),
        spans_ok(b.spans@),
    ensures
        r is Some <==> can_merge(a, b),
        r matches Some(m) ==> {
            &&& spans_ok(m.spans@)
            &&& forall|p: int| covers(m.spans@, p) == (covers(a.spans@, p) || covers(b.spans@, p))
            &&& m.class == a.class
            &&& forall|l: Allocation| #[trigger] m.requirement.allows(l) == (a.requirement.allows(l)
                && b.requirement.allows(l))
        },
{
    if a.class != b.class {
        return None;
    }
    let req = a.requirement.merge(b.requirement);
    proof {
        req.lemma_satisfiable();
    }
    if req == Requirement::Conflict {
        assert forall|l: Allocation| !(a.requirement.allows(l) && b.requirement.allows(l)) by {
            assert(!req.allows(l));
        }
        return None;
    }
    assert(exists|l: Allocation| a.requirement.allows(l) && b.requirement.allows(l)) by {
        let l = choose|l: Allocation| req.allows(l);
        assert(a.requirement.allows(l) && b.requirement.allows(l));
    }
    if spans_overlap(&a.spans, &b.spans) {
        return None;
    }
    let spans = merge_spans(&a.spans, &b.spans);
    Some(Bundle { spans, class: a.class, requirement: req })
}

} // verus!
