//! What an operand, or a whole bundle, demands of its location.

use crate::index::{Operand, OperandConstraint, PReg};
use vstd::prelude::*;

verus! {

/// Where a value lives: not yet assigned, a physical register or a stack slot.
#[derive(Clone, Copy, Debug, PartialEq, Eq, Structural, Hash)]
pub enum Allocation {
    Unassigned,
    Reg(PReg),
    Stack(u32),
}

/// A demand on a location. `Unknown` is the neutral start of a fold.
#[derive(Clone, Copy, Debug, PartialEq, Eq, Structural, Hash)]
pub enum Requirement {
    Unknown,
    Fixed(PReg),
    Register,
    Stack,
    Any,
    Conflict,
}

impl Requirement {
    /// A location that the requirement accepts, unless it is `Conflict`.
    pub proof fn lemma_satisfiable(self)
        ensures
            self != Requirement::Conflict ==> exists|a: Allocation| self.allows(a),
    {
        match self {
            Requirement::Fixed(p) => assert(self.allows(Allocation::Reg(p))),
            Requirement::Register => assert(self.allows(
                Allocation::Reg(PReg { hw_enc: 0, class: crate::index::RegClass::Int }),
            )),
            Requirement::Conflict => {},
            _ => assert(self.allows(Allocation::Stack(0))),
        }
    }

    /// Does the requirement accept location `a`?
    pub open spec fn allows(self, a: Allocation) -> bool {
        match self {
            Requirement::Unknown | Requirement::Any => !(a is Unassigned),
            Requirement::Fixed(p) => a == Allocation::Reg(p),
            Requirement::Register => a is Reg,
            Requirement::Stack => a is Stack,
            Requirement::Conflict => false,
        }
    }

    /// Combines two demands: the result accepts exactly the locations both
    /// accept, and stays `Unknown` only while both are.
    pub fn merge(self, other: Requirement) -> (r: Requirement)
        ensures
            forall|a: Allocation| #[trigger] r.allows(a) == (self.allows(a) && other.allows(a)),
            (r == Requirement::Unknown) == (self == Requirement::Unknown && other == Requirement::Unknown),
    {
        let r = match (self, other) {
            (Requirement::Unknown, x) | (x, Requirement::Unknown) => x,
            (Requirement::Conflict, _) | (_, Requirement::Conflict) => Requirement::Conflict,
            (x, Requirement::Any) | (Requirement::Any, x) => x,
            (Requirement::Stack, Requirement::Stack) => Requirement::Stack,
            (Requirement::Register, Requirement::Fixed(p))
            | (Requirement::Fixed(p), Requirement::Register) => Requirement::Fixed(p),
            (Requirement::Register, Requirement::Register) => Requirement::Register,
            (Requirement::Fixed(a), Requirement::Fixed(b)) => {
                if a == b {
                    Requirement::Fixed(a)
                } else {
                    Requirement::Conflict
                }
            },
            _ => Requirement::Conflict,
        };
        proof {
            assert forall|a: Allocation| #[trigger] r.allows(a) == (self.allows(a) && other.allows(a)) by {
                match (self, other) {
                    (Requirement::Fixed(p), Requirement::Fixed(q)) => {
                        if p != q && a == Allocation::Reg(p) {
                            assert(a != Allocation::Reg(q));
                        }
                    },
                    _ => {},
                }
            }
        }
        r
    }

    /// The demand of one operand's constraint: a fixed register, any
    /// register, the stack, or anywhere (for `Any` and `Reuse`).
    pub open spec fn from_spec(op: Operand) -> Requirement {
        match op.constraint {
            OperandConstraint::FixedReg(p) => Requirement::Fixed(p),
            OperandConstraint::Reg => Requirement::Register,
            OperandConstraint::Stack => Requirement::Stack,
            _ => Requirement::Any,
        }
    }

    /// The demand of one operand's constraint: a fixed register, any
    /// register, the stack, or anywhere (for `Any` and `Reuse`).
    pub fn from_operand(op: Operand) -> (r: Requirement)
        ensures
            r == Requirement::from_spec(op),
    {
        match op.constraint {
            OperandConstraint::FixedReg(p) => Requirement::Fixed(p),
            OperandConstraint::Reg => Requirement::Register,
            OperandConstraint::Stack => Requirement::Stack,
            _ => Requirement::Any,
        }
    }
}

/// The requirement of the first `k` operands, folded from `Unknown`.
pub open spec fn folded(ops: Seq<Operand>, k: int) -> Set<Allocation>
    decreases k,
{
    if k <= 0 {
        Set::new(|a: Allocation| !(a is Unassigned))
    } else {
        folded(ops, k - 1).intersect(Set::new(|a: Allocation| Requirement::from_spec(ops[k - 1]).allows(a)))
    }
}

/// Folds the demands of a list of operands: the result accepts exactly the
/// locations that every operand accepts (`Conflict` when none is left).
pub fn operands_requirement(ops: &Vec<Operand>) -> (r: Requirement)
    ensures
        forall|a: Allocation| #[trigger] r.allows(a) == folded(ops@, ops@.len() as int).contains(a),
        ops@.len() == 0 <==> r == Requirement::Unknown,
{
    let mut r = Requirement::Unknown;
    let mut k: usize = 0;
    while k < ops.len()
        invariant
            k <= ops@.len(),
            forall|a: Allocation| #[trigger] r.allows(a) == folded(ops@, k as int).contains(a),
            k == 0 <==> r == Requirement::Unknown,
        decreases ops@.len() - k,
    {
        let req = Requirement::from_operand(ops[k]);
        r = r.merge(req);
        k += 1;
    }
    r
}

} // verus!
