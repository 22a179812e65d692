//! Dense 32-bit indices and the operand model.

use vstd::prelude::*;

verus! {

/// The index value that marks "no entity".
pub const INVALID_INDEX: u32 = 0xffff_ffff;

/// A basic block.
#[derive(Clone, Copy, Debug, PartialEq, Eq, Structural, Hash)]
pub struct Block(pub u32);

/// An instruction.
#[derive(Clone, Copy, Debug, PartialEq, Eq, Structural, Hash)]
pub struct Inst(pub u32);

impl Block {
    pub fn new(i: usize) -> (r: Block)
        requires
            i <= u32::MAX,
        ensures
            r.0 == i,
    {
        Block(i as u32)
    }

    pub fn invalid() -> (r: Block)
        ensures
            r.0 == INVALID_INDEX,
    {
        Block(INVALID_INDEX)
    }

    pub fn index(self) -> (r: usize)
        ensures
            r == self.0,
    {
        self.0 as usize
    }

    pub fn is_valid(self) -> (r: bool)
        ensures
            r == (self.0 != INVALID_INDEX),
    {
        self.0 != INVALID_INDEX
    }

    pub fn is_invalid(self) -> (r: bool)
        ensures
            r == (self.0 == INVALID_INDEX),
    {
        self.0 == INVALID_INDEX
    }
}

impl Inst {
    pub fn new(i: usize) -> (r: Inst)
        requires
            i <= u32::MAX,
        ensures
            r.0 == i,
    {
        Inst(i as u32)
    }

    pub fn invalid() -> (r: Inst)
        ensures
            r.0 == INVALID_INDEX,
    {
        Inst(INVALID_INDEX)
    }

    pub fn index(self) -> (r: usize)
        ensures
            r == self.0,
    {
        self.0 as usize
    }
}

/// The two phases of an instruction.
#[derive(Clone, Copy, Debug, PartialEq, Eq, Structural, Hash)]
pub enum InstPosition {
    Before,
    After,
}

/// A point in the program: an instruction and a phase. Points are ordered by
/// instruction, then phase.
#[derive(Clone, Copy, Debug, PartialEq, Eq, Structural, Hash)]
pub struct ProgPoint {
    pub inst: Inst,
    pub pos: InstPosition,
}

impl ProgPoint {
    pub fn before(inst: Inst) -> (r: ProgPoint)
        ensures
            r == (ProgPoint { inst, pos: InstPosition::Before }),
    {
        ProgPoint { inst, pos: InstPosition::Before }
    }

    pub fn after(inst: Inst) -> (r: ProgPoint)
        ensures
            r == (ProgPoint { inst, pos: InstPosition::After }),
    {
        ProgPoint { inst, pos: InstPosition::After }
    }

    /// The point's rank in program order: two per instruction.
    pub open spec fn rank(self) -> int {
        2 * self.inst.0 + if self.pos == InstPosition::After { 1int } else { 0int }
    }

    /// The dense number of the point (instruction times two, plus the phase).
    pub fn to_index(self) -> (r: u64)
        ensures
            r == self.rank(),
    {
        2 * (self.inst.0 as u64) + match self.pos {
            InstPosition::Before => 0,
            InstPosition::After => 1,
        }
    }
}

/// A register class; allocation never crosses classes.
#[derive(Clone, Copy, Debug, PartialEq, Eq, Structural, Hash)]
pub enum RegClass {
    Int,
    Float,
}

/// A virtual register.
#[derive(Clone, Copy, Debug, PartialEq, Eq, Structural, Hash)]
pub struct VReg {
    pub id: u32,
    pub class: RegClass,
}

impl VReg {
    pub fn vreg(self) -> (r: usize)
        ensures
            r == self.id,
    {
        self.id as usize
    }
}

/// A physical register.
#[derive(Clone, Copy, Debug, PartialEq, Eq, Structural, Hash)]
pub struct PReg {
    pub hw_enc: u8,
    pub class: RegClass,
}

/// How an operand touches its register.
#[derive(Clone, Copy, Debug, PartialEq, Eq, Structural, Hash)]
pub enum OperandKind {
    Use,
    Def,
    /// A use and a def at the same point.
    Mod,
}

/// Where an operand's value must live.
#[derive(Clone, Copy, Debug, PartialEq, Eq, Structural, Hash)]
pub enum OperandConstraint {
    Any,
    Reg,
    Stack,
    FixedReg(PReg),
    /// The same location as the operand at this index.
    Reuse(u32),
}

/// Whether the operand acts before or after its instruction.
#[derive(Clone, Copy, Debug, PartialEq, Eq, Structural, Hash)]
pub enum OperandPos {
    Early,
    Late,
}

/// One operand of an instruction.
#[derive(Clone, Copy, Debug, PartialEq, Eq, Structural, Hash)]
pub struct Operand {
    pub vreg: VReg,
    pub kind: OperandKind,
    pub constraint: OperandConstraint,
    pub pos: OperandPos,
}

/// The ways allocation can fail.
#[derive(Clone, Copy, Debug, PartialEq, Eq, Structural, Hash)]
pub enum RegAllocError {
    /// An edge from a block with several successors to one with several
    /// predecessors.
    CritEdge(Block, Block),
    /// A branch into a block with several predecessors that carries
    /// arguments other than the block parameters.
    DisallowedBranchArg(Inst),
    /// A virtual register defined more than once.
    SSA(VReg, Inst),
    /// A malformed block.
    BB(Block),
    /// A malformed branch.
    Branch(Inst),
    /// A value live into the entry block.
    EntryLivein,
    /// More values demand registers at one point than there are registers.
    TooManyLiveRegs,
}

} // verus!
