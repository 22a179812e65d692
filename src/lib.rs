//! Building blocks of a backtracking register allocator: control-flow
//! analyses (postorder, dominator tree, loop depth, intake checks),
//! liveness over hybrid integer sets, operand requirements, bundle ranges
//! and coalescing, per-register commitments, and the sequencing of parallel
//! moves.

pub mod bitvec;
pub mod bundle;
pub mod cfg;
pub mod commitments;
pub mod domtree;
pub mod function;
pub mod index;
pub mod list;
pub mod liveness;
pub mod moves;
pub mod postorder;
pub mod prioqueue;
pub mod ranges;
pub mod requirement;
pub mod set;
pub mod spill;
pub mod stackmap;
pub mod unionfind;
