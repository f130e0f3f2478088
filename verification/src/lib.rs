//! Host-side core of a parallel approximate k-nearest-neighbor builder.
//!
//! Every per-point structure the compute kernel works on lives in flat,
//! manually addressed index arrays: a bounded height-balanced candidate
//! tree, a linked candidate roster, and a small meta record, laid out
//! and addressed through strided descriptors. This crate assembles
//! those arrays, models the candidate-set maintenance the kernel
//! performs, and decodes and validates what comes back, reporting
//! structural corruption instead of trusting it.
use vstd::prelude::*;

pub mod assemble;
pub mod codec;
pub mod descriptor;
pub mod render;
pub mod roster;
pub mod tree;

verus! {

/// Structural corruption found while decoding read-back structures:
/// a kernel bug or a race, reported and never silently repaired.
#[derive(Clone, Copy, Debug, PartialEq, Eq, Structural)]
pub enum Fault {
    /// An index column pointed outside its valid range.
    OutOfRange,
    /// A slot was reached twice: a cycle or shared subtree.
    LoopDetected,
    /// A height, child or parent column disagrees with the structure,
    /// or a live slot is unreachable from the root.
    Inconsistent,
    /// A node's children differ in height by more than one.
    Unbalanced,
    /// The same neighbor is retained twice by one point.
    DuplicateNeighbor,
}

} // verus!
