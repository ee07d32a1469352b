use vstd::prelude::*;

verus! {

/// The caller-visible failure cases of the array engine.
#[derive(Debug, Clone, Copy, PartialEq, Eq, Structural)]
pub enum ArrayError {
    /// A value count, or a shape's element-count product, does not equal
    /// the array's total size.
    SizeMismatch,
    /// Two arrays were combined elementwise without identical shapes.
    ShapeMismatch,
    /// No axis-compatible alignment exists between two shapes.
    BroadcastIncompatible,
    /// An arithmetic range with no elements in it was requested.
    InvalidRangeArguments,
}

} // verus!
