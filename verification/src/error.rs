//! What makes an operation of the library give up.
use vstd::prelude::*;

verus! {

/// A fatal condition: the operation that met it returns no partial result.
#[derive(Debug, Copy, Clone, PartialEq, Eq, Structural)]
pub enum Error {
    /// A division whose denominator reduced to the constant zero.
    DivisionByZero,
    /// Folding two constants left the range of 64-bit fractions.
    Overflow,
    /// A node other than the root has no predecessor, so that it has no
    /// dominator to walk up to.
    DominatorIntersection,
}

} // verus!
