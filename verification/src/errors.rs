//! Error taxonomy of the folding pipeline.

use vstd::prelude::*;

verus! {

/// Every way the pipeline can fail.
///
/// The layer-consistency check distinguishes "bad input coverage"
/// (`LookupMiss`) from "the proof is invalid" (`ConsistencyViolation`,
/// `NonUniqueTerminal`), and the numeric-domain hazards of machine
/// integers are surfaced explicitly instead of silently wrapping or
/// truncating (`ArithmeticOverflow`, `InexactDivision`).
#[derive(Clone, Copy, Debug, PartialEq, Eq, Structural)]
pub enum FriError {
    /// A required evaluation-table entry for a derived query point is
    /// absent: the sample-point set did not cover the query's chain.
    LookupMiss,
    /// The folding identity does not hold between two consecutive
    /// layers at the query's derived point chain.
    ConsistencyViolation,
    /// The last layer's table records more than one distinct value, or
    /// none at all: the folding did not converge to a constant.
    NonUniqueTerminal,
    /// An intermediate machine-integer computation does not fit its type.
    ArithmeticOverflow,
    /// A division required by the consistency equation leaves a
    /// remainder, or its divisor is zero.
    InexactDivision,
    /// An evaluation-table insert found the key already bound to a
    /// different value.
    ConflictingEvaluation,
}

} // verus!
