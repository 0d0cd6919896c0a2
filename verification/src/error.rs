//! The ways in which an operation on a series or a table can fail.

use vstd::prelude::*;

verus! {

/// A failure that the caller caused and that is never patched over.
#[derive(Clone, Copy, Debug, PartialEq, Eq, Structural)]
pub enum FrameError {
    /// An element, a row or a column was asked for at a position that does
    /// not exist.
    IndexOutOfRange,
    /// Two series that must have the same length do not.
    DimensionMismatch,
}

} // verus!
