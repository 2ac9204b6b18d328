//! The ways in which an operation of this crate can fail.

use vstd::prelude::*;

verus! {

/// Why an operation was refused.
#[derive(Debug, Clone, Copy, PartialEq, Eq, Structural)]
pub enum Error {
    /// A vector was to be built from no values, so that no width could be
    /// chosen.
    EmptyInput,
    /// A position was not below the length.
    OutOfBounds,
    /// A value did not fit in the width of the vector.
    ValueOverflow,
    /// The bytes ended before the encoding did.
    UnexpectedEof,
    /// The bytes were all there, but the lengths they declare do not agree
    /// with each other or with the bits they carry.
    MalformedData,
}

} // verus!
