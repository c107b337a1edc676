//! Errors reported at the boundary.
use vstd::prelude::*;

verus! {

/// Why a boundary operation refused its arguments.
#[derive(Clone, Copy, Debug, PartialEq, Eq, Structural)]
pub enum BoundaryError {
    /// The handle names no registered matcher.
    InvalidHandle,
    /// The bytes handed over are not well-formed UTF-8.
    InvalidEncoding,
    /// A release named a reserved region with another size.
    SizeMismatch,
    /// A release named an offset where no region is reserved.
    UnknownRegion,
    /// A byte range reaches past the end of the shared memory.
    OutOfBounds,
    /// A reservation would reach past the 32-bit address space.
    OutOfMemory,
    /// The pattern text is longer than an automaton is built from.
    TooLarge,
    /// Every 32-bit handle is taken.
    RegistryFull,
}

} // verus!
