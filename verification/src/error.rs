//! The error kinds reported by the library.

use vstd::prelude::*;

verus! {

/// Why an operation of the library did not complete.
#[derive(Debug, Clone, Copy, PartialEq, Eq, Structural)]
pub enum Error {
    /// An arena needs another block and may not have one.
    PoolExhausted,
    /// A term is longer than a single arena block can hold.
    MaxBytesLengthExceeded,
    /// A term table cannot take another term: ids must stay below 2^29.
    TooManyTerms,
    /// An argument is outside the domain of the operation.
    IllegalArgument,
    /// A collaborator (a column reader, a child iterator) failed.
    Io,
}

} // verus!
