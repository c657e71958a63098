use vstd::prelude::*;

verus! {

/// The ways in which an operation of this library can fail.
#[derive(Clone, Copy, Debug, PartialEq, Eq, Structural)]
pub enum ChunkError {
    /// A size text, a file name or a chunk size that cannot be used.
    InvalidArgument,
    /// There is nothing to work on, such as an empty chunk directory.
    NotFound,
    /// A source held fewer bytes than the range that was asked of it.
    UnexpectedEof,
    /// Any other failure that a read or a write reported.
    Io,
}

} // verus!
