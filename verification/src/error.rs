use vstd::prelude::*;

verus! {

/// The ways a split or combine operation can fail. Every error is terminal
/// for the operation that raised it; no partial result is returned.
#[derive(Debug, Clone, Copy, PartialEq, Eq, Structural)]
pub enum Error {
    /// The number of chunks handed to `combine_chunks` disagrees with the
    /// `total_chunks` count that the chunks themselves declare.
    WrongNumberOfChunks,
    /// The input buffer holds fewer bytes than the requested number of
    /// chunks, so it cannot be split into that many non-empty pieces.
    InputSmallerThanNumberOfChunks,
    /// The secure random source could not supply key material.
    RandBytesFailure,
    /// A serialized chunk buffer is too short to hold the fixed header.
    ChunkParseError,
    /// The cipher backend reported an internal failure, or was handed a key
    /// of the wrong length or a buffer it cannot unpad.
    CipherFailure,
}

} // verus!
