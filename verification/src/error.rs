//! Errors of the library.

use vstd::prelude::*;

verus! {

/// The broad class of a failed read or of an unreadable packet.
#[derive(Clone, Copy, Debug, PartialEq, Eq, Structural)]
pub enum ErrorKind {
    /// The input ended before what it announced.
    UnexpectedEof,
    /// The input holds something unknown.
    InvalidData,
    /// The operating system's own error, by its number.
    Os { code: i32 },
}

/// Why a packet could not be received to its end. Chunks before the fault were handled.
#[derive(Clone, Copy, Debug, PartialEq, Eq, Structural)]
pub enum ReceiveError {
    /// The packet is too short to hold its sequence number.
    NoSequence,
    /// A chunk announces `size` bytes of data at `offset`, but only `left` are left.
    ChunkEndsAbruptly { chunk_type: usize, size: usize, offset: usize, left: usize },
    /// A chunk of an unknown type.
    UnknownChunk { chunk_type: usize, size: usize },
}

impl ReceiveError {
    /// The broad class of this error.
    pub fn kind(&self) -> (r: ErrorKind)
        ensures
            r == if self is UnknownChunk {
                ErrorKind::InvalidData
            } else {
                ErrorKind::UnexpectedEof
            },
    {
        match self {
            ReceiveError::NoSequence => ErrorKind::UnexpectedEof,
            ReceiveError::ChunkEndsAbruptly { .. } => ErrorKind::UnexpectedEof,
            ReceiveError::UnknownChunk { .. } => ErrorKind::InvalidData,
        }
    }
}

/// Why a sender or a connection refused.
#[derive(Clone, Copy, Debug, PartialEq, Eq, Structural)]
pub enum SenderError {
    /// The offset is beyond the end of what was written so far, which is at `head`.
    InvalidOffset { head: u64 },
    /// The buffer for the packet cannot hold even the packet's own fields.
    BufferTooSmall,
    /// The packet cannot be read.
    IoError { kind: ErrorKind },
}

} // verus!
