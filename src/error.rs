use vstd::prelude::*;

verus! {

/// The ways in which encoding or decoding a varint can fail.
#[derive(Debug, Clone, Copy, PartialEq, Eq, Structural)]
pub enum UVarintError {
    /// The input ended before a byte without the continuation flag was found.
    Incomplete,
    /// The value does not fit in the target integer width.
    Overflow,
    /// The caller's buffer cannot hold the whole encoding.
    BufferTooSmall,
    /// A byte sequence was not valid UTF-8.
    InvalidUtf8,
    /// The byte sink rejected a write.
    WriteFailed,
}

} // verus!
