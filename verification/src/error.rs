use vstd::prelude::*;

verus! {

/// What can go wrong while decoding requests or framing replies.
#[derive(Debug, Clone, Copy, PartialEq, Eq, Structural)]
pub enum KvError {
    /// A complete argument was not valid UTF-8.
    InvalidUtf8,
    /// The request's first byte names no operation.
    InvalidOperation,
    /// A message is too long for its length to fit in the 4-byte header.
    MessageTooLong,
}

} // verus!
