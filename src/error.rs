use vstd::prelude::*;

verus! {

/// Why an operation of this library gave up.
#[derive(Debug, Clone, Copy, PartialEq, Eq, Structural)]
pub enum UtilsError {
    /// The buffer holds more bytes than the 512-byte window.
    BufferTooLarge,
    /// The delimiter does not occur in the buffer.
    DelimiterNotFound,
    /// The buffer is too short for the bytes to be removed.
    BufferTooSmall,
    /// The operation reads a byte of an empty buffer.
    BufferEmpty,
    /// The item does not occur in the collection.
    ItemNotFound,
}

} // verus!
