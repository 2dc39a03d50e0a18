use vstd::prelude::*;

verus! {

/// Errors raised by the wire-format codec.
///
/// Every fallible buffer operation reports one of these; they are fatal to
/// the single read or write in progress and are never retried.
#[derive(Clone, Copy, Debug, PartialEq, Eq, Structural)]
pub enum DnsError {
    /// A read or write would touch a byte at or beyond the end of the buffer.
    EndOfBuffer,
    /// A compressed name chained more pointer jumps than the decoder allows.
    TooManyJumps,
    /// A name label longer than 63 bytes cannot be encoded.
    LabelTooLong,
}

} // verus!
