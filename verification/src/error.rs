//! Error values reported by the decoders and by the send queue.

use vstd::prelude::*;

verus! {

/// An error occurred when decoding.
#[derive(Clone, Copy, Debug, PartialEq, Eq, Structural)]
pub enum DecodeError {
    /// The buffer is too short for the expected field.
    UnexpectedEof,
    /// A value read lies outside its legal domain.
    OutOfRange,
    /// String bytes are not valid UTF-8.
    InvalidUtf8,
    /// The 16-byte magic cookie did not match.
    MagicMismatch,
}

/// An error reported by `SendQueue::push` for a submission that the protocol
/// cannot express.
#[derive(Clone, Copy, Debug, PartialEq, Eq, Structural)]
pub enum PushError {
    /// A sequenced submission asked for an ack receipt; no reliability
    /// variant carries both.
    SequencedAckReceipt,
}

/// An error reported by the receive-side reassembler.
#[derive(Clone, Copy, Debug, PartialEq, Eq, Structural)]
pub enum RecvError {
    /// The cap on buffered split groups was reached; exceeding it is a
    /// fatal session error.
    TooManySplitGroups,
    /// A split descriptor is unusable: a zero or oversized fragment count,
    /// an index at or past the count, or a count disagreeing with the
    /// group's.
    SplitMismatch,
    /// The cap on held out-of-order ordered-channel packets was reached;
    /// exceeding it is a fatal session error.
    TooManyHeldOrdered,
}

} // verus!
