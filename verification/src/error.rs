//! The ways in which handling a message can fail.

use vstd::prelude::*;

verus! {

/// A payload that the node must not act on.
#[derive(Debug, Clone, Copy, PartialEq, Eq)]
pub enum ProtocolViolation {
    /// A payload other than `Init` reached a node that has no identity yet.
    NotInitialized,
    /// A reply reached a node that never sent the matching request.
    UnexpectedReply,
}

/// The text is no well-formed envelope.
#[derive(Debug, Clone, Copy, PartialEq, Eq)]
pub enum DecodeError {
    Malformed,
}

/// The envelope could not be written as text.
#[derive(Debug, Clone, Copy, PartialEq, Eq)]
pub enum EncodeError {
    Unrepresentable,
}

} // verus!
