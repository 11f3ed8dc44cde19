//! Session-level state shared by the wire-protocol engine's users.

use vstd::prelude::*;

verus! {

/// The lifecycle stage of one peer's session.
#[derive(Clone, Copy, Debug, PartialEq, Eq, Structural)]
pub enum SessionState {
    /// The peer is in the connectionless handshake.
    Handshake,
    /// The peer holds an established session.
    Online,
}

} // verus!
