//! RakNet wire-protocol engine: the binary codec for the protocol's
//! primitives, the offline and online packet catalogues, the
//! encapsulated-packet and datagram framing, the ack/nack record lists, the
//! MTU-bounded send queue with its retransmit index, and the receive-side
//! reassembler.

pub mod acklist;
pub mod codec;
pub mod datagram;
pub mod encap;
pub mod error;
pub mod inner;
pub mod magic;
pub mod offline;
pub mod online;
pub mod recv_queue;
pub mod reliability;
pub mod send_queue;
pub mod session;
pub mod socket_address;
pub mod triad;
