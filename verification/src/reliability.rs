//! The eight reliability variants of an encapsulated packet and the header
//! fields each of them carries.

use vstd::prelude::*;

use crate::triad::Triad;

verus! {

/// The extra header of a reliable packet.
#[derive(Clone, Copy, Debug, PartialEq, Eq, Structural)]
pub struct Reliable {
    /// Little-endian triad; one global monotone sequence across all
    /// reliable packets of a session.
    pub message_index: Triad,
}

/// The extra header of an ordered (or sequenced) packet.
#[derive(Clone, Copy, Debug, PartialEq, Eq, Structural)]
pub struct Ordered {
    /// Little-endian triad; per-channel monotone sequence.
    pub order_index: Triad,
    /// One of the 32 ordering channels.
    pub order_channel: u8,
}

/// The extra header of a sequenced packet; a sequenced packet also rides an
/// ordering channel.
#[derive(Clone, Copy, Debug, PartialEq, Eq, Structural)]
pub struct Sequenced {
    /// Little-endian triad; per-channel monotone sequence of its own.
    pub sequence_index: Triad,
    pub ordered: Ordered,
}

/// The split descriptor of one fragment of a larger submission.
#[derive(Clone, Copy, Debug, PartialEq, Eq, Structural)]
pub struct Split {
    /// How many fragments the split group holds.
    pub split_count: u32,
    /// The group: all fragments of one submission share it.
    pub split_id: u16,
    /// The position of this fragment, counted from zero.
    pub split_index: u32,
}

impl Reliable {
    pub open spec fn wf(self) -> bool {
        self.message_index.wf()
    }
}

impl Ordered {
    pub open spec fn wf(self) -> bool {
        self.order_index.wf() && self.order_channel < 32
    }
}

impl Sequenced {
    pub open spec fn wf(self) -> bool {
        self.sequence_index.wf() && self.ordered.wf()
    }
}

/// A reliability descriptor: one of the eight variants numbered 0 to 7,
/// selecting which optional header fields are present.
#[derive(Clone, Copy, Debug, PartialEq, Eq, Structural)]
pub enum InnerPacketReliability {
    Unreliable,
    UnreliableSequenced(Sequenced),
    Reliable(Reliable),
    ReliableOrdered(Reliable, Ordered),
    ReliableSequenced(Reliable, Sequenced),
    UnreliableWithAckReceipt,
    ReliableWithAckReceipt(Reliable),
    ReliableOrderedWithAckReceipt(Reliable, Ordered),
}

impl InnerPacketReliability {
    /// The variant's wire id, 0 to 7.
    pub open spec fn spec_id(self) -> u8 {
        match self {
            InnerPacketReliability::Unreliable => 0,
            InnerPacketReliability::UnreliableSequenced(_) => 1,
            InnerPacketReliability::Reliable(_) => 2,
            InnerPacketReliability::ReliableOrdered(_, _) => 3,
            InnerPacketReliability::ReliableSequenced(_, _) => 4,
            InnerPacketReliability::UnreliableWithAckReceipt => 5,
            InnerPacketReliability::ReliableWithAckReceipt(_) => 6,
            InnerPacketReliability::ReliableOrderedWithAckReceipt(_, _) => 7,
        }
    }

    /// The reliable header, where the variant carries one.
    pub open spec fn spec_reliable(self) -> Option<Reliable> {
        match self {
            InnerPacketReliability::Reliable(r) => Some(r),
            InnerPacketReliability::ReliableOrdered(r, _) => Some(r),
            InnerPacketReliability::ReliableSequenced(r, _) => Some(r),
            InnerPacketReliability::ReliableWithAckReceipt(r) => Some(r),
            InnerPacketReliability::ReliableOrderedWithAckReceipt(r, _) => Some(r),
            _ => None,
        }
    }

    /// The sequenced header, where the variant carries one.
    pub open spec fn spec_sequenced(self) -> Option<Sequenced> {
        match self {
            InnerPacketReliability::UnreliableSequenced(s) => Some(s),
            InnerPacketReliability::ReliableSequenced(_, s) => Some(s),
            _ => None,
        }
    }

    /// The ordered header of an ordered (not sequenced) variant.
    pub open spec fn spec_ordered(self) -> Option<Ordered> {
        match self {
            InnerPacketReliability::ReliableOrdered(_, o) => Some(o),
            InnerPacketReliability::ReliableOrderedWithAckReceipt(_, o) => Some(o),
            _ => None,
        }
    }

    /// The ordering header present on both ordered and sequenced variants:
    /// a sequenced packet rides an ordering channel too.
    pub open spec fn spec_sequenced_or_ordered(self) -> Option<Ordered> {
        match self.spec_ordered() {
            Some(o) => Some(o),
            None => match self.spec_sequenced() {
                Some(s) => Some(s.ordered),
                None => None,
            },
        }
    }

    /// Every header field the variant carries is well formed.
    pub open spec fn wf(self) -> bool {
        &&& (self.spec_reliable() matches Some(r) ==> r.wf())
        &&& (self.spec_sequenced() matches Some(s) ==> s.wf())
        &&& (self.spec_ordered() matches Some(o) ==> o.wf())
    }

    /// The variant's wire id, 0 to 7.
    pub fn id(&self) -> (r: u8)
        ensures
            r == self.spec_id(),
    {
        match self {
            InnerPacketReliability::Unreliable => 0,
            InnerPacketReliability::UnreliableSequenced(_) => 1,
            InnerPacketReliability::Reliable(_) => 2,
            InnerPacketReliability::ReliableOrdered(_, _) => 3,
            InnerPacketReliability::ReliableSequenced(_, _) => 4,
            InnerPacketReliability::UnreliableWithAckReceipt => 5,
            InnerPacketReliability::ReliableWithAckReceipt(_) => 6,
            InnerPacketReliability::ReliableOrderedWithAckReceipt(_, _) => 7,
        }
    }

    /// The reliable header, where the variant carries one.
    pub fn reliable(&self) -> (r: Option<Reliable>)
        ensures
            r == self.spec_reliable(),
    {
        match self {
            InnerPacketReliability::Reliable(r) => Some(*r),
            InnerPacketReliability::ReliableOrdered(r, _) => Some(*r),
            InnerPacketReliability::ReliableSequenced(r, _) => Some(*r),
            InnerPacketReliability::ReliableWithAckReceipt(r) => Some(*r),
            InnerPacketReliability::ReliableOrderedWithAckReceipt(r, _) => Some(*r),
            _ => None,
        }
    }

    /// The sequenced header, where the variant carries one.
    pub fn sequenced(&self) -> (r: Option<Sequenced>)
        ensures
            r == self.spec_sequenced(),
    {
        match self {
            InnerPacketReliability::UnreliableSequenced(s) => Some(*s),
            InnerPacketReliability::ReliableSequenced(_, s) => Some(*s),
            _ => None,
        }
    }

    /// The ordered header of an ordered (not sequenced) variant.
    pub fn ordered(&self) -> (r: Option<Ordered>)
        ensures
            r == self.spec_ordered(),
    {
        match self {
            InnerPacketReliability::ReliableOrdered(_, o) => Some(*o),
            InnerPacketReliability::ReliableOrderedWithAckReceipt(_, o) => Some(*o),
            _ => None,
        }
    }

    /// The ordering header present on both ordered and sequenced variants.
    pub fn sequenced_or_ordered(&self) -> (r: Option<Ordered>)
        ensures
            r == self.spec_sequenced_or_ordered(),
    {
        match self.ordered() {
            Some(o) => Some(o),
            None => match self.sequenced() {
                Some(s) => Some(s.ordered),
                None => None,
            },
        }
    }

    /// Replaces the message index of the reliable header, if one is carried.
    pub fn with_message_index(self, idx: Triad) -> (r: Self)
        ensures
            self.spec_reliable() is Some ==> r.spec_reliable() == Some(
                Reliable { message_index: idx },
            ),
            self.spec_reliable() is None ==> r == self,
            r.spec_id() == self.spec_id(),
            r.spec_sequenced() == self.spec_sequenced(),
            r.spec_ordered() == self.spec_ordered(),
    {
        let rel = Reliable { message_index: idx };
        match self {
            InnerPacketReliability::Reliable(_) => InnerPacketReliability::Reliable(rel),
            InnerPacketReliability::ReliableOrdered(_, o) => InnerPacketReliability::ReliableOrdered(
                rel,
                o,
            ),
            InnerPacketReliability::ReliableSequenced(_, s) => InnerPacketReliability::ReliableSequenced(
                rel,
                s,
            ),
            InnerPacketReliability::ReliableWithAckReceipt(_) => InnerPacketReliability::ReliableWithAckReceipt(
                rel,
            ),
            InnerPacketReliability::ReliableOrderedWithAckReceipt(_, o) => InnerPacketReliability::ReliableOrderedWithAckReceipt(
                rel,
                o,
            ),
            other => other,
        }
    }
}

/// The eight reliability names without their header payloads, as the flag
/// byte of the wire format names them.
#[derive(Clone, Copy, Debug, PartialEq, Eq, Structural)]
pub enum ReliabilityFlag {
    Unreliable,
    UnreliableSequenced,
    Reliable,
    ReliableOrdered,
    ReliableSequenced,
    UnreliableWithAckReceipt,
    ReliableWithAckReceipt,
    ReliableOrderedWithAckReceipt,
}

impl ReliabilityFlag {
    /// The flag named by a wire id; ids are taken modulo 8.
    pub open spec fn spec_from_id(id: u8) -> ReliabilityFlag {
        if id % 8 == 0 {
            ReliabilityFlag::Unreliable
        } else if id % 8 == 1 {
            ReliabilityFlag::UnreliableSequenced
        } else if id % 8 == 2 {
            ReliabilityFlag::Reliable
        } else if id % 8 == 3 {
            ReliabilityFlag::ReliableOrdered
        } else if id % 8 == 4 {
            ReliabilityFlag::ReliableSequenced
        } else if id % 8 == 5 {
            ReliabilityFlag::UnreliableWithAckReceipt
        } else if id % 8 == 6 {
            ReliabilityFlag::ReliableWithAckReceipt
        } else {
            ReliabilityFlag::ReliableOrderedWithAckReceipt
        }
    }

    /// The flag's wire id, 0 to 7.
    pub open spec fn spec_id(self) -> u8 {
        match self {
            ReliabilityFlag::Unreliable => 0,
            ReliabilityFlag::UnreliableSequenced => 1,
            ReliabilityFlag::Reliable => 2,
            ReliabilityFlag::ReliableOrdered => 3,
            ReliabilityFlag::ReliableSequenced => 4,
            ReliabilityFlag::UnreliableWithAckReceipt => 5,
            ReliabilityFlag::ReliableWithAckReceipt => 6,
            ReliabilityFlag::ReliableOrderedWithAckReceipt => 7,
        }
    }

    /// Decodes a whole flag byte: the reliability sits in the upper three
    /// bits, and bit 4 marks a split packet.
    pub fn from_u8(flag: u8) -> (r: (ReliabilityFlag, bool))
        ensures
            r.0 == ReliabilityFlag::spec_from_id(flag / 32),
            r.1 == ((flag / 16) % 2 == 1),
    {
        let id = flag / 32;
        let flag_enum = if id == 0 {
            ReliabilityFlag::Unreliable
        } else if id == 1 {
            ReliabilityFlag::UnreliableSequenced
        } else if id == 2 {
            ReliabilityFlag::Reliable
        } else if id == 3 {
            ReliabilityFlag::ReliableOrdered
        } else if id == 4 {
            ReliabilityFlag::ReliableSequenced
        } else if id == 5 {
            ReliabilityFlag::UnreliableWithAckReceipt
        } else if id == 6 {
            ReliabilityFlag::ReliableWithAckReceipt
        } else {
            ReliabilityFlag::ReliableOrderedWithAckReceipt
        };
        (flag_enum, (flag / 16) % 2 == 1)
    }

    /// The flag byte with the reliability in the upper three bits and no
    /// split bit.
    pub fn to_u8(self) -> (r: u8)
        ensures
            r == self.spec_id() * 32,
    {
        let id: u8 = match self {
            ReliabilityFlag::Unreliable => 0,
            ReliabilityFlag::UnreliableSequenced => 1,
            ReliabilityFlag::Reliable => 2,
            ReliabilityFlag::ReliableOrdered => 3,
            ReliabilityFlag::ReliableSequenced => 4,
            ReliabilityFlag::UnreliableWithAckReceipt => 5,
            ReliabilityFlag::ReliableWithAckReceipt => 6,
            ReliabilityFlag::ReliableOrderedWithAckReceipt => 7,
        };
        id * 32
    }

    /// Whether packets of this reliability carry a message index.
    pub fn reliable(self) -> (r: bool)
        ensures
            r == (self.spec_id() == 2 || self.spec_id() == 3 || self.spec_id() == 4
                || self.spec_id() == 6 || self.spec_id() == 7),
    {
        match self {
            ReliabilityFlag::Reliable => true,
            ReliabilityFlag::ReliableOrdered => true,
            ReliabilityFlag::ReliableSequenced => true,
            ReliabilityFlag::ReliableWithAckReceipt => true,
            ReliabilityFlag::ReliableOrderedWithAckReceipt => true,
            _ => false,
        }
    }

    /// Whether packets of this reliability carry an order index and channel.
    pub fn ordered(self) -> (r: bool)
        ensures
            r == (self.spec_id() == 1 || self.spec_id() == 3 || self.spec_id() == 4
                || self.spec_id() == 7),
    {
        match self {
            ReliabilityFlag::UnreliableSequenced => true,
            ReliabilityFlag::ReliableOrdered => true,
            ReliabilityFlag::ReliableSequenced => true,
            ReliabilityFlag::ReliableOrderedWithAckReceipt => true,
            _ => false,
        }
    }

    /// Whether packets of this reliability carry a sequence index.
    pub fn sequenced(self) -> (r: bool)
        ensures
            r == (self.spec_id() == 1 || self.spec_id() == 4),
    {
        match self {
            ReliabilityFlag::UnreliableSequenced => true,
            ReliabilityFlag::ReliableSequenced => true,
            _ => false,
        }
    }

    /// Whether delivery of packets of this reliability is receipted.
    pub fn with_ack_receipt(self) -> (r: bool)
        ensures
            r == (self.spec_id() == 5 || self.spec_id() == 6 || self.spec_id() == 7),
    {
        match self {
            ReliabilityFlag::UnreliableWithAckReceipt => true,
            ReliabilityFlag::ReliableWithAckReceipt => true,
            ReliabilityFlag::ReliableOrderedWithAckReceipt => true,
            _ => false,
        }
    }
}

} // verus!
