use rakrs::error::DecodeError;
use rakrs::inner::InnerPacket;
use rakrs::reliability::{
    InnerPacketReliability, Ordered, Reliable, ReliabilityFlag, Sequenced, Split,
};
use rakrs::triad::Triad;

#[test]
fn unreliable_inner_packet_bytes() {
    // Reliability Unreliable, no split, payload AA BB: flags 0, sixteen
    // payload bits big-endian, then the payload.
    let p = InnerPacket {
        reliability: InnerPacketReliability::Unreliable,
        split: None,
        buffer: vec![0xaa, 0xbb],
    };
    let mut v: Vec<u8> = Vec::new();
    p.write(&mut v);
    assert_eq!(v, vec![0x00, 0x00, 0x10, 0xaa, 0xbb]);
    let mut off = 0usize;
    assert_eq!(InnerPacket::read(&v, &mut off), Ok(p));
    assert_eq!(off, 5);
}

#[test]
fn reliable_ordered_inner_packet_bytes() {
    // message_index 1, order_index 0, channel 0, payload DE AD.
    let p = InnerPacket {
        reliability: InnerPacketReliability::ReliableOrdered(
            Reliable {
                message_index: Triad(1),
            },
            Ordered {
                order_index: Triad(0),
                order_channel: 0,
            },
        ),
        split: None,
        buffer: vec![0xde, 0xad],
    };
    let mut v: Vec<u8> = Vec::new();
    p.write(&mut v);
    assert_eq!(
        v,
        vec![0x60, 0x00, 0x10, 0x01, 0x00, 0x00, 0x00, 0x00, 0x00, 0x00, 0xde, 0xad]
    );
    let mut off = 0usize;
    assert_eq!(InnerPacket::read(&v, &mut off), Ok(p));
}

#[test]
fn sequenced_inner_packet_round_trip() {
    let p = InnerPacket {
        reliability: InnerPacketReliability::UnreliableSequenced(Sequenced {
            sequence_index: Triad(9),
            ordered: Ordered {
                order_index: Triad(4),
                order_channel: 7,
            },
        }),
        split: None,
        buffer: vec![1, 2, 3],
    };
    let mut v: Vec<u8> = Vec::new();
    p.write(&mut v);
    assert_eq!(v[0], 0x20);
    let mut off = 0usize;
    assert_eq!(InnerPacket::read(&v, &mut off), Ok(p));
}

#[test]
fn reliable_sequenced_inner_packet_round_trip() {
    let p = InnerPacket {
        reliability: InnerPacketReliability::ReliableSequenced(
            Reliable {
                message_index: Triad(100),
            },
            Sequenced {
                sequence_index: Triad(200),
                ordered: Ordered {
                    order_index: Triad(300),
                    order_channel: 31,
                },
            },
        ),
        split: None,
        buffer: vec![0x55],
    };
    let mut v: Vec<u8> = Vec::new();
    p.write(&mut v);
    assert_eq!(v[0], 0x80);
    let mut off = 0usize;
    assert_eq!(InnerPacket::read(&v, &mut off), Ok(p));
}

#[test]
fn split_inner_packet_round_trip() {
    let p = InnerPacket {
        reliability: InnerPacketReliability::Reliable(Reliable {
            message_index: Triad(5),
        }),
        split: Some(Split {
            split_count: 3,
            split_id: 0x1234,
            split_index: 1,
        }),
        buffer: vec![9, 8, 7, 6],
    };
    let mut v: Vec<u8> = Vec::new();
    p.write(&mut v);
    // reliability id 2 in the upper bits plus the split bit
    assert_eq!(v[0], 0x50);
    // split descriptor: count u32, id u16, index u32, all big-endian
    assert_eq!(&v[6..16], &[0, 0, 0, 3, 0x12, 0x34, 0, 0, 0, 1]);
    let mut off = 0usize;
    assert_eq!(InnerPacket::read(&v, &mut off), Ok(p));
}

#[test]
fn inner_packet_zero_bits_rejected() {
    let v = vec![0x00, 0x00, 0x00, 0xaa];
    let mut off = 0usize;
    assert_eq!(InnerPacket::read(&v, &mut off), Err(DecodeError::OutOfRange));
    assert_eq!(off, 0);
}

#[test]
fn inner_packet_truncated_payload() {
    let v = vec![0x00, 0x00, 0x18, 0xaa, 0xbb];
    let mut off = 0usize;
    assert_eq!(
        InnerPacket::read(&v, &mut off),
        Err(DecodeError::UnexpectedEof)
    );
}

#[test]
fn inner_packet_size_matches_encoding() {
    let p = InnerPacket {
        reliability: InnerPacketReliability::ReliableOrderedWithAckReceipt(
            Reliable {
                message_index: Triad(1),
            },
            Ordered {
                order_index: Triad(2),
                order_channel: 3,
            },
        ),
        split: Some(Split {
            split_count: 2,
            split_id: 1,
            split_index: 0,
        }),
        buffer: vec![0; 10],
    };
    let mut v: Vec<u8> = Vec::new();
    p.write(&mut v);
    assert_eq!(p.size(), v.len());
    assert_eq!(p.size(), 3 + 3 + 4 + 10 + 10);
}

#[test]
fn reliability_flag_bits() {
    assert_eq!(ReliabilityFlag::ReliableOrdered.to_u8(), 0x60);
    assert_eq!(ReliabilityFlag::from_u8(0x60), (ReliabilityFlag::ReliableOrdered, false));
    assert_eq!(ReliabilityFlag::from_u8(0x74), (ReliabilityFlag::ReliableOrdered, true));
    assert!(ReliabilityFlag::ReliableOrdered.reliable());
    assert!(ReliabilityFlag::ReliableOrdered.ordered());
    assert!(!ReliabilityFlag::ReliableOrdered.sequenced());
    assert!(!ReliabilityFlag::ReliableOrdered.with_ack_receipt());
    assert!(ReliabilityFlag::UnreliableSequenced.sequenced());
    assert!(ReliabilityFlag::UnreliableSequenced.ordered());
    assert!(ReliabilityFlag::ReliableOrderedWithAckReceipt.with_ack_receipt());
    assert_eq!(ReliabilityFlag::Unreliable.to_u8(), 0);
}

#[test]
fn inner_packet_reliability_accessors() {
    let r = InnerPacketReliability::ReliableSequenced(
        Reliable {
            message_index: Triad(1),
        },
        Sequenced {
            sequence_index: Triad(2),
            ordered: Ordered {
                order_index: Triad(3),
                order_channel: 4,
            },
        },
    );
    assert_eq!(r.id(), 4);
    assert_eq!(r.reliable().unwrap().message_index, Triad(1));
    assert_eq!(r.sequenced().unwrap().sequence_index, Triad(2));
    assert!(r.ordered().is_none());
    assert_eq!(r.sequenced_or_ordered().unwrap().order_index, Triad(3));
    let r2 = r.with_message_index(Triad(9));
    assert_eq!(r2.reliable().unwrap().message_index, Triad(9));
    assert_eq!(r2.id(), 4);
}
