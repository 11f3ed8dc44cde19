use rakrs::acklist::{Ack, Nack};
use rakrs::datagram::Datagram;
use rakrs::error::DecodeError;
use rakrs::inner::InnerPacket;
use rakrs::online::OnlinePacket;
use rakrs::reliability::InnerPacketReliability;
use rakrs::triad::Triad;

#[test]
fn ack_wrapper_round_trip() {
    // Flags VALID|ACK, then the records of [2,3,4,7].
    let p = OnlinePacket::Ack(Ack::new(vec![2, 3, 4, 7]));
    let mut v: Vec<u8> = Vec::new();
    p.write(&mut v);
    assert_eq!(v[0], 0xc0);
    assert_eq!(
        v[1..],
        [0x00, 0x02, 0x00, 0x00, 0x04, 0x00, 0x00, 0x01, 0x07, 0x00, 0x00]
    );
    let mut off = 0usize;
    let back = OnlinePacket::read(&v, &mut off).unwrap();
    match back {
        Some(OnlinePacket::Ack(a)) => assert_eq!(a.packets(), &vec![2, 3, 4, 7]),
        other => panic!("expected an ack, got {:?}", other),
    }
}

#[test]
fn invalid_bit_clear_yields_no_packet() {
    // A leading byte with bit 7 clear decodes to no packet without error.
    let v = vec![0x40u8, 0x01, 0x02, 0x00, 0x00];
    let mut off = 0usize;
    assert_eq!(OnlinePacket::read(&v, &mut off), Ok(None));
    assert_eq!(off, 1);
}

#[test]
fn nack_wrapper_round_trip() {
    let p = OnlinePacket::Nack(Nack::new(vec![9]));
    let mut v: Vec<u8> = Vec::new();
    p.write(&mut v);
    assert_eq!(v[0], 0xa0);
    let mut off = 0usize;
    let back = OnlinePacket::read(&v, &mut off).unwrap();
    match back {
        Some(OnlinePacket::Nack(n)) => assert_eq!(n.packets(), &vec![9]),
        other => panic!("expected a nack, got {:?}", other),
    }
}

#[test]
fn datagram_wrapper_round_trip() {
    let d = Datagram {
        packets: vec![
            InnerPacket {
                reliability: InnerPacketReliability::Unreliable,
                split: None,
                buffer: vec![0xaa, 0xbb],
            },
            InnerPacket {
                reliability: InnerPacketReliability::Unreliable,
                split: None,
                buffer: vec![0xcc],
            },
        ],
        seq_number: Triad(5),
    };
    let p = OnlinePacket::Datagram(d.clone());
    let mut v: Vec<u8> = Vec::new();
    p.write(&mut v);
    assert_eq!(v[0], 0x80);
    assert_eq!(&v[1..4], &[5, 0, 0]);
    let mut off = 0usize;
    let back = OnlinePacket::read(&v, &mut off).unwrap();
    assert_eq!(back, Some(OnlinePacket::Datagram(d)));
    assert_eq!(off, v.len());
}

#[test]
fn unused_flag_bits_are_ignored() {
    // PACKET_PAIR, CONTINUOUS_SEND and NEED_B_AND_AS set alongside VALID:
    // the payload still parses as a datagram.
    let d = Datagram {
        packets: vec![InnerPacket {
            reliability: InnerPacketReliability::Unreliable,
            split: None,
            buffer: vec![0x11],
        }],
        seq_number: Triad(1),
    };
    let mut v: Vec<u8> = Vec::new();
    OnlinePacket::Datagram(d.clone()).write(&mut v);
    v[0] = 0x80 | 0x10 | 0x08 | 0x04;
    let mut off = 0usize;
    let back = OnlinePacket::read(&v, &mut off).unwrap();
    assert_eq!(back, Some(OnlinePacket::Datagram(d)));
}

#[test]
fn datagram_trailing_partial_packet() {
    let v = vec![0x80u8, 1, 0, 0, 0x00, 0x00];
    let mut off = 0usize;
    assert_eq!(
        OnlinePacket::read(&v, &mut off),
        Err(DecodeError::UnexpectedEof)
    );
    assert_eq!(off, 0);
}

#[test]
fn empty_input_is_eof() {
    let v: Vec<u8> = Vec::new();
    let mut off = 0usize;
    assert_eq!(
        OnlinePacket::read(&v, &mut off),
        Err(DecodeError::UnexpectedEof)
    );
}
