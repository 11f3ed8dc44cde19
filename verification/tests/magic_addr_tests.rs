use rakrs::error::DecodeError;
use rakrs::magic::Magic;
use rakrs::socket_address::SocketAddress;

const MAGIC_BYTES: [u8; 16] = [
    0x00, 0xff, 0xff, 0x00, 0xfe, 0xfe, 0xfe, 0xfe, 0xfd, 0xfd, 0xfd, 0xfd, 0x12, 0x34, 0x56,
    0x78,
];

#[test]
fn magic_encodes_to_cookie() {
    let mut v: Vec<u8> = Vec::new();
    Magic.write(&mut v);
    assert_eq!(v, MAGIC_BYTES.to_vec());
}

#[test]
fn magic_round_trip() {
    let v = MAGIC_BYTES.to_vec();
    let mut off = 0usize;
    assert_eq!(Magic::read(&v, &mut off), Ok(Magic));
    assert_eq!(off, 16);
}

#[test]
fn magic_mismatch_on_flipped_byte() {
    let mut v = MAGIC_BYTES.to_vec();
    v[0] = 0x01;
    let mut off = 0usize;
    assert_eq!(Magic::read(&v, &mut off), Err(DecodeError::MagicMismatch));
    assert_eq!(off, 0);
}

#[test]
fn magic_eof_when_short() {
    let v = MAGIC_BYTES[..10].to_vec();
    let mut off = 0usize;
    assert_eq!(Magic::read(&v, &mut off), Err(DecodeError::UnexpectedEof));
}

#[test]
fn ipv4_address_inverted_octets() {
    // 192.168.1.1:19132 encodes to the version byte, the four inverted
    // octets, and the big-endian port.
    let addr = SocketAddress::V4 {
        ip: 0xc0a80101,
        port: 19132,
    };
    let mut v: Vec<u8> = Vec::new();
    addr.write(&mut v);
    assert_eq!(v, vec![0x04, 0x3f, 0x57, 0xfe, 0xfe, 0x4a, 0xbc]);
    let mut off = 0usize;
    assert_eq!(SocketAddress::read(&v, &mut off), Ok(addr));
    assert_eq!(off, 7);
}

#[test]
fn ipv6_address_round_trip() {
    let addr = SocketAddress::V6 {
        port: 19133,
        flow_info: 7,
        ip: 0x20010db8_00000000_00000000_00000001u128,
        scope_id: 3,
    };
    let mut v: Vec<u8> = Vec::new();
    addr.write(&mut v);
    assert_eq!(v.len(), 29);
    assert_eq!(v[0], 6);
    // the opaque address family, little-endian 10
    assert_eq!(&v[1..3], &[10, 0]);
    let mut off = 0usize;
    assert_eq!(SocketAddress::read(&v, &mut off), Ok(addr));
    assert_eq!(off, 29);
}

#[test]
fn address_unknown_version_byte() {
    let v = vec![5u8, 0, 0, 0, 0, 0, 0];
    let mut off = 0usize;
    assert_eq!(
        SocketAddress::read(&v, &mut off),
        Err(DecodeError::OutOfRange)
    );
    assert_eq!(off, 0);
}
