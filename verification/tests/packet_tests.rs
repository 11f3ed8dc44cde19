use rakrs::encap::{
    ConnectedPing, ConnectedPong, ConnectionRequest, ConnectionRequestAccepted,
    DisconnectionNotification, EncapPacket, NewIncomingConnection,
};
use rakrs::error::DecodeError;
use rakrs::magic::Magic;
use rakrs::offline::{
    IncompatibleProtocolVersion, OfflinePacket, OpenConnectionReply1, OpenConnectionReply2,
    OpenConnectionRequest1, OpenConnectionRequest2, UnconnectedPing, UnconnectedPong,
};
use rakrs::socket_address::SocketAddress;

fn offline_round_trip(p: OfflinePacket) -> Vec<u8> {
    let mut v: Vec<u8> = Vec::new();
    p.write(&mut v);
    let mut off = 0usize;
    let back = OfflinePacket::read(&v, &mut off).unwrap();
    assert_eq!(back, p);
    assert_eq!(off, v.len());
    v
}

fn encap_round_trip(p: EncapPacket) -> Vec<u8> {
    let mut v: Vec<u8> = Vec::new();
    p.write(&mut v);
    let mut off = 0usize;
    let back = EncapPacket::read(&v, &mut off).unwrap();
    assert_eq!(back, p);
    v
}

#[test]
fn unconnected_ping_wire() {
    let v = offline_round_trip(OfflinePacket::UnconnectedPing(UnconnectedPing {
        send_ping_time: 0x0102030405060708,
        magic: Magic,
        client_id: 42,
    }));
    assert_eq!(v[0], 0x01);
    assert_eq!(v.len(), 1 + 8 + 16 + 8);
    assert_eq!(&v[1..9], &[1, 2, 3, 4, 5, 6, 7, 8]);
}

#[test]
fn unconnected_pong_wire() {
    let v = offline_round_trip(OfflinePacket::UnconnectedPong(UnconnectedPong {
        send_ping_time: 7,
        server_id: 9,
        magic: Magic,
        server_name: String::from("MCPE;server"),
    }));
    assert_eq!(v[0], 0x1c);
    assert_eq!(v.len(), 1 + 8 + 8 + 16 + 2 + 11);
}

#[test]
fn unconnected_pong_invalid_utf8_name() {
    let mut v: Vec<u8> = Vec::new();
    OfflinePacket::UnconnectedPong(UnconnectedPong {
        send_ping_time: 1,
        server_id: 2,
        magic: Magic,
        server_name: String::from("ab"),
    })
    .write(&mut v);
    let n = v.len();
    v[n - 2] = 0xff;
    v[n - 1] = 0xfe;
    let mut off = 0usize;
    assert_eq!(
        OfflinePacket::read(&v, &mut off),
        Err(DecodeError::InvalidUtf8)
    );
}

#[test]
fn open_connection_request_1_pads_to_mtu() {
    // The padding length is the signal: the decoded MTU is the whole
    // packet length, discriminant byte included.
    let v = offline_round_trip(OfflinePacket::OpenConnectionRequest1(OpenConnectionRequest1 {
        magic: Magic,
        protocol: 10,
        mtu_size: 600,
    }));
    assert_eq!(v.len(), 600);
    assert_eq!(v[0], 0x05);
    assert_eq!(v[17], 10);
    assert!(v[18..].iter().all(|&b| b == 0));
}

#[test]
fn open_connection_reply_1_wire() {
    let v = offline_round_trip(OfflinePacket::OpenConnectionReply1(OpenConnectionReply1 {
        magic: Magic,
        server_id: 0x1111,
        server_security: false,
        mtu_size: 1492,
    }));
    assert_eq!(v[0], 0x06);
    assert_eq!(v.len(), 1 + 16 + 8 + 1 + 2);
    assert_eq!(&v[v.len() - 2..], &[0x05, 0xd4]);
}

#[test]
fn open_connection_request_2_wire() {
    let v = offline_round_trip(OfflinePacket::OpenConnectionRequest2(OpenConnectionRequest2 {
        magic: Magic,
        server_address: SocketAddress::V4 {
            ip: 0xc0a80101,
            port: 19132,
        },
        mtu_size: 1400,
        client_id: 77,
    }));
    assert_eq!(v[0], 0x07);
    assert_eq!(v.len(), 1 + 16 + 7 + 2 + 8);
}

#[test]
fn open_connection_reply_2_wire() {
    let v = offline_round_trip(OfflinePacket::OpenConnectionReply2(OpenConnectionReply2 {
        magic: Magic,
        server_id: 5,
        client_address: SocketAddress::V4 { ip: 0x7f000001, port: 9 },
        mtu_size: 1200,
        server_security: true,
    }));
    assert_eq!(v[0], 0x08);
}

#[test]
fn incompatible_protocol_version_wire() {
    let v = offline_round_trip(OfflinePacket::IncompatibleProtocolVersion(
        IncompatibleProtocolVersion {
            protocol_version: 11,
            magic: Magic,
            server_id: 3,
        },
    ));
    assert_eq!(v[0], 0x19);
    assert_eq!(v[1], 11);
}

#[test]
fn offline_unknown_discriminant() {
    let v = vec![0xffu8, 0, 0];
    let mut off = 0usize;
    assert_eq!(
        OfflinePacket::read(&v, &mut off),
        Err(DecodeError::OutOfRange)
    );
    assert_eq!(off, 0);
}

#[test]
fn connected_ping_pong_wire() {
    let v = encap_round_trip(EncapPacket::ConnectedPing(ConnectedPing { send_ping_time: 4 }));
    assert_eq!(v[0], 0x00);
    assert_eq!(v.len(), 9);
    let v = encap_round_trip(EncapPacket::ConnectedPong(ConnectedPong {
        send_ping_time: 4,
        send_pong_time: 6,
    }));
    assert_eq!(v[0], 0x03);
    assert_eq!(v.len(), 17);
}

#[test]
fn connection_request_wire() {
    let v = encap_round_trip(EncapPacket::ConnectionRequest(ConnectionRequest {
        client_id: 1,
        send_ping_time: 2,
        use_security: false,
    }));
    assert_eq!(v[0], 0x09);
    assert_eq!(v.len(), 1 + 8 + 8 + 1);
}

#[test]
fn connection_request_accepted_wire() {
    let v = encap_round_trip(EncapPacket::ConnectionRequestAccepted(
        ConnectionRequestAccepted {
            address: SocketAddress::V4 { ip: 0x0a000001, port: 4242 },
        },
    ));
    assert_eq!(v[0], 0x10);
}

#[test]
fn new_incoming_connection_variable_trailer() {
    // The system address list is variable; the decoder carves the two
    // trailing timestamps off the end first.
    let p = EncapPacket::NewIncomingConnection(NewIncomingConnection {
        address: SocketAddress::V4 { ip: 0x7f000001, port: 1 },
        system_addresses: vec![
            SocketAddress::V4 { ip: 0x7f000001, port: 2 },
            SocketAddress::V6 {
                port: 3,
                flow_info: 0,
                ip: 1,
                scope_id: 0,
            },
        ],
        send_ping_time: 0x10,
        send_pong_time: 0x20,
    });
    let v = encap_round_trip(p);
    assert_eq!(v[0], 0x13);
    assert_eq!(v.len(), 1 + 7 + 7 + 29 + 16);
}

#[test]
fn new_incoming_connection_without_tail() {
    let v = vec![0x13u8, 0x04, 0xff, 0xff, 0xff, 0xff, 0x00, 0x01, 0, 0, 0];
    let mut off = 0usize;
    assert_eq!(
        EncapPacket::read(&v, &mut off),
        Err(DecodeError::UnexpectedEof)
    );
}

#[test]
fn disconnection_notification_wire() {
    let v = encap_round_trip(EncapPacket::DisconnectionNotification(
        DisconnectionNotification {},
    ));
    assert_eq!(v, vec![0x15]);
}

#[test]
fn encap_unknown_discriminant() {
    let v = vec![0x42u8];
    let mut off = 0usize;
    assert_eq!(EncapPacket::read(&v, &mut off), Err(DecodeError::OutOfRange));
}
