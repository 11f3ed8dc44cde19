//! The offline (pre-session) packet catalogue: one discriminant byte, then
//! the variant's body.

use vstd::prelude::*;

use crate::codec;
use crate::error::DecodeError;
use crate::magic::{magic_bytes, parse_magic, Magic};
use crate::socket_address::{parse_sockaddr, sockaddr_wire, SocketAddress};

verus! {

pub const ID_UNCONNECTED_PING: u8 = 0x01;

pub const ID_UNCONNECTED_PING_OPEN_CONNECTIONS: u8 = 0x02;

pub const ID_OPEN_CONNECTION_REQUEST_1: u8 = 0x05;

pub const ID_OPEN_CONNECTION_REPLY_1: u8 = 0x06;

pub const ID_OPEN_CONNECTION_REQUEST_2: u8 = 0x07;

pub const ID_OPEN_CONNECTION_REPLY_2: u8 = 0x08;

pub const ID_INCOMPATIBLE_PROTOCOL_VERSION: u8 = 0x19;

pub const ID_UNCONNECTED_PONG: u8 = 0x1c;

/// `n` zero bytes.
pub open spec fn zero_bytes(n: int) -> Seq<u8> {
    Seq::new(n as nat, |k: int| 0u8)
}

/// Appends `n` zero bytes.
fn write_zeros(vec: &mut Vec<u8>, n: usize)
    ensures
        final(vec)@ == old(vec)@ + zero_bytes(n as int),
{
    let mut k: usize = 0;
    while k < n
        invariant
            k <= n,
            vec@ == old(vec)@ + zero_bytes(k as int),
        decreases n - k,
    {
        vec.push(0);
        proof {
            assert(vec@ =~= old(vec)@ + zero_bytes(k as int + 1));
        }
        k = k + 1;
    }
}

/// A ping probe sent to a server that is not yet a session peer.
#[derive(Clone, Copy, Debug, PartialEq, Eq, Structural)]
pub struct UnconnectedPing {
    pub send_ping_time: u64,
    pub magic: Magic,
    pub client_id: u64,
}

/// The ping variant that only open servers answer; same body as the ping.
#[derive(Clone, Copy, Debug, PartialEq, Eq, Structural)]
pub struct UnconnectedPingOpenConnections {
    pub send_ping_time: u64,
    pub magic: Magic,
    pub client_id: u64,
}

/// The server's answer to an unconnected ping.
#[derive(Clone, Debug, PartialEq)]
pub struct UnconnectedPong {
    pub send_ping_time: u64,
    pub server_id: u64,
    pub magic: Magic,
    pub server_name: String,
}

/// The first open-connection handshake packet; its zero padding extends
/// the whole packet to the MTU the client probes for.
#[derive(Clone, Copy, Debug, PartialEq, Eq, Structural)]
pub struct OpenConnectionRequest1 {
    pub magic: Magic,
    pub protocol: u8,
    pub mtu_size: usize,
}

/// The server's answer to the first open-connection request.
#[derive(Clone, Copy, Debug, PartialEq, Eq, Structural)]
pub struct OpenConnectionReply1 {
    pub magic: Magic,
    pub server_id: u64,
    pub server_security: bool,
    pub mtu_size: u16,
}

/// The second open-connection handshake packet.
#[derive(Clone, Copy, Debug, PartialEq)]
pub struct OpenConnectionRequest2 {
    pub magic: Magic,
    pub server_address: SocketAddress,
    pub mtu_size: u16,
    pub client_id: u64,
}

/// The server's answer to the second open-connection request.
#[derive(Clone, Copy, Debug, PartialEq)]
pub struct OpenConnectionReply2 {
    pub magic: Magic,
    pub server_id: u64,
    pub client_address: SocketAddress,
    pub mtu_size: u16,
    pub server_security: bool,
}

/// The server's refusal of a client whose protocol version it does not
/// speak.
#[derive(Clone, Copy, Debug, PartialEq, Eq, Structural)]
pub struct IncompatibleProtocolVersion {
    pub protocol_version: u8,
    pub magic: Magic,
    pub server_id: u64,
}

impl UnconnectedPing {
    /// The body bytes after the discriminant.
    pub open spec fn wire(self) -> Seq<u8> {
        codec::be_bytes(self.send_ping_time as nat, 8) + magic_bytes() + codec::be_bytes(
            self.client_id as nat,
            8,
        )
    }

    /// Parse of the body at `i`.
    pub open spec fn parse(s: Seq<u8>, i: int) -> Result<(UnconnectedPing, int), DecodeError> {
        match codec::parse_be(s, i, 8) {
            Ok((t, j)) => match parse_magic(s, j) {
                Ok(k) => match codec::parse_be(s, k, 8) {
                    Ok((c, m)) => Ok(
                        (
                            UnconnectedPing {
                                send_ping_time: t as u64,
                                magic: Magic,
                                client_id: c as u64,
                            },
                            m,
                        ),
                    ),
                    Err(e) => Err(e),
                },
                Err(e) => Err(e),
            },
            Err(e) => Err(e),
        }
    }

    /// Appends the body bytes.
    pub fn write(&self, vec: &mut Vec<u8>)
        ensures
            final(vec)@ == old(vec)@ + self.wire(),
    {
        codec::write_u64_be(vec, self.send_ping_time);
        self.magic.write(vec);
        codec::write_u64_be(vec, self.client_id);
        assert(vec@ =~= old(vec)@ + self.wire());
    }

    /// Reads the body.
    pub fn read(src: &Vec<u8>, offset: &mut usize) -> (r: Result<UnconnectedPing, DecodeError>)
        ensures
            match Self::parse(src@, *old(offset) as int) {
                Ok(p) => r == Ok::<UnconnectedPing, DecodeError>(p.0) && *final(offset) == p.1,
                Err(e) => r == Err::<UnconnectedPing, DecodeError>(e) && *final(offset) == *old(
                    offset,
                ),
            },
    {
        let start = *offset;
        let send_ping_time = match codec::read_u64_be(src, offset) {
            Ok(v) => v,
            Err(e) => {
                return Err(e);
            },
        };
        let magic = match Magic::read(src, offset) {
            Ok(v) => v,
            Err(e) => {
                *offset = start;
                return Err(e);
            },
        };
        let client_id = match codec::read_u64_be(src, offset) {
            Ok(v) => v,
            Err(e) => {
                *offset = start;
                return Err(e);
            },
        };
        Ok(UnconnectedPing { send_ping_time, magic, client_id })
    }
}

impl UnconnectedPingOpenConnections {
    /// The body bytes after the discriminant.
    pub open spec fn wire(self) -> Seq<u8> {
        codec::be_bytes(self.send_ping_time as nat, 8) + magic_bytes() + codec::be_bytes(
            self.client_id as nat,
            8,
        )
    }

    /// Parse of the body at `i`.
    pub open spec fn parse(s: Seq<u8>, i: int) -> Result<
        (UnconnectedPingOpenConnections, int),
        DecodeError,
    > {
        match UnconnectedPing::parse(s, i) {
            Ok((p, j)) => Ok(
                (
                    UnconnectedPingOpenConnections {
                        send_ping_time: p.send_ping_time,
                        magic: Magic,
                        client_id: p.client_id,
                    },
                    j,
                ),
            ),
            Err(e) => Err(e),
        }
    }

    /// Appends the body bytes.
    pub fn write(&self, vec: &mut Vec<u8>)
        ensures
            final(vec)@ == old(vec)@ + self.wire(),
    {
        codec::write_u64_be(vec, self.send_ping_time);
        self.magic.write(vec);
        codec::write_u64_be(vec, self.client_id);
        assert(vec@ =~= old(vec)@ + self.wire());
    }

    /// Reads the body.
    pub fn read(src: &Vec<u8>, offset: &mut usize) -> (r: Result<
        UnconnectedPingOpenConnections,
        DecodeError,
    >)
        ensures
            match Self::parse(src@, *old(offset) as int) {
                Ok(p) => r == Ok::<UnconnectedPingOpenConnections, DecodeError>(p.0) && *final(offset) == p.1,
                Err(e) => r == Err::<UnconnectedPingOpenConnections, DecodeError>(e) && *final(offset) == *old(offset),
            },
    {
        match UnconnectedPing::read(src, offset) {
            Ok(p) => Ok(
                UnconnectedPingOpenConnections {
                    send_ping_time: p.send_ping_time,
                    magic: Magic,
                    client_id: p.client_id,
                },
            ),
            Err(e) => Err(e),
        }
    }
}

impl UnconnectedPong {
    /// The name's UTF-8 bytes fit the 16-bit length prefix.
    pub open spec fn wf(self) -> bool {
        codec::string_wf(self.server_name@)
    }

    /// The body bytes after the discriminant.
    pub open spec fn wire(self) -> Seq<u8> {
        codec::be_bytes(self.send_ping_time as nat, 8) + codec::be_bytes(self.server_id as nat, 8)
            + magic_bytes() + codec::string_wire(self.server_name@)
    }

    /// Parse of the body at `i`; the name is returned as its characters.
    pub open spec fn parse(s: Seq<u8>, i: int) -> Result<
        ((u64, u64, Seq<char>), int),
        DecodeError,
    > {
        match codec::parse_be(s, i, 8) {
            Ok((t, j)) => match codec::parse_be(s, j, 8) {
                Ok((sid, k)) => match parse_magic(s, k) {
                    Ok(m) => match codec::parse_string(s, m) {
                        Ok((name, q)) => Ok(((t as u64, sid as u64, name), q)),
                        Err(e) => Err(e),
                    },
                    Err(e) => Err(e),
                },
                Err(e) => Err(e),
            },
            Err(e) => Err(e),
        }
    }

    /// Appends the body bytes.
    pub fn write(&self, vec: &mut Vec<u8>)
        requires
            self.wf(),
        ensures
            final(vec)@ == old(vec)@ + self.wire(),
    {
        codec::write_u64_be(vec, self.send_ping_time);
        codec::write_u64_be(vec, self.server_id);
        self.magic.write(vec);
        codec::write_string(vec, &self.server_name);
        assert(vec@ =~= old(vec)@ + self.wire());
    }

    /// Reads the body.
    pub fn read(src: &Vec<u8>, offset: &mut usize) -> (r: Result<UnconnectedPong, DecodeError>)
        ensures
            match Self::parse(src@, *old(offset) as int) {
                Ok(p) => r matches Ok(q) && q.send_ping_time == p.0.0 && q.server_id == p.0.1
                    && q.server_name@ == p.0.2 && *final(offset) == p.1,
                Err(e) => r == Err::<UnconnectedPong, DecodeError>(e) && *final(offset) == *old(
                    offset,
                ),
            },
    {
        let start = *offset;
        let send_ping_time = match codec::read_u64_be(src, offset) {
            Ok(v) => v,
            Err(e) => {
                return Err(e);
            },
        };
        let server_id = match codec::read_u64_be(src, offset) {
            Ok(v) => v,
            Err(e) => {
                *offset = start;
                return Err(e);
            },
        };
        let magic = match Magic::read(src, offset) {
            Ok(v) => v,
            Err(e) => {
                *offset = start;
                return Err(e);
            },
        };
        let server_name = match codec::read_string(src, offset) {
            Ok(v) => v,
            Err(e) => {
                *offset = start;
                return Err(e);
            },
        };
        Ok(UnconnectedPong { send_ping_time, server_id, magic, server_name })
    }
}

impl OpenConnectionRequest1 {
    /// The whole packet, discriminant byte included, fills the probed MTU.
    pub open spec fn wf(self) -> bool {
        18 <= self.mtu_size
    }

    /// The body bytes after the discriminant: the cookie, the protocol
    /// version, and zero padding out to the MTU.
    pub open spec fn wire(self) -> Seq<u8> {
        magic_bytes() + seq![self.protocol] + zero_bytes(self.mtu_size - 18)
    }

    /// Parse of the body at `i`: the probed MTU is the whole packet
    /// length, and the padding is consumed without inspection.
    pub open spec fn parse(s: Seq<u8>, i: int) -> Result<
        (OpenConnectionRequest1, int),
        DecodeError,
    > {
        match parse_magic(s, i) {
            Ok(j) => if j + 1 <= s.len() {
                Ok(
                    (
                        OpenConnectionRequest1 {
                            magic: Magic,
                            protocol: s[j],
                            mtu_size: s.len() as usize,
                        },
                        s.len() as int,
                    ),
                )
            } else {
                Err(DecodeError::UnexpectedEof)
            },
            Err(e) => Err(e),
        }
    }

    /// Appends the body bytes.
    pub fn write(&self, vec: &mut Vec<u8>)
        requires
            self.wf(),
        ensures
            final(vec)@ == old(vec)@ + self.wire(),
    {
        self.magic.write(vec);
        codec::write_u8(vec, self.protocol);
        write_zeros(vec, self.mtu_size - 18);
        assert(vec@ =~= old(vec)@ + self.wire());
    }

    /// Reads the body, taking the packet length as the probed MTU.
    pub fn read(src: &Vec<u8>, offset: &mut usize) -> (r: Result<
        OpenConnectionRequest1,
        DecodeError,
    >)
        ensures
            match Self::parse(src@, *old(offset) as int) {
                Ok(p) => r == Ok::<OpenConnectionRequest1, DecodeError>(p.0) && *final(offset)
                    == p.1,
                Err(e) => r == Err::<OpenConnectionRequest1, DecodeError>(e) && *final(offset)
                    == *old(offset),
            },
    {
        let start = *offset;
        let magic = match Magic::read(src, offset) {
            Ok(v) => v,
            Err(e) => {
                return Err(e);
            },
        };
        let protocol = match codec::read_u8(src, offset) {
            Ok(v) => v,
            Err(e) => {
                *offset = start;
                return Err(e);
            },
        };
        let mtu_size = src.len();
        *offset = src.len();
        Ok(OpenConnectionRequest1 { magic, protocol, mtu_size })
    }
}

impl OpenConnectionReply1 {
    /// The body bytes after the discriminant.
    pub open spec fn wire(self) -> Seq<u8> {
        magic_bytes() + codec::be_bytes(self.server_id as nat, 8) + codec::bool_bytes(
            self.server_security,
        ) + codec::be_bytes(self.mtu_size as nat, 2)
    }

    /// Parse of the body at `i`.
    pub open spec fn parse(s: Seq<u8>, i: int) -> Result<(OpenConnectionReply1, int), DecodeError> {
        match parse_magic(s, i) {
            Ok(j) => match codec::parse_be(s, j, 8) {
                Ok((sid, k)) => match codec::parse_bool(s, k) {
                    Ok((sec, m)) => match codec::parse_be(s, m, 2) {
                        Ok((mtu, q)) => Ok(
                            (
                                OpenConnectionReply1 {
                                    magic: Magic,
                                    server_id: sid as u64,
                                    server_security: sec,
                                    mtu_size: mtu as u16,
                                },
                                q,
                            ),
                        ),
                        Err(e) => Err(e),
                    },
                    Err(e) => Err(e),
                },
                Err(e) => Err(e),
            },
            Err(e) => Err(e),
        }
    }

    /// Appends the body bytes.
    pub fn write(&self, vec: &mut Vec<u8>)
        ensures
            final(vec)@ == old(vec)@ + self.wire(),
    {
        self.magic.write(vec);
        codec::write_u64_be(vec, self.server_id);
        codec::write_bool(vec, self.server_security);
        codec::write_u16_be(vec, self.mtu_size);
        assert(vec@ =~= old(vec)@ + self.wire());
    }

    /// Reads the body.
    pub fn read(src: &Vec<u8>, offset: &mut usize) -> (r: Result<OpenConnectionReply1, DecodeError>)
        ensures
            match Self::parse(src@, *old(offset) as int) {
                Ok(p) => r == Ok::<OpenConnectionReply1, DecodeError>(p.0) && *final(offset)
                    == p.1,
                Err(e) => r == Err::<OpenConnectionReply1, DecodeError>(e) && *final(offset)
                    == *old(offset),
            },
    {
        let start = *offset;
        let magic = match Magic::read(src, offset) {
            Ok(v) => v,
            Err(e) => {
                return Err(e);
            },
        };
        let server_id = match codec::read_u64_be(src, offset) {
            Ok(v) => v,
            Err(e) => {
                *offset = start;
                return Err(e);
            },
        };
        let server_security = match codec::read_bool(src, offset) {
            Ok(v) => v,
            Err(e) => {
                *offset = start;
                return Err(e);
            },
        };
        let mtu_size = match codec::read_u16_be(src, offset) {
            Ok(v) => v,
            Err(e) => {
                *offset = start;
                return Err(e);
            },
        };
        Ok(OpenConnectionReply1 { magic, server_id, server_security, mtu_size })
    }
}

impl OpenConnectionRequest2 {
    /// The body bytes after the discriminant.
    pub open spec fn wire(self) -> Seq<u8> {
        magic_bytes() + sockaddr_wire(self.server_address) + codec::be_bytes(
            self.mtu_size as nat,
            2,
        ) + codec::be_bytes(self.client_id as nat, 8)
    }

    /// Parse of the body at `i`.
    pub open spec fn parse(s: Seq<u8>, i: int) -> Result<
        (OpenConnectionRequest2, int),
        DecodeError,
    > {
        match parse_magic(s, i) {
            Ok(j) => match parse_sockaddr(s, j) {
                Ok((addr, k)) => match codec::parse_be(s, k, 2) {
                    Ok((mtu, m)) => match codec::parse_be(s, m, 8) {
                        Ok((cid, q)) => Ok(
                            (
                                OpenConnectionRequest2 {
                                    magic: Magic,
                                    server_address: addr,
                                    mtu_size: mtu as u16,
                                    client_id: cid as u64,
                                },
                                q,
                            ),
                        ),
                        Err(e) => Err(e),
                    },
                    Err(e) => Err(e),
                },
                Err(e) => Err(e),
            },
            Err(e) => Err(e),
        }
    }

    /// Appends the body bytes.
    pub fn write(&self, vec: &mut Vec<u8>)
        ensures
            final(vec)@ == old(vec)@ + self.wire(),
    {
        self.magic.write(vec);
        self.server_address.write(vec);
        codec::write_u16_be(vec, self.mtu_size);
        codec::write_u64_be(vec, self.client_id);
        assert(vec@ =~= old(vec)@ + self.wire());
    }

    /// Reads the body.
    pub fn read(src: &Vec<u8>, offset: &mut usize) -> (r: Result<
        OpenConnectionRequest2,
        DecodeError,
    >)
        ensures
            match Self::parse(src@, *old(offset) as int) {
                Ok(p) => r == Ok::<OpenConnectionRequest2, DecodeError>(p.0) && *final(offset)
                    == p.1,
                Err(e) => r == Err::<OpenConnectionRequest2, DecodeError>(e) && *final(offset)
                    == *old(offset),
            },
    {
        let start = *offset;
        let magic = match Magic::read(src, offset) {
            Ok(v) => v,
            Err(e) => {
                return Err(e);
            },
        };
        let server_address = match SocketAddress::read(src, offset) {
            Ok(v) => v,
            Err(e) => {
                *offset = start;
                return Err(e);
            },
        };
        let mtu_size = match codec::read_u16_be(src, offset) {
            Ok(v) => v,
            Err(e) => {
                *offset = start;
                return Err(e);
            },
        };
        let client_id = match codec::read_u64_be(src, offset) {
            Ok(v) => v,
            Err(e) => {
                *offset = start;
                return Err(e);
            },
        };
        Ok(OpenConnectionRequest2 { magic, server_address, mtu_size, client_id })
    }
}

impl OpenConnectionReply2 {
    /// The body bytes after the discriminant.
    pub open spec fn wire(self) -> Seq<u8> {
        magic_bytes() + codec::be_bytes(self.server_id as nat, 8) + sockaddr_wire(
            self.client_address,
        ) + codec::be_bytes(self.mtu_size as nat, 2) + codec::bool_bytes(self.server_security)
    }

    /// Parse of the body at `i`.
    pub open spec fn parse(s: Seq<u8>, i: int) -> Result<(OpenConnectionReply2, int), DecodeError> {
        match parse_magic(s, i) {
            Ok(j) => match codec::parse_be(s, j, 8) {
                Ok((sid, k)) => match parse_sockaddr(s, k) {
                    Ok((addr, m)) => match codec::parse_be(s, m, 2) {
                        Ok((mtu, q)) => match codec::parse_bool(s, q) {
                            Ok((sec, w)) => Ok(
                                (
                                    OpenConnectionReply2 {
                                        magic: Magic,
                                        server_id: sid as u64,
                                        client_address: addr,
                                        mtu_size: mtu as u16,
                                        server_security: sec,
                                    },
                                    w,
                                ),
                            ),
                            Err(e) => Err(e),
                        },
                        Err(e) => Err(e),
                    },
                    Err(e) => Err(e),
                },
                Err(e) => Err(e),
            },
            Err(e) => Err(e),
        }
    }

    /// Appends the body bytes.
    pub fn write(&self, vec: &mut Vec<u8>)
        ensures
            final(vec)@ == old(vec)@ + self.wire(),
    {
        self.magic.write(vec);
        codec::write_u64_be(vec, self.server_id);
        self.client_address.write(vec);
        codec::write_u16_be(vec, self.mtu_size);
        codec::write_bool(vec, self.server_security);
        assert(vec@ =~= old(vec)@ + self.wire());
    }

    /// Reads the body.
    pub fn read(src: &Vec<u8>, offset: &mut usize) -> (r: Result<OpenConnectionReply2, DecodeError>)
        ensures
            match Self::parse(src@, *old(offset) as int) {
                Ok(p) => r == Ok::<OpenConnectionReply2, DecodeError>(p.0) && *final(offset)
                    == p.1,
                Err(e) => r == Err::<OpenConnectionReply2, DecodeError>(e) && *final(offset)
                    == *old(offset),
            },
    {
        let start = *offset;
        let magic = match Magic::read(src, offset) {
            Ok(v) => v,
            Err(e) => {
                return Err(e);
            },
        };
        let server_id = match codec::read_u64_be(src, offset) {
            Ok(v) => v,
            Err(e) => {
                *offset = start;
                return Err(e);
            },
        };
        let client_address = match SocketAddress::read(src, offset) {
            Ok(v) => v,
            Err(e) => {
                *offset = start;
                return Err(e);
            },
        };
        let mtu_size = match codec::read_u16_be(src, offset) {
            Ok(v) => v,
            Err(e) => {
                *offset = start;
                return Err(e);
            },
        };
        let server_security = match codec::read_bool(src, offset) {
            Ok(v) => v,
            Err(e) => {
                *offset = start;
                return Err(e);
            },
        };
        Ok(OpenConnectionReply2 { magic, server_id, client_address, mtu_size, server_security })
    }
}

impl IncompatibleProtocolVersion {
    /// The body bytes after the discriminant.
    pub open spec fn wire(self) -> Seq<u8> {
        seq![self.protocol_version] + magic_bytes() + codec::be_bytes(self.server_id as nat, 8)
    }

    /// Parse of the body at `i`.
    pub open spec fn parse(s: Seq<u8>, i: int) -> Result<
        (IncompatibleProtocolVersion, int),
        DecodeError,
    > {
        if !(0 <= i && i + 1 <= s.len()) {
            Err(DecodeError::UnexpectedEof)
        } else {
            match parse_magic(s, i + 1) {
                Ok(j) => match codec::parse_be(s, j, 8) {
                    Ok((sid, k)) => Ok(
                        (
                            IncompatibleProtocolVersion {
                                protocol_version: s[i],
                                magic: Magic,
                                server_id: sid as u64,
                            },
                            k,
                        ),
                    ),
                    Err(e) => Err(e),
                },
                Err(e) => Err(e),
            }
        }
    }

    /// Appends the body bytes.
    pub fn write(&self, vec: &mut Vec<u8>)
        ensures
            final(vec)@ == old(vec)@ + self.wire(),
    {
        codec::write_u8(vec, self.protocol_version);
        self.magic.write(vec);
        codec::write_u64_be(vec, self.server_id);
        assert(vec@ =~= old(vec)@ + self.wire());
    }

    /// Reads the body.
    pub fn read(src: &Vec<u8>, offset: &mut usize) -> (r: Result<
        IncompatibleProtocolVersion,
        DecodeError,
    >)
        ensures
            match Self::parse(src@, *old(offset) as int) {
                Ok(p) => r == Ok::<IncompatibleProtocolVersion, DecodeError>(p.0) && *final(offset)
                    == p.1,
                Err(e) => r == Err::<IncompatibleProtocolVersion, DecodeError>(e) && *final(offset)
                    == *old(offset),
            },
    {
        let start = *offset;
        let protocol_version = match codec::read_u8(src, offset) {
            Ok(v) => v,
            Err(e) => {
                return Err(e);
            },
        };
        let magic = match Magic::read(src, offset) {
            Ok(v) => v,
            Err(e) => {
                *offset = start;
                return Err(e);
            },
        };
        let server_id = match codec::read_u64_be(src, offset) {
            Ok(v) => v,
            Err(e) => {
                *offset = start;
                return Err(e);
            },
        };
        Ok(IncompatibleProtocolVersion { protocol_version, magic, server_id })
    }
}

/// Parsing where the body bytes of an unconnected ping are known to sit
/// restores it.
pub proof fn lemma_parse_unconnected_ping_of_wire(b: UnconnectedPing, s: Seq<u8>, i: int)
    requires
        0 <= i,
        i + b.wire().len() <= s.len(),
        s.subrange(i, i + b.wire().len()) == b.wire(),
    ensures
        UnconnectedPing::parse(s, i) == Ok::<(UnconnectedPing, int), DecodeError>(
            (b, i + b.wire().len()),
        ),
{
    let w = b.wire();
    codec::lemma_pow256_vals();
    codec::lemma_be_bytes_len(b.send_ping_time as nat, 8);
    codec::lemma_be_bytes_len(b.client_id as nat, 8);
    assert(w.subrange(0, 8) =~= codec::be_bytes(b.send_ping_time as nat, 8));
    codec::lemma_subrange_within(s, i, w, 0, 8);
    codec::lemma_parse_be_of_wire(s, i, b.send_ping_time as nat, 8);
    assert(w.subrange(8, 24) =~= magic_bytes());
    codec::lemma_subrange_within(s, i, w, 8, 24);
    assert(w.subrange(24, 32) =~= codec::be_bytes(b.client_id as nat, 8));
    codec::lemma_subrange_within(s, i, w, 24, 32);
    codec::lemma_parse_be_of_wire(s, i + 24, b.client_id as nat, 8);
}

/// Parsing where the body bytes of an unconnected pong are known to sit
/// restores its fields.
pub proof fn lemma_parse_unconnected_pong_of_wire(b: UnconnectedPong, s: Seq<u8>, i: int)
    requires
        0 <= i,
        b.wf(),
        i + b.wire().len() <= s.len(),
        s.subrange(i, i + b.wire().len()) == b.wire(),
    ensures
        UnconnectedPong::parse(s, i) == Ok::<((u64, u64, Seq<char>), int), DecodeError>(
            ((b.send_ping_time, b.server_id, b.server_name@), i + b.wire().len()),
        ),
{
    let w = b.wire();
    codec::lemma_pow256_vals();
    codec::lemma_be_bytes_len(b.send_ping_time as nat, 8);
    codec::lemma_be_bytes_len(b.server_id as nat, 8);
    let sw = codec::string_wire(b.server_name@);
    assert(w.subrange(0, 8) =~= codec::be_bytes(b.send_ping_time as nat, 8));
    codec::lemma_subrange_within(s, i, w, 0, 8);
    codec::lemma_parse_be_of_wire(s, i, b.send_ping_time as nat, 8);
    assert(w.subrange(8, 16) =~= codec::be_bytes(b.server_id as nat, 8));
    codec::lemma_subrange_within(s, i, w, 8, 16);
    codec::lemma_parse_be_of_wire(s, i + 8, b.server_id as nat, 8);
    assert(w.subrange(16, 32) =~= magic_bytes());
    codec::lemma_subrange_within(s, i, w, 16, 32);
    assert(w.subrange(32, w.len() as int) =~= sw);
    codec::lemma_subrange_within(s, i, w, 32, w.len() as int);
    codec::lemma_parse_string_of_wire(s, i + 32, b.server_name@);
}

/// Parsing where the body bytes of the first open-connection reply are
/// known to sit restores it.
pub proof fn lemma_parse_ocreply1_of_wire(b: OpenConnectionReply1, s: Seq<u8>, i: int)
    requires
        0 <= i,
        i + b.wire().len() <= s.len(),
        s.subrange(i, i + b.wire().len()) == b.wire(),
    ensures
        OpenConnectionReply1::parse(s, i) == Ok::<(OpenConnectionReply1, int), DecodeError>(
            (b, i + b.wire().len()),
        ),
{
    let w = b.wire();
    codec::lemma_pow256_vals();
    codec::lemma_be_bytes_len(b.server_id as nat, 8);
    codec::lemma_be_bytes_len(b.mtu_size as nat, 2);
    assert(w.subrange(0, 16) =~= magic_bytes());
    codec::lemma_subrange_within(s, i, w, 0, 16);
    assert(w.subrange(16, 24) =~= codec::be_bytes(b.server_id as nat, 8));
    codec::lemma_subrange_within(s, i, w, 16, 24);
    codec::lemma_parse_be_of_wire(s, i + 16, b.server_id as nat, 8);
    assert(w.subrange(24, 25) =~= codec::bool_bytes(b.server_security));
    codec::lemma_subrange_within(s, i, w, 24, 25);
    codec::lemma_parse_bool_of_wire(s, i + 24, b.server_security);
    assert(w.subrange(25, 27) =~= codec::be_bytes(b.mtu_size as nat, 2));
    codec::lemma_subrange_within(s, i, w, 25, 27);
    codec::lemma_parse_be_of_wire(s, i + 25, b.mtu_size as nat, 2);
}

/// Parsing where the body bytes of the second open-connection request are
/// known to sit restores it.
pub proof fn lemma_parse_ocrequest2_of_wire(b: OpenConnectionRequest2, s: Seq<u8>, i: int)
    requires
        0 <= i,
        i + b.wire().len() <= s.len(),
        s.subrange(i, i + b.wire().len()) == b.wire(),
    ensures
        OpenConnectionRequest2::parse(s, i) == Ok::<(OpenConnectionRequest2, int), DecodeError>(
            (b, i + b.wire().len()),
        ),
{
    let w = b.wire();
    let aw = sockaddr_wire(b.server_address);
    codec::lemma_pow256_vals();
    codec::lemma_be_bytes_len(b.mtu_size as nat, 2);
    codec::lemma_be_bytes_len(b.client_id as nat, 8);
    crate::socket_address::lemma_sockaddr_wire_len(b.server_address);
    assert(w.subrange(0, 16) =~= magic_bytes());
    codec::lemma_subrange_within(s, i, w, 0, 16);
    assert(w.subrange(16, 16 + aw.len() as int) =~= aw);
    codec::lemma_subrange_within(s, i, w, 16, 16 + aw.len() as int);
    crate::socket_address::lemma_parse_sockaddr_of_wire(s, i + 16, b.server_address);
    let m = 16 + aw.len() as int;
    assert(w.subrange(m, m + 2) =~= codec::be_bytes(b.mtu_size as nat, 2));
    codec::lemma_subrange_within(s, i, w, m, m + 2);
    codec::lemma_parse_be_of_wire(s, i + m, b.mtu_size as nat, 2);
    assert(w.subrange(m + 2, m + 10) =~= codec::be_bytes(b.client_id as nat, 8));
    codec::lemma_subrange_within(s, i, w, m + 2, m + 10);
    codec::lemma_parse_be_of_wire(s, i + m + 2, b.client_id as nat, 8);
}

/// Parsing where the body bytes of the second open-connection reply are
/// known to sit restores it.
pub proof fn lemma_parse_ocreply2_of_wire(b: OpenConnectionReply2, s: Seq<u8>, i: int)
    requires
        0 <= i,
        i + b.wire().len() <= s.len(),
        s.subrange(i, i + b.wire().len()) == b.wire(),
    ensures
        OpenConnectionReply2::parse(s, i) == Ok::<(OpenConnectionReply2, int), DecodeError>(
            (b, i + b.wire().len()),
        ),
{
    let w = b.wire();
    let aw = sockaddr_wire(b.client_address);
    codec::lemma_pow256_vals();
    codec::lemma_be_bytes_len(b.server_id as nat, 8);
    codec::lemma_be_bytes_len(b.mtu_size as nat, 2);
    crate::socket_address::lemma_sockaddr_wire_len(b.client_address);
    assert(w.subrange(0, 16) =~= magic_bytes());
    codec::lemma_subrange_within(s, i, w, 0, 16);
    assert(w.subrange(16, 24) =~= codec::be_bytes(b.server_id as nat, 8));
    codec::lemma_subrange_within(s, i, w, 16, 24);
    codec::lemma_parse_be_of_wire(s, i + 16, b.server_id as nat, 8);
    assert(w.subrange(24, 24 + aw.len() as int) =~= aw);
    codec::lemma_subrange_within(s, i, w, 24, 24 + aw.len() as int);
    crate::socket_address::lemma_parse_sockaddr_of_wire(s, i + 24, b.client_address);
    let m = 24 + aw.len() as int;
    assert(w.subrange(m, m + 2) =~= codec::be_bytes(b.mtu_size as nat, 2));
    codec::lemma_subrange_within(s, i, w, m, m + 2);
    codec::lemma_parse_be_of_wire(s, i + m, b.mtu_size as nat, 2);
    assert(w.subrange(m + 2, m + 3) =~= codec::bool_bytes(b.server_security));
    codec::lemma_subrange_within(s, i, w, m + 2, m + 3);
    codec::lemma_parse_bool_of_wire(s, i + m + 2, b.server_security);
}

/// Parsing where the body bytes of an incompatible-protocol-version
/// packet are known to sit restores it.
pub proof fn lemma_parse_ipv_of_wire(b: IncompatibleProtocolVersion, s: Seq<u8>, i: int)
    requires
        0 <= i,
        i + b.wire().len() <= s.len(),
        s.subrange(i, i + b.wire().len()) == b.wire(),
    ensures
        IncompatibleProtocolVersion::parse(s, i) == Ok::<
            (IncompatibleProtocolVersion, int),
            DecodeError,
        >((b, i + b.wire().len())),
{
    let w = b.wire();
    codec::lemma_pow256_vals();
    codec::lemma_be_bytes_len(b.server_id as nat, 8);
    assert(s[i] == w[0]) by {
        assert(s.subrange(i, i + w.len() as int)[0] == s[i]);
    };
    assert(w.subrange(1, 17) =~= magic_bytes());
    codec::lemma_subrange_within(s, i, w, 1, 17);
    assert(w.subrange(17, 25) =~= codec::be_bytes(b.server_id as nat, 8));
    codec::lemma_subrange_within(s, i, w, 17, 25);
    codec::lemma_parse_be_of_wire(s, i + 17, b.server_id as nat, 8);
}

/// The round trip of an offline packet: a buffer holding exactly its wire
/// bytes carries its discriminant first, and the body parses back to the
/// held value, consuming the buffer whole.
#[verifier::rlimit(100)]
pub proof fn lemma_offline_wire_round_trip(p: OfflinePacket, s: Seq<u8>)
    requires
        p.wf(),
        s == offline_wire(p),
    ensures
        s.len() >= 1,
        p matches OfflinePacket::UnconnectedPing(b) ==> s[0] == ID_UNCONNECTED_PING
            && UnconnectedPing::parse(s, 1) == Ok::<(UnconnectedPing, int), DecodeError>(
            (b, s.len() as int),
        ),
        p matches OfflinePacket::UnconnectedPingOpenConnections(b) ==> s[0]
            == ID_UNCONNECTED_PING_OPEN_CONNECTIONS && UnconnectedPingOpenConnections::parse(s, 1)
            == Ok::<(UnconnectedPingOpenConnections, int), DecodeError>((b, s.len() as int)),
        p matches OfflinePacket::UnconnectedPong(b) ==> s[0] == ID_UNCONNECTED_PONG
            && UnconnectedPong::parse(s, 1) == Ok::<((u64, u64, Seq<char>), int), DecodeError>(
            ((b.send_ping_time, b.server_id, b.server_name@), s.len() as int),
        ),
        p matches OfflinePacket::OpenConnectionRequest1(b) ==> s[0] == ID_OPEN_CONNECTION_REQUEST_1
            && OpenConnectionRequest1::parse(s, 1) == Ok::<
            (OpenConnectionRequest1, int),
            DecodeError,
        >((b, s.len() as int)),
        p matches OfflinePacket::OpenConnectionReply1(b) ==> s[0] == ID_OPEN_CONNECTION_REPLY_1
            && OpenConnectionReply1::parse(s, 1) == Ok::<
            (OpenConnectionReply1, int),
            DecodeError,
        >((b, s.len() as int)),
        p matches OfflinePacket::OpenConnectionRequest2(b) ==> s[0] == ID_OPEN_CONNECTION_REQUEST_2
            && OpenConnectionRequest2::parse(s, 1) == Ok::<
            (OpenConnectionRequest2, int),
            DecodeError,
        >((b, s.len() as int)),
        p matches OfflinePacket::OpenConnectionReply2(b) ==> s[0] == ID_OPEN_CONNECTION_REPLY_2
            && OpenConnectionReply2::parse(s, 1) == Ok::<
            (OpenConnectionReply2, int),
            DecodeError,
        >((b, s.len() as int)),
        p matches OfflinePacket::IncompatibleProtocolVersion(b) ==> s[0]
            == ID_INCOMPATIBLE_PROTOCOL_VERSION && IncompatibleProtocolVersion::parse(s, 1)
            == Ok::<(IncompatibleProtocolVersion, int), DecodeError>((b, s.len() as int)),
{
    match p {
        OfflinePacket::UnconnectedPing(b) => {
            assert(s.subrange(1, 1 + b.wire().len() as int) =~= b.wire());
            lemma_parse_unconnected_ping_of_wire(b, s, 1);
        },
        OfflinePacket::UnconnectedPingOpenConnections(b) => {
            let inner = UnconnectedPing {
                send_ping_time: b.send_ping_time,
                magic: Magic,
                client_id: b.client_id,
            };
            assert(inner.wire() =~= b.wire());
            assert(s.subrange(1, 1 + inner.wire().len() as int) =~= inner.wire());
            lemma_parse_unconnected_ping_of_wire(inner, s, 1);
        },
        OfflinePacket::UnconnectedPong(b) => {
            assert(s.subrange(1, 1 + b.wire().len() as int) =~= b.wire());
            lemma_parse_unconnected_pong_of_wire(b, s, 1);
        },
        OfflinePacket::OpenConnectionRequest1(b) => {
            let w = b.wire();
            assert(s.subrange(1, 1 + w.len() as int) =~= w);
            assert(w.subrange(0, 16) =~= magic_bytes());
            codec::lemma_subrange_within(s, 1, w, 0, 16);
            assert(s[17] == w[16]) by {
                assert(s.subrange(1, 1 + w.len() as int)[16] == s[17]);
            };
            assert(s.len() == b.mtu_size);
        },
        OfflinePacket::OpenConnectionReply1(b) => {
            assert(s.subrange(1, 1 + b.wire().len() as int) =~= b.wire());
            lemma_parse_ocreply1_of_wire(b, s, 1);
        },
        OfflinePacket::OpenConnectionRequest2(b) => {
            assert(s.subrange(1, 1 + b.wire().len() as int) =~= b.wire());
            lemma_parse_ocrequest2_of_wire(b, s, 1);
        },
        OfflinePacket::OpenConnectionReply2(b) => {
            assert(s.subrange(1, 1 + b.wire().len() as int) =~= b.wire());
            lemma_parse_ocreply2_of_wire(b, s, 1);
        },
        OfflinePacket::IncompatibleProtocolVersion(b) => {
            assert(s.subrange(1, 1 + b.wire().len() as int) =~= b.wire());
            lemma_parse_ipv_of_wire(b, s, 1);
        },
    }
}

/// An offline packet: the discriminant byte names the variant, and the
/// body follows.
#[derive(Clone, Debug, PartialEq)]
pub enum OfflinePacket {
    UnconnectedPing(UnconnectedPing),
    UnconnectedPingOpenConnections(UnconnectedPingOpenConnections),
    UnconnectedPong(UnconnectedPong),
    OpenConnectionRequest1(OpenConnectionRequest1),
    OpenConnectionReply1(OpenConnectionReply1),
    OpenConnectionRequest2(OpenConnectionRequest2),
    OpenConnectionReply2(OpenConnectionReply2),
    IncompatibleProtocolVersion(IncompatibleProtocolVersion),
}

/// The full wire bytes of an offline packet, discriminant byte first.
pub open spec fn offline_wire(p: OfflinePacket) -> Seq<u8> {
    match p {
        OfflinePacket::UnconnectedPing(b) => seq![ID_UNCONNECTED_PING] + b.wire(),
        OfflinePacket::UnconnectedPingOpenConnections(b) => seq![
            ID_UNCONNECTED_PING_OPEN_CONNECTIONS,
        ] + b.wire(),
        OfflinePacket::UnconnectedPong(b) => seq![ID_UNCONNECTED_PONG] + b.wire(),
        OfflinePacket::OpenConnectionRequest1(b) => seq![ID_OPEN_CONNECTION_REQUEST_1] + b.wire(),
        OfflinePacket::OpenConnectionReply1(b) => seq![ID_OPEN_CONNECTION_REPLY_1] + b.wire(),
        OfflinePacket::OpenConnectionRequest2(b) => seq![ID_OPEN_CONNECTION_REQUEST_2] + b.wire(),
        OfflinePacket::OpenConnectionReply2(b) => seq![ID_OPEN_CONNECTION_REPLY_2] + b.wire(),
        OfflinePacket::IncompatibleProtocolVersion(b) => seq![ID_INCOMPATIBLE_PROTOCOL_VERSION]
            + b.wire(),
    }
}

impl OfflinePacket {
    /// The held body is well formed.
    pub open spec fn wf(self) -> bool {
        match self {
            OfflinePacket::UnconnectedPong(b) => b.wf(),
            OfflinePacket::OpenConnectionRequest1(b) => b.wf(),
            _ => true,
        }
    }

    /// Appends the discriminant byte and the body.
    pub fn write(&self, vec: &mut Vec<u8>)
        requires
            self.wf(),
        ensures
            final(vec)@ == old(vec)@ + offline_wire(*self),
    {
        match self {
            OfflinePacket::UnconnectedPing(b) => {
                codec::write_u8(vec, ID_UNCONNECTED_PING);
                b.write(vec);
            },
            OfflinePacket::UnconnectedPingOpenConnections(b) => {
                codec::write_u8(vec, ID_UNCONNECTED_PING_OPEN_CONNECTIONS);
                b.write(vec);
            },
            OfflinePacket::UnconnectedPong(b) => {
                codec::write_u8(vec, ID_UNCONNECTED_PONG);
                b.write(vec);
            },
            OfflinePacket::OpenConnectionRequest1(b) => {
                codec::write_u8(vec, ID_OPEN_CONNECTION_REQUEST_1);
                b.write(vec);
            },
            OfflinePacket::OpenConnectionReply1(b) => {
                codec::write_u8(vec, ID_OPEN_CONNECTION_REPLY_1);
                b.write(vec);
            },
            OfflinePacket::OpenConnectionRequest2(b) => {
                codec::write_u8(vec, ID_OPEN_CONNECTION_REQUEST_2);
                b.write(vec);
            },
            OfflinePacket::OpenConnectionReply2(b) => {
                codec::write_u8(vec, ID_OPEN_CONNECTION_REPLY_2);
                b.write(vec);
            },
            OfflinePacket::IncompatibleProtocolVersion(b) => {
                codec::write_u8(vec, ID_INCOMPATIBLE_PROTOCOL_VERSION);
                b.write(vec);
            },
        }
        assert(vec@ =~= old(vec)@ + offline_wire(*self));
    }

    /// Reads the discriminant byte and dispatches on it; an unknown
    /// discriminant is out of range.
    pub fn read(src: &Vec<u8>, offset: &mut usize) -> (r: Result<OfflinePacket, DecodeError>)
        ensures
            *old(offset) + 1 > src@.len() ==> r == Err::<OfflinePacket, DecodeError>(
                DecodeError::UnexpectedEof,
            ) && *final(offset) == *old(offset),
            *old(offset) + 1 <= src@.len() ==> {
                let id = src@[*old(offset) as int];
                let j = *old(offset) + 1;
                if id == ID_UNCONNECTED_PING {
                    match UnconnectedPing::parse(src@, j) {
                        Ok(p) => r == Ok::<OfflinePacket, DecodeError>(
                            OfflinePacket::UnconnectedPing(p.0),
                        ) && *final(offset) == p.1,
                        Err(e) => r == Err::<OfflinePacket, DecodeError>(e) && *final(offset)
                            == *old(offset),
                    }
                } else if id == ID_UNCONNECTED_PING_OPEN_CONNECTIONS {
                    match UnconnectedPingOpenConnections::parse(src@, j) {
                        Ok(p) => r == Ok::<OfflinePacket, DecodeError>(
                            OfflinePacket::UnconnectedPingOpenConnections(p.0),
                        ) && *final(offset) == p.1,
                        Err(e) => r == Err::<OfflinePacket, DecodeError>(e) && *final(offset)
                            == *old(offset),
                    }
                } else if id == ID_UNCONNECTED_PONG {
                    match UnconnectedPong::parse(src@, j) {
                        Ok(p) => r matches Ok(w) && w matches OfflinePacket::UnconnectedPong(b)
                            && b.send_ping_time == p.0.0 && b.server_id == p.0.1 && b.server_name@
                            == p.0.2 && *final(offset) == p.1,
                        Err(e) => r == Err::<OfflinePacket, DecodeError>(e) && *final(offset)
                            == *old(offset),
                    }
                } else if id == ID_OPEN_CONNECTION_REQUEST_1 {
                    match OpenConnectionRequest1::parse(src@, j) {
                        Ok(p) => r == Ok::<OfflinePacket, DecodeError>(
                            OfflinePacket::OpenConnectionRequest1(p.0),
                        ) && *final(offset) == p.1,
                        Err(e) => r == Err::<OfflinePacket, DecodeError>(e) && *final(offset)
                            == *old(offset),
                    }
                } else if id == ID_OPEN_CONNECTION_REPLY_1 {
                    match OpenConnectionReply1::parse(src@, j) {
                        Ok(p) => r == Ok::<OfflinePacket, DecodeError>(
                            OfflinePacket::OpenConnectionReply1(p.0),
                        ) && *final(offset) == p.1,
                        Err(e) => r == Err::<OfflinePacket, DecodeError>(e) && *final(offset)
                            == *old(offset),
                    }
                } else if id == ID_OPEN_CONNECTION_REQUEST_2 {
                    match OpenConnectionRequest2::parse(src@, j) {
                        Ok(p) => r == Ok::<OfflinePacket, DecodeError>(
                            OfflinePacket::OpenConnectionRequest2(p.0),
                        ) && *final(offset) == p.1,
                        Err(e) => r == Err::<OfflinePacket, DecodeError>(e) && *final(offset)
                            == *old(offset),
                    }
                } else if id == ID_OPEN_CONNECTION_REPLY_2 {
                    match OpenConnectionReply2::parse(src@, j) {
                        Ok(p) => r == Ok::<OfflinePacket, DecodeError>(
                            OfflinePacket::OpenConnectionReply2(p.0),
                        ) && *final(offset) == p.1,
                        Err(e) => r == Err::<OfflinePacket, DecodeError>(e) && *final(offset)
                            == *old(offset),
                    }
                } else if id == ID_INCOMPATIBLE_PROTOCOL_VERSION {
                    match IncompatibleProtocolVersion::parse(src@, j) {
                        Ok(p) => r == Ok::<OfflinePacket, DecodeError>(
                            OfflinePacket::IncompatibleProtocolVersion(p.0),
                        ) && *final(offset) == p.1,
                        Err(e) => r == Err::<OfflinePacket, DecodeError>(e) && *final(offset)
                            == *old(offset),
                    }
                } else {
                    r == Err::<OfflinePacket, DecodeError>(DecodeError::OutOfRange) && *final(offset) == *old(offset)
                }
            },
    {
        let start = *offset;
        let id = match codec::read_u8(src, offset) {
            Ok(v) => v,
            Err(e) => {
                return Err(e);
            },
        };
        let r = if id == ID_UNCONNECTED_PING {
            match UnconnectedPing::read(src, offset) {
                Ok(b) => Ok(OfflinePacket::UnconnectedPing(b)),
                Err(e) => Err(e),
            }
        } else if id == ID_UNCONNECTED_PING_OPEN_CONNECTIONS {
            match UnconnectedPingOpenConnections::read(src, offset) {
                Ok(b) => Ok(OfflinePacket::UnconnectedPingOpenConnections(b)),
                Err(e) => Err(e),
            }
        } else if id == ID_UNCONNECTED_PONG {
            match UnconnectedPong::read(src, offset) {
                Ok(b) => Ok(OfflinePacket::UnconnectedPong(b)),
                Err(e) => Err(e),
            }
        } else if id == ID_OPEN_CONNECTION_REQUEST_1 {
            match OpenConnectionRequest1::read(src, offset) {
                Ok(b) => Ok(OfflinePacket::OpenConnectionRequest1(b)),
                Err(e) => Err(e),
            }
        } else if id == ID_OPEN_CONNECTION_REPLY_1 {
            match OpenConnectionReply1::read(src, offset) {
                Ok(b) => Ok(OfflinePacket::OpenConnectionReply1(b)),
                Err(e) => Err(e),
            }
        } else if id == ID_OPEN_CONNECTION_REQUEST_2 {
            match OpenConnectionRequest2::read(src, offset) {
                Ok(b) => Ok(OfflinePacket::OpenConnectionRequest2(b)),
                Err(e) => Err(e),
            }
        } else if id == ID_OPEN_CONNECTION_REPLY_2 {
            match OpenConnectionReply2::read(src, offset) {
                Ok(b) => Ok(OfflinePacket::OpenConnectionReply2(b)),
                Err(e) => Err(e),
            }
        } else if id == ID_INCOMPATIBLE_PROTOCOL_VERSION {
            match IncompatibleProtocolVersion::read(src, offset) {
                Ok(b) => Ok(OfflinePacket::IncompatibleProtocolVersion(b)),
                Err(e) => Err(e),
            }
        } else {
            Err(DecodeError::OutOfRange)
        };
        match r {
            Ok(p) => Ok(p),
            Err(e) => {
                *offset = start;
                Err(e)
            },
        }
    }
}

} // verus!
