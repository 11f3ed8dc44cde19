//! The encapsulated (in-session user-level) packet catalogue, carried as
//! an inner packet's payload: one discriminant byte, then the variant's
//! body.

use vstd::prelude::*;

use crate::codec;
use crate::error::DecodeError;
use crate::socket_address::{
    lemma_parse_sockaddr_advances,
    parse_sockaddr,
    sockaddr_wire,
    SocketAddress,
};

verus! {

pub const ID_CONNECTED_PING: u8 = 0x00;

pub const ID_CONNECTED_PONG: u8 = 0x03;

pub const ID_CONNECTION_REQUEST: u8 = 0x09;

pub const ID_CONNECTION_REQUEST_ACCEPTED: u8 = 0x10;

pub const ID_NEW_INCOMING_CONNECTION: u8 = 0x13;

pub const ID_DISCONNECTION_NOTIFICATION: u8 = 0x15;

/// A keepalive probe within an established session.
#[derive(Clone, Copy, Debug, PartialEq, Eq, Structural)]
pub struct ConnectedPing {
    pub send_ping_time: u64,
}

/// The answer to a connected ping.
#[derive(Clone, Copy, Debug, PartialEq, Eq, Structural)]
pub struct ConnectedPong {
    pub send_ping_time: u64,
    pub send_pong_time: u64,
}

/// The client's request to establish the session proper.
#[derive(Clone, Copy, Debug, PartialEq, Eq, Structural)]
pub struct ConnectionRequest {
    pub client_id: u64,
    pub send_ping_time: u64,
    pub use_security: bool,
}

/// The server's acceptance of a connection request.
#[derive(Clone, Copy, Debug, PartialEq)]
pub struct ConnectionRequestAccepted {
    pub address: SocketAddress,
}

/// The client's final handshake packet: its view of the peer address, a
/// variable run of system addresses, and the two timestamps as a fixed
/// sixteen-byte tail.
#[derive(Clone, Debug, PartialEq)]
pub struct NewIncomingConnection {
    pub address: SocketAddress,
    pub system_addresses: Vec<SocketAddress>,
    pub send_ping_time: u64,
    pub send_pong_time: u64,
}

/// The graceful end of a session; its body is empty.
#[derive(Clone, Copy, Debug, PartialEq, Eq, Structural)]
pub struct DisconnectionNotification {}

/// The concatenated wire bytes of a run of addresses.
pub open spec fn addrs_wire(addrs: Seq<SocketAddress>) -> Seq<u8>
    decreases addrs.len(),
{
    if addrs.len() == 0 {
        Seq::empty()
    } else {
        sockaddr_wire(addrs.first()) + addrs_wire(addrs.drop_first())
    }
}

/// Appending an address appends its wire bytes.
pub proof fn lemma_addrs_wire_push(addrs: Seq<SocketAddress>, a: SocketAddress)
    ensures
        addrs_wire(addrs.push(a)) == addrs_wire(addrs) + sockaddr_wire(a),
    decreases addrs.len(),
{
    if addrs.len() == 0 {
        assert(addrs =~= Seq::<SocketAddress>::empty());
        assert(addrs.push(a).drop_first() =~= Seq::<SocketAddress>::empty());
        assert(addrs_wire(addrs.push(a)) =~= addrs_wire(addrs) + sockaddr_wire(a));
    } else {
        assert(addrs.push(a).drop_first() =~= addrs.drop_first().push(a));
        assert(addrs.push(a).first() == addrs.first());
        lemma_addrs_wire_push(addrs.drop_first(), a);
        assert(addrs_wire(addrs.push(a)) =~= addrs_wire(addrs) + sockaddr_wire(a));
    }
}

/// Parse of addresses from `j` up to exactly `end`; a run that overshoots
/// `end` or stops short of it is an eof.
pub open spec fn parse_addr_list(s: Seq<u8>, j: int, end: int) -> Result<
    Seq<SocketAddress>,
    DecodeError,
>
    decreases end - j,
    when end <= s.len()
    via parse_addr_list_decreases
{
    if j == end {
        Ok(Seq::empty())
    } else if !(0 <= j < end) {
        Err(DecodeError::UnexpectedEof)
    } else {
        match parse_sockaddr(s, j) {
            Ok((a, j2)) => if j2 > end {
                Err(DecodeError::UnexpectedEof)
            } else {
                match parse_addr_list(s, j2, end) {
                    Ok(rest) => Ok(seq![a] + rest),
                    Err(e) => Err(e),
                }
            },
            Err(e) => Err(e),
        }
    }
}

#[via_fn]
proof fn parse_addr_list_decreases(s: Seq<u8>, j: int, end: int) {
    lemma_parse_sockaddr_advances(s, j);
}

/// One unfolding of `parse_addr_list` at `j`.
pub proof fn lemma_parse_addr_list_step(s: Seq<u8>, j: int, end: int)
    requires
        0 <= j < end <= s.len(),
    ensures
        parse_sockaddr(s, j) matches Err(e) ==> parse_addr_list(s, j, end) == Err::<
            Seq<SocketAddress>,
            DecodeError,
        >(e),
        parse_sockaddr(s, j) matches Ok(q) ==> j + 7 <= q.1 <= s.len() && (if q.1 > end {
            parse_addr_list(s, j, end) == Err::<Seq<SocketAddress>, DecodeError>(
                DecodeError::UnexpectedEof,
            )
        } else {
            match parse_addr_list(s, q.1, end) {
                Ok(rest) => parse_addr_list(s, j, end) == Ok::<Seq<SocketAddress>, DecodeError>(
                    seq![q.0] + rest,
                ),
                Err(e) => parse_addr_list(s, j, end) == Err::<Seq<SocketAddress>, DecodeError>(e),
            }
        }),
{
    lemma_parse_sockaddr_advances(s, j);
}

/// Addresses written to fill `[j, end)` exactly parse back to themselves.
pub proof fn lemma_parse_addr_list_of_wire(addrs: Seq<SocketAddress>, s: Seq<u8>, j: int, end: int)
    requires
        0 <= j <= end <= s.len(),
        s.subrange(j, end) == addrs_wire(addrs),
    ensures
        parse_addr_list(s, j, end) == Ok::<Seq<SocketAddress>, DecodeError>(addrs),
    decreases addrs.len(),
{
    let w = s.subrange(j, end);
    if addrs.len() == 0 {
        assert(addrs_wire(addrs) =~= Seq::<u8>::empty());
        assert(j == end);
        assert(addrs =~= Seq::<SocketAddress>::empty());
    } else {
        let a = addrs.first();
        let rest = addrs.drop_first();
        let aw = sockaddr_wire(a);
        crate::socket_address::lemma_sockaddr_wire_len(a);
        assert(w =~= aw + addrs_wire(rest));
        assert(w.subrange(0, aw.len() as int) =~= aw);
        crate::codec::lemma_subrange_within(s, j, w, 0, aw.len() as int);
        crate::socket_address::lemma_parse_sockaddr_of_wire(s, j, a);
        assert(w.subrange(aw.len() as int, w.len() as int) =~= addrs_wire(rest));
        crate::codec::lemma_subrange_within(s, j, w, aw.len() as int, w.len() as int);
        lemma_parse_addr_list_of_wire(rest, s, j + aw.len() as int, end);
        assert(seq![a] + rest =~= addrs);
    }
}

impl ConnectedPing {
    /// The body bytes after the discriminant.
    pub open spec fn wire(self) -> Seq<u8> {
        codec::be_bytes(self.send_ping_time as nat, 8)
    }

    /// Parse of the body at `i`.
    pub open spec fn parse(s: Seq<u8>, i: int) -> Result<(ConnectedPing, int), DecodeError> {
        match codec::parse_be(s, i, 8) {
            Ok((t, j)) => Ok((ConnectedPing { send_ping_time: t as u64 }, j)),
            Err(e) => Err(e),
        }
    }

    /// Appends the body bytes.
    pub fn write(&self, vec: &mut Vec<u8>)
        ensures
            final(vec)@ == old(vec)@ + self.wire(),
    {
        codec::write_u64_be(vec, self.send_ping_time);
    }

    /// Reads the body.
    pub fn read(src: &Vec<u8>, offset: &mut usize) -> (r: Result<ConnectedPing, DecodeError>)
        ensures
            match Self::parse(src@, *old(offset) as int) {
                Ok(p) => r == Ok::<ConnectedPing, DecodeError>(p.0) && *final(offset) == p.1,
                Err(e) => r == Err::<ConnectedPing, DecodeError>(e) && *final(offset) == *old(
                    offset,
                ),
            },
    {
        match codec::read_u64_be(src, offset) {
            Ok(t) => Ok(ConnectedPing { send_ping_time: t }),
            Err(e) => Err(e),
        }
    }
}

impl ConnectedPong {
    /// The body bytes after the discriminant.
    pub open spec fn wire(self) -> Seq<u8> {
        codec::be_bytes(self.send_ping_time as nat, 8) + codec::be_bytes(
            self.send_pong_time as nat,
            8,
        )
    }

    /// Parse of the body at `i`.
    pub open spec fn parse(s: Seq<u8>, i: int) -> Result<(ConnectedPong, int), DecodeError> {
        match codec::parse_be(s, i, 8) {
            Ok((t, j)) => match codec::parse_be(s, j, 8) {
                Ok((u, k)) => Ok(
                    (ConnectedPong { send_ping_time: t as u64, send_pong_time: u as u64 }, k),
                ),
                Err(e) => Err(e),
            },
            Err(e) => Err(e),
        }
    }

    /// Appends the body bytes.
    pub fn write(&self, vec: &mut Vec<u8>)
        ensures
            final(vec)@ == old(vec)@ + self.wire(),
    {
        codec::write_u64_be(vec, self.send_ping_time);
        codec::write_u64_be(vec, self.send_pong_time);
        assert(vec@ =~= old(vec)@ + self.wire());
    }

    /// Reads the body.
    pub fn read(src: &Vec<u8>, offset: &mut usize) -> (r: Result<ConnectedPong, DecodeError>)
        ensures
            match Self::parse(src@, *old(offset) as int) {
                Ok(p) => r == Ok::<ConnectedPong, DecodeError>(p.0) && *final(offset) == p.1,
                Err(e) => r == Err::<ConnectedPong, DecodeError>(e) && *final(offset) == *old(
                    offset,
                ),
            },
    {
        let start = *offset;
        let send_ping_time = match codec::read_u64_be(src, offset) {
            Ok(v) => v,
            Err(e) => {
                return Err(e);
            },
        };
        let send_pong_time = match codec::read_u64_be(src, offset) {
            Ok(v) => v,
            Err(e) => {
                *offset = start;
                return Err(e);
            },
        };
        Ok(ConnectedPong { send_ping_time, send_pong_time })
    }
}

impl ConnectionRequest {
    /// The body bytes after the discriminant.
    pub open spec fn wire(self) -> Seq<u8> {
        codec::be_bytes(self.client_id as nat, 8) + codec::be_bytes(self.send_ping_time as nat, 8)
            + codec::bool_bytes(self.use_security)
    }

    /// Parse of the body at `i`.
    pub open spec fn parse(s: Seq<u8>, i: int) -> Result<(ConnectionRequest, int), DecodeError> {
        match codec::parse_be(s, i, 8) {
            Ok((c, j)) => match codec::parse_be(s, j, 8) {
                Ok((t, k)) => match codec::parse_bool(s, k) {
                    Ok((sec, m)) => Ok(
                        (
                            ConnectionRequest {
                                client_id: c as u64,
                                send_ping_time: t as u64,
                                use_security: sec,
                            },
                            m,
                        ),
                    ),
                    Err(e) => Err(e),
                },
                Err(e) => Err(e),
            },
            Err(e) => Err(e),
        }
    }

    /// Appends the body bytes.
    pub fn write(&self, vec: &mut Vec<u8>)
        ensures
            final(vec)@ == old(vec)@ + self.wire(),
    {
        codec::write_u64_be(vec, self.client_id);
        codec::write_u64_be(vec, self.send_ping_time);
        codec::write_bool(vec, self.use_security);
        assert(vec@ =~= old(vec)@ + self.wire());
    }

    /// Reads the body.
    pub fn read(src: &Vec<u8>, offset: &mut usize) -> (r: Result<ConnectionRequest, DecodeError>)
        ensures
            match Self::parse(src@, *old(offset) as int) {
                Ok(p) => r == Ok::<ConnectionRequest, DecodeError>(p.0) && *final(offset) == p.1,
                Err(e) => r == Err::<ConnectionRequest, DecodeError>(e) && *final(offset) == *old(
                    offset,
                ),
            },
    {
        let start = *offset;
        let client_id = match codec::read_u64_be(src, offset) {
            Ok(v) => v,
            Err(e) => {
                return Err(e);
            },
        };
        let send_ping_time = match codec::read_u64_be(src, offset) {
            Ok(v) => v,
            Err(e) => {
                *offset = start;
                return Err(e);
            },
        };
        let use_security = match codec::read_bool(src, offset) {
            Ok(v) => v,
            Err(e) => {
                *offset = start;
                return Err(e);
            },
        };
        Ok(ConnectionRequest { client_id, send_ping_time, use_security })
    }
}

impl ConnectionRequestAccepted {
    /// The body bytes after the discriminant.
    pub open spec fn wire(self) -> Seq<u8> {
        sockaddr_wire(self.address)
    }

    /// Parse of the body at `i`.
    pub open spec fn parse(s: Seq<u8>, i: int) -> Result<
        (ConnectionRequestAccepted, int),
        DecodeError,
    > {
        match parse_sockaddr(s, i) {
            Ok((a, j)) => Ok((ConnectionRequestAccepted { address: a }, j)),
            Err(e) => Err(e),
        }
    }

    /// Appends the body bytes.
    pub fn write(&self, vec: &mut Vec<u8>)
        ensures
            final(vec)@ == old(vec)@ + self.wire(),
    {
        self.address.write(vec);
    }

    /// Reads the body.
    pub fn read(src: &Vec<u8>, offset: &mut usize) -> (r: Result<
        ConnectionRequestAccepted,
        DecodeError,
    >)
        ensures
            match Self::parse(src@, *old(offset) as int) {
                Ok(p) => r == Ok::<ConnectionRequestAccepted, DecodeError>(p.0) && *final(offset)
                    == p.1,
                Err(e) => r == Err::<ConnectionRequestAccepted, DecodeError>(e) && *final(offset)
                    == *old(offset),
            },
    {
        match SocketAddress::read(src, offset) {
            Ok(a) => Ok(ConnectionRequestAccepted { address: a }),
            Err(e) => Err(e),
        }
    }
}

impl NewIncomingConnection {
    /// The body bytes after the discriminant: the address, the system
    /// addresses, then the two timestamps.
    pub open spec fn wire(self) -> Seq<u8> {
        sockaddr_wire(self.address) + addrs_wire(self.system_addresses@) + codec::be_bytes(
            self.send_ping_time as nat,
            8,
        ) + codec::be_bytes(self.send_pong_time as nat, 8)
    }

    /// Parse of the body at `i`: the sixteen-byte tail is carved off the
    /// end of the buffer first, and the system addresses must fill the
    /// space between the address and the tail exactly.
    pub open spec fn parse(s: Seq<u8>, i: int) -> Result<
        ((SocketAddress, Seq<SocketAddress>, u64, u64), int),
        DecodeError,
    > {
        match parse_sockaddr(s, i) {
            Ok((addr, j)) => {
                let end = s.len() - 16;
                if j <= end {
                    match parse_addr_list(s, j, end) {
                        Ok(addrs) => Ok(
                            (
                                (
                                    addr,
                                    addrs,
                                    codec::be_val(s.subrange(end, end + 8)) as u64,
                                    codec::be_val(s.subrange(end + 8, end + 16)) as u64,
                                ),
                                s.len() as int,
                            ),
                        ),
                        Err(e) => Err(e),
                    }
                } else {
                    Err(DecodeError::UnexpectedEof)
                }
            },
            Err(e) => Err(e),
        }
    }

    /// Appends the body bytes.
    pub fn write(&self, vec: &mut Vec<u8>)
        ensures
            final(vec)@ == old(vec)@ + self.wire(),
    {
        self.address.write(vec);
        let n = self.system_addresses.len();
        let mut t: usize = 0;
        while t < n
            invariant
                t <= n,
                n == self.system_addresses@.len(),
                vec@ == old(vec)@ + sockaddr_wire(self.address) + addrs_wire(
                    self.system_addresses@.subrange(0, t as int),
                ),
            decreases n - t,
        {
            self.system_addresses[t].write(vec);
            proof {
                assert(self.system_addresses@.subrange(0, t as int + 1)
                    =~= self.system_addresses@.subrange(0, t as int).push(
                    self.system_addresses@[t as int],
                ));
                lemma_addrs_wire_push(
                    self.system_addresses@.subrange(0, t as int),
                    self.system_addresses@[t as int],
                );
                assert(vec@ =~= old(vec)@ + sockaddr_wire(self.address) + addrs_wire(
                    self.system_addresses@.subrange(0, t as int + 1),
                ));
            }
            t = t + 1;
        }
        proof {
            assert(self.system_addresses@.subrange(0, n as int) =~= self.system_addresses@);
        }
        codec::write_u64_be(vec, self.send_ping_time);
        codec::write_u64_be(vec, self.send_pong_time);
        assert(vec@ =~= old(vec)@ + self.wire());
    }

    /// Reads the body, consuming the buffer whole.
    pub fn read(src: &Vec<u8>, offset: &mut usize) -> (r: Result<
        NewIncomingConnection,
        DecodeError,
    >)
        ensures
            match Self::parse(src@, *old(offset) as int) {
                Ok(p) => r matches Ok(q) && q.address == p.0.0 && q.system_addresses@ == p.0.1
                    && q.send_ping_time == p.0.2 && q.send_pong_time == p.0.3 && *final(offset)
                    == p.1,
                Err(e) => r == Err::<NewIncomingConnection, DecodeError>(e) && *final(offset)
                    == *old(offset),
            },
    {
        let start = *offset;
        let address = match SocketAddress::read(src, offset) {
            Ok(v) => v,
            Err(e) => {
                return Err(e);
            },
        };
        if !(*offset <= src.len() && src.len() - *offset >= 16) {
            *offset = start;
            return Err(DecodeError::UnexpectedEof);
        }
        let end = src.len() - 16;
        let ghost j0 = *offset as int;
        let mut system_addresses: Vec<SocketAddress> = Vec::new();
        proof {
            if parse_addr_list(src@, *offset as int, end as int) is Ok {
                assert(system_addresses@ + parse_addr_list(src@, *offset as int, end as int)->Ok_0
                    =~= parse_addr_list(src@, *offset as int, end as int)->Ok_0);
            }
        }
        while *offset < end
            invariant
                start == *old(offset),
                *offset <= end,
                end + 16 == src@.len(),
                j0 <= end,
                parse_sockaddr(src@, start as int) matches Ok(q) && q.0 == address && q.1 == j0,
                parse_addr_list(src@, *offset as int, end as int) matches Ok(rest)
                    ==> parse_addr_list(src@, j0, end as int) == Ok::<
                    Seq<SocketAddress>,
                    DecodeError,
                >(system_addresses@ + rest),
                parse_addr_list(src@, *offset as int, end as int) matches Err(e)
                    ==> parse_addr_list(src@, j0, end as int) == Err::<
                    Seq<SocketAddress>,
                    DecodeError,
                >(e),
            decreases end - *offset,
        {
            let ghost cur = *offset as int;
            proof {
                lemma_parse_addr_list_step(src@, cur, end as int);
            }
            let a = match SocketAddress::read(src, offset) {
                Ok(v) => v,
                Err(e) => {
                    *offset = start;
                    return Err(e);
                },
            };
            if *offset > end {
                *offset = start;
                return Err(DecodeError::UnexpectedEof);
            }
            proof {
                if parse_addr_list(src@, *offset as int, end as int) is Ok {
                    let rest = parse_addr_list(src@, *offset as int, end as int)->Ok_0;
                    assert(system_addresses@ + (seq![a] + rest) =~= (system_addresses@ + seq![a])
                        + rest);
                }
                assert(system_addresses@.push(a) =~= system_addresses@ + seq![a]);
            }
            system_addresses.push(a);
        }
        proof {
            assert(parse_addr_list(src@, *offset as int, end as int) == Ok::<
                Seq<SocketAddress>,
                DecodeError,
            >(Seq::empty()));
            assert(system_addresses@ + Seq::<SocketAddress>::empty() =~= system_addresses@);
        }
        let send_ping_time = match codec::read_u64_be(src, offset) {
            Ok(v) => v,
            Err(e) => {
                *offset = start;
                return Err(e);
            },
        };
        let send_pong_time = match codec::read_u64_be(src, offset) {
            Ok(v) => v,
            Err(e) => {
                *offset = start;
                return Err(e);
            },
        };
        Ok(NewIncomingConnection { address, system_addresses, send_ping_time, send_pong_time })
    }
}

impl DisconnectionNotification {
    /// The empty body.
    pub open spec fn wire(self) -> Seq<u8> {
        Seq::empty()
    }

    /// Appends nothing.
    pub fn write(&self, vec: &mut Vec<u8>)
        ensures
            final(vec)@ == old(vec)@ + self.wire(),
    {
        assert(vec@ =~= vec@ + self.wire());
    }

    /// Reads nothing.
    pub fn read(src: &Vec<u8>, offset: &mut usize) -> (r: Result<
        DisconnectionNotification,
        DecodeError,
    >)
        ensures
            r == Ok::<DisconnectionNotification, DecodeError>(DisconnectionNotification {}),
            *final(offset) == *old(offset),
    {
        let _unread = src.len();
        Ok(DisconnectionNotification {})
    }
}

/// Parsing where the body bytes of a new-incoming-connection packet are
/// known to fill the rest of the buffer restores its fields.
pub proof fn lemma_parse_nic_of_wire(b: NewIncomingConnection, s: Seq<u8>, i: int)
    requires
        0 <= i <= s.len(),
        s.subrange(i, s.len() as int) == b.wire(),
    ensures
        NewIncomingConnection::parse(s, i) == Ok::<
            ((SocketAddress, Seq<SocketAddress>, u64, u64), int),
            DecodeError,
        >(
            (
                (b.address, b.system_addresses@, b.send_ping_time, b.send_pong_time),
                s.len() as int,
            ),
        ),
{
    let w = s.subrange(i, s.len() as int);
    let aw = sockaddr_wire(b.address);
    let lw = addrs_wire(b.system_addresses@);
    crate::socket_address::lemma_sockaddr_wire_len(b.address);
    codec::lemma_pow256_vals();
    codec::lemma_be_bytes_len(b.send_ping_time as nat, 8);
    codec::lemma_be_bytes_len(b.send_pong_time as nat, 8);
    assert(i + w.len() == s.len());
    assert(w.subrange(0, aw.len() as int) =~= aw);
    codec::lemma_subrange_within(s, i, w, 0, aw.len() as int);
    crate::socket_address::lemma_parse_sockaddr_of_wire(s, i, b.address);
    let j = i + aw.len() as int;
    let end = s.len() - 16;
    let q = aw.len() as int + lw.len() as int;
    assert(end == j + lw.len());
    assert(w.subrange(aw.len() as int, q) =~= lw);
    codec::lemma_subrange_within(s, i, w, aw.len() as int, q);
    lemma_parse_addr_list_of_wire(b.system_addresses@, s, j, end);
    assert(w.subrange(q, q + 8) =~= codec::be_bytes(b.send_ping_time as nat, 8));
    codec::lemma_subrange_within(s, i, w, q, q + 8);
    codec::lemma_be_val_of_bytes(b.send_ping_time as nat, 8);
    assert(w.subrange(q + 8, q + 16) =~= codec::be_bytes(b.send_pong_time as nat, 8));
    codec::lemma_subrange_within(s, i, w, q + 8, q + 16);
    codec::lemma_be_val_of_bytes(b.send_pong_time as nat, 8);
}

/// The round trip of an encapsulated packet: a buffer holding exactly its
/// wire bytes carries its discriminant first, and the body parses back to
/// the held value, consuming the buffer whole.
#[verifier::rlimit(100)]
pub proof fn lemma_encap_wire_round_trip(p: EncapPacket, s: Seq<u8>)
    requires
        s == encap_wire(p),
    ensures
        s.len() >= 1,
        p matches EncapPacket::ConnectedPing(b) ==> s[0] == ID_CONNECTED_PING
            && ConnectedPing::parse(s, 1) == Ok::<(ConnectedPing, int), DecodeError>(
            (b, s.len() as int),
        ),
        p matches EncapPacket::ConnectedPong(b) ==> s[0] == ID_CONNECTED_PONG
            && ConnectedPong::parse(s, 1) == Ok::<(ConnectedPong, int), DecodeError>(
            (b, s.len() as int),
        ),
        p matches EncapPacket::ConnectionRequest(b) ==> s[0] == ID_CONNECTION_REQUEST
            && ConnectionRequest::parse(s, 1) == Ok::<(ConnectionRequest, int), DecodeError>(
            (b, s.len() as int),
        ),
        p matches EncapPacket::ConnectionRequestAccepted(b) ==> s[0]
            == ID_CONNECTION_REQUEST_ACCEPTED && ConnectionRequestAccepted::parse(s, 1) == Ok::<
            (ConnectionRequestAccepted, int),
            DecodeError,
        >((b, s.len() as int)),
        p matches EncapPacket::NewIncomingConnection(b) ==> s[0] == ID_NEW_INCOMING_CONNECTION
            && NewIncomingConnection::parse(s, 1) == Ok::<
            ((SocketAddress, Seq<SocketAddress>, u64, u64), int),
            DecodeError,
        >(
            (
                (b.address, b.system_addresses@, b.send_ping_time, b.send_pong_time),
                s.len() as int,
            ),
        ),
        p matches EncapPacket::DisconnectionNotification(b) ==> s[0]
            == ID_DISCONNECTION_NOTIFICATION && s.len() == 1,
{
    codec::lemma_pow256_vals();
    match p {
        EncapPacket::ConnectedPing(b) => {
            let w = b.wire();
            codec::lemma_be_bytes_len(b.send_ping_time as nat, 8);
            assert(s.subrange(1, 1 + w.len() as int) =~= w);
            assert(w.subrange(0, 8) =~= codec::be_bytes(b.send_ping_time as nat, 8));
            codec::lemma_subrange_within(s, 1, w, 0, 8);
            codec::lemma_parse_be_of_wire(s, 1, b.send_ping_time as nat, 8);
        },
        EncapPacket::ConnectedPong(b) => {
            let w = b.wire();
            codec::lemma_be_bytes_len(b.send_ping_time as nat, 8);
            codec::lemma_be_bytes_len(b.send_pong_time as nat, 8);
            assert(s.subrange(1, 1 + w.len() as int) =~= w);
            assert(w.subrange(0, 8) =~= codec::be_bytes(b.send_ping_time as nat, 8));
            codec::lemma_subrange_within(s, 1, w, 0, 8);
            codec::lemma_parse_be_of_wire(s, 1, b.send_ping_time as nat, 8);
            assert(w.subrange(8, 16) =~= codec::be_bytes(b.send_pong_time as nat, 8));
            codec::lemma_subrange_within(s, 1, w, 8, 16);
            codec::lemma_parse_be_of_wire(s, 9, b.send_pong_time as nat, 8);
        },
        EncapPacket::ConnectionRequest(b) => {
            let w = b.wire();
            codec::lemma_be_bytes_len(b.client_id as nat, 8);
            codec::lemma_be_bytes_len(b.send_ping_time as nat, 8);
            assert(s.subrange(1, 1 + w.len() as int) =~= w);
            assert(w.subrange(0, 8) =~= codec::be_bytes(b.client_id as nat, 8));
            codec::lemma_subrange_within(s, 1, w, 0, 8);
            codec::lemma_parse_be_of_wire(s, 1, b.client_id as nat, 8);
            assert(w.subrange(8, 16) =~= codec::be_bytes(b.send_ping_time as nat, 8));
            codec::lemma_subrange_within(s, 1, w, 8, 16);
            codec::lemma_parse_be_of_wire(s, 9, b.send_ping_time as nat, 8);
            assert(w.subrange(16, 17) =~= codec::bool_bytes(b.use_security));
            codec::lemma_subrange_within(s, 1, w, 16, 17);
            codec::lemma_parse_bool_of_wire(s, 17, b.use_security);
        },
        EncapPacket::ConnectionRequestAccepted(b) => {
            let w = b.wire();
            crate::socket_address::lemma_sockaddr_wire_len(b.address);
            assert(s.subrange(1, 1 + w.len() as int) =~= w);
            crate::socket_address::lemma_parse_sockaddr_of_wire(s, 1, b.address);
        },
        EncapPacket::NewIncomingConnection(b) => {
            assert(s.subrange(1, s.len() as int) =~= b.wire());
            lemma_parse_nic_of_wire(b, s, 1);
        },
        EncapPacket::DisconnectionNotification(_) => {},
    }
}

/// An in-session user-level packet, carried as an inner packet's payload.
#[derive(Clone, Debug, PartialEq)]
pub enum EncapPacket {
    ConnectedPing(ConnectedPing),
    ConnectedPong(ConnectedPong),
    ConnectionRequest(ConnectionRequest),
    ConnectionRequestAccepted(ConnectionRequestAccepted),
    NewIncomingConnection(NewIncomingConnection),
    DisconnectionNotification(DisconnectionNotification),
}

/// The full wire bytes of an encapsulated packet, discriminant byte first.
pub open spec fn encap_wire(p: EncapPacket) -> Seq<u8> {
    match p {
        EncapPacket::ConnectedPing(b) => seq![ID_CONNECTED_PING] + b.wire(),
        EncapPacket::ConnectedPong(b) => seq![ID_CONNECTED_PONG] + b.wire(),
        EncapPacket::ConnectionRequest(b) => seq![ID_CONNECTION_REQUEST] + b.wire(),
        EncapPacket::ConnectionRequestAccepted(b) => seq![ID_CONNECTION_REQUEST_ACCEPTED]
            + b.wire(),
        EncapPacket::NewIncomingConnection(b) => seq![ID_NEW_INCOMING_CONNECTION] + b.wire(),
        EncapPacket::DisconnectionNotification(b) => seq![ID_DISCONNECTION_NOTIFICATION]
            + b.wire(),
    }
}

impl EncapPacket {
    /// Appends the discriminant byte and the body.
    pub fn write(&self, vec: &mut Vec<u8>)
        ensures
            final(vec)@ == old(vec)@ + encap_wire(*self),
    {
        match self {
            EncapPacket::ConnectedPing(b) => {
                codec::write_u8(vec, ID_CONNECTED_PING);
                b.write(vec);
            },
            EncapPacket::ConnectedPong(b) => {
                codec::write_u8(vec, ID_CONNECTED_PONG);
                b.write(vec);
            },
            EncapPacket::ConnectionRequest(b) => {
                codec::write_u8(vec, ID_CONNECTION_REQUEST);
                b.write(vec);
            },
            EncapPacket::ConnectionRequestAccepted(b) => {
                codec::write_u8(vec, ID_CONNECTION_REQUEST_ACCEPTED);
                b.write(vec);
            },
            EncapPacket::NewIncomingConnection(b) => {
                codec::write_u8(vec, ID_NEW_INCOMING_CONNECTION);
                b.write(vec);
            },
            EncapPacket::DisconnectionNotification(b) => {
                codec::write_u8(vec, ID_DISCONNECTION_NOTIFICATION);
                b.write(vec);
            },
        }
        assert(vec@ =~= old(vec)@ + encap_wire(*self));
    }

    /// Reads the discriminant byte and dispatches on it; an unknown
    /// discriminant is out of range.
    pub fn read(src: &Vec<u8>, offset: &mut usize) -> (r: Result<EncapPacket, DecodeError>)
        ensures
            *old(offset) + 1 > src@.len() ==> r == Err::<EncapPacket, DecodeError>(
                DecodeError::UnexpectedEof,
            ) && *final(offset) == *old(offset),
            *old(offset) + 1 <= src@.len() ==> {
                let id = src@[*old(offset) as int];
                let j = *old(offset) + 1;
                if id == ID_CONNECTED_PING {
                    match ConnectedPing::parse(src@, j) {
                        Ok(p) => r == Ok::<EncapPacket, DecodeError>(
                            EncapPacket::ConnectedPing(p.0),
                        ) && *final(offset) == p.1,
                        Err(e) => r == Err::<EncapPacket, DecodeError>(e) && *final(offset)
                            == *old(offset),
                    }
                } else if id == ID_CONNECTED_PONG {
                    match ConnectedPong::parse(src@, j) {
                        Ok(p) => r == Ok::<EncapPacket, DecodeError>(
                            EncapPacket::ConnectedPong(p.0),
                        ) && *final(offset) == p.1,
                        Err(e) => r == Err::<EncapPacket, DecodeError>(e) && *final(offset)
                            == *old(offset),
                    }
                } else if id == ID_CONNECTION_REQUEST {
                    match ConnectionRequest::parse(src@, j) {
                        Ok(p) => r == Ok::<EncapPacket, DecodeError>(
                            EncapPacket::ConnectionRequest(p.0),
                        ) && *final(offset) == p.1,
                        Err(e) => r == Err::<EncapPacket, DecodeError>(e) && *final(offset)
                            == *old(offset),
                    }
                } else if id == ID_CONNECTION_REQUEST_ACCEPTED {
                    match ConnectionRequestAccepted::parse(src@, j) {
                        Ok(p) => r == Ok::<EncapPacket, DecodeError>(
                            EncapPacket::ConnectionRequestAccepted(p.0),
                        ) && *final(offset) == p.1,
                        Err(e) => r == Err::<EncapPacket, DecodeError>(e) && *final(offset)
                            == *old(offset),
                    }
                } else if id == ID_NEW_INCOMING_CONNECTION {
                    match NewIncomingConnection::parse(src@, j) {
                        Ok(p) => r matches Ok(w) && w matches EncapPacket::NewIncomingConnection(
                            b,
                        ) && b.address == p.0.0 && b.system_addresses@ == p.0.1
                            && b.send_ping_time == p.0.2 && b.send_pong_time == p.0.3 && *final(offset) == p.1,
                        Err(e) => r == Err::<EncapPacket, DecodeError>(e) && *final(offset)
                            == *old(offset),
                    }
                } else if id == ID_DISCONNECTION_NOTIFICATION {
                    r == Ok::<EncapPacket, DecodeError>(
                        EncapPacket::DisconnectionNotification(DisconnectionNotification {}),
                    ) && *final(offset) == j
                } else {
                    r == Err::<EncapPacket, DecodeError>(DecodeError::OutOfRange) && *final(offset)
                        == *old(offset)
                }
            },
    {
        let start = *offset;
        let id = match codec::read_u8(src, offset) {
            Ok(v) => v,
            Err(e) => {
                return Err(e);
            },
        };
        let r = if id == ID_CONNECTED_PING {
            match ConnectedPing::read(src, offset) {
                Ok(b) => Ok(EncapPacket::ConnectedPing(b)),
                Err(e) => Err(e),
            }
        } else if id == ID_CONNECTED_PONG {
            match ConnectedPong::read(src, offset) {
                Ok(b) => Ok(EncapPacket::ConnectedPong(b)),
                Err(e) => Err(e),
            }
        } else if id == ID_CONNECTION_REQUEST {
            match ConnectionRequest::read(src, offset) {
                Ok(b) => Ok(EncapPacket::ConnectionRequest(b)),
                Err(e) => Err(e),
            }
        } else if id == ID_CONNECTION_REQUEST_ACCEPTED {
            match ConnectionRequestAccepted::read(src, offset) {
                Ok(b) => Ok(EncapPacket::ConnectionRequestAccepted(b)),
                Err(e) => Err(e),
            }
        } else if id == ID_NEW_INCOMING_CONNECTION {
            match NewIncomingConnection::read(src, offset) {
                Ok(b) => Ok(EncapPacket::NewIncomingConnection(b)),
                Err(e) => Err(e),
            }
        } else if id == ID_DISCONNECTION_NOTIFICATION {
            Ok(EncapPacket::DisconnectionNotification(DisconnectionNotification {}))
        } else {
            Err(DecodeError::OutOfRange)
        };
        match r {
            Ok(p) => Ok(p),
            Err(e) => {
                *offset = start;
                Err(e)
            },
        }
    }
}

} // verus!
