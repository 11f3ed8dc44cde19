//! RakNet's socket-address encoding: a tagged union of IPv4 and IPv6
//! endpoints, with the RakNet quirks of inverted IPv4 octets and an opaque
//! IPv6 address-family constant.

use vstd::prelude::*;

use crate::codec;
use crate::error::DecodeError;

verus! {

/// The little-endian address-family constant written before an IPv6 body.
/// It is opaque and goes unchecked on read.
pub const ADDRESS_FAMILY_V6: u16 = 10;

/// An IPv4 or IPv6 endpoint.  Octets are held as one integer, the first
/// octet in the most significant position.
#[derive(Clone, Copy, Debug, PartialEq, Eq)]
pub enum SocketAddress {
    V4 {
        /// The four octets, the first octet in the top byte.
        ip: u32,
        port: u16,
    },
    V6 {
        port: u16,
        flow_info: u32,
        /// The sixteen octets, the first octet in the top byte.
        ip: u128,
        scope_id: u32,
    },
}

/// The wire bytes of an address.
///
/// IPv4: the byte `4`, the four octets each inverted, then the big-endian
/// port.  IPv6: the byte `6`, the little-endian address family, big-endian
/// port, big-endian flow info, the sixteen raw octets, and the big-endian
/// scope id.
pub open spec fn sockaddr_wire(a: SocketAddress) -> Seq<u8> {
    match a {
        SocketAddress::V4 { ip, port } => seq![4u8] + codec::be_bytes(
            (0xffffffffu32 - ip) as nat,
            4,
        ) + codec::be_bytes(port as nat, 2),
        SocketAddress::V6 { port, flow_info, ip, scope_id } => seq![6u8] + codec::le_bytes(
            ADDRESS_FAMILY_V6 as nat,
            2,
        ) + codec::be_bytes(port as nat, 2) + codec::be_bytes(flow_info as nat, 4)
            + codec::be_bytes((ip / 0x10000000000000000) as nat, 8) + codec::be_bytes(
            (ip % 0x10000000000000000) as nat,
            8,
        ) + codec::be_bytes(scope_id as nat, 4),
    }
}

/// Parse of an address at `i`: dispatches on the leading version byte; any
/// version byte other than `4` or `6` is out of range.  The address family
/// of an IPv6 body is read and discarded.
pub open spec fn parse_sockaddr(s: Seq<u8>, i: int) -> Result<(SocketAddress, int), DecodeError> {
    if !(0 <= i && i + 1 <= s.len()) {
        Err(DecodeError::UnexpectedEof)
    } else if s[i] == 4 {
        if i + 7 <= s.len() {
            Ok(
                (
                    SocketAddress::V4 {
                        ip: (0xffffffff - codec::be_val(s.subrange(i + 1, i + 5))) as u32,
                        port: codec::be_val(s.subrange(i + 5, i + 7)) as u16,
                    },
                    i + 7,
                ),
            )
        } else {
            Err(DecodeError::UnexpectedEof)
        }
    } else if s[i] == 6 {
        if i + 29 <= s.len() {
            Ok(
                (
                    SocketAddress::V6 {
                        port: codec::be_val(s.subrange(i + 3, i + 5)) as u16,
                        flow_info: codec::be_val(s.subrange(i + 5, i + 9)) as u32,
                        ip: (codec::be_val(s.subrange(i + 9, i + 17)) * 0x10000000000000000
                            + codec::be_val(s.subrange(i + 17, i + 25))) as u128,
                        scope_id: codec::be_val(s.subrange(i + 25, i + 29)) as u32,
                    },
                    i + 29,
                ),
            )
        } else {
            Err(DecodeError::UnexpectedEof)
        }
    } else {
        Err(DecodeError::OutOfRange)
    }
}

/// The wire length of an address: seven bytes for IPv4, twenty-nine for
/// IPv6.
pub proof fn lemma_sockaddr_wire_len(a: SocketAddress)
    ensures
        sockaddr_wire(a).len() == (if a is V4 {
            7int
        } else {
            29int
        }),
{
    match a {
        SocketAddress::V4 { ip, port } => {
            codec::lemma_be_bytes_len((0xffffffffu32 - ip) as nat, 4);
            codec::lemma_be_bytes_len(port as nat, 2);
        },
        SocketAddress::V6 { port, flow_info, ip, scope_id } => {
            codec::lemma_le_bytes_len(ADDRESS_FAMILY_V6 as nat, 2);
            codec::lemma_be_bytes_len(port as nat, 2);
            codec::lemma_be_bytes_len(flow_info as nat, 4);
            codec::lemma_be_bytes_len((ip / 0x10000000000000000) as nat, 8);
            codec::lemma_be_bytes_len((ip % 0x10000000000000000) as nat, 8);
            codec::lemma_be_bytes_len(scope_id as nat, 4);
        },
    }
}

/// Parsing where the wire bytes of an address are known to sit restores
/// the address.
pub proof fn lemma_parse_sockaddr_of_wire(s: Seq<u8>, i: int, a: SocketAddress)
    requires
        0 <= i,
        i + sockaddr_wire(a).len() <= s.len(),
        s.subrange(i, i + sockaddr_wire(a).len()) == sockaddr_wire(a),
    ensures
        parse_sockaddr(s, i) == Ok::<(SocketAddress, int), DecodeError>(
            (a, i + sockaddr_wire(a).len()),
        ),
{
    let w = sockaddr_wire(a);
    codec::lemma_pow256_vals();
    match a {
        SocketAddress::V4 { ip, port } => {
            let inv = (0xffffffffu32 - ip) as nat;
            codec::lemma_be_bytes_len(inv, 4);
            codec::lemma_be_bytes_len(port as nat, 2);
            assert(w.len() == 7);
            assert(s[i] == w[0]) by {
                assert(s.subrange(i, i + 7)[0] == s[i]);
            };
            assert(w[0] == 4);
            assert(w.subrange(1, 5) =~= codec::be_bytes(inv, 4));
            codec::lemma_subrange_within(s, i, w, 1, 5);
            codec::lemma_be_val_of_bytes(inv, 4);
            assert(w.subrange(5, 7) =~= codec::be_bytes(port as nat, 2));
            codec::lemma_subrange_within(s, i, w, 5, 7);
            codec::lemma_be_val_of_bytes(port as nat, 2);
        },
        SocketAddress::V6 { port, flow_info, ip, scope_id } => {
            let hi = (ip / 0x10000000000000000) as nat;
            let lo = (ip % 0x10000000000000000) as nat;
            codec::lemma_le_bytes_len(ADDRESS_FAMILY_V6 as nat, 2);
            codec::lemma_be_bytes_len(port as nat, 2);
            codec::lemma_be_bytes_len(flow_info as nat, 4);
            codec::lemma_be_bytes_len(hi, 8);
            codec::lemma_be_bytes_len(lo, 8);
            codec::lemma_be_bytes_len(scope_id as nat, 4);
            assert(w.len() == 29);
            assert(s[i] == w[0]) by {
                assert(s.subrange(i, i + 29)[0] == s[i]);
            };
            assert(w[0] == 6);
            assert(w.subrange(3, 5) =~= codec::be_bytes(port as nat, 2));
            codec::lemma_subrange_within(s, i, w, 3, 5);
            codec::lemma_be_val_of_bytes(port as nat, 2);
            assert(w.subrange(5, 9) =~= codec::be_bytes(flow_info as nat, 4));
            codec::lemma_subrange_within(s, i, w, 5, 9);
            codec::lemma_be_val_of_bytes(flow_info as nat, 4);
            assert(w.subrange(9, 17) =~= codec::be_bytes(hi, 8));
            codec::lemma_subrange_within(s, i, w, 9, 17);
            codec::lemma_be_val_of_bytes(hi, 8);
            assert(w.subrange(17, 25) =~= codec::be_bytes(lo, 8));
            codec::lemma_subrange_within(s, i, w, 17, 25);
            codec::lemma_be_val_of_bytes(lo, 8);
            assert(w.subrange(25, 29) =~= codec::be_bytes(scope_id as nat, 4));
            codec::lemma_subrange_within(s, i, w, 25, 29);
            codec::lemma_be_val_of_bytes(scope_id as nat, 4);
            vstd::arithmetic::div_mod::lemma_fundamental_div_mod(
                ip as int,
                0x10000000000000000,
            );
        },
    }
}

/// A successful address parse consumes at least seven bytes and stays
/// inside the buffer.
pub proof fn lemma_parse_sockaddr_advances(s: Seq<u8>, i: int)
    ensures
        parse_sockaddr(s, i) matches Ok(p) ==> i + 7 <= p.1 <= s.len(),
{
}

impl SocketAddress {
    /// Appends the wire bytes of this address.
    pub fn write(&self, vec: &mut Vec<u8>)
        ensures
            final(vec)@ == old(vec)@ + sockaddr_wire(*self),
    {
        match self {
            SocketAddress::V4 { ip, port } => {
                codec::write_u8(vec, 4);
                codec::write_u32_be(vec, 0xffffffffu32 - *ip);
                codec::write_u16_be(vec, *port);
                assert(vec@ =~= old(vec)@ + sockaddr_wire(*self));
            },
            SocketAddress::V6 { port, flow_info, ip, scope_id } => {
                codec::write_u8(vec, 6);
                codec::write_u16_le(vec, ADDRESS_FAMILY_V6);
                codec::write_u16_be(vec, *port);
                codec::write_u32_be(vec, *flow_info);
                codec::write_u64_be(vec, (*ip / 0x10000000000000000) as u64);
                codec::write_u64_be(vec, (*ip % 0x10000000000000000) as u64);
                codec::write_u32_be(vec, *scope_id);
                assert(vec@ =~= old(vec)@ + sockaddr_wire(*self));
            },
        }
    }

    /// Reads an address.
    pub fn read(src: &Vec<u8>, offset: &mut usize) -> (r: Result<SocketAddress, DecodeError>)
        ensures
            match parse_sockaddr(src@, *old(offset) as int) {
                Ok(p) => r == Ok::<SocketAddress, DecodeError>(p.0) && *final(offset) == p.1,
                Err(e) => r == Err::<SocketAddress, DecodeError>(e) && *final(offset) == *old(
                    offset,
                ),
            },
    {
        let ghost i = *offset as int;
        let start = *offset;
        let version = match codec::read_u8(src, offset) {
            Ok(v) => v,
            Err(e) => {
                return Err(e);
            },
        };
        if version == 4 {
            let inv = match codec::read_u32_be(src, offset) {
                Ok(v) => v,
                Err(e) => {
                    *offset = start;
                    return Err(e);
                },
            };
            let port = match codec::read_u16_be(src, offset) {
                Ok(v) => v,
                Err(e) => {
                    *offset = start;
                    return Err(e);
                },
            };
            proof {
                codec::lemma_be_val_bound(src@.subrange(i + 1, i + 5));
                codec::lemma_pow256_vals();
            }
            Ok(SocketAddress::V4 { ip: 0xffffffffu32 - inv, port })
        } else if version == 6 {
            if !(*offset <= src.len() && src.len() - *offset >= 28) {
                *offset = start;
                return Err(DecodeError::UnexpectedEof);
            }
            let _family = match codec::read_u16_le(src, offset) {
                Ok(v) => v,
                Err(e) => {
                    *offset = start;
                    return Err(e);
                },
            };
            let port = match codec::read_u16_be(src, offset) {
                Ok(v) => v,
                Err(e) => {
                    *offset = start;
                    return Err(e);
                },
            };
            let flow_info = match codec::read_u32_be(src, offset) {
                Ok(v) => v,
                Err(e) => {
                    *offset = start;
                    return Err(e);
                },
            };
            let hi = match codec::read_u64_be(src, offset) {
                Ok(v) => v,
                Err(e) => {
                    *offset = start;
                    return Err(e);
                },
            };
            let lo = match codec::read_u64_be(src, offset) {
                Ok(v) => v,
                Err(e) => {
                    *offset = start;
                    return Err(e);
                },
            };
            let scope_id = match codec::read_u32_be(src, offset) {
                Ok(v) => v,
                Err(e) => {
                    *offset = start;
                    return Err(e);
                },
            };
            proof {
                codec::lemma_be_val_bound(src@.subrange(i + 9, i + 17));
                codec::lemma_be_val_bound(src@.subrange(i + 17, i + 25));
                codec::lemma_pow256_vals();
            }
            let ip: u128 = (hi as u128) * 0x10000000000000000 + (lo as u128);
            Ok(SocketAddress::V6 { port, flow_info, ip, scope_id })
        } else {
            *offset = start;
            Err(DecodeError::OutOfRange)
        }
    }
}

} // verus!
