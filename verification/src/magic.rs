//! The fixed 16-byte cookie that identifies RakNet handshake traffic.

use vstd::prelude::*;

use crate::error::DecodeError;

verus! {

/// The magic cookie.  It carries no payload; its presence on the wire is
/// asserted on read.
#[derive(Clone, Copy, Debug, PartialEq, Eq, Structural)]
pub struct Magic;

/// The sixteen wire bytes of the cookie.
pub open spec fn magic_bytes() -> Seq<u8> {
    seq![
        0x00u8,
        0xffu8,
        0xffu8,
        0x00u8,
        0xfeu8,
        0xfeu8,
        0xfeu8,
        0xfeu8,
        0xfdu8,
        0xfdu8,
        0xfdu8,
        0xfdu8,
        0x12u8,
        0x34u8,
        0x56u8,
        0x78u8,
    ]
}

/// Parse of the cookie: sixteen bytes that must equal `magic_bytes`.
pub open spec fn parse_magic(s: Seq<u8>, i: int) -> Result<int, DecodeError> {
    if 0 <= i && i + 16 <= s.len() {
        if s.subrange(i, i + 16) == magic_bytes() {
            Ok(i + 16)
        } else {
            Err(DecodeError::MagicMismatch)
        }
    } else {
        Err(DecodeError::UnexpectedEof)
    }
}

/// The `j`-th byte of the cookie.
fn magic_byte(j: usize) -> (r: u8)
    requires
        j < 16,
    ensures
        r == magic_bytes()[j as int],
{
    if j == 0 {
        0x00
    } else if j == 1 {
        0xff
    } else if j == 2 {
        0xff
    } else if j == 3 {
        0x00
    } else if j < 8 {
        0xfe
    } else if j < 12 {
        0xfd
    } else if j == 12 {
        0x12
    } else if j == 13 {
        0x34
    } else if j == 14 {
        0x56
    } else {
        0x78
    }
}

impl Magic {
    /// Appends the sixteen cookie bytes.
    pub fn write(self, vec: &mut Vec<u8>)
        ensures
            final(vec)@ == old(vec)@ + magic_bytes(),
    {
        let mut j: usize = 0;
        while j < 16
            invariant
                j <= 16,
                vec@ == old(vec)@ + magic_bytes().subrange(0, j as int),
            decreases 16 - j,
        {
            vec.push(magic_byte(j));
            proof {
                assert(old(vec)@ + magic_bytes().subrange(0, j as int) + seq![
                    magic_bytes()[j as int],
                ] =~= old(vec)@ + magic_bytes().subrange(0, j as int + 1));
            }
            j = j + 1;
        }
        proof {
            assert(magic_bytes().subrange(0, 16) =~= magic_bytes());
        }
    }

    /// Reads sixteen bytes and checks them against the cookie.
    pub fn read(src: &Vec<u8>, offset: &mut usize) -> (r: Result<Magic, DecodeError>)
        ensures
            match parse_magic(src@, *old(offset) as int) {
                Ok(j) => r == Ok::<Magic, DecodeError>(Magic) && *final(offset) == j,
                Err(e) => r == Err::<Magic, DecodeError>(e) && *final(offset) == *old(offset),
            },
    {
        let ghost i = *offset as int;
        let len = src.len();
        if !(*offset <= len && len - *offset >= 16) {
            return Err(DecodeError::UnexpectedEof);
        }
        let mut j: usize = 0;
        while j < 16
            invariant
                j <= 16,
                *offset == *old(offset),
                i == *offset as int,
                len == src@.len(),
                i + 16 <= src@.len(),
                src@.subrange(i, i + j as int) =~= magic_bytes().subrange(0, j as int),
            decreases 16 - j,
        {
            if src[*offset + j] != magic_byte(j) {
                proof {
                    assert(src@.subrange(i, i + 16)[j as int] == src@[i + j as int]);
                    assert(src@.subrange(i, i + 16) != magic_bytes());
                }
                return Err(DecodeError::MagicMismatch);
            }
            proof {
                assert(src@.subrange(i, i + j as int + 1) =~= src@.subrange(i, i + j as int)
                    + seq![src@[i + j as int]]);
                assert(magic_bytes().subrange(0, j as int + 1) =~= magic_bytes().subrange(
                    0,
                    j as int,
                ) + seq![magic_bytes()[j as int]]);
            }
            j = j + 1;
        }
        proof {
            assert(src@.subrange(i, i + 16) =~= magic_bytes()) by {
                assert(src@.subrange(i, i + 16) =~= magic_bytes().subrange(0, 16));
                assert(magic_bytes().subrange(0, 16) =~= magic_bytes());
            };
        }
        *offset = *offset + 16;
        Ok(Magic)
    }
}

} // verus!
