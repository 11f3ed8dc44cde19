//! The 24-bit unsigned integer carried in three bytes on the wire.

use vstd::prelude::*;

use crate::codec;
use crate::error::DecodeError;

verus! {

/// A wrapper over `u32` with only the three least-significant bytes encoded;
/// well-formed values keep the top byte zero.
#[derive(Clone, Copy, Debug, Default, PartialEq, Eq, Structural)]
pub struct Triad(pub u32);

impl Triad {
    /// The top byte is zero, so the value fits in three wire bytes.
    pub open spec fn wf(self) -> bool {
        self.0 < 0x1000000
    }

    /// The three big-endian wire bytes: the most significant byte first.
    pub open spec fn wire_be(self) -> Seq<u8> {
        codec::be_bytes((self.0 % 0x1000000) as nat, 3)
    }

    /// The three little-endian wire bytes: the least significant byte first.
    pub open spec fn wire_le(self) -> Seq<u8> {
        codec::le_bytes((self.0 % 0x1000000) as nat, 3)
    }

    /// Appends the big-endian form.
    pub fn write_be(self, vec: &mut Vec<u8>)
        ensures
            final(vec)@ == old(vec)@ + self.wire_be(),
    {
        codec::write_u24_be(vec, self.0);
    }

    /// Appends the little-endian form.
    pub fn write_le(self, vec: &mut Vec<u8>)
        ensures
            final(vec)@ == old(vec)@ + self.wire_le(),
    {
        codec::write_u24_le(vec, self.0);
    }

    /// Reads the big-endian form.
    pub fn read_be(src: &Vec<u8>, offset: &mut usize) -> (r: Result<Triad, DecodeError>)
        ensures
            match codec::parse_be(src@, *old(offset) as int, 3) {
                Ok(p) => r == Ok::<Triad, DecodeError>(Triad(p.0 as u32)) && *final(offset) == p.1,
                Err(e) => r == Err::<Triad, DecodeError>(e) && *final(offset) == *old(offset),
            },
            r matches Ok(t) ==> t.wf(),
    {
        match codec::read_u24_be(src, offset) {
            Ok(v) => Ok(Triad(v)),
            Err(e) => Err(e),
        }
    }

    /// Reads the little-endian form.
    pub fn read_le(src: &Vec<u8>, offset: &mut usize) -> (r: Result<Triad, DecodeError>)
        ensures
            match codec::parse_le(src@, *old(offset) as int, 3) {
                Ok(p) => r == Ok::<Triad, DecodeError>(Triad(p.0 as u32)) && *final(offset) == p.1,
                Err(e) => r == Err::<Triad, DecodeError>(e) && *final(offset) == *old(offset),
            },
            r matches Ok(t) ==> t.wf(),
    {
        match codec::read_u24_le(src, offset) {
            Ok(v) => Ok(Triad(v)),
            Err(e) => Err(e),
        }
    }
}

} // verus!
