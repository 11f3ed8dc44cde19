//! Byte-level codec primitives: big- and little-endian integers of one to
//! eight bytes, and booleans.
//!
//! Every encoder appends bytes to a `Vec<u8>` and promises exactly which
//! bytes it appends.  Every decoder advances a cursor over the source buffer
//! and behaves exactly as the corresponding `parse_*` spec function: it
//! returns `Ok` precisely when the parse succeeds, and on error it leaves the
//! cursor where it was.

use vstd::prelude::*;

use crate::error::DecodeError;

verus! {

/// Big-endian bytes of `v` in `n` digits; only the low `n` bytes of `v` are
/// represented, the most significant first.
pub open spec fn be_bytes(v: nat, n: nat) -> Seq<u8>
    decreases n,
{
    if n == 0 {
        Seq::empty()
    } else {
        be_bytes(v / 256, (n - 1) as nat) + seq![(v % 256) as u8]
    }
}

/// Little-endian bytes of `v` in `n` digits, the least significant first.
pub open spec fn le_bytes(v: nat, n: nat) -> Seq<u8>
    decreases n,
{
    if n == 0 {
        Seq::empty()
    } else {
        seq![(v % 256) as u8] + le_bytes(v / 256, (n - 1) as nat)
    }
}

/// The value of a big-endian byte string.
pub open spec fn be_val(s: Seq<u8>) -> nat
    decreases s.len(),
{
    if s.len() == 0 {
        0
    } else {
        (be_val(s.drop_last()) * 256 + s.last()) as nat
    }
}

/// The value of a little-endian byte string.
pub open spec fn le_val(s: Seq<u8>) -> nat
    decreases s.len(),
{
    if s.len() == 0 {
        0
    } else {
        (s.first() + le_val(s.drop_first()) * 256) as nat
    }
}

/// 256 to the power `n`: the number of values `n` bytes can hold.
pub open spec fn pow256(n: nat) -> nat
    decreases n,
{
    if n == 0 {
        1
    } else {
        256 * pow256((n - 1) as nat)
    }
}

pub proof fn lemma_pow256_vals()
    ensures
        pow256(0) == 1,
        pow256(1) == 0x100,
        pow256(2) == 0x10000,
        pow256(3) == 0x1000000,
        pow256(4) == 0x100000000,
        pow256(8) == 0x10000000000000000,
{
    assert(pow256(0) == 1);
    assert(pow256(1) == 0x100);
    assert(pow256(2) == 0x10000);
    assert(pow256(3) == 0x1000000);
    assert(pow256(4) == 0x100000000);
    assert(pow256(5) == 0x10000000000);
    assert(pow256(6) == 0x1000000000000);
    assert(pow256(7) == 0x100000000000000);
    assert(pow256(8) == 0x10000000000000000);
}

pub proof fn lemma_pow256_increases(a: nat, b: nat)
    requires
        a <= b,
    ensures
        pow256(a) <= pow256(b),
    decreases b,
{
    if a < b {
        lemma_pow256_increases(a, (b - 1) as nat);
    }
}

pub proof fn lemma_be_bytes_len(v: nat, n: nat)
    ensures
        be_bytes(v, n).len() == n,
    decreases n,
{
    if n > 0 {
        lemma_be_bytes_len(v / 256, (n - 1) as nat);
    }
}

pub proof fn lemma_le_bytes_len(v: nat, n: nat)
    ensures
        le_bytes(v, n).len() == n,
    decreases n,
{
    if n > 0 {
        lemma_le_bytes_len(v / 256, (n - 1) as nat);
    }
}

/// A big-endian byte string of length `n` holds a value below `pow256(n)`.
pub proof fn lemma_be_val_bound(s: Seq<u8>)
    ensures
        be_val(s) < pow256(s.len()),
    decreases s.len(),
{
    if s.len() > 0 {
        lemma_be_val_bound(s.drop_last());
    }
}

pub proof fn lemma_le_val_bound(s: Seq<u8>)
    ensures
        le_val(s) < pow256(s.len()),
    decreases s.len(),
{
    if s.len() > 0 {
        lemma_le_val_bound(s.drop_first());
    }
}

/// Round trip: reading back the big-endian bytes of `v` yields `v`.
pub proof fn lemma_be_val_of_bytes(v: nat, n: nat)
    requires
        v < pow256(n),
    ensures
        be_val(be_bytes(v, n)) == v,
    decreases n,
{
    if n > 0 {
        assert(v / 256 < pow256((n - 1) as nat)) by {
            vstd::arithmetic::div_mod::lemma_fundamental_div_mod(v as int, 256);
        };
        lemma_be_val_of_bytes(v / 256, (n - 1) as nat);
        lemma_be_bytes_len(v / 256, (n - 1) as nat);
        let s = be_bytes(v, n);
        assert(s.drop_last() =~= be_bytes(v / 256, (n - 1) as nat));
        vstd::arithmetic::div_mod::lemma_fundamental_div_mod(v as int, 256);
    }
}

pub proof fn lemma_le_val_of_bytes(v: nat, n: nat)
    requires
        v < pow256(n),
    ensures
        le_val(le_bytes(v, n)) == v,
    decreases n,
{
    if n > 0 {
        assert(v / 256 < pow256((n - 1) as nat)) by {
            vstd::arithmetic::div_mod::lemma_fundamental_div_mod(v as int, 256);
        };
        lemma_le_val_of_bytes(v / 256, (n - 1) as nat);
        lemma_le_bytes_len(v / 256, (n - 1) as nat);
        let s = le_bytes(v, n);
        assert(s.drop_first() =~= le_bytes(v / 256, (n - 1) as nat));
        vstd::arithmetic::div_mod::lemma_fundamental_div_mod(v as int, 256);
    }
}

/// Canonicity: every byte string is the big-endian encoding of its value.
pub proof fn lemma_be_bytes_of_val(s: Seq<u8>)
    ensures
        be_bytes(be_val(s), s.len()) == s,
    decreases s.len(),
{
    if s.len() > 0 {
        let v = be_val(s);
        let dl = s.drop_last();
        vstd::arithmetic::div_mod::lemma_fundamental_div_mod_converse(
            v as int,
            256,
            be_val(dl) as int,
            s.last() as int,
        );
        lemma_be_bytes_of_val(dl);
        assert(be_bytes(v, s.len()) =~= s);
    }
}

pub proof fn lemma_le_bytes_of_val(s: Seq<u8>)
    ensures
        le_bytes(le_val(s), s.len()) == s,
    decreases s.len(),
{
    if s.len() > 0 {
        let v = le_val(s);
        let df = s.drop_first();
        vstd::arithmetic::div_mod::lemma_fundamental_div_mod_converse(
            v as int,
            256,
            le_val(df) as int,
            s.first() as int,
        );
        lemma_le_bytes_of_val(df);
        assert(le_bytes(v, s.len()) =~= s);
    }
}

/// A window into a buffer equals a window into the byte string known to
/// sit there.
pub proof fn lemma_subrange_within(s: Seq<u8>, i: int, w: Seq<u8>, a: int, b: int)
    requires
        0 <= i,
        i + w.len() <= s.len(),
        s.subrange(i, i + w.len()) == w,
        0 <= a <= b <= w.len(),
    ensures
        s.subrange(i + a, i + b) == w.subrange(a, b),
{
    assert(s.subrange(i + a, i + b) =~= w.subrange(a, b)) by {
        assert forall|t: int| 0 <= t < b - a implies #[trigger] s[i + a + t] == w[a + t] by {
            assert(s.subrange(i, i + w.len())[a + t] == s[i + a + t]);
        };
    };
}

/// Parsing where the big-endian bytes of `v` are known to sit succeeds
/// with `v`.
pub proof fn lemma_parse_be_of_wire(s: Seq<u8>, i: int, v: nat, n: nat)
    requires
        0 <= i,
        v < pow256(n),
        i + n <= s.len(),
        s.subrange(i, i + n) == be_bytes(v, n),
    ensures
        parse_be(s, i, n as int) == Ok::<(nat, int), DecodeError>((v, i + n)),
{
    lemma_be_val_of_bytes(v, n);
}

/// Parsing where the little-endian bytes of `v` are known to sit succeeds
/// with `v`.
pub proof fn lemma_parse_le_of_wire(s: Seq<u8>, i: int, v: nat, n: nat)
    requires
        0 <= i,
        v < pow256(n),
        i + n <= s.len(),
        s.subrange(i, i + n) == le_bytes(v, n),
    ensures
        parse_le(s, i, n as int) == Ok::<(nat, int), DecodeError>((v, i + n)),
{
    lemma_le_val_of_bytes(v, n);
}

/// Parse of a fixed-width big-endian integer of `n` bytes at `i`.
pub open spec fn parse_be(s: Seq<u8>, i: int, n: int) -> Result<(nat, int), DecodeError> {
    if 0 <= i && 0 <= n && i + n <= s.len() {
        Ok((be_val(s.subrange(i, i + n)), i + n))
    } else {
        Err(DecodeError::UnexpectedEof)
    }
}

/// Parse of a fixed-width little-endian integer of `n` bytes at `i`.
pub open spec fn parse_le(s: Seq<u8>, i: int, n: int) -> Result<(nat, int), DecodeError> {
    if 0 <= i && 0 <= n && i + n <= s.len() {
        Ok((le_val(s.subrange(i, i + n)), i + n))
    } else {
        Err(DecodeError::UnexpectedEof)
    }
}

/// Reads `n` big-endian bytes at the cursor; the bounds were checked by the
/// caller.
fn read_be_at(src: &Vec<u8>, offset: &mut usize, n: usize) -> (v: u64)
    requires
        n <= 8,
        *old(offset) + n <= src@.len(),
    ensures
        *final(offset) == *old(offset) + n,
        v as nat == be_val(src@.subrange(*old(offset) as int, *old(offset) + n as int)),
    decreases n,
{
    if n == 0 {
        assert(src@.subrange(*old(offset) as int, *old(offset) as int) =~= Seq::<u8>::empty());
        0
    } else {
        let ghost i = *old(offset) as int;
        let hi = read_be_at(src, offset, n - 1);
        let b = src[*offset];
        let len = src.len();
        assert(*offset < len);
        *offset = *offset + 1;
        proof {
            let s = src@.subrange(i, i + n as int);
            assert(s.drop_last() =~= src@.subrange(i, i + n as int - 1));
            lemma_be_val_bound(s.drop_last());
            lemma_pow256_increases((n - 1) as nat, 7);
            lemma_pow256_vals();
        }
        hi * 256 + (b as u64)
    }
}

/// Reads `n` little-endian bytes at the cursor; the bounds were checked by
/// the caller.
fn read_le_at(src: &Vec<u8>, offset: &mut usize, n: usize) -> (v: u64)
    requires
        n <= 8,
        *old(offset) + n <= src@.len(),
    ensures
        *final(offset) == *old(offset) + n,
        v as nat == le_val(src@.subrange(*old(offset) as int, *old(offset) + n as int)),
    decreases n,
{
    if n == 0 {
        assert(src@.subrange(*old(offset) as int, *old(offset) as int) =~= Seq::<u8>::empty());
        0
    } else {
        let ghost i = *old(offset) as int;
        let b = src[*offset];
        let len = src.len();
        assert(*offset < len);
        *offset = *offset + 1;
        let rest = read_le_at(src, offset, n - 1);
        proof {
            let s = src@.subrange(i, i + n as int);
            assert(s.drop_first() =~= src@.subrange(i + 1, i + n as int));
            lemma_le_val_bound(s.drop_first());
            lemma_pow256_increases((n - 1) as nat, 7);
            lemma_pow256_vals();
        }
        b as u64 + rest * 256
    }
}

/// Appends the `n` big-endian bytes of `v`.
pub fn write_be(vec: &mut Vec<u8>, v: u64, n: usize)
    ensures
        final(vec)@ == old(vec)@ + be_bytes(v as nat, n as nat),
    decreases n,
{
    if n == 0 {
        assert(vec@ =~= vec@ + be_bytes(v as nat, 0));
    } else {
        write_be(vec, v / 256, n - 1);
        vec.push((v % 256) as u8);
        assert(vec@ =~= old(vec)@ + be_bytes(v as nat, n as nat));
    }
}

/// Appends the `n` little-endian bytes of `v`.
pub fn write_le(vec: &mut Vec<u8>, v: u64, n: usize)
    ensures
        final(vec)@ == old(vec)@ + le_bytes(v as nat, n as nat),
    decreases n,
{
    if n == 0 {
        assert(vec@ =~= vec@ + le_bytes(v as nat, 0));
    } else {
        vec.push((v % 256) as u8);
        write_le(vec, v / 256, n - 1);
        assert(vec@ =~= old(vec)@ + le_bytes(v as nat, n as nat));
    }
}

/// Checks that `n` more bytes are available at the cursor.
fn has_bytes(src: &Vec<u8>, offset: &usize, n: usize) -> (r: bool)
    ensures
        r == (*offset + n <= src@.len()),
{
    *offset <= src.len() && src.len() - *offset >= n
}

/// Reads one byte.
pub fn read_u8(src: &Vec<u8>, offset: &mut usize) -> (r: Result<u8, DecodeError>)
    ensures
        *old(offset) + 1 <= src@.len() ==> r == Ok::<u8, DecodeError>(
            src@[*old(offset) as int],
        ) && *final(offset) == *old(offset) + 1,
        *old(offset) + 1 > src@.len() ==> r == Err::<u8, DecodeError>(DecodeError::UnexpectedEof)
            && *final(offset) == *old(offset),
{
    if *offset < src.len() {
        let b = src[*offset];
        *offset = *offset + 1;
        Ok(b)
    } else {
        Err(DecodeError::UnexpectedEof)
    }
}

/// Appends one byte.
pub fn write_u8(vec: &mut Vec<u8>, v: u8)
    ensures
        final(vec)@ == old(vec)@ + seq![v],
{
    vec.push(v);
    assert(vec@ =~= old(vec)@ + seq![v]);
}

/// Parse of one boolean byte: `0` is false, `1` is true, all else is out of
/// range.
pub open spec fn parse_bool(s: Seq<u8>, i: int) -> Result<(bool, int), DecodeError> {
    if 0 <= i && i + 1 <= s.len() {
        if s[i] == 0 {
            Ok((false, i + 1))
        } else if s[i] == 1 {
            Ok((true, i + 1))
        } else {
            Err(DecodeError::OutOfRange)
        }
    } else {
        Err(DecodeError::UnexpectedEof)
    }
}

/// The one-byte encoding of a boolean.
pub open spec fn bool_bytes(b: bool) -> Seq<u8> {
    if b {
        seq![1u8]
    } else {
        seq![0u8]
    }
}

/// Reads one boolean byte.
pub fn read_bool(src: &Vec<u8>, offset: &mut usize) -> (r: Result<bool, DecodeError>)
    ensures
        match parse_bool(src@, *old(offset) as int) {
            Ok(p) => r == Ok::<bool, DecodeError>(p.0) && *final(offset) == p.1,
            Err(e) => r == Err::<bool, DecodeError>(e) && *final(offset) == *old(offset),
        },
{
    if *offset < src.len() {
        let b = src[*offset];
        if b == 0 {
            *offset = *offset + 1;
            Ok(false)
        } else if b == 1 {
            *offset = *offset + 1;
            Ok(true)
        } else {
            Err(DecodeError::OutOfRange)
        }
    } else {
        Err(DecodeError::UnexpectedEof)
    }
}

/// Appends one boolean byte.
pub fn write_bool(vec: &mut Vec<u8>, b: bool)
    ensures
        final(vec)@ == old(vec)@ + bool_bytes(b),
{
    vec.push(if b {
        1
    } else {
        0
    });
    assert(vec@ =~= old(vec)@ + bool_bytes(b));
}

/// Reads a big-endian u16.
pub fn read_u16_be(src: &Vec<u8>, offset: &mut usize) -> (r: Result<u16, DecodeError>)
    ensures
        match parse_be(src@, *old(offset) as int, 2) {
            Ok(p) => r == Ok::<u16, DecodeError>(p.0 as u16) && *final(offset) == p.1,
            Err(e) => r == Err::<u16, DecodeError>(e) && *final(offset) == *old(offset),
        },
{
    if has_bytes(src, offset, 2) {
        let v = read_be_at(src, offset, 2);
        proof {
            lemma_be_val_bound(src@.subrange(*old(offset) as int, *old(offset) + 2));
            lemma_pow256_vals();
        }
        Ok(v as u16)
    } else {
        Err(DecodeError::UnexpectedEof)
    }
}

/// Reads a little-endian u16.
pub fn read_u16_le(src: &Vec<u8>, offset: &mut usize) -> (r: Result<u16, DecodeError>)
    ensures
        match parse_le(src@, *old(offset) as int, 2) {
            Ok(p) => r == Ok::<u16, DecodeError>(p.0 as u16) && *final(offset) == p.1,
            Err(e) => r == Err::<u16, DecodeError>(e) && *final(offset) == *old(offset),
        },
{
    if has_bytes(src, offset, 2) {
        let v = read_le_at(src, offset, 2);
        proof {
            lemma_le_val_bound(src@.subrange(*old(offset) as int, *old(offset) + 2));
            lemma_pow256_vals();
        }
        Ok(v as u16)
    } else {
        Err(DecodeError::UnexpectedEof)
    }
}

/// Reads a big-endian 24-bit integer into the low bytes of a u32.
pub fn read_u24_be(src: &Vec<u8>, offset: &mut usize) -> (r: Result<u32, DecodeError>)
    ensures
        match parse_be(src@, *old(offset) as int, 3) {
            Ok(p) => r == Ok::<u32, DecodeError>(p.0 as u32) && *final(offset) == p.1,
            Err(e) => r == Err::<u32, DecodeError>(e) && *final(offset) == *old(offset),
        },
        r matches Ok(v) ==> v < 0x1000000,
{
    if has_bytes(src, offset, 3) {
        let v = read_be_at(src, offset, 3);
        proof {
            lemma_be_val_bound(src@.subrange(*old(offset) as int, *old(offset) + 3));
            lemma_pow256_vals();
        }
        Ok(v as u32)
    } else {
        Err(DecodeError::UnexpectedEof)
    }
}

/// Reads a little-endian 24-bit integer into the low bytes of a u32.
pub fn read_u24_le(src: &Vec<u8>, offset: &mut usize) -> (r: Result<u32, DecodeError>)
    ensures
        match parse_le(src@, *old(offset) as int, 3) {
            Ok(p) => r == Ok::<u32, DecodeError>(p.0 as u32) && *final(offset) == p.1,
            Err(e) => r == Err::<u32, DecodeError>(e) && *final(offset) == *old(offset),
        },
        r matches Ok(v) ==> v < 0x1000000,
{
    if has_bytes(src, offset, 3) {
        let v = read_le_at(src, offset, 3);
        proof {
            lemma_le_val_bound(src@.subrange(*old(offset) as int, *old(offset) + 3));
            lemma_pow256_vals();
        }
        Ok(v as u32)
    } else {
        Err(DecodeError::UnexpectedEof)
    }
}

/// Reads a big-endian u32.
pub fn read_u32_be(src: &Vec<u8>, offset: &mut usize) -> (r: Result<u32, DecodeError>)
    ensures
        match parse_be(src@, *old(offset) as int, 4) {
            Ok(p) => r == Ok::<u32, DecodeError>(p.0 as u32) && *final(offset) == p.1,
            Err(e) => r == Err::<u32, DecodeError>(e) && *final(offset) == *old(offset),
        },
{
    if has_bytes(src, offset, 4) {
        let v = read_be_at(src, offset, 4);
        proof {
            lemma_be_val_bound(src@.subrange(*old(offset) as int, *old(offset) + 4));
            lemma_pow256_vals();
        }
        Ok(v as u32)
    } else {
        Err(DecodeError::UnexpectedEof)
    }
}

/// Reads a big-endian u64.
pub fn read_u64_be(src: &Vec<u8>, offset: &mut usize) -> (r: Result<u64, DecodeError>)
    ensures
        match parse_be(src@, *old(offset) as int, 8) {
            Ok(p) => r == Ok::<u64, DecodeError>(p.0 as u64) && *final(offset) == p.1,
            Err(e) => r == Err::<u64, DecodeError>(e) && *final(offset) == *old(offset),
        },
{
    if has_bytes(src, offset, 8) {
        let v = read_be_at(src, offset, 8);
        Ok(v)
    } else {
        Err(DecodeError::UnexpectedEof)
    }
}

/// Appends a big-endian u16.
pub fn write_u16_be(vec: &mut Vec<u8>, v: u16)
    ensures
        final(vec)@ == old(vec)@ + be_bytes(v as nat, 2),
{
    write_be(vec, v as u64, 2);
}

/// Appends a little-endian u16.
pub fn write_u16_le(vec: &mut Vec<u8>, v: u16)
    ensures
        final(vec)@ == old(vec)@ + le_bytes(v as nat, 2),
{
    write_le(vec, v as u64, 2);
}

/// Appends the low 24 bits of `v` big-endian.
pub fn write_u24_be(vec: &mut Vec<u8>, v: u32)
    ensures
        final(vec)@ == old(vec)@ + be_bytes((v % 0x1000000) as nat, 3),
{
    write_be(vec, (v % 0x1000000) as u64, 3);
}

/// Appends the low 24 bits of `v` little-endian.
pub fn write_u24_le(vec: &mut Vec<u8>, v: u32)
    ensures
        final(vec)@ == old(vec)@ + le_bytes((v % 0x1000000) as nat, 3),
{
    write_le(vec, (v % 0x1000000) as u64, 3);
}

/// Appends a big-endian u32.
pub fn write_u32_be(vec: &mut Vec<u8>, v: u32)
    ensures
        final(vec)@ == old(vec)@ + be_bytes(v as nat, 4),
{
    write_be(vec, v as u64, 4);
}

/// Appends a big-endian u64.
pub fn write_u64_be(vec: &mut Vec<u8>, v: u64)
    ensures
        final(vec)@ == old(vec)@ + be_bytes(v as nat, 8),
{
    write_be(vec, v, 8);
}

/// The wire bytes of a string: a big-endian 16-bit length prefix followed by
/// the UTF-8 bytes of the characters.
pub open spec fn string_wire(chars: Seq<char>) -> Seq<u8> {
    be_bytes(vstd::utf8::encode_utf8(chars).len(), 2) + vstd::utf8::encode_utf8(chars)
}

/// A string is encodable when its UTF-8 byte length fits the 16-bit prefix.
pub open spec fn string_wf(chars: Seq<char>) -> bool {
    vstd::utf8::encode_utf8(chars).len() <= 0xffff
}

/// Parse of a string at `i`: the length prefix, then that many bytes, which
/// must be valid UTF-8.
pub open spec fn parse_string(s: Seq<u8>, i: int) -> Result<(Seq<char>, int), DecodeError> {
    match parse_be(s, i, 2) {
        Ok((n, j)) => if j + n <= s.len() {
            if vstd::utf8::valid_utf8(s.subrange(j, j + n)) {
                Ok((vstd::utf8::decode_utf8(s.subrange(j, j + n)), j + n))
            } else {
                Err(DecodeError::InvalidUtf8)
            }
        } else {
            Err(DecodeError::UnexpectedEof)
        },
        Err(e) => Err(e),
    }
}

/// Parsing where the byte of `b` is known to sit succeeds with `b`.
pub proof fn lemma_parse_bool_of_wire(s: Seq<u8>, i: int, b: bool)
    requires
        0 <= i,
        i + 1 <= s.len(),
        s.subrange(i, i + 1) == bool_bytes(b),
    ensures
        parse_bool(s, i) == Ok::<(bool, int), DecodeError>((b, i + 1)),
{
    assert(s[i] == bool_bytes(b)[0]) by {
        assert(s.subrange(i, i + 1)[0] == s[i]);
    };
}

/// Parsing where the length-prefixed UTF-8 bytes of a string are known to
/// sit succeeds with its characters.
pub proof fn lemma_parse_string_of_wire(s: Seq<u8>, i: int, chars: Seq<char>)
    requires
        0 <= i,
        string_wf(chars),
        i + string_wire(chars).len() <= s.len(),
        s.subrange(i, i + string_wire(chars).len()) == string_wire(chars),
    ensures
        parse_string(s, i) == Ok::<(Seq<char>, int), DecodeError>(
            (chars, i + string_wire(chars).len()),
        ),
{
    let w = string_wire(chars);
    let bytes = vstd::utf8::encode_utf8(chars);
    let blen = bytes.len();
    lemma_be_bytes_len(blen, 2);
    lemma_pow256_vals();
    assert(w.subrange(0, 2) =~= be_bytes(blen, 2));
    lemma_subrange_within(s, i, w, 0, 2);
    lemma_parse_be_of_wire(s, i, blen, 2);
    assert(w.subrange(2, w.len() as int) =~= bytes);
    lemma_subrange_within(s, i, w, 2, w.len() as int);
    vstd::utf8::encode_utf8_valid_utf8(chars);
    vstd::utf8::encode_utf8_decode_utf8(chars);
}

/// Relies on `String::from_utf8`: it returns `Ok` exactly on byte strings
/// that are valid UTF-8, and the characters of the string are the UTF-8
/// decoding of the bytes.
#[verifier::external_body]
fn string_from_utf8(bytes: Vec<u8>) -> (r: Result<String, DecodeError>)
    ensures
        (r is Ok) == vstd::utf8::valid_utf8(bytes@),
        r matches Ok(s) ==> s@ == vstd::utf8::decode_utf8(bytes@),
        r matches Err(e) ==> e == DecodeError::InvalidUtf8,
{
    match String::from_utf8(bytes) {
        Ok(s) => Ok(s),
        Err(_) => Err(DecodeError::InvalidUtf8),
    }
}

/// Appends the length-prefixed UTF-8 bytes of a string.
pub fn write_string(vec: &mut Vec<u8>, s: &String)
    requires
        string_wf(s@),
    ensures
        final(vec)@ == old(vec)@ + string_wire(s@),
{
    let mut bytes = s.as_str().as_bytes_vec();
    write_u16_be(vec, bytes.len() as u16);
    vec.append(&mut bytes);
    assert(vec@ =~= old(vec)@ + string_wire(s@));
}

/// Reads a length-prefixed UTF-8 string.
pub fn read_string(src: &Vec<u8>, offset: &mut usize) -> (r: Result<String, DecodeError>)
    ensures
        match parse_string(src@, *old(offset) as int) {
            Ok(p) => r matches Ok(s) && s@ == p.0 && *final(offset) == p.1,
            Err(e) => r == Err::<String, DecodeError>(e) && *final(offset) == *old(offset),
        },
{
    let start = *offset;
    let n = match read_u16_be(src, offset) {
        Ok(v) => v,
        Err(e) => {
            return Err(e);
        },
    };
    proof {
        lemma_be_val_bound(src@.subrange(start as int, start as int + 2));
        lemma_pow256_vals();
    }
    let n = n as usize;
    if !(*offset <= src.len() && src.len() - *offset >= n) {
        *offset = start;
        return Err(DecodeError::UnexpectedEof);
    }
    let ghost j = *offset as int;
    let len = src.len();
    let mut bytes: Vec<u8> = Vec::new();
    let mut k: usize = 0;
    while k < n
        invariant
            k <= n,
            *offset == start + 2,
            j == *offset as int,
            j + n <= src@.len(),
            len == src@.len(),
            bytes@ =~= src@.subrange(j, j + k as int),
        decreases n - k,
    {
        bytes.push(src[*offset + k]);
        proof {
            assert(src@.subrange(j, j + k as int + 1) =~= src@.subrange(j, j + k as int) + seq![
                src@[j + k as int],
            ]);
        }
        k = k + 1;
    }
    match string_from_utf8(bytes) {
        Ok(s) => {
            *offset = *offset + n;
            Ok(s)
        },
        Err(e) => {
            *offset = start;
            Err(e)
        },
    }
}

} // verus!
