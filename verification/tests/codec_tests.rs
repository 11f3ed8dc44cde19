use rakrs::codec::{
    read_bool, read_u16_be, read_u16_le, read_u24_be, read_u24_le, read_u32_be, read_u64_be,
    read_u8, write_bool, write_u16_be, write_u16_le, write_u24_be, write_u24_le, write_u32_be,
    write_u64_be, write_u8,
};
use rakrs::error::DecodeError;
use rakrs::triad::Triad;

#[test]
fn u8_round_trip() {
    let mut v: Vec<u8> = Vec::new();
    write_u8(&mut v, 0xab);
    assert_eq!(v, vec![0xab]);
    let mut off = 0usize;
    assert_eq!(read_u8(&v, &mut off), Ok(0xab));
    assert_eq!(off, 1);
}

#[test]
fn u16_big_endian_bytes() {
    let mut v: Vec<u8> = Vec::new();
    write_u16_be(&mut v, 0x1234);
    assert_eq!(v, vec![0x12, 0x34]);
    let mut off = 0usize;
    assert_eq!(read_u16_be(&v, &mut off), Ok(0x1234));
    assert_eq!(off, 2);
}

#[test]
fn u16_little_endian_bytes() {
    let mut v: Vec<u8> = Vec::new();
    write_u16_le(&mut v, 0x1234);
    assert_eq!(v, vec![0x34, 0x12]);
    let mut off = 0usize;
    assert_eq!(read_u16_le(&v, &mut off), Ok(0x1234));
}

#[test]
fn u16_eof() {
    let v = vec![0x12];
    let mut off = 0usize;
    assert_eq!(read_u16_be(&v, &mut off), Err(DecodeError::UnexpectedEof));
    assert_eq!(off, 0);
}

#[test]
fn u24_both_endiannesses() {
    let mut v: Vec<u8> = Vec::new();
    write_u24_be(&mut v, 0x0a0b0c);
    write_u24_le(&mut v, 0x0a0b0c);
    assert_eq!(v, vec![0x0a, 0x0b, 0x0c, 0x0c, 0x0b, 0x0a]);
    let mut off = 0usize;
    assert_eq!(read_u24_be(&v, &mut off), Ok(0x0a0b0c));
    assert_eq!(read_u24_le(&v, &mut off), Ok(0x0a0b0c));
}

#[test]
fn u24_truncates_top_byte() {
    let mut v: Vec<u8> = Vec::new();
    write_u24_le(&mut v, 0xff_00_00_01);
    assert_eq!(v, vec![0x01, 0x00, 0x00]);
}

#[test]
fn u32_big_endian_bytes() {
    let mut v: Vec<u8> = Vec::new();
    write_u32_be(&mut v, 0xdeadbeef);
    assert_eq!(v, vec![0xde, 0xad, 0xbe, 0xef]);
    let mut off = 0usize;
    assert_eq!(read_u32_be(&v, &mut off), Ok(0xdeadbeef));
}

#[test]
fn u64_big_endian_bytes() {
    let mut v: Vec<u8> = Vec::new();
    write_u64_be(&mut v, 0x0102030405060708);
    assert_eq!(v, vec![1, 2, 3, 4, 5, 6, 7, 8]);
    let mut off = 0usize;
    assert_eq!(read_u64_be(&v, &mut off), Ok(0x0102030405060708));
}

#[test]
fn bool_encodings() {
    let mut v: Vec<u8> = Vec::new();
    write_bool(&mut v, false);
    write_bool(&mut v, true);
    assert_eq!(v, vec![0, 1]);
    let mut off = 0usize;
    assert_eq!(read_bool(&v, &mut off), Ok(false));
    assert_eq!(read_bool(&v, &mut off), Ok(true));
}

#[test]
fn bool_out_of_range() {
    let v = vec![2u8];
    let mut off = 0usize;
    assert_eq!(read_bool(&v, &mut off), Err(DecodeError::OutOfRange));
    assert_eq!(off, 0);
}

#[test]
fn triad_big_endian() {
    let mut v: Vec<u8> = Vec::new();
    Triad(0x010203).write_be(&mut v);
    assert_eq!(v, vec![0x01, 0x02, 0x03]);
    let mut off = 0usize;
    assert_eq!(Triad::read_be(&v, &mut off), Ok(Triad(0x010203)));
}

#[test]
fn triad_little_endian() {
    let mut v: Vec<u8> = Vec::new();
    Triad(0x010203).write_le(&mut v);
    assert_eq!(v, vec![0x03, 0x02, 0x01]);
    let mut off = 0usize;
    assert_eq!(Triad::read_le(&v, &mut off), Ok(Triad(0x010203)));
}

#[test]
fn string_round_trip() {
    let mut v: Vec<u8> = Vec::new();
    rakrs::codec::write_string(&mut v, &String::from("MCPE"));
    assert_eq!(v, vec![0x00, 0x04, b'M', b'C', b'P', b'E']);
    let mut off = 0usize;
    let s = rakrs::codec::read_string(&v, &mut off).unwrap();
    assert_eq!(s, "MCPE");
    assert_eq!(off, 6);
}

#[test]
fn string_non_ascii_round_trip() {
    let name = String::from("caf\u{e9}");
    let mut v: Vec<u8> = Vec::new();
    rakrs::codec::write_string(&mut v, &name);
    assert_eq!(v[..2], [0x00, 0x05]);
    let mut off = 0usize;
    let s = rakrs::codec::read_string(&v, &mut off).unwrap();
    assert_eq!(s, name);
}

#[test]
fn string_invalid_utf8() {
    let v = vec![0x00, 0x02, 0xff, 0xfe];
    let mut off = 0usize;
    assert_eq!(
        rakrs::codec::read_string(&v, &mut off),
        Err(DecodeError::InvalidUtf8)
    );
    assert_eq!(off, 0);
}

#[test]
fn string_eof() {
    let v = vec![0x00, 0x05, b'a'];
    let mut off = 0usize;
    assert_eq!(
        rakrs::codec::read_string(&v, &mut off),
        Err(DecodeError::UnexpectedEof)
    );
}
