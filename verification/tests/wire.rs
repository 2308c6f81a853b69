use fastnbt::wire::{
    i8_of, read_i16, read_i32, read_i64, read_i8, read_u16, read_u32, read_u64, read_u8,
    write_i16, write_i32, write_i64, write_i8, write_u16, write_u32, write_u64,
};
use fastnbt::Error;

#[test]
fn unsigned_numbers_are_big_endian() {
    let mut out = vec![];
    write_u16(&mut out, 0x1234);
    write_u32(&mut out, 0x89AB_CDEF);
    write_u64(&mut out, 0x0102_0304_0506_0708);
    assert_eq!(
        out,
        vec![0x12, 0x34, 0x89, 0xAB, 0xCD, 0xEF, 1, 2, 3, 4, 5, 6, 7, 8]
    );
    assert_eq!(read_u16(&out, 0), Ok(0x1234));
    assert_eq!(read_u32(&out, 2), Ok(0x89AB_CDEF));
    assert_eq!(read_u64(&out, 6), Ok(0x0102_0304_0506_0708));
    assert_eq!(read_u8(&out, 13), Ok(8));
}

#[test]
fn signed_numbers_are_twos_complement() {
    let mut out = vec![];
    write_i8(&mut out, -1);
    write_i16(&mut out, -2);
    write_i32(&mut out, -3);
    write_i64(&mut out, -4);
    assert_eq!(
        out,
        vec![
            0xFF, 0xFF, 0xFE, 0xFF, 0xFF, 0xFF, 0xFD, 0xFF, 0xFF, 0xFF, 0xFF, 0xFF, 0xFF, 0xFF,
            0xFC
        ]
    );
    assert_eq!(read_i8(&out, 0), Ok(-1));
    assert_eq!(read_i16(&out, 1), Ok(-2));
    assert_eq!(read_i32(&out, 3), Ok(-3));
    assert_eq!(read_i64(&out, 7), Ok(-4));
}

#[test]
fn extremes_round_trip() {
    let mut out = vec![];
    write_i8(&mut out, i8::MIN);
    write_i8(&mut out, i8::MAX);
    write_i16(&mut out, i16::MIN);
    write_i16(&mut out, i16::MAX);
    write_i32(&mut out, i32::MIN);
    write_i32(&mut out, i32::MAX);
    write_i64(&mut out, i64::MIN);
    write_i64(&mut out, i64::MAX);
    write_u64(&mut out, u64::MAX);
    assert_eq!(&out[0..2], &[0x80, 0x7F]);
    assert_eq!(&out[2..6], &[0x80, 0x00, 0x7F, 0xFF]);
    assert_eq!(read_i8(&out, 0), Ok(i8::MIN));
    assert_eq!(read_i8(&out, 1), Ok(i8::MAX));
    assert_eq!(read_i16(&out, 2), Ok(i16::MIN));
    assert_eq!(read_i16(&out, 4), Ok(i16::MAX));
    assert_eq!(read_i32(&out, 6), Ok(i32::MIN));
    assert_eq!(read_i32(&out, 10), Ok(i32::MAX));
    assert_eq!(read_i64(&out, 14), Ok(i64::MIN));
    assert_eq!(read_i64(&out, 22), Ok(i64::MAX));
    assert_eq!(read_u64(&out, 30), Ok(u64::MAX));
}

#[test]
fn reading_past_the_end_is_an_error() {
    let buf = [1u8, 2, 3];
    assert_eq!(read_u8(&buf, 3), Err(Error::UnexpectedEof));
    assert_eq!(read_u8(&buf, usize::MAX), Err(Error::UnexpectedEof));
    assert_eq!(read_u16(&buf, 2), Err(Error::UnexpectedEof));
    assert_eq!(read_i16(&buf, 2), Err(Error::UnexpectedEof));
    assert_eq!(read_u32(&buf, 0), Err(Error::UnexpectedEof));
    assert_eq!(read_i32(&buf, 0), Err(Error::UnexpectedEof));
    assert_eq!(read_u64(&buf, 0), Err(Error::UnexpectedEof));
    assert_eq!(read_i64(&buf, usize::MAX), Err(Error::UnexpectedEof));
    assert_eq!(read_i8(&buf, 4), Err(Error::UnexpectedEof));
    assert_eq!(read_u16(&buf, 1), Ok(0x0203));
}

#[test]
fn one_byte_signed() {
    assert_eq!(i8_of(0), 0);
    assert_eq!(i8_of(0x7F), 127);
    assert_eq!(i8_of(0x80), -128);
    assert_eq!(i8_of(0xFF), -1);
}
