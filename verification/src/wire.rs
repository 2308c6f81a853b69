//! Big-endian integers on the wire.
//!
//! Every multi-byte number of the format is written most significant byte
//! first. Signed numbers are two's complement.

use vstd::prelude::*;
use crate::error::Error;

verus! {

/// Whether `n` bytes lie in `bytes` from `pos` on.
pub open spec fn in_bounds(bytes: Seq<u8>, pos: int, n: int) -> bool {
    0 <= pos && 0 <= n && pos + n <= bytes.len()
}

/// The unsigned number in the two bytes at `pos`.
pub open spec fn u16_at(bytes: Seq<u8>, pos: int) -> int {
    bytes[pos] as int * 0x100 + bytes[pos + 1] as int
}

/// The unsigned number in the four bytes at `pos`.
pub open spec fn u32_at(bytes: Seq<u8>, pos: int) -> int {
    u16_at(bytes, pos) * 0x1_0000 + u16_at(bytes, pos + 2)
}

/// The unsigned number in the eight bytes at `pos`.
pub open spec fn u64_at(bytes: Seq<u8>, pos: int) -> int {
    u32_at(bytes, pos) * 0x1_0000_0000 + u32_at(bytes, pos + 4)
}

/// The two's complement reading of `v`, an unsigned number below `modulus`.
pub open spec fn signed(v: int, modulus: int) -> int {
    if 2 * v < modulus {
        v
    } else {
        v - modulus
    }
}

/// The unsigned number below `modulus` whose two's complement reading is `v`.
pub open spec fn unsigned(v: int, modulus: int) -> int {
    if v < 0 {
        v + modulus
    } else {
        v
    }
}

/// The signed number in the byte at `pos`.
pub open spec fn i8_at(bytes: Seq<u8>, pos: int) -> i8 {
    signed(bytes[pos] as int, 0x100) as i8
}

/// The signed number in the two bytes at `pos`.
pub open spec fn i16_at(bytes: Seq<u8>, pos: int) -> i16 {
    signed(u16_at(bytes, pos), 0x1_0000) as i16
}

/// The signed number in the four bytes at `pos`.
pub open spec fn i32_at(bytes: Seq<u8>, pos: int) -> i32 {
    signed(u32_at(bytes, pos), 0x1_0000_0000) as i32
}

/// The signed number in the eight bytes at `pos`.
pub open spec fn i64_at(bytes: Seq<u8>, pos: int) -> i64 {
    signed(u64_at(bytes, pos), 0x1_0000_0000_0000_0000) as i64
}

/// The two bytes of an unsigned number below 2^16.
pub open spec fn u16_bytes(v: int) -> Seq<u8> {
    seq![(v / 0x100) as u8, (v % 0x100) as u8]
}

/// The four bytes of an unsigned number below 2^32.
pub open spec fn u32_bytes(v: int) -> Seq<u8> {
    u16_bytes(v / 0x1_0000) + u16_bytes(v % 0x1_0000)
}

/// The eight bytes of an unsigned number below 2^64.
pub open spec fn u64_bytes(v: int) -> Seq<u8> {
    u32_bytes(v / 0x1_0000_0000) + u32_bytes(v % 0x1_0000_0000)
}

/// The byte of a signed 8-bit number.
pub open spec fn i8_bytes(v: i8) -> Seq<u8> {
    seq![unsigned(v as int, 0x100) as u8]
}

/// The two bytes of a signed 16-bit number.
pub open spec fn i16_bytes(v: i16) -> Seq<u8> {
    u16_bytes(unsigned(v as int, 0x1_0000))
}

/// The four bytes of a signed 32-bit number.
pub open spec fn i32_bytes(v: i32) -> Seq<u8> {
    u32_bytes(unsigned(v as int, 0x1_0000_0000))
}

/// The eight bytes of a signed 64-bit number.
pub open spec fn i64_bytes(v: i64) -> Seq<u8> {
    u64_bytes(unsigned(v as int, 0x1_0000_0000_0000_0000))
}

/// A buffer holds no more than `usize::MAX` bytes.
pub proof fn lemma_len_fits(bytes: &[u8])
    ensures
        bytes@.len() <= usize::MAX,
{
    assert(bytes.len() == bytes@.len());
}

/// Reads the byte at `pos`.
pub fn read_u8(bytes: &[u8], pos: usize) -> (r: Result<u8, Error>)
    ensures
        in_bounds(bytes@, pos as int, 1) ==> r == Ok::<u8, Error>(bytes@[pos as int]),
        !in_bounds(bytes@, pos as int, 1) ==> r == Err::<u8, Error>(Error::UnexpectedEof),
{
    if pos < bytes.len() {
        Ok(bytes[pos])
    } else {
        Err(Error::UnexpectedEof)
    }
}

/// Reads the unsigned 16-bit number at `pos`.
pub fn read_u16(bytes: &[u8], pos: usize) -> (r: Result<u16, Error>)
    ensures
        in_bounds(bytes@, pos as int, 2) ==> r == Ok::<u16, Error>(u16_at(bytes@, pos as int) as u16),
        in_bounds(bytes@, pos as int, 2) ==> 0 <= u16_at(bytes@, pos as int) < 0x1_0000,
        !in_bounds(bytes@, pos as int, 2) ==> r == Err::<u16, Error>(Error::UnexpectedEof),
{
    if pos > bytes.len() || bytes.len() - pos < 2 {
        return Err(Error::UnexpectedEof);
    }
    let hi: u16 = bytes[pos] as u16;
    let lo: u16 = bytes[pos + 1] as u16;
    Ok(hi * 0x100 + lo)
}

/// Reads the unsigned 32-bit number at `pos`.
pub fn read_u32(bytes: &[u8], pos: usize) -> (r: Result<u32, Error>)
    ensures
        in_bounds(bytes@, pos as int, 4) ==> r == Ok::<u32, Error>(u32_at(bytes@, pos as int) as u32),
        in_bounds(bytes@, pos as int, 4) ==> 0 <= u32_at(bytes@, pos as int) < 0x1_0000_0000,
        !in_bounds(bytes@, pos as int, 4) ==> r == Err::<u32, Error>(Error::UnexpectedEof),
{
    if pos > bytes.len() || bytes.len() - pos < 4 {
        return Err(Error::UnexpectedEof);
    }
    let hi: u32 = bytes[pos] as u32 * 0x100 + bytes[pos + 1] as u32;
    let lo: u32 = bytes[pos + 2] as u32 * 0x100 + bytes[pos + 3] as u32;
    Ok(hi * 0x1_0000 + lo)
}

/// Reads the unsigned 64-bit number at `pos`.
pub fn read_u64(bytes: &[u8], pos: usize) -> (r: Result<u64, Error>)
    ensures
        in_bounds(bytes@, pos as int, 8) ==> r == Ok::<u64, Error>(u64_at(bytes@, pos as int) as u64),
        in_bounds(bytes@, pos as int, 8) ==> 0 <= u64_at(bytes@, pos as int)
            < 0x1_0000_0000_0000_0000,
        !in_bounds(bytes@, pos as int, 8) ==> r == Err::<u64, Error>(Error::UnexpectedEof),
{
    if pos > bytes.len() || bytes.len() - pos < 8 {
        return Err(Error::UnexpectedEof);
    }
    let hi: u64 = match read_u32(bytes, pos) {
        Ok(v) => v as u64,
        Err(e) => return Err(e),
    };
    let lo: u64 = match read_u32(bytes, pos + 4) {
        Ok(v) => v as u64,
        Err(e) => return Err(e),
    };
    Ok(hi * 0x1_0000_0000 + lo)
}

/// Reads the signed 8-bit number at `pos`.
pub fn read_i8(bytes: &[u8], pos: usize) -> (r: Result<i8, Error>)
    ensures
        in_bounds(bytes@, pos as int, 1) ==> r == Ok::<i8, Error>(i8_at(bytes@, pos as int)),
        !in_bounds(bytes@, pos as int, 1) ==> r == Err::<i8, Error>(Error::UnexpectedEof),
{
    match read_u8(bytes, pos) {
        Ok(v) => Ok(i8_of(v)),
        Err(e) => Err(e),
    }
}

/// Reads the signed 16-bit number at `pos`.
pub fn read_i16(bytes: &[u8], pos: usize) -> (r: Result<i16, Error>)
    ensures
        in_bounds(bytes@, pos as int, 2) ==> r == Ok::<i16, Error>(i16_at(bytes@, pos as int)),
        !in_bounds(bytes@, pos as int, 2) ==> r == Err::<i16, Error>(Error::UnexpectedEof),
{
    match read_u16(bytes, pos) {
        Ok(v) => Ok(
            if v < 0x8000 {
                v as i16
            } else {
                (v as i32 - 0x1_0000) as i16
            },
        ),
        Err(e) => Err(e),
    }
}

/// Reads the signed 32-bit number at `pos`.
pub fn read_i32(bytes: &[u8], pos: usize) -> (r: Result<i32, Error>)
    ensures
        in_bounds(bytes@, pos as int, 4) ==> r == Ok::<i32, Error>(i32_at(bytes@, pos as int)),
        !in_bounds(bytes@, pos as int, 4) ==> r == Err::<i32, Error>(Error::UnexpectedEof),
{
    match read_u32(bytes, pos) {
        Ok(v) => Ok(
            if v < 0x8000_0000 {
                v as i32
            } else {
                (v as i64 - 0x1_0000_0000) as i32
            },
        ),
        Err(e) => Err(e),
    }
}

/// Reads the signed 64-bit number at `pos`.
pub fn read_i64(bytes: &[u8], pos: usize) -> (r: Result<i64, Error>)
    ensures
        in_bounds(bytes@, pos as int, 8) ==> r == Ok::<i64, Error>(i64_at(bytes@, pos as int)),
        !in_bounds(bytes@, pos as int, 8) ==> r == Err::<i64, Error>(Error::UnexpectedEof),
{
    match read_u64(bytes, pos) {
        Ok(v) => Ok(
            if v < 0x8000_0000_0000_0000 {
                v as i64
            } else {
                (v as i128 - 0x1_0000_0000_0000_0000) as i64
            },
        ),
        Err(e) => Err(e),
    }
}

/// The signed reading of one byte.
pub fn i8_of(v: u8) -> (r: i8)
    ensures
        r == signed(v as int, 0x100),
{
    if v < 0x80 {
        v as i8
    } else {
        (v as i16 - 0x100) as i8
    }
}

/// Appends an unsigned 16-bit number.
pub fn write_u16(out: &mut Vec<u8>, v: u16)
    ensures
        final(out)@ == old(out)@ + u16_bytes(v as int),
{
    out.push((v / 0x100) as u8);
    out.push((v % 0x100) as u8);
}

/// Appends an unsigned 32-bit number.
pub fn write_u32(out: &mut Vec<u8>, v: u32)
    ensures
        final(out)@ == old(out)@ + u32_bytes(v as int),
{
    write_u16(out, (v / 0x1_0000) as u16);
    write_u16(out, (v % 0x1_0000) as u16);
}

/// Appends an unsigned 64-bit number.
pub fn write_u64(out: &mut Vec<u8>, v: u64)
    ensures
        final(out)@ == old(out)@ + u64_bytes(v as int),
{
    write_u32(out, (v / 0x1_0000_0000) as u32);
    write_u32(out, (v % 0x1_0000_0000) as u32);
}

/// Appends a signed 8-bit number.
pub fn write_i8(out: &mut Vec<u8>, v: i8)
    ensures
        final(out)@ == old(out)@ + i8_bytes(v),
{
    let u: u8 = if v < 0 {
        (v as i16 + 0x100) as u8
    } else {
        v as u8
    };
    out.push(u);
}

/// Appends a signed 16-bit number.
pub fn write_i16(out: &mut Vec<u8>, v: i16)
    ensures
        final(out)@ == old(out)@ + i16_bytes(v),
{
    let u: u16 = if v < 0 {
        (v as i32 + 0x1_0000) as u16
    } else {
        v as u16
    };
    write_u16(out, u);
}

/// Appends a signed 32-bit number.
pub fn write_i32(out: &mut Vec<u8>, v: i32)
    ensures
        final(out)@ == old(out)@ + i32_bytes(v),
{
    let u: u32 = if v < 0 {
        (v as i64 + 0x1_0000_0000) as u32
    } else {
        v as u32
    };
    write_u32(out, u);
}

/// Appends a signed 64-bit number.
pub fn write_i64(out: &mut Vec<u8>, v: i64)
    ensures
        final(out)@ == old(out)@ + i64_bytes(v),
{
    let u: u64 = if v < 0 {
        (v as i128 + 0x1_0000_0000_0000_0000) as u64
    } else {
        v as u64
    };
    write_u64(out, u);
}

/// Whether `part` stands in `bytes` at `pos`.
pub open spec fn holds_at(bytes: Seq<u8>, pos: int, part: Seq<u8>) -> bool {
    &&& 0 <= pos
    &&& pos + part.len() <= bytes.len()
    &&& bytes.subrange(pos, pos + part.len()) == part
}

/// Where a sequence stands, each of its bytes stands.
pub proof fn lemma_holds_index(bytes: Seq<u8>, pos: int, part: Seq<u8>, i: int)
    requires
        holds_at(bytes, pos, part),
        0 <= i < part.len(),
    ensures
        bytes[pos + i] == part[i],
{
    assert(bytes.subrange(pos, pos + part.len())[i] == bytes[pos + i]);
}

/// Where two sequences stand one after the other, each of them stands.
pub proof fn lemma_holds_split(bytes: Seq<u8>, pos: int, first: Seq<u8>, second: Seq<u8>)
    requires
        holds_at(bytes, pos, first + second),
    ensures
        holds_at(bytes, pos, first),
        holds_at(bytes, pos + first.len(), second),
{
    let whole = bytes.subrange(pos, pos + (first + second).len());
    assert(bytes.subrange(pos, pos + first.len()) =~= whole.subrange(0, first.len() as int));
    assert(whole.subrange(0, first.len() as int) =~= first);
    assert(bytes.subrange(pos + first.len(), pos + first.len() + second.len())
        =~= whole.subrange(first.len() as int, whole.len() as int));
    assert(whole.subrange(first.len() as int, whole.len() as int) =~= second);
}

/// Reading where the bytes of an unsigned 16-bit number stand gives it back.
pub proof fn lemma_read_u16(bytes: Seq<u8>, pos: int, v: int)
    requires
        0 <= v < 0x1_0000,
        holds_at(bytes, pos, u16_bytes(v)),
    ensures
        u16_at(bytes, pos) == v,
        in_bounds(bytes, pos, 2),
{
    lemma_holds_index(bytes, pos, u16_bytes(v), 0);
    lemma_holds_index(bytes, pos, u16_bytes(v), 1);
}

/// Reading where the bytes of an unsigned 32-bit number stand gives it back.
pub proof fn lemma_read_u32(bytes: Seq<u8>, pos: int, v: int)
    requires
        0 <= v < 0x1_0000_0000,
        holds_at(bytes, pos, u32_bytes(v)),
    ensures
        u32_at(bytes, pos) == v,
        in_bounds(bytes, pos, 4),
{
    lemma_holds_split(bytes, pos, u16_bytes(v / 0x1_0000), u16_bytes(v % 0x1_0000));
    lemma_read_u16(bytes, pos, v / 0x1_0000);
    lemma_read_u16(bytes, pos + 2, v % 0x1_0000);
}

/// Reading where the bytes of an unsigned 64-bit number stand gives it back.
pub proof fn lemma_read_u64(bytes: Seq<u8>, pos: int, v: int)
    requires
        0 <= v < 0x1_0000_0000_0000_0000,
        holds_at(bytes, pos, u64_bytes(v)),
    ensures
        u64_at(bytes, pos) == v,
        in_bounds(bytes, pos, 8),
{
    lemma_holds_split(bytes, pos, u32_bytes(v / 0x1_0000_0000), u32_bytes(v % 0x1_0000_0000));
    assert(u32_bytes(v / 0x1_0000_0000).len() == 4);
    lemma_read_u32(bytes, pos, v / 0x1_0000_0000);
    lemma_read_u32(bytes, pos + 4, v % 0x1_0000_0000);
}

/// Reading where the byte of a signed 8-bit number stands gives it back.
pub proof fn lemma_read_i8(bytes: Seq<u8>, pos: int, v: i8)
    requires
        holds_at(bytes, pos, i8_bytes(v)),
    ensures
        i8_at(bytes, pos) == v,
        in_bounds(bytes, pos, 1),
{
    lemma_holds_index(bytes, pos, i8_bytes(v), 0);
}

/// Reading where the bytes of a signed 16-bit number stand gives it back.
pub proof fn lemma_read_i16(bytes: Seq<u8>, pos: int, v: i16)
    requires
        holds_at(bytes, pos, i16_bytes(v)),
    ensures
        i16_at(bytes, pos) == v,
        in_bounds(bytes, pos, 2),
{
    lemma_read_u16(bytes, pos, unsigned(v as int, 0x1_0000));
}

/// Reading where the bytes of a signed 32-bit number stand gives it back.
pub proof fn lemma_read_i32(bytes: Seq<u8>, pos: int, v: i32)
    requires
        holds_at(bytes, pos, i32_bytes(v)),
    ensures
        i32_at(bytes, pos) == v,
        in_bounds(bytes, pos, 4),
{
    lemma_read_u32(bytes, pos, unsigned(v as int, 0x1_0000_0000));
}

/// Reading where the bytes of a signed 64-bit number stand gives it back.
pub proof fn lemma_read_i64(bytes: Seq<u8>, pos: int, v: i64)
    requires
        holds_at(bytes, pos, i64_bytes(v)),
    ensures
        i64_at(bytes, pos) == v,
        in_bounds(bytes, pos, 8),
{
    lemma_read_u64(bytes, pos, unsigned(v as int, 0x1_0000_0000_0000_0000));
}

} // verus!
