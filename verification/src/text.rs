//! Text on the wire: modified UTF-8.
//!
//! A text is written as Java writes it. U+0000 takes the two bytes `C0 80`, a
//! character above U+FFFF takes a surrogate pair of three bytes each, and
//! every other character takes its ordinary UTF-8 form.
//!
//! Reading is lenient and never fails. Besides the forms above it accepts a
//! plain zero byte and the four-byte form of UTF-8, so a buffer of valid
//! UTF-8 reads as the text it spells. A byte that starts none of these forms
//! is read as U+FFFD and skipped on its own.

use vstd::prelude::*;
use vstd::std_specs::iter::IteratorSpec;
use vstd::utf8::codepoint_width_1;
use vstd::utf8::codepoint_width_2;
use vstd::utf8::codepoint_width_3;
use vstd::utf8::codepoint_width_4;
use vstd::utf8::decode_first_scalar;
use vstd::utf8::decode_utf8;
use vstd::utf8::encode_scalar;
use vstd::utf8::encode_utf8;
use vstd::utf8::is_leading_byte_width_1;
use vstd::utf8::is_leading_byte_width_2;
use vstd::utf8::is_leading_byte_width_3;
use vstd::utf8::last_continuation_byte;
use vstd::utf8::leading_byte_width_1;
use vstd::utf8::leading_byte_width_2;
use vstd::utf8::leading_byte_width_3;
use vstd::utf8::length_of_first_scalar;
use vstd::utf8::pop_first_scalar;
use vstd::utf8::second_last_continuation_byte;
use vstd::utf8::valid_first_scalar;
use vstd::utf8::valid_utf8;

verus! {

/// What an ill-formed byte is read as.
pub const REPLACEMENT: u32 = 0xFFFD;

/// Whether `v` is a Unicode scalar value, that is, the number of a `char`.
pub open spec fn is_scalar(v: int) -> bool {
    0 <= v < 0xD800 || 0xE000 <= v <= 0x10_FFFF
}

/// Whether `byte` is a continuation byte, `10xxxxxx`.
pub open spec fn is_tail(byte: u8) -> bool {
    0x80 <= byte < 0xC0
}

/// Whether a two-byte form stands at `pos`.
pub open spec fn has_two(bytes: Seq<u8>, pos: int) -> bool {
    pos + 2 <= bytes.len() && 0xC0 <= bytes[pos] < 0xE0 && is_tail(bytes[pos + 1])
}

/// Whether a three-byte form stands at `pos`.
pub open spec fn has_three(bytes: Seq<u8>, pos: int) -> bool {
    pos + 3 <= bytes.len() && 0xE0 <= bytes[pos] < 0xF0 && is_tail(bytes[pos + 1]) && is_tail(
        bytes[pos + 2],
    )
}

/// Whether a four-byte form stands at `pos`.
pub open spec fn has_four(bytes: Seq<u8>, pos: int) -> bool {
    pos + 4 <= bytes.len() && 0xF0 <= bytes[pos] < 0xF8 && is_tail(bytes[pos + 1]) && is_tail(
        bytes[pos + 2],
    ) && is_tail(bytes[pos + 3])
}

/// The number that the two-byte form at `pos` carries.
pub open spec fn two_at(bytes: Seq<u8>, pos: int) -> int {
    (bytes[pos] - 0xC0) * 0x40 + (bytes[pos + 1] - 0x80)
}

/// The number that the three-byte form at `pos` carries.
pub open spec fn three_at(bytes: Seq<u8>, pos: int) -> int {
    (bytes[pos] - 0xE0) * 0x1000 + (bytes[pos + 1] - 0x80) * 0x40 + (bytes[pos + 2] - 0x80)
}

/// The number that the four-byte form at `pos` carries.
pub open spec fn four_at(bytes: Seq<u8>, pos: int) -> int {
    (bytes[pos] - 0xF0) * 0x4_0000 + (bytes[pos + 1] - 0x80) * 0x1000 + (bytes[pos + 2] - 0x80)
        * 0x40 + (bytes[pos + 3] - 0x80)
}

/// Whether a surrogate pair stands at `pos`: a three-byte form that carries
/// a high surrogate, then one that carries a low surrogate.
pub open spec fn has_pair(bytes: Seq<u8>, pos: int) -> bool {
    &&& has_three(bytes, pos)
    &&& 0xD800 <= three_at(bytes, pos) < 0xDC00
    &&& has_three(bytes, pos + 3)
    &&& 0xDC00 <= three_at(bytes, pos + 3) < 0xE000
}

/// The length of the well-formed character at `pos`, or 0 if there is none.
/// A shorter form of a number that has it is not well formed, but for `C0 80`.
pub open spec fn width_at(bytes: Seq<u8>, pos: int) -> int {
    if bytes[pos] < 0x80 {
        1
    } else if has_two(bytes, pos) {
        if two_at(bytes, pos) == 0 || two_at(bytes, pos) >= 0x80 {
            2
        } else {
            0
        }
    } else if has_three(bytes, pos) {
        let v = three_at(bytes, pos);
        if v < 0x800 {
            0
        } else if v < 0xD800 || v >= 0xE000 {
            3
        } else if has_pair(bytes, pos) {
            6
        } else {
            0
        }
    } else if has_four(bytes, pos) {
        if 0x1_0000 <= four_at(bytes, pos) <= 0x10_FFFF {
            4
        } else {
            0
        }
    } else {
        0
    }
}

/// The scalar value read at `pos`: that of the well-formed character there,
/// or U+FFFD.
pub open spec fn scalar_at(bytes: Seq<u8>, pos: int) -> int {
    let width = width_at(bytes, pos);
    if width == 1 {
        bytes[pos] as int
    } else if width == 2 {
        two_at(bytes, pos)
    } else if width == 3 {
        three_at(bytes, pos)
    } else if width == 4 {
        four_at(bytes, pos)
    } else if width == 6 {
        0x1_0000 + (three_at(bytes, pos) - 0xD800) * 0x400 + (three_at(bytes, pos + 3) - 0xDC00)
    } else {
        REPLACEMENT as int
    }
}

/// How many bytes reading consumes at `pos`.
pub open spec fn step_at(bytes: Seq<u8>, pos: int) -> int {
    if width_at(bytes, pos) == 0 {
        1
    } else {
        width_at(bytes, pos)
    }
}

/// The characters read from `pos` to the end of `bytes`.
#[verifier::opaque]
pub open spec fn chars_from(bytes: Seq<u8>, pos: int) -> Seq<char>
    decreases bytes.len() - pos,
{
    if 0 <= pos < bytes.len() {
        seq![scalar_at(bytes, pos) as char] + chars_from(bytes, pos + step_at(bytes, pos))
    } else {
        Seq::empty()
    }
}

/// The text that `bytes` spell.
pub open spec fn text_of(bytes: Seq<u8>) -> Seq<char> {
    chars_from(bytes, 0)
}

/// The three-byte form of a number below 2^16.
pub open spec fn three_bytes(v: int) -> Seq<u8> {
    seq![(0xE0 + v / 0x1000) as u8, (0x80 + v / 0x40 % 0x40) as u8, (0x80 + v % 0x40) as u8]
}

/// The bytes of one character.
pub open spec fn char_bytes(c: char) -> Seq<u8> {
    let v = c as int;
    if v == 0 {
        seq![0xC0u8, 0x80u8]
    } else if v < 0x80 {
        seq![v as u8]
    } else if v < 0x800 {
        seq![(0xC0 + v / 0x40) as u8, (0x80 + v % 0x40) as u8]
    } else if v < 0x1_0000 {
        three_bytes(v)
    } else {
        three_bytes(0xD800 + (v - 0x1_0000) / 0x400) + three_bytes(0xDC00 + (v - 0x1_0000) % 0x400)
    }
}

/// The bytes of a text.
#[verifier::opaque]
pub open spec fn text_bytes(text: Seq<char>) -> Seq<u8>
    decreases text.len(),
{
    if text.len() == 0 {
        Seq::empty()
    } else {
        char_bytes(text[0]) + text_bytes(text.drop_first())
    }
}

/// `char::from_u32` of std: the character with the given number, and `None`
/// for a number that no character has (a surrogate, or one above U+10FFFF).
pub assume_specification[ char::from_u32 ](i: u32) -> (r: Option<char>)
    ensures
        is_scalar(i as int) ==> r == Some(i as char),
        !is_scalar(i as int) ==> r is None,
;

/// `String::push` of std: appends one character to the end of the string.
pub assume_specification[ std::string::String::push ](s: &mut std::string::String, ch: char)
    ensures
        final(s)@ == old(s)@.push(ch),
;

/// Whether `byte` is a continuation byte.
fn tail(byte: u8) -> (r: bool)
    ensures
        r == is_tail(byte),
{
    0x80 <= byte && byte < 0xC0
}

/// The number in the three-byte form at `pos`, if one stands there.
fn read_three(bytes: &[u8], pos: usize) -> (r: Option<u32>)
    ensures
        has_three(bytes@, pos as int) ==> r == Some(three_at(bytes@, pos as int) as u32),
        has_three(bytes@, pos as int) ==> 0 <= three_at(bytes@, pos as int) < 0x1_0000,
        !has_three(bytes@, pos as int) ==> r is None,
{
    if pos > bytes.len() || bytes.len() - pos < 3 {
        return None;
    }
    let b0 = bytes[pos];
    let b1 = bytes[pos + 1];
    let b2 = bytes[pos + 2];
    if 0xE0 <= b0 && b0 < 0xF0 && tail(b1) && tail(b2) {
        Some((b0 as u32 - 0xE0) * 0x1000 + (b1 as u32 - 0x80) * 0x40 + (b2 as u32 - 0x80))
    } else {
        None
    }
}

/// Reads one character at `pos`: its scalar value and the number of bytes it
/// took. There is none at or behind the end of the buffer.
pub fn read_scalar(bytes: &[u8], pos: usize) -> (r: Option<(u32, usize)>)
    ensures
        pos < bytes.len() ==> r == Some((scalar_at(bytes@, pos as int) as u32, step_at(
            bytes@,
            pos as int,
        ) as usize)),
        pos >= bytes.len() ==> r is None,
{
    if pos < bytes.len() {
        Some(scalar_in(bytes, pos))
    } else {
        None
    }
}

/// Reads the character at `pos`, which lies within the buffer.
fn scalar_in(bytes: &[u8], pos: usize) -> (r: (u32, usize))
    requires
        pos < bytes.len(),
    ensures
        r.0 == scalar_at(bytes@, pos as int),
        r.1 == step_at(bytes@, pos as int),
        is_scalar(r.0 as int),
        pos + r.1 <= bytes.len(),
{
    let b0 = bytes[pos];
    let left = bytes.len() - pos;
    if b0 < 0x80 {
        return (b0 as u32, 1);
    }
    if 0xC0 <= b0 && b0 < 0xE0 {
        if left >= 2 && tail(bytes[pos + 1]) {
            let v: u32 = (b0 as u32 - 0xC0) * 0x40 + (bytes[pos + 1] as u32 - 0x80);
            if v == 0 || v >= 0x80 {
                return (v, 2);
            }
        }
        return (REPLACEMENT, 1);
    }
    if 0xE0 <= b0 && b0 < 0xF0 {
        match read_three(bytes, pos) {
            Some(v) => {
                if v < 0x800 {
                    return (REPLACEMENT, 1);
                }
                if v < 0xD800 || v >= 0xE000 {
                    return (v, 3);
                }
                if v < 0xDC00 && left >= 6 {
                    match read_three(bytes, pos + 3) {
                        Some(low) => {
                            if 0xDC00 <= low && low < 0xE000 {
                                return (0x1_0000 + (v - 0xD800) * 0x400 + (low - 0xDC00), 6);
                            }
                        },
                        None => {},
                    }
                }
                return (REPLACEMENT, 1);
            },
            None => {
                return (REPLACEMENT, 1);
            },
        }
    }
    if 0xF0 <= b0 && b0 < 0xF8 {
        if left >= 4 && tail(bytes[pos + 1]) && tail(bytes[pos + 2]) && tail(bytes[pos + 3]) {
            let v: u32 = (b0 as u32 - 0xF0) * 0x4_0000 + (bytes[pos + 1] as u32 - 0x80) * 0x1000
                + (bytes[pos + 2] as u32 - 0x80) * 0x40 + (bytes[pos + 3] as u32 - 0x80);
            if 0x1_0000 <= v && v <= 0x10_FFFF {
                return (v, 4);
            }
        }
        return (REPLACEMENT, 1);
    }
    (REPLACEMENT, 1)
}

/// Reads `bytes` as a text.
pub fn decode_text(bytes: &[u8]) -> (text: String)
    ensures
        text@ == text_of(bytes@),
{
    let mut text = String::new();
    let mut pos: usize = 0;
    while pos < bytes.len()
        invariant
            pos <= bytes.len(),
            text_of(bytes@) == text@ + chars_from(bytes@, pos as int),
        decreases bytes.len() - pos,
    {
        proof {
            reveal(chars_from);
        }
        let (v, n) = scalar_in(bytes, pos);
        match char::from_u32(v) {
            Some(c) => {
                text.push(c);
            },
            None => {
                vstd::pervasive::unreached::<()>();
            },
        }
        pos = pos + n;
    }
    proof {
        reveal(chars_from);
    }
    text
}

/// Appends the bytes of one character.
pub fn write_char(out: &mut Vec<u8>, c: char)
    ensures
        final(out)@ == old(out)@ + char_bytes(c),
{
    let v: u32 = c as u32;
    if v == 0 {
        out.push(0xC0);
        out.push(0x80);
    } else if v < 0x80 {
        out.push(v as u8);
    } else if v < 0x800 {
        out.push((0xC0 + v / 0x40) as u8);
        out.push((0x80 + v % 0x40) as u8);
    } else if v < 0x1_0000 {
        write_three(out, v);
    } else {
        write_three(out, 0xD800 + (v - 0x1_0000) / 0x400);
        write_three(out, 0xDC00 + (v - 0x1_0000) % 0x400);
    }
}

/// Appends the three-byte form of `v`.
fn write_three(out: &mut Vec<u8>, v: u32)
    requires
        v < 0x1_0000,
    ensures
        final(out)@ == old(out)@ + three_bytes(v as int),
{
    out.push((0xE0 + v / 0x1000) as u8);
    out.push((0x80 + v / 0x40 % 0x40) as u8);
    out.push((0x80 + v % 0x40) as u8);
}

/// The bytes of `text`.
pub fn encode_text(text: &str) -> (bytes: Vec<u8>)
    ensures
        bytes@ == text_bytes(text@),
{
    let mut bytes: Vec<u8> = Vec::new();
    let mut chars = text.chars();
    proof {
        reveal(text_bytes);
    }
    loop
        invariant
            chars.decrease() is Some,
            text_bytes(text@) == bytes@ + text_bytes(chars.remaining()),
        ensures
            chars.remaining().len() == 0,
        decreases chars.decrease()->0,
    {
        proof {
            reveal(text_bytes);
        }
        match chars.next() {
            Some(c) => {
                write_char(&mut bytes, c);
            },
            None => {
                break ;
            },
        }
    }
    bytes
}

/// The three-byte form of `v` is well formed and carries `v`.
proof fn lemma_three_bytes(v: int)
    requires
        0 <= v < 0x1_0000,
    ensures
        three_bytes(v).len() == 3,
        0xE0 <= three_bytes(v)[0] < 0xF0,
        is_tail(three_bytes(v)[1]),
        is_tail(three_bytes(v)[2]),
        (three_bytes(v)[0] - 0xE0) * 0x1000 + (three_bytes(v)[1] - 0x80) * 0x40 + (three_bytes(
            v,
        )[2] - 0x80) == v,
{
    let b0 = 0xE0 + v / 0x1000;
    let b1 = 0x80 + v / 0x40 % 0x40;
    let b2 = 0x80 + v % 0x40;
    assert(0xE0 <= b0 < 0xF0);
    assert(0x80 <= b1 < 0xC0);
    assert(0x80 <= b2 < 0xC0);
    assert((b0 - 0xE0) * 0x1000 + (b1 - 0x80) * 0x40 + (b2 - 0x80) == v);
}

/// A three-byte form stands where the bytes of `three_bytes(v)` stand.
proof fn lemma_read_three(bytes: Seq<u8>, pos: int, v: int)
    requires
        0 <= v < 0x1_0000,
        0 <= pos,
        pos + 3 <= bytes.len(),
        bytes[pos] == three_bytes(v)[0],
        bytes[pos + 1] == three_bytes(v)[1],
        bytes[pos + 2] == three_bytes(v)[2],
    ensures
        has_three(bytes, pos),
        three_at(bytes, pos) == v,
{
    lemma_three_bytes(v);
}

/// `lemma_read_char` for a character above U+FFFF.
proof fn lemma_read_pair(bytes: Seq<u8>, pos: int, c: char)
    requires
        c as int >= 0x1_0000,
        0 <= pos,
        pos + 6 <= bytes.len(),
        bytes.subrange(pos, pos + 6) == char_bytes(c),
    ensures
        width_at(bytes, pos) == 6,
        scalar_at(bytes, pos) == c as int,
        char_bytes(c).len() == 6,
{
    let enc = char_bytes(c);
    let w = c as int - 0x1_0000;
    let high = 0xD800 + w / 0x400;
    let low = 0xDC00 + w % 0x400;
    lemma_three_bytes(high);
    lemma_three_bytes(low);
    assert(enc =~= three_bytes(high) + three_bytes(low));
    assert forall|i: int| 0 <= i < 6 implies bytes[pos + i] == enc[i] by {
        assert(bytes.subrange(pos, pos + 6)[i] == bytes[pos + i]);
    }
    assert(bytes[pos] == enc[0] && bytes[pos + 1] == enc[1] && bytes[pos + 2] == enc[2]);
    assert(bytes[pos + 3] == enc[3] && bytes[pos + 4] == enc[4] && bytes[pos + 5] == enc[5]);
    lemma_read_three(bytes, pos, high);
    lemma_read_three(bytes, pos + 3, low);
    assert(has_pair(bytes, pos));
    assert(w == (high - 0xD800) * 0x400 + (low - 0xDC00));
}

/// `lemma_read_char` for a character from U+0800 to U+FFFF.
proof fn lemma_read_wide(bytes: Seq<u8>, pos: int, c: char)
    requires
        0x800 <= (c as int) < 0x1_0000,
        0 <= pos,
        pos + 3 <= bytes.len(),
        bytes.subrange(pos, pos + 3) == char_bytes(c),
    ensures
        width_at(bytes, pos) == 3,
        scalar_at(bytes, pos) == c as int,
        char_bytes(c).len() == 3,
{
    let enc = char_bytes(c);
    lemma_three_bytes(c as int);
    assert forall|i: int| 0 <= i < 3 implies bytes[pos + i] == enc[i] by {
        assert(bytes.subrange(pos, pos + 3)[i] == bytes[pos + i]);
    }
    assert(bytes[pos] == enc[0] && bytes[pos + 1] == enc[1] && bytes[pos + 2] == enc[2]);
    lemma_read_three(bytes, pos, c as int);
}

/// `lemma_read_char` for U+0000 and for a character from U+0080 to U+07FF.
proof fn lemma_read_short(bytes: Seq<u8>, pos: int, c: char)
    requires
        c as int == 0 || 0x80 <= (c as int) < 0x800,
        0 <= pos,
        pos + 2 <= bytes.len(),
        bytes.subrange(pos, pos + 2) == char_bytes(c),
    ensures
        width_at(bytes, pos) == 2,
        scalar_at(bytes, pos) == c as int,
        char_bytes(c).len() == 2,
{
    let enc = char_bytes(c);
    let v = c as int;
    assert forall|i: int| 0 <= i < 2 implies bytes[pos + i] == enc[i] by {
        assert(bytes.subrange(pos, pos + 2)[i] == bytes[pos + i]);
    }
    assert(bytes[pos] == enc[0] && bytes[pos + 1] == enc[1]);
    if v == 0 {
        assert(bytes[pos] == 0xC0 && bytes[pos + 1] == 0x80);
    } else {
        assert(bytes[pos] == 0xC0 + v / 0x40);
        assert(bytes[pos + 1] == 0x80 + v % 0x40);
    }
    assert(has_two(bytes, pos));
    assert(two_at(bytes, pos) == v);
}

/// Reading the bytes of a character gives the character back, whatever
/// stands around them.
pub proof fn lemma_read_char(bytes: Seq<u8>, pos: int, c: char)
    requires
        0 <= pos,
        pos + char_bytes(c).len() <= bytes.len(),
        bytes.subrange(pos, pos + char_bytes(c).len()) == char_bytes(c),
    ensures
        width_at(bytes, pos) == char_bytes(c).len(),
        step_at(bytes, pos) == char_bytes(c).len(),
        scalar_at(bytes, pos) == c as int,
        1 <= char_bytes(c).len() <= 6,
{
    let v = c as int;
    if v == 0 || 0x80 <= v < 0x800 {
        lemma_read_short(bytes, pos, c);
    } else if v < 0x80 {
        assert(bytes.subrange(pos, pos + 1)[0] == bytes[pos]);
    } else if v < 0x1_0000 {
        lemma_read_wide(bytes, pos, c);
    } else {
        assert(char_bytes(c).len() == 6) by {
            lemma_three_bytes(0xD800 + (v - 0x1_0000) / 0x400);
            lemma_three_bytes(0xDC00 + (v - 0x1_0000) % 0x400);
        }
        lemma_read_pair(bytes, pos, c);
    }
}

/// Reading from `pos`, where the bytes of `text` fill the rest of the
/// buffer, gives `text`.
pub proof fn lemma_read_text_at(bytes: Seq<u8>, pos: int, text: Seq<char>)
    requires
        0 <= pos <= bytes.len(),
        bytes.subrange(pos, bytes.len() as int) == text_bytes(text),
    ensures
        chars_from(bytes, pos) == text,
    decreases text.len(),
{
    reveal(chars_from);
    reveal(text_bytes);
    if text.len() == 0 {
        assert(bytes.subrange(pos, bytes.len() as int).len() == 0);
        assert(chars_from(bytes, pos) =~= text);
    } else {
        let c = text[0];
        let rest = text.drop_first();
        let n = char_bytes(c).len() as int;
        let tail = bytes.subrange(pos, bytes.len() as int);
        assert(tail.len() == n + text_bytes(rest).len());
        assert(bytes.subrange(pos, pos + n) =~= char_bytes(c)) by {
            assert(tail.subrange(0, n) =~= char_bytes(c));
            assert(bytes.subrange(pos, pos + n) =~= tail.subrange(0, n));
        }
        lemma_read_char(bytes, pos, c);
        assert(bytes.subrange(pos + n, bytes.len() as int) =~= text_bytes(rest)) by {
            assert(tail.subrange(n, tail.len() as int) =~= text_bytes(rest));
            assert(bytes.subrange(pos + n, bytes.len() as int) =~= tail.subrange(
                n,
                tail.len() as int,
            ));
        }
        lemma_read_text_at(bytes, pos + n, rest);
        assert(scalar_at(bytes, pos) as char == c);
        assert(chars_from(bytes, pos) =~= seq![c] + rest);
        assert(seq![c] + rest =~= text);
    }
}

/// Reading what was written gives the text back: decoding inverts encoding.
pub proof fn lemma_text_round_trip(text: Seq<char>)
    ensures
        text_of(text_bytes(text)) == text,
{
    let bytes = text_bytes(text);
    assert(bytes.subrange(0, bytes.len() as int) =~= bytes);
    lemma_read_text_at(bytes, 0, text);
}

/// Reading gives at most one character for each byte.
pub proof fn lemma_chars_from_len(bytes: Seq<u8>, pos: int)
    requires
        0 <= pos <= bytes.len(),
    ensures
        chars_from(bytes, pos).len() <= bytes.len() - pos,
    decreases bytes.len() - pos,
{
    reveal(chars_from);
    if pos < bytes.len() {
        lemma_chars_from_len(bytes, pos + step_at(bytes, pos));
    }
}

// ---------------------------------------------------------------------------
// Valid UTF-8 reads as itself
// ---------------------------------------------------------------------------
/// The number of a one-byte form, in the terms of std's UTF-8.
proof fn lemma_one_byte(b0: u8)
    by (bit_vector)
    requires
        b0 <= 0x7F,
    ensures
        codepoint_width_1(b0) == b0,
{
}

/// The number of a two-byte form, in the terms of std's UTF-8.
proof fn lemma_two_bytes(b0: u8, b1: u8)
    by (bit_vector)
    requires
        0xC0 <= b0 <= 0xDF,
        0x80 <= b1 <= 0xBF,
    ensures
        codepoint_width_2(b0, b1) == (b0 - 0xC0) * 0x40 + (b1 - 0x80),
{
}

/// The number of a three-byte form, in the terms of std's UTF-8.
proof fn lemma_three_bytes_utf8(b0: u8, b1: u8, b2: u8)
    by (bit_vector)
    requires
        0xE0 <= b0 <= 0xEF,
        0x80 <= b1 <= 0xBF,
        0x80 <= b2 <= 0xBF,
    ensures
        codepoint_width_3(b0, b1, b2) == (b0 - 0xE0) * 0x1000 + (b1 - 0x80) * 0x40 + (b2 - 0x80),
{
}

/// The number of a four-byte form, in the terms of std's UTF-8.
proof fn lemma_four_bytes(b0: u8, b1: u8, b2: u8, b3: u8)
    by (bit_vector)
    requires
        0xF0 <= b0 <= 0xF7,
        0x80 <= b1 <= 0xBF,
        0x80 <= b2 <= 0xBF,
        0x80 <= b3 <= 0xBF,
    ensures
        codepoint_width_4(b0, b1, b2, b3) == (b0 - 0xF0) * 0x4_0000 + (b1 - 0x80) * 0x1000 + (b2
            - 0x80) * 0x40 + (b3 - 0x80),
{
}

/// Where a buffer begins with a character of valid UTF-8, reading takes
/// that character.
proof fn lemma_first_scalar(bytes: Seq<u8>)
    requires
        bytes.len() > 0,
        valid_first_scalar(bytes),
    ensures
        width_at(bytes, 0) == length_of_first_scalar(bytes),
        scalar_at(bytes, 0) == decode_first_scalar(bytes),
{
    let b0 = bytes[0];
    if is_leading_byte_width_1(b0) {
        lemma_one_byte(b0);
    } else if is_leading_byte_width_2(b0) {
        lemma_two_bytes(b0, bytes[1]);
    } else if is_leading_byte_width_3(b0) {
        lemma_three_bytes_utf8(b0, bytes[1], bytes[2]);
    } else {
        lemma_four_bytes(b0, bytes[1], bytes[2], bytes[3]);
    }
}

/// Reading from a position on gives what reading the rest of the buffer
/// alone gives.
proof fn lemma_chars_from_rest(bytes: Seq<u8>, start: int, k: int)
    requires
        0 <= start <= bytes.len(),
        0 <= k <= bytes.len() - start,
    ensures
        chars_from(bytes, start + k) == chars_from(bytes.subrange(start, bytes.len() as int), k),
    decreases bytes.len() - start - k,
{
    reveal(chars_from);
    let rest = bytes.subrange(start, bytes.len() as int);
    if k < rest.len() {
        assert forall|i: int| 0 <= i < rest.len() implies rest[i] == bytes[start + i] by {}
        assert(width_at(bytes, start + k) == width_at(rest, k));
        assert(scalar_at(bytes, start + k) == scalar_at(rest, k));
        lemma_chars_from_rest(bytes, start, k + step_at(rest, k));
    }
}

/// Valid UTF-8 reads as itself: where the bytes are valid UTF-8, reading
/// gives the text that they are in UTF-8.
pub proof fn lemma_utf8_reads_as_itself(bytes: Seq<u8>)
    requires
        valid_utf8(bytes),
    ensures
        text_of(bytes) == decode_utf8(bytes),
    decreases bytes.len(),
{
    reveal(chars_from);
    if bytes.len() > 0 {
        let n = length_of_first_scalar(bytes);
        let rest = pop_first_scalar(bytes);
        lemma_first_scalar(bytes);
        lemma_utf8_reads_as_itself(rest);
        lemma_chars_from_rest(bytes, n, 0);
        assert(scalar_at(bytes, 0) as char == decode_first_scalar(bytes) as char);
    } else {
        assert(decode_utf8(bytes) =~= Seq::<char>::empty());
    }
}

// ---------------------------------------------------------------------------
// Plain text is written as UTF-8
// ---------------------------------------------------------------------------
/// Whether `text` holds neither U+0000 nor a character above U+FFFF: the
/// characters that modified UTF-8 writes otherwise than UTF-8 does.
pub open spec fn is_plain(text: Seq<char>) -> bool {
    forall|i: int| 0 <= i < text.len() ==> 0 < (#[trigger] text[i]) as int <= 0xFFFF
}

/// The bytes of a character below U+0080, in the terms of std's UTF-8.
proof fn lemma_encode_one(v: u32)
    by (bit_vector)
    requires
        v <= 0x7F,
    ensures
        leading_byte_width_1(v) == v,
{
}

/// The bytes of a character below U+0800, in the terms of std's UTF-8.
proof fn lemma_encode_two(v: u32)
    by (bit_vector)
    requires
        0x80 <= v <= 0x7FF,
    ensures
        leading_byte_width_2(v) == 0xC0 + v / 0x40,
        last_continuation_byte(v) == 0x80 + v % 0x40,
{
}

/// The bytes of a character below U+10000, in the terms of std's UTF-8.
proof fn lemma_encode_three(v: u32)
    by (bit_vector)
    requires
        0x800 <= v <= 0xFFFF,
    ensures
        leading_byte_width_3(v) == 0xE0 + v / 0x1000,
        second_last_continuation_byte(v) == 0x80 + v / 0x40 % 0x40,
        last_continuation_byte(v) == 0x80 + v % 0x40,
{
}

/// Plain text is written as UTF-8.
pub proof fn lemma_plain_text_is_utf8(text: Seq<char>)
    requires
        is_plain(text),
    ensures
        text_bytes(text) == encode_utf8(text),
    decreases text.len(),
{
    reveal(text_bytes);
    if text.len() > 0 {
        let v = text[0] as u32;
        assert(0 < text[0] as int <= 0xFFFF);
        vstd::utf8::char_is_scalar(text[0]);
        if v <= 0x7F {
            lemma_encode_one(v);
        } else if v <= 0x7FF {
            lemma_encode_two(v);
        } else {
            lemma_encode_three(v);
        }
        assert(char_bytes(text[0]) =~= encode_scalar(v));
        assert forall|i: int| 0 <= i < text.drop_first().len() implies 0 < (
        #[trigger] text.drop_first()[i]) as int <= 0xFFFF by {
            assert(text.drop_first()[i] == text[i + 1]);
        }
        lemma_plain_text_is_utf8(text.drop_first());
    }
}

} // verus!
