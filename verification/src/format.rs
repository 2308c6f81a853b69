//! The grammar of the format, as functions on sequences of bytes.
//!
//! A document is a compound with a name: the tag of a compound, a name and
//! the entries. An entry is a tag, a name and a payload; the tag `End` in
//! place of an entry closes the compound. A list is the tag of its items, a
//! count and the payloads of the items. An array is a count and its numbers.
//! A text is a 16-bit length in bytes and that many bytes. Counts are signed
//! 32-bit numbers, and every number is big-endian.

use vstd::prelude::*;
use crate::error::Error;
use crate::tag::Tag;
use crate::text::text_bytes;
use crate::text::text_of;
use crate::value::ValueView;
use crate::wire::i16_at;
use crate::wire::i16_bytes;
use crate::wire::i32_at;
use crate::wire::i32_bytes;
use crate::wire::i64_at;
use crate::wire::i64_bytes;
use crate::wire::i8_at;
use crate::wire::i8_bytes;
use crate::wire::in_bounds;
use crate::wire::u16_at;
use crate::wire::u16_bytes;
use crate::wire::u32_at;
use crate::wire::u32_bytes;
use crate::wire::u64_at;
use crate::wire::u64_bytes;

verus! {

/// The longest text, in bytes, that a 16-bit length can announce.
pub const MAX_TEXT_LEN: usize = 0xFFFF;

/// The largest count that a list or an array can announce.
pub const MAX_COUNT: usize = 0x7FFF_FFFF;

/// The first byte of a gzip stream.
pub const GZIP_MAGIC_0: u8 = 0x1F;

/// The second byte of a gzip stream.
pub const GZIP_MAGIC_1: u8 = 0x8B;

// ---------------------------------------------------------------------------
// Writing
// ---------------------------------------------------------------------------
/// A text with its length in front, or `too_long` if the text takes more
/// than `MAX_TEXT_LEN` bytes.
pub open spec fn text_field(text: Seq<char>, too_long: Error) -> Result<Seq<u8>, Error> {
    let body = text_bytes(text);
    if body.len() > MAX_TEXT_LEN {
        Err(too_long)
    } else {
        Ok(u16_bytes(body.len() as int) + body)
    }
}

/// The numbers of a byte array, one byte each.
pub open spec fn i8s_bytes(items: Seq<i8>) -> Seq<u8> {
    Seq::new(items.len(), |k: int| i8_bytes(items[k])[0])
}

/// The numbers of an int array, four bytes each.
pub open spec fn i32s_bytes(items: Seq<i32>) -> Seq<u8> {
    Seq::new(4 * items.len(), |k: int| i32_bytes(items[k / 4])[k % 4])
}

/// The numbers of a long array, eight bytes each.
pub open spec fn i64s_bytes(items: Seq<i64>) -> Seq<u8> {
    Seq::new(8 * items.len(), |k: int| i64_bytes(items[k / 8])[k % 8])
}

/// A count and the bytes that follow it, or `SequenceTooLong` if the count
/// does not fit its field.
pub open spec fn counted(count: nat, body: Seq<u8>) -> Result<Seq<u8>, Error> {
    if count > MAX_COUNT {
        Err(Error::SequenceTooLong)
    } else {
        Ok(i32_bytes(count as i32) + body)
    }
}

/// The tag that a list of these items announces: that of its first item,
/// and `End` for a list without items.
pub open spec fn item_tag(items: Seq<ValueView>) -> Tag {
    if items.len() == 0 {
        Tag::End
    } else {
        items[0].tag()
    }
}

/// The payload of `value`: what follows its tag and name.
///
/// The errors come in the order of writing. A list or an array with more
/// than `MAX_COUNT` items and a text of more than `MAX_TEXT_LEN` bytes give
/// `SequenceTooLong`, a name of that length `NameTooLong`, and a list whose
/// items differ in tag `TypeMismatch`.
pub open spec fn payload_bytes(value: ValueView) -> Result<Seq<u8>, Error>
    decreases value,
{
    match value {
        ValueView::Byte(v) => Ok(i8_bytes(v)),
        ValueView::Short(v) => Ok(i16_bytes(v)),
        ValueView::Int(v) => Ok(i32_bytes(v)),
        ValueView::Long(v) => Ok(i64_bytes(v)),
        ValueView::Float(v) => Ok(u32_bytes(v as int)),
        ValueView::Double(v) => Ok(u64_bytes(v as int)),
        ValueView::ByteArray(items) => counted(items.len(), i8s_bytes(items)),
        ValueView::String(text) => text_field(text, Error::SequenceTooLong),
        ValueView::List(items) => {
            if items.len() > MAX_COUNT {
                Err(Error::SequenceTooLong)
            } else {
                match items_bytes(items, item_tag(items)) {
                    Ok(body) => Ok(
                        seq![item_tag(items).code()] + i32_bytes(items.len() as i32) + body,
                    ),
                    Err(e) => Err(e),
                }
            }
        },
        ValueView::Compound(entries) => entries_bytes(entries),
        ValueView::IntArray(items) => counted(items.len(), i32s_bytes(items)),
        ValueView::LongArray(items) => counted(items.len(), i64s_bytes(items)),
    }
}

/// The payloads of the items of a list whose tag is `tag`, one after the
/// other.
pub open spec fn items_bytes(items: Seq<ValueView>, tag: Tag) -> Result<Seq<u8>, Error>
    decreases items,
{
    if items.len() == 0 {
        Ok(Seq::empty())
    } else if items[0].tag() != tag {
        Err(Error::TypeMismatch)
    } else {
        match payload_bytes(items[0]) {
            Ok(head) => match items_bytes(items.drop_first(), tag) {
                Ok(rest) => Ok(head + rest),
                Err(e) => Err(e),
            },
            Err(e) => Err(e),
        }
    }
}

/// Puts an entry together: the tag, the name with its length, and the
/// payload. A name that is too long comes before an error of the payload.
pub open spec fn entry_frame(tag: Tag, name: Seq<char>, payload: Result<Seq<u8>, Error>) -> Result<
    Seq<u8>,
    Error,
> {
    match text_field(name, Error::NameTooLong) {
        Ok(name_field) => match payload {
            Ok(body) => Ok(seq![tag.code()] + name_field + body),
            Err(e) => Err(e),
        },
        Err(e) => Err(e),
    }
}

/// One entry of a compound: tag, name, payload.
pub open spec fn entry_bytes(name: Seq<char>, value: ValueView) -> Result<Seq<u8>, Error> {
    entry_frame(value.tag(), name, payload_bytes(value))
}

/// The entries of a compound and the `End` that closes it.
pub open spec fn entries_bytes(entries: Seq<(Seq<char>, ValueView)>) -> Result<Seq<u8>, Error>
    decreases entries,
{
    if entries.len() == 0 {
        Ok(seq![Tag::End.code()])
    } else {
        match entry_frame(entries[0].1.tag(), entries[0].0, payload_bytes(entries[0].1)) {
            Ok(head) => match entries_bytes(entries.drop_first()) {
                Ok(rest) => Ok(head + rest),
                Err(e) => Err(e),
            },
            Err(e) => Err(e),
        }
    }
}

/// The header of a document: the tag of a compound and an empty name.
pub open spec fn document_header() -> Seq<u8> {
    seq![Tag::Compound.code(), 0u8, 0u8]
}

/// A whole document. Only a compound can be one; its name is left empty.
pub open spec fn document_bytes(value: ValueView) -> Result<Seq<u8>, Error> {
    match value {
        ValueView::Compound(entries) => match entries_bytes(entries) {
            Ok(body) => Ok(document_header() + body),
            Err(e) => Err(e),
        },
        _ => Err(Error::RootMustBeCompound),
    }
}

// ---------------------------------------------------------------------------
// Reading
// ---------------------------------------------------------------------------
/// What reading at a position gives: the value and the position behind it,
/// or the first error.
pub type Parsed<T> = Result<(T, int), Error>;

/// Whether a payload that was read from `start` to `end` took at least one
/// byte of `bytes`. Every payload does (`lemma_payload_advances`), so this
/// never fails where the grammar asks for it.
pub open spec fn advanced(bytes: Seq<u8>, start: int, end: int) -> bool {
    start < end <= bytes.len()
}

/// Reads a tag.
pub open spec fn parse_tag(bytes: Seq<u8>, pos: int) -> Parsed<Tag> {
    if !in_bounds(bytes, pos, 1) {
        Err(Error::UnexpectedEof)
    } else {
        match Tag::from_code(bytes[pos]) {
            Some(tag) => Ok((tag, pos + 1)),
            None => Err(Error::MalformedTag),
        }
    }
}

/// Reads a text: its length, checked against `max`, then its bytes.
pub open spec fn parse_text(bytes: Seq<u8>, pos: int, max: int) -> Parsed<Seq<char>> {
    if !in_bounds(bytes, pos, 2) {
        Err(Error::UnexpectedEof)
    } else {
        let len = u16_at(bytes, pos);
        if len > max {
            Err(Error::SequenceTooLong)
        } else if !in_bounds(bytes, pos + 2, len) {
            Err(Error::UnexpectedEof)
        } else {
            Ok((text_of(bytes.subrange(pos + 2, pos + 2 + len)), pos + 2 + len))
        }
    }
}

/// Reads a count and checks it against `max`. A negative count reads as 0.
pub open spec fn parse_count(bytes: Seq<u8>, pos: int, max: int) -> Parsed<nat> {
    if !in_bounds(bytes, pos, 4) {
        Err(Error::UnexpectedEof)
    } else {
        let count = i32_at(bytes, pos);
        if count <= 0 {
            Ok((0nat, pos + 4))
        } else if count > max {
            Err(Error::SequenceTooLong)
        } else {
            Ok((count as nat, pos + 4))
        }
    }
}

/// The payload of tag `tag` at `pos`.
///
/// Numbers have a fixed width. An array is a count and that many numbers. A
/// list is the tag of its items, a count and that many payloads. A compound
/// is its entries. `End` has no payload: where one is owed, the tag is
/// malformed.
pub open spec fn parse_payload(bytes: Seq<u8>, pos: int, tag: Tag, max: int) -> Parsed<ValueView>
    decreases bytes.len() - pos, 1nat,
{
    match tag {
        Tag::End => Err(Error::MalformedTag),
        Tag::Byte => if in_bounds(bytes, pos, 1) {
            Ok((ValueView::Byte(i8_at(bytes, pos)), pos + 1))
        } else {
            Err(Error::UnexpectedEof)
        },
        Tag::Short => if in_bounds(bytes, pos, 2) {
            Ok((ValueView::Short(i16_at(bytes, pos)), pos + 2))
        } else {
            Err(Error::UnexpectedEof)
        },
        Tag::Int => if in_bounds(bytes, pos, 4) {
            Ok((ValueView::Int(i32_at(bytes, pos)), pos + 4))
        } else {
            Err(Error::UnexpectedEof)
        },
        Tag::Long => if in_bounds(bytes, pos, 8) {
            Ok((ValueView::Long(i64_at(bytes, pos)), pos + 8))
        } else {
            Err(Error::UnexpectedEof)
        },
        Tag::Float => if in_bounds(bytes, pos, 4) {
            Ok((ValueView::Float(u32_at(bytes, pos) as u32), pos + 4))
        } else {
            Err(Error::UnexpectedEof)
        },
        Tag::Double => if in_bounds(bytes, pos, 8) {
            Ok((ValueView::Double(u64_at(bytes, pos) as u64), pos + 8))
        } else {
            Err(Error::UnexpectedEof)
        },
        Tag::ByteArray => match parse_count(bytes, pos, max) {
            Ok((count, at)) => if in_bounds(bytes, at, count as int) {
                Ok(
                    (
                        ValueView::ByteArray(Seq::new(count, |k: int| i8_at(bytes, at + k))),
                        at + count,
                    ),
                )
            } else {
                Err(Error::UnexpectedEof)
            },
            Err(e) => Err(e),
        },
        Tag::String => match parse_text(bytes, pos, max) {
            Ok((text, end)) => Ok((ValueView::String(text), end)),
            Err(e) => Err(e),
        },
        Tag::List => match parse_tag(bytes, pos) {
            Ok((item_tag, at)) => match parse_count(bytes, at, max) {
                Ok((count, first)) => if count > 0 && item_tag == Tag::End {
                    Err(Error::MalformedTag)
                } else {
                    match parse_items(bytes, first, item_tag, count, max) {
                        Ok((items, end)) => Ok((ValueView::List(items), end)),
                        Err(e) => Err(e),
                    }
                },
                Err(e) => Err(e),
            },
            Err(e) => Err(e),
        },
        Tag::Compound => match parse_entries(bytes, pos, max) {
            Ok((entries, end)) => Ok((ValueView::Compound(entries), end)),
            Err(e) => Err(e),
        },
        Tag::IntArray => match parse_count(bytes, pos, max) {
            Ok((count, at)) => if in_bounds(bytes, at, 4 * (count as int)) {
                Ok(
                    (
                        ValueView::IntArray(Seq::new(count, |k: int| i32_at(bytes, at + 4 * k))),
                        at + 4 * count,
                    ),
                )
            } else {
                Err(Error::UnexpectedEof)
            },
            Err(e) => Err(e),
        },
        Tag::LongArray => match parse_count(bytes, pos, max) {
            Ok((count, at)) => if in_bounds(bytes, at, 8 * (count as int)) {
                Ok(
                    (
                        ValueView::LongArray(Seq::new(count, |k: int| i64_at(bytes, at + 8 * k))),
                        at + 8 * count,
                    ),
                )
            } else {
                Err(Error::UnexpectedEof)
            },
            Err(e) => Err(e),
        },
    }
}

/// `count` payloads of tag `tag`, one after the other, from `pos` on.
pub open spec fn parse_items(
    bytes: Seq<u8>,
    pos: int,
    tag: Tag,
    count: nat,
    max: int,
) -> Parsed<Seq<ValueView>>
    decreases bytes.len() - pos, 2nat,
{
    if count == 0 {
        Ok((Seq::empty(), pos))
    } else {
        match parse_payload(bytes, pos, tag, max) {
            Ok((head, next)) => if !advanced(bytes, pos, next) {
                Err(Error::UnexpectedEof)
            } else {
                match parse_items(bytes, next, tag, (count - 1) as nat, max) {
                    Ok((rest, end)) => Ok((seq![head] + rest, end)),
                    Err(e) => Err(e),
                }
            },
            Err(e) => Err(e),
        }
    }
}

/// The entries of a compound from `pos` on, up to and with the `End` that
/// closes it.
pub open spec fn parse_entries(bytes: Seq<u8>, pos: int, max: int) -> Parsed<
    Seq<(Seq<char>, ValueView)>,
>
    decreases bytes.len() - pos, 0nat,
{
    match parse_tag(bytes, pos) {
        Ok((tag, at)) => if tag == Tag::End {
            Ok((Seq::empty(), at))
        } else {
            match parse_text(bytes, at, max) {
                Ok((name, start)) => match parse_payload(bytes, start, tag, max) {
                    Ok((value, next)) => if !advanced(bytes, start, next) {
                        Err(Error::UnexpectedEof)
                    } else {
                        match parse_entries(bytes, next, max) {
                            Ok((rest, end)) => Ok((seq![(name, value)] + rest, end)),
                            Err(e) => Err(e),
                        }
                    },
                    Err(e) => Err(e),
                },
                Err(e) => Err(e),
            }
        },
        Err(e) => Err(e),
    }
}

/// Whether `bytes` start with the magic number of gzip.
pub open spec fn looks_compressed(bytes: Seq<u8>) -> bool {
    bytes.len() >= 2 && bytes[0] == GZIP_MAGIC_0 && bytes[1] == GZIP_MAGIC_1
}

/// The document at the start of `bytes`: a compound with a name, which is
/// read and dropped. What follows the document is not looked at.
///
/// A buffer that starts with the magic number of gzip is refused before
/// anything is read. A first tag other than that of a compound is a
/// `TypeMismatch`.
pub open spec fn parse_document(bytes: Seq<u8>, max: int) -> Parsed<ValueView> {
    if looks_compressed(bytes) {
        Err(Error::LikelyCompressedInput)
    } else {
        match parse_tag(bytes, 0) {
            Ok((tag, at)) => if tag != Tag::Compound {
                Err(Error::TypeMismatch)
            } else {
                match parse_text(bytes, at, max) {
                    Ok((_, start)) => parse_payload(bytes, start, Tag::Compound, max),
                    Err(e) => Err(e),
                }
            },
            Err(e) => Err(e),
        }
    }
}

/// The value that `bytes` hold as a document, or why they hold none.
pub open spec fn decode(bytes: Seq<u8>, max: int) -> Result<ValueView, Error> {
    match parse_document(bytes, max) {
        Ok((value, _)) => Ok(value),
        Err(e) => Err(e),
    }
}

// ---------------------------------------------------------------------------
// Progress
// ---------------------------------------------------------------------------
/// A payload takes at least one byte and ends within the buffer.
pub proof fn lemma_payload_advances(bytes: Seq<u8>, pos: int, tag: Tag, max: int)
    ensures
        parse_payload(bytes, pos, tag, max) matches Ok((_, end)) ==> advanced(bytes, pos, end),
    decreases bytes.len() - pos, 1nat,
{
    match tag {
        Tag::List => {
            if let Ok((item_tag, at)) = parse_tag(bytes, pos) {
                if let Ok((count, first)) = parse_count(bytes, at, max) {
                    lemma_items_advance(bytes, first, item_tag, count, max);
                }
            }
        },
        Tag::Compound => {
            lemma_entries_advance(bytes, pos, max);
        },
        _ => {},
    }
}

/// The items of a list end within the buffer, at or behind their start.
pub proof fn lemma_items_advance(bytes: Seq<u8>, pos: int, tag: Tag, count: nat, max: int)
    requires
        0 <= pos <= bytes.len(),
    ensures
        parse_items(bytes, pos, tag, count, max) matches Ok((items, end)) ==> pos <= end
            <= bytes.len() && items.len() == count,
    decreases bytes.len() - pos, 2nat,
{
    if count > 0 {
        if let Ok((_, next)) = parse_payload(bytes, pos, tag, max) {
            if advanced(bytes, pos, next) {
                lemma_items_advance(bytes, next, tag, (count - 1) as nat, max);
            }
        }
    }
}

/// The entries of a compound take at least one byte and end within the
/// buffer.
pub proof fn lemma_entries_advance(bytes: Seq<u8>, pos: int, max: int)
    ensures
        parse_entries(bytes, pos, max) matches Ok((_, end)) ==> advanced(bytes, pos, end),
    decreases bytes.len() - pos, 0nat,
{
    if let Ok((tag, at)) = parse_tag(bytes, pos) {
        if tag != Tag::End {
            if let Ok((_, start)) = parse_text(bytes, at, max) {
                if let Ok((_, next)) = parse_payload(bytes, start, tag, max) {
                    if advanced(bytes, start, next) {
                        lemma_entries_advance(bytes, next, max);
                    }
                }
            }
        }
    }
}

// ---------------------------------------------------------------------------
// Bounds
// ---------------------------------------------------------------------------
/// Whether reading with the bound `max` accepts every count that writing
/// `value` announces: the number of items of each list and array, and the
/// number of bytes of each text and name.
pub open spec fn fits(value: ValueView, max: int) -> bool
    decreases value,
{
    match value {
        ValueView::ByteArray(items) => items.len() <= max,
        ValueView::IntArray(items) => items.len() <= max,
        ValueView::LongArray(items) => items.len() <= max,
        ValueView::String(text) => text_bytes(text).len() <= max,
        ValueView::List(items) => items.len() <= max && forall|i: int|
            0 <= i < items.len() ==> fits(#[trigger] items[i], max),
        ValueView::Compound(entries) => forall|i: int|
            #![trigger entries[i]]
            0 <= i < entries.len() ==> text_bytes(entries[i].0).len() <= max && fits(
                entries[i].1,
                max,
            ),
        _ => true,
    }
}

/// Whether nothing in `value` is longer than `max`: no list and no array
/// has more items, and no text and no name has more characters.
pub open spec fn within(value: ValueView, max: int) -> bool
    decreases value,
{
    match value {
        ValueView::ByteArray(items) => items.len() <= max,
        ValueView::IntArray(items) => items.len() <= max,
        ValueView::LongArray(items) => items.len() <= max,
        ValueView::String(text) => text.len() <= max,
        ValueView::List(items) => items.len() <= max && forall|i: int|
            0 <= i < items.len() ==> within(#[trigger] items[i], max),
        ValueView::Compound(entries) => forall|i: int|
            #![trigger entries[i]]
            0 <= i < entries.len() ==> entries[i].0.len() <= max && within(entries[i].1, max),
        _ => true,
    }
}

} // verus!
