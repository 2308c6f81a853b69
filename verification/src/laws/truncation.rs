//! Truncation: a buffer that is cut short reads as `UnexpectedEof`.

use vstd::prelude::*;
use crate::error::Error;
use crate::format::Parsed;
use crate::format::decode;
use crate::format::document_bytes;
use crate::format::fits;
use crate::format::item_tag;
use crate::format::lemma_payload_advances;
use crate::format::looks_compressed;
use crate::format::parse_count;
use crate::format::parse_document;
use crate::format::parse_entries;
use crate::format::parse_items;
use crate::format::parse_payload;
use crate::format::parse_tag;
use crate::format::parse_text;
use crate::format::within;
use crate::laws::round_trip::lemma_round_trip;
use crate::tag::Tag;
use crate::value::ValueView;
use crate::wire::i32_at;
use crate::wire::i64_at;
use crate::wire::i8_at;

verus! {

/// What reading gives where the buffer is cut at `k`, if reading the whole
/// buffer gave `whole` and ended at `end`: the same if nothing that was read
/// is missing, and `UnexpectedEof` if anything is.
pub open spec fn cut<T>(whole: Parsed<T>, end: int, k: int) -> Parsed<T> {
    if end <= k {
        whole
    } else {
        Err(Error::UnexpectedEof)
    }
}

/// `cut` for a tag.
proof fn lemma_tag_cut(bytes: Seq<u8>, pos: int, k: int)
    requires
        parse_tag(bytes, pos) is Ok,
        0 <= k <= bytes.len(),
    ensures
        parse_tag(bytes.take(k), pos) == cut(parse_tag(bytes, pos), pos + 1, k),
{
}

/// `cut` for a count.
proof fn lemma_count_cut(bytes: Seq<u8>, pos: int, max: int, k: int)
    requires
        parse_count(bytes, pos, max) is Ok,
        0 <= k <= bytes.len(),
    ensures
        parse_count(bytes.take(k), pos, max) == cut(parse_count(bytes, pos, max), pos + 4, k),
{
}

/// `cut` for a text.
proof fn lemma_text_cut(bytes: Seq<u8>, pos: int, max: int, k: int)
    requires
        parse_text(bytes, pos, max) is Ok,
        0 <= k <= bytes.len(),
    ensures
        parse_text(bytes.take(k), pos, max) == cut(
            parse_text(bytes, pos, max),
            parse_text(bytes, pos, max)->Ok_0.1,
            k,
        ),
        pos + 2 <= parse_text(bytes, pos, max)->Ok_0.1 <= bytes.len(),
{
    let end = parse_text(bytes, pos, max)->Ok_0.1;
    if end <= k {
        assert(bytes.take(k).subrange(pos + 2, end) =~= bytes.subrange(pos + 2, end));
    }
}

/// `cut` for a number.
proof fn lemma_number_cut(bytes: Seq<u8>, pos: int, tag: Tag, max: int, k: int)
    requires
        tag == Tag::Byte || tag == Tag::Short || tag == Tag::Int || tag == Tag::Long || tag
            == Tag::Float || tag == Tag::Double,
        parse_payload(bytes, pos, tag, max) is Ok,
        0 <= k <= bytes.len(),
    ensures
        parse_payload(bytes.take(k), pos, tag, max) == cut(
            parse_payload(bytes, pos, tag, max),
            parse_payload(bytes, pos, tag, max)->Ok_0.1,
            k,
        ),
{
}

/// `cut` for a byte array.
proof fn lemma_byte_array_cut(bytes: Seq<u8>, pos: int, max: int, k: int)
    requires
        parse_payload(bytes, pos, Tag::ByteArray, max) is Ok,
        0 <= k <= bytes.len(),
    ensures
        parse_payload(bytes.take(k), pos, Tag::ByteArray, max) == cut(
            parse_payload(bytes, pos, Tag::ByteArray, max),
            parse_payload(bytes, pos, Tag::ByteArray, max)->Ok_0.1,
            k,
        ),
{
    lemma_count_cut(bytes, pos, max, k);
    let count = parse_count(bytes, pos, max)->Ok_0.0;
    let end = pos + 4 + count;
    if end <= k {
        assert(Seq::new(count, |j: int| i8_at(bytes.take(k), pos + 4 + j)) =~= Seq::new(
            count,
            |j: int| i8_at(bytes, pos + 4 + j),
        ));
    }
}

/// `cut` for an int array.
proof fn lemma_int_array_cut(bytes: Seq<u8>, pos: int, max: int, k: int)
    requires
        parse_payload(bytes, pos, Tag::IntArray, max) is Ok,
        0 <= k <= bytes.len(),
    ensures
        parse_payload(bytes.take(k), pos, Tag::IntArray, max) == cut(
            parse_payload(bytes, pos, Tag::IntArray, max),
            parse_payload(bytes, pos, Tag::IntArray, max)->Ok_0.1,
            k,
        ),
{
    lemma_count_cut(bytes, pos, max, k);
    let count = parse_count(bytes, pos, max)->Ok_0.0;
    let end = pos + 4 + 4 * count;
    if end <= k {
        assert(Seq::new(count, |j: int| i32_at(bytes.take(k), pos + 4 + 4 * j)) =~= Seq::new(
            count,
            |j: int| i32_at(bytes, pos + 4 + 4 * j),
        ));
    }
}

/// `cut` for a long array.
proof fn lemma_long_array_cut(bytes: Seq<u8>, pos: int, max: int, k: int)
    requires
        parse_payload(bytes, pos, Tag::LongArray, max) is Ok,
        0 <= k <= bytes.len(),
    ensures
        parse_payload(bytes.take(k), pos, Tag::LongArray, max) == cut(
            parse_payload(bytes, pos, Tag::LongArray, max),
            parse_payload(bytes, pos, Tag::LongArray, max)->Ok_0.1,
            k,
        ),
{
    lemma_count_cut(bytes, pos, max, k);
    let count = parse_count(bytes, pos, max)->Ok_0.0;
    let end = pos + 4 + 8 * count;
    if end <= k {
        assert(Seq::new(count, |j: int| i64_at(bytes.take(k), pos + 4 + 8 * j)) =~= Seq::new(
            count,
            |j: int| i64_at(bytes, pos + 4 + 8 * j),
        ));
    }
}

/// `cut` for a text payload.
proof fn lemma_string_cut(bytes: Seq<u8>, pos: int, max: int, k: int)
    requires
        parse_payload(bytes, pos, Tag::String, max) is Ok,
        0 <= k <= bytes.len(),
    ensures
        parse_payload(bytes.take(k), pos, Tag::String, max) == cut(
            parse_payload(bytes, pos, Tag::String, max),
            parse_payload(bytes, pos, Tag::String, max)->Ok_0.1,
            k,
        ),
{
    lemma_text_cut(bytes, pos, max, k);
}

/// Where a payload was read from a buffer, reading it from the buffer cut
/// at `k` gives the same if the payload ends at or before `k`, and
/// `UnexpectedEof` if it does not.
pub proof fn lemma_payload_cut(bytes: Seq<u8>, pos: int, tag: Tag, max: int, k: int)
    requires
        parse_payload(bytes, pos, tag, max) is Ok,
        0 <= k <= bytes.len(),
    ensures
        parse_payload(bytes.take(k), pos, tag, max) == cut(
            parse_payload(bytes, pos, tag, max),
            parse_payload(bytes, pos, tag, max)->Ok_0.1,
            k,
        ),
    decreases bytes.len() - pos, 1nat,
{
    match tag {
        Tag::End => {},
        Tag::ByteArray => {
            lemma_byte_array_cut(bytes, pos, max, k);
        },
        Tag::String => {
            lemma_string_cut(bytes, pos, max, k);
        },
        Tag::List => {
            lemma_tag_cut(bytes, pos, k);
            let item_tag = parse_tag(bytes, pos)->Ok_0.0;
            lemma_count_cut(bytes, pos + 1, max, k);
            let count = parse_count(bytes, pos + 1, max)->Ok_0.0;
            crate::format::lemma_items_advance(bytes, pos + 5, item_tag, count, max);
            if pos + 5 <= k {
                lemma_items_cut(bytes, pos + 5, item_tag, count, max, k);
            }
        },
        Tag::Compound => {
            lemma_entries_cut(bytes, pos, max, k);
        },
        Tag::IntArray => {
            lemma_int_array_cut(bytes, pos, max, k);
        },
        Tag::LongArray => {
            lemma_long_array_cut(bytes, pos, max, k);
        },
        _ => {
            lemma_number_cut(bytes, pos, tag, max, k);
        },
    }
}

/// `lemma_payload_cut` for the items of a list.
pub proof fn lemma_items_cut(bytes: Seq<u8>, pos: int, tag: Tag, count: nat, max: int, k: int)
    requires
        parse_items(bytes, pos, tag, count, max) is Ok,
        0 <= pos <= k <= bytes.len(),
    ensures
        parse_items(bytes.take(k), pos, tag, count, max) == cut(
            parse_items(bytes, pos, tag, count, max),
            parse_items(bytes, pos, tag, count, max)->Ok_0.1,
            k,
        ),
    decreases bytes.len() - pos, 2nat,
{
    if count > 0 {
        let next = parse_payload(bytes, pos, tag, max)->Ok_0.1;
        lemma_payload_cut(bytes, pos, tag, max, k);
        crate::format::lemma_items_advance(bytes, next, tag, (count - 1) as nat, max);
        if next <= k {
            lemma_items_cut(bytes, next, tag, (count - 1) as nat, max, k);
        }
    }
}

/// `lemma_payload_cut` for the entries of a compound.
pub proof fn lemma_entries_cut(bytes: Seq<u8>, pos: int, max: int, k: int)
    requires
        parse_entries(bytes, pos, max) is Ok,
        0 <= k <= bytes.len(),
    ensures
        parse_entries(bytes.take(k), pos, max) == cut(
            parse_entries(bytes, pos, max),
            parse_entries(bytes, pos, max)->Ok_0.1,
            k,
        ),
    decreases bytes.len() - pos, 0nat,
{
    lemma_tag_cut(bytes, pos, k);
    let tag = parse_tag(bytes, pos)->Ok_0.0;
    if tag != Tag::End {
        lemma_text_cut(bytes, pos + 1, max, k);
        let start = parse_text(bytes, pos + 1, max)->Ok_0.1;
        let next = parse_payload(bytes, start, tag, max)->Ok_0.1;
        lemma_payload_cut(bytes, start, tag, max, k);
        crate::format::lemma_entries_advance(bytes, next, max);
        lemma_entries_cut(bytes, next, max, k);
    }
}

/// Truncation: where a buffer holds a document, the buffer cut anywhere
/// within the document reads as `UnexpectedEof`, and cut anywhere behind it
/// as the same document.
pub proof fn lemma_truncated(bytes: Seq<u8>, max: int, k: int)
    requires
        parse_document(bytes, max) is Ok,
        0 <= k <= bytes.len(),
    ensures
        k < parse_document(bytes, max)->Ok_0.1 ==> decode(bytes.take(k), max) == Err::<
            ValueView,
            Error,
        >(Error::UnexpectedEof),
        k >= parse_document(bytes, max)->Ok_0.1 ==> decode(bytes.take(k), max) == decode(
            bytes,
            max,
        ),
{
    let cutoff = bytes.take(k);
    assert(!looks_compressed(cutoff));
    lemma_tag_cut(bytes, 0, k);
    lemma_text_cut(bytes, 1, max, k);
    let start = parse_text(bytes, 1, max)->Ok_0.1;
    lemma_payload_cut(bytes, start, Tag::Compound, max, k);
    lemma_payload_advances(bytes, start, Tag::Compound, max);
}

/// Truncation of what was written: every proper prefix of a document reads
/// as `UnexpectedEof`.
pub proof fn lemma_written_truncated(value: ValueView, max: int, k: int)
    requires
        document_bytes(value) is Ok,
        fits(value, max),
        0 <= max,
        0 <= k < document_bytes(value)->Ok_0.len(),
    ensures
        decode(document_bytes(value)->Ok_0.take(k), max) == Err::<ValueView, Error>(
            Error::UnexpectedEof,
        ),
{
    let doc = document_bytes(value)->Ok_0;
    lemma_round_trip(value, max, Seq::empty());
    assert(doc + Seq::<u8>::empty() =~= doc);
    lemma_truncated(doc, max, k);
}

} // verus!
