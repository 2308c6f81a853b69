//! The bound on counts holds of all that is read.

use vstd::prelude::*;
use crate::error::Error;
use crate::format::decode;
use crate::format::item_tag;
use crate::format::parse_count;
use crate::format::parse_entries;
use crate::format::parse_items;
use crate::format::parse_payload;
use crate::format::parse_tag;
use crate::format::parse_text;
use crate::format::within;
use crate::tag::Tag;
use crate::value::ValueView;
use crate::wire::i32_at;
use crate::wire::in_bounds;
use crate::wire::u16_at;

verus! {

/// A list that announces more items than the bound allows is refused as
/// `SequenceTooLong`, whatever follows the count.
pub proof fn lemma_list_bound(bytes: Seq<u8>, pos: int, max: int)
    requires
        in_bounds(bytes, pos, 5),
        Tag::from_code(bytes[pos]) is Some,
        0 <= max < i32_at(bytes, pos + 1),
    ensures
        parse_payload(bytes, pos, Tag::List, max) == Err::<(ValueView, int), Error>(
            Error::SequenceTooLong,
        ),
{
}

/// An array that announces more numbers than the bound allows is refused
/// as `SequenceTooLong`, whatever follows the count.
pub proof fn lemma_array_bound(bytes: Seq<u8>, pos: int, tag: Tag, max: int)
    requires
        tag == Tag::ByteArray || tag == Tag::IntArray || tag == Tag::LongArray,
        in_bounds(bytes, pos, 4),
        0 <= max < i32_at(bytes, pos),
    ensures
        parse_payload(bytes, pos, tag, max) == Err::<(ValueView, int), Error>(
            Error::SequenceTooLong,
        ),
{
}

/// A text that announces more bytes than the bound allows is refused as
/// `SequenceTooLong`, whatever follows the length.
pub proof fn lemma_text_bound(bytes: Seq<u8>, pos: int, max: int)
    requires
        in_bounds(bytes, pos, 2),
        max < u16_at(bytes, pos),
    ensures
        parse_text(bytes, pos, max) == Err::<(Seq<char>, int), Error>(Error::SequenceTooLong),
        parse_payload(bytes, pos, Tag::String, max) == Err::<(ValueView, int), Error>(
            Error::SequenceTooLong,
        ),
{
}

/// A text that was read has no more characters than the bound allows.
proof fn lemma_text_within(bytes: Seq<u8>, pos: int, max: int)
    requires
        parse_text(bytes, pos, max) is Ok,
    ensures
        parse_text(bytes, pos, max)->Ok_0.0.len() <= max,
{
    let len = u16_at(bytes, pos);
    let body = bytes.subrange(pos + 2, pos + 2 + len);
    crate::text::lemma_chars_from_len(body, 0);
}

/// A compound is within a bound where its names and its values are.
proof fn lemma_within_compound(entries: Seq<(Seq<char>, ValueView)>, max: int)
    requires
        forall|i: int|
            #![trigger entries[i]]
            0 <= i < entries.len() ==> entries[i].0.len() <= max && within(entries[i].1, max),
    ensures
        within(ValueView::Compound(entries), max),
{
    let value = ValueView::Compound(entries);
    assert(value->Compound_0 == entries);
}

/// The bound holds of all that is read: a value that reading gives holds
/// no list and no array of more items than the bound, and no text and no
/// name of more characters.
pub proof fn lemma_read_within(bytes: Seq<u8>, pos: int, tag: Tag, max: int)
    requires
        0 <= max,
        parse_payload(bytes, pos, tag, max) is Ok,
    ensures
        within(parse_payload(bytes, pos, tag, max)->Ok_0.0, max),
    decreases bytes.len() - pos, 1nat,
{
    match tag {
        Tag::String => {
            lemma_text_within(bytes, pos, max);
        },
        Tag::List => {
            let item_tag = parse_tag(bytes, pos)->Ok_0.0;
            let count = parse_count(bytes, pos + 1, max)->Ok_0.0;
            crate::format::lemma_items_advance(bytes, pos + 5, item_tag, count, max);
            lemma_items_within(bytes, pos + 5, item_tag, count, max);
        },
        Tag::Compound => {
            lemma_entries_within(bytes, pos, max);
            lemma_within_compound(parse_entries(bytes, pos, max)->Ok_0.0, max);
        },
        _ => {},
    }
}

/// `lemma_read_within` for the items of a list.
pub proof fn lemma_items_within(bytes: Seq<u8>, pos: int, tag: Tag, count: nat, max: int)
    requires
        0 <= max,
        parse_items(bytes, pos, tag, count, max) is Ok,
    ensures
        forall|i: int|
            0 <= i < parse_items(bytes, pos, tag, count, max)->Ok_0.0.len() ==> within(
                #[trigger] parse_items(bytes, pos, tag, count, max)->Ok_0.0[i],
                max,
            ),
    decreases bytes.len() - pos, 2nat,
{
    if count > 0 {
        let head = parse_payload(bytes, pos, tag, max)->Ok_0.0;
        let next = parse_payload(bytes, pos, tag, max)->Ok_0.1;
        let rest = parse_items(bytes, next, tag, (count - 1) as nat, max)->Ok_0.0;
        let all = parse_items(bytes, pos, tag, count, max)->Ok_0.0;
        lemma_read_within(bytes, pos, tag, max);
        lemma_items_within(bytes, next, tag, (count - 1) as nat, max);
        assert(all == seq![head] + rest);
        assert forall|i: int| 0 <= i < all.len() implies within(#[trigger] all[i], max) by {
            if i > 0 {
                assert(all[i] == rest[i - 1]);
            }
        }
    }
}

/// `lemma_read_within` for the entries of a compound.
pub proof fn lemma_entries_within(bytes: Seq<u8>, pos: int, max: int)
    requires
        0 <= max,
        parse_entries(bytes, pos, max) is Ok,
    ensures
        forall|i: int|
            #![trigger parse_entries(bytes, pos, max)->Ok_0.0[i]]
            0 <= i < parse_entries(bytes, pos, max)->Ok_0.0.len() ==> parse_entries(
                bytes,
                pos,
                max,
            )->Ok_0.0[i].0.len() <= max && within(parse_entries(bytes, pos, max)->Ok_0.0[i].1, max),
    decreases bytes.len() - pos, 0nat,
{
    let tag = parse_tag(bytes, pos)->Ok_0.0;
    if tag != Tag::End {
        let name = parse_text(bytes, pos + 1, max)->Ok_0.0;
        let start = parse_text(bytes, pos + 1, max)->Ok_0.1;
        let value = parse_payload(bytes, start, tag, max)->Ok_0.0;
        let next = parse_payload(bytes, start, tag, max)->Ok_0.1;
        let rest = parse_entries(bytes, next, max)->Ok_0.0;
        let all = parse_entries(bytes, pos, max)->Ok_0.0;
        lemma_text_within(bytes, pos + 1, max);
        lemma_read_within(bytes, start, tag, max);
        lemma_entries_within(bytes, next, max);
        assert(all == seq![(name, value)] + rest);
        assert forall|i: int| #![trigger all[i]] 0 <= i < all.len() implies all[i].0.len() <= max
            && within(all[i].1, max) by {
            if i > 0 {
                assert(all[i] == rest[i - 1]);
            }
        }
    }
}

/// The bound holds of every document that is read.
pub proof fn lemma_decoded_within(bytes: Seq<u8>, max: int)
    requires
        0 <= max,
        decode(bytes, max) is Ok,
    ensures
        within(decode(bytes, max)->Ok_0, max),
{
    let start = parse_text(bytes, 1, max)->Ok_0.1;
    lemma_read_within(bytes, start, Tag::Compound, max);
}

} // verus!
