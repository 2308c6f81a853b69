//! Round trip: reading gives back what was written.

use vstd::prelude::*;
use crate::error::Error;
use crate::format::MAX_COUNT;
use crate::format::decode;
use crate::format::document_bytes;
use crate::format::document_header;
use crate::format::entries_bytes;
use crate::format::entry_frame;
use crate::format::fits;
use crate::format::i32s_bytes;
use crate::format::i64s_bytes;
use crate::format::i8s_bytes;
use crate::format::item_tag;
use crate::format::items_bytes;
use crate::format::lemma_payload_advances;
use crate::format::looks_compressed;
use crate::format::parse_count;
use crate::format::parse_document;
use crate::format::parse_entries;
use crate::format::parse_items;
use crate::format::parse_payload;
use crate::format::parse_tag;
use crate::format::parse_text;
use crate::format::payload_bytes;
use crate::format::text_field;
use crate::tag::Tag;
use crate::text::lemma_text_round_trip;
use crate::text::text_bytes;
use crate::value::ValueView;
use crate::wire::holds_at;
use crate::wire::i32_at;
use crate::wire::i32_bytes;
use crate::wire::i64_at;
use crate::wire::i64_bytes;
use crate::wire::i8_at;
use crate::wire::lemma_holds_index;
use crate::wire::lemma_holds_split;
use crate::wire::lemma_read_i16;
use crate::wire::lemma_read_i32;
use crate::wire::lemma_read_i64;
use crate::wire::lemma_read_i8;
use crate::wire::lemma_read_u16;
use crate::wire::lemma_read_u32;
use crate::wire::lemma_read_u64;
use crate::wire::u16_bytes;

verus! {

/// Reading a text field that was written gives the text back.
pub proof fn lemma_text_field_round_trip(
    bytes: Seq<u8>,
    pos: int,
    text: Seq<char>,
    too_long: Error,
    max: int,
)
    requires
        text_field(text, too_long) is Ok,
        text_bytes(text).len() <= max,
        holds_at(bytes, pos, text_field(text, too_long)->Ok_0),
    ensures
        parse_text(bytes, pos, max) == Ok::<(Seq<char>, int), Error>(
            (text, pos + text_field(text, too_long)->Ok_0.len()),
        ),
{
    let body = text_bytes(text);
    let len = body.len() as int;
    lemma_holds_split(bytes, pos, u16_bytes(len), body);
    lemma_read_u16(bytes, pos, len);
    lemma_text_round_trip(text);
}

/// Reading a count that was written gives the count back.
pub proof fn lemma_count_round_trip(bytes: Seq<u8>, pos: int, count: nat, max: int)
    requires
        count <= MAX_COUNT,
        count <= max,
        holds_at(bytes, pos, i32_bytes(count as i32)),
    ensures
        parse_count(bytes, pos, max) == Ok::<(nat, int), Error>((count, pos + 4)),
{
    lemma_read_i32(bytes, pos, count as i32);
}

/// Reading the numbers of a byte array that were written gives them back.
proof fn lemma_i8s_round_trip(bytes: Seq<u8>, pos: int, items: Seq<i8>)
    requires
        holds_at(bytes, pos, i8s_bytes(items)),
    ensures
        Seq::new(items.len(), |k: int| i8_at(bytes, pos + k)) == items,
{
    let read = Seq::new(items.len(), |k: int| i8_at(bytes, pos + k));
    assert forall|k: int| 0 <= k < items.len() implies read[k] == items[k] by {
        lemma_holds_index(bytes, pos, i8s_bytes(items), k);
    }
    assert(read =~= items);
}

/// Reading the numbers of an int array that were written gives them back.
proof fn lemma_i32s_round_trip(bytes: Seq<u8>, pos: int, items: Seq<i32>)
    requires
        holds_at(bytes, pos, i32s_bytes(items)),
    ensures
        Seq::new(items.len(), |k: int| i32_at(bytes, pos + 4 * k)) == items,
{
    let read = Seq::new(items.len(), |k: int| i32_at(bytes, pos + 4 * k));
    let all = i32s_bytes(items);
    assert forall|k: int| 0 <= k < items.len() implies read[k] == items[k] by {
        let part = i32_bytes(items[k]);
        assert(part.len() == 4);
        assert forall|j: int| 0 <= j < 4 implies bytes[pos + 4 * k + j] == part[j] by {
            lemma_holds_index(bytes, pos, all, 4 * k + j);
        }
        assert(bytes.subrange(pos + 4 * k, pos + 4 * k + 4) =~= part);
        lemma_read_i32(bytes, pos + 4 * k, items[k]);
    }
    assert(read =~= items);
}

/// Reading the numbers of a long array that were written gives them back.
proof fn lemma_i64s_round_trip(bytes: Seq<u8>, pos: int, items: Seq<i64>)
    requires
        holds_at(bytes, pos, i64s_bytes(items)),
    ensures
        Seq::new(items.len(), |k: int| i64_at(bytes, pos + 8 * k)) == items,
{
    let read = Seq::new(items.len(), |k: int| i64_at(bytes, pos + 8 * k));
    let all = i64s_bytes(items);
    assert forall|k: int| 0 <= k < items.len() implies read[k] == items[k] by {
        let part = i64_bytes(items[k]);
        assert(part.len() == 8);
        assert forall|j: int| 0 <= j < 8 implies bytes[pos + 8 * k + j] == part[j] by {
            lemma_holds_index(bytes, pos, all, 8 * k + j);
        }
        assert(bytes.subrange(pos + 8 * k, pos + 8 * k + 8) =~= part);
        lemma_read_i64(bytes, pos + 8 * k, items[k]);
    }
    assert(read =~= items);
}

/// A compound fits a bound where its names and its values do.
pub proof fn lemma_fits_compound(entries: Seq<(Seq<char>, ValueView)>, max: int)
    ensures
        fits(ValueView::Compound(entries), max) <==> forall|i: int|
            #![trigger entries[i]]
            0 <= i < entries.len() ==> text_bytes(entries[i].0).len() <= max && fits(
                entries[i].1,
                max,
            ),
{
    let value = ValueView::Compound(entries);
    assert(value->Compound_0 == entries);
    if fits(value, max) {
        assert forall|i: int| #![trigger entries[i]] 0 <= i < entries.len() implies text_bytes(
            entries[i].0,
        ).len() <= max && fits(entries[i].1, max) by {
            assert(value->Compound_0[i] == entries[i]);
        }
    }
}

/// Reading a number that was written gives the number back.
proof fn lemma_number_round_trip(bytes: Seq<u8>, pos: int, value: ValueView, max: int)
    requires
        value is Byte || value is Short || value is Int || value is Long || value is Float
            || value is Double,
        holds_at(bytes, pos, payload_bytes(value)->Ok_0),
    ensures
        payload_bytes(value) is Ok,
        parse_payload(bytes, pos, value.tag(), max) == Ok::<(ValueView, int), Error>(
            (value, pos + payload_bytes(value)->Ok_0.len()),
        ),
{
    match value {
        ValueView::Byte(v) => {
            lemma_read_i8(bytes, pos, v);
        },
        ValueView::Short(v) => {
            lemma_read_i16(bytes, pos, v);
        },
        ValueView::Int(v) => {
            lemma_read_i32(bytes, pos, v);
        },
        ValueView::Long(v) => {
            lemma_read_i64(bytes, pos, v);
        },
        ValueView::Float(v) => {
            lemma_read_u32(bytes, pos, v as int);
        },
        ValueView::Double(v) => {
            lemma_read_u64(bytes, pos, v as int);
        },
        _ => {},
    }
}

/// Reading a byte array that was written gives the array back.
proof fn lemma_byte_array_round_trip(bytes: Seq<u8>, pos: int, items: Seq<i8>, max: int)
    requires
        items.len() <= MAX_COUNT,
        items.len() <= max,
        holds_at(bytes, pos, i32_bytes(items.len() as i32) + i8s_bytes(items)),
    ensures
        parse_payload(bytes, pos, Tag::ByteArray, max) == Ok::<(ValueView, int), Error>(
            (ValueView::ByteArray(items), pos + 4 + items.len()),
        ),
{
    lemma_holds_split(bytes, pos, i32_bytes(items.len() as i32), i8s_bytes(items));
    lemma_count_round_trip(bytes, pos, items.len(), max);
    lemma_i8s_round_trip(bytes, pos + 4, items);
}

/// Reading an int array that was written gives the array back.
proof fn lemma_int_array_round_trip(bytes: Seq<u8>, pos: int, items: Seq<i32>, max: int)
    requires
        items.len() <= MAX_COUNT,
        items.len() <= max,
        holds_at(bytes, pos, i32_bytes(items.len() as i32) + i32s_bytes(items)),
    ensures
        parse_payload(bytes, pos, Tag::IntArray, max) == Ok::<(ValueView, int), Error>(
            (ValueView::IntArray(items), pos + 4 + 4 * items.len()),
        ),
{
    lemma_holds_split(bytes, pos, i32_bytes(items.len() as i32), i32s_bytes(items));
    lemma_count_round_trip(bytes, pos, items.len(), max);
    lemma_i32s_round_trip(bytes, pos + 4, items);
}

/// Reading a long array that was written gives the array back.
proof fn lemma_long_array_round_trip(bytes: Seq<u8>, pos: int, items: Seq<i64>, max: int)
    requires
        items.len() <= MAX_COUNT,
        items.len() <= max,
        holds_at(bytes, pos, i32_bytes(items.len() as i32) + i64s_bytes(items)),
    ensures
        parse_payload(bytes, pos, Tag::LongArray, max) == Ok::<(ValueView, int), Error>(
            (ValueView::LongArray(items), pos + 4 + 8 * items.len()),
        ),
{
    lemma_holds_split(bytes, pos, i32_bytes(items.len() as i32), i64s_bytes(items));
    lemma_count_round_trip(bytes, pos, items.len(), max);
    lemma_i64s_round_trip(bytes, pos + 4, items);
}

/// Reading a text payload that was written gives the text back.
proof fn lemma_string_round_trip(bytes: Seq<u8>, pos: int, text: Seq<char>, max: int)
    requires
        text_field(text, Error::SequenceTooLong) is Ok,
        text_bytes(text).len() <= max,
        holds_at(bytes, pos, text_field(text, Error::SequenceTooLong)->Ok_0),
    ensures
        parse_payload(bytes, pos, Tag::String, max) == Ok::<(ValueView, int), Error>(
            (
                ValueView::String(text),
                pos + text_field(text, Error::SequenceTooLong)->Ok_0.len(),
            ),
        ),
{
    lemma_text_field_round_trip(bytes, pos, text, Error::SequenceTooLong, max);
}

/// The head of a list that was written reads as it was written, and the
/// items stand behind it.
pub proof fn lemma_list_head(bytes: Seq<u8>, pos: int, tag: Tag, count: nat, body: Seq<u8>, max: int)
    requires
        count <= MAX_COUNT,
        count <= max,
        holds_at(bytes, pos, seq![tag.code()] + i32_bytes(count as i32) + body),
    ensures
        parse_tag(bytes, pos) == Ok::<(Tag, int), Error>((tag, pos + 1)),
        parse_count(bytes, pos + 1, max) == Ok::<(nat, int), Error>((count, pos + 5)),
        holds_at(bytes, pos + 5, body),
        (seq![tag.code()] + i32_bytes(count as i32) + body).len() == 5 + body.len(),
{
    let number = i32_bytes(count as i32);
    lemma_holds_split(bytes, pos, seq![tag.code()] + number, body);
    lemma_holds_split(bytes, pos, seq![tag.code()], number);
    lemma_holds_index(bytes, pos, seq![tag.code()], 0);
    crate::tag::lemma_tag_round_trip(tag);
    lemma_count_round_trip(bytes, pos + 1, count, max);
}

/// Reading a payload that was written gives the value back, whatever stands
/// before and behind it in the buffer.
pub proof fn lemma_payload_round_trip(bytes: Seq<u8>, pos: int, value: ValueView, max: int)
    requires
        payload_bytes(value) is Ok,
        fits(value, max),
        holds_at(bytes, pos, payload_bytes(value)->Ok_0),
    ensures
        parse_payload(bytes, pos, value.tag(), max) == Ok::<(ValueView, int), Error>(
            (value, pos + payload_bytes(value)->Ok_0.len()),
        ),
    decreases value,
{
    match value {
        ValueView::ByteArray(items) => {
            lemma_byte_array_round_trip(bytes, pos, items, max);
        },
        ValueView::String(text) => {
            lemma_string_round_trip(bytes, pos, text, max);
        },
        ValueView::List(items) => {
            let tag = item_tag(items);
            let body = items_bytes(items, tag)->Ok_0;
            lemma_list_head(bytes, pos, tag, items.len(), body, max);
            lemma_items_round_trip(bytes, pos + 5, items, tag, max);
        },
        ValueView::Compound(entries) => {
            lemma_fits_compound(entries, max);
            lemma_entries_round_trip(bytes, pos, entries, max);
        },
        ValueView::IntArray(items) => {
            lemma_int_array_round_trip(bytes, pos, items, max);
        },
        ValueView::LongArray(items) => {
            lemma_long_array_round_trip(bytes, pos, items, max);
        },
        _ => {
            lemma_number_round_trip(bytes, pos, value, max);
        },
    }
}

/// Reading the items of a list that were written gives them back.
pub proof fn lemma_items_round_trip(
    bytes: Seq<u8>,
    pos: int,
    items: Seq<ValueView>,
    tag: Tag,
    max: int,
)
    requires
        items_bytes(items, tag) is Ok,
        forall|i: int| 0 <= i < items.len() ==> fits(#[trigger] items[i], max),
        holds_at(bytes, pos, items_bytes(items, tag)->Ok_0),
    ensures
        parse_items(bytes, pos, tag, items.len(), max) == Ok::<(Seq<ValueView>, int), Error>(
            (items, pos + items_bytes(items, tag)->Ok_0.len()),
        ),
    decreases items,
{
    if items.len() == 0 {
        assert(items =~= Seq::<ValueView>::empty());
    } else {
        let head = items[0];
        let rest = items.drop_first();
        let head_bytes = payload_bytes(head)->Ok_0;
        let rest_bytes = items_bytes(rest, tag)->Ok_0;
        lemma_holds_split(bytes, pos, head_bytes, rest_bytes);
        assert(fits(head, max));
        lemma_payload_round_trip(bytes, pos, head, max);
        lemma_payload_advances(bytes, pos, tag, max);
        assert forall|i: int| 0 <= i < rest.len() implies fits(#[trigger] rest[i], max) by {
            assert(rest[i] == items[i + 1]);
        }
        lemma_items_round_trip(bytes, pos + head_bytes.len(), rest, tag, max);
        assert(seq![head] + rest =~= items);
    }
}

/// Reading the entries of a compound that were written gives them back.
pub proof fn lemma_entries_round_trip(
    bytes: Seq<u8>,
    pos: int,
    entries: Seq<(Seq<char>, ValueView)>,
    max: int,
)
    requires
        entries_bytes(entries) is Ok,
        forall|i: int|
            #![trigger entries[i]]
            0 <= i < entries.len() ==> text_bytes(entries[i].0).len() <= max && fits(
                entries[i].1,
                max,
            ),
        holds_at(bytes, pos, entries_bytes(entries)->Ok_0),
    ensures
        parse_entries(bytes, pos, max) == Ok::<(Seq<(Seq<char>, ValueView)>, int), Error>(
            (entries, pos + entries_bytes(entries)->Ok_0.len()),
        ),
    decreases entries,
{
    if entries.len() == 0 {
        lemma_holds_index(bytes, pos, seq![Tag::End.code()], 0);
        assert(entries =~= Seq::<(Seq<char>, ValueView)>::empty());
    } else {
        let name = entries[0].0;
        let value = entries[0].1;
        let rest = entries.drop_first();
        let tag = value.tag();
        let name_field = text_field(name, Error::NameTooLong)->Ok_0;
        let payload = payload_bytes(value)->Ok_0;
        let head_bytes = entry_frame(tag, name, payload_bytes(value))->Ok_0;
        let rest_bytes = entries_bytes(rest)->Ok_0;
        assert(entries[0] == (name, value));
        assert(fits(value, max) && text_bytes(name).len() <= max);
        lemma_holds_split(bytes, pos, head_bytes, rest_bytes);
        assert(head_bytes == seq![tag.code()] + name_field + payload);
        lemma_holds_split(bytes, pos, seq![tag.code()] + name_field, payload);
        lemma_holds_split(bytes, pos, seq![tag.code()], name_field);
        lemma_holds_index(bytes, pos, seq![tag.code()], 0);
        crate::tag::lemma_tag_round_trip(tag);
        lemma_text_field_round_trip(bytes, pos + 1, name, Error::NameTooLong, max);
        let start = pos + 1 + name_field.len();
        lemma_payload_round_trip(bytes, start, value, max);
        lemma_payload_advances(bytes, start, tag, max);
        assert forall|i: int| #![trigger rest[i]] 0 <= i < rest.len() implies text_bytes(
            rest[i].0,
        ).len() <= max && fits(rest[i].1, max) by {
            assert(rest[i] == entries[i + 1]);
        }
        lemma_entries_round_trip(bytes, pos + head_bytes.len(), rest, max);
        assert(seq![(name, value)] + rest =~= entries);
    }
}

/// Round trip: reading a document that was written gives the value back.
///
/// The value must fit the bound that reading goes by. What stands behind the
/// document in the buffer makes no difference.
pub proof fn lemma_round_trip(value: ValueView, max: int, behind: Seq<u8>)
    requires
        document_bytes(value) is Ok,
        fits(value, max),
        0 <= max,
    ensures
        parse_document(document_bytes(value)->Ok_0 + behind, max) == Ok::<(ValueView, int), Error>(
            (value, document_bytes(value)->Ok_0.len() as int),
        ),
        decode(document_bytes(value)->Ok_0 + behind, max) == Ok::<ValueView, Error>(value),
{
    let entries = value->Compound_0;
    let body = entries_bytes(entries)->Ok_0;
    let doc = document_bytes(value)->Ok_0;
    let bytes = doc + behind;
    assert(doc == document_header() + body);
    assert(bytes.subrange(0, doc.len() as int) =~= doc);
    lemma_holds_split(bytes, 0, document_header(), body);
    lemma_holds_index(bytes, 0, document_header(), 0);
    lemma_holds_index(bytes, 0, document_header(), 1);
    lemma_holds_index(bytes, 0, document_header(), 2);
    assert(!looks_compressed(bytes));
    assert(parse_tag(bytes, 0) == Ok::<(Tag, int), Error>((Tag::Compound, 1)));
    assert(parse_text(bytes, 1, max) is Ok && parse_text(bytes, 1, max)->Ok_0.1 == 3);
    lemma_fits_compound(entries, max);
    lemma_entries_round_trip(bytes, 3, entries, max);
}

/// Writing what was read gives the same bytes again: a document that was
/// written, read and written once more is the document that was written
/// first.
pub proof fn lemma_rewritten_same(value: ValueView, max: int)
    requires
        document_bytes(value) is Ok,
        fits(value, max),
        0 <= max,
    ensures
        decode(document_bytes(value)->Ok_0, max) is Ok,
        document_bytes(decode(document_bytes(value)->Ok_0, max)->Ok_0) == document_bytes(value),
{
    lemma_round_trip(value, max, Seq::empty());
    assert(document_bytes(value)->Ok_0 + Seq::<u8>::empty() =~= document_bytes(value)->Ok_0);
}

} // verus!
