//! Writing values as bytes.

use vstd::prelude::*;
use crate::error::Error;
use crate::format::counted;
use crate::format::document_bytes;
use crate::format::document_header;
use crate::format::entries_bytes;
use crate::format::entry_frame;
use crate::format::i32s_bytes;
use crate::format::i64s_bytes;
use crate::format::i8s_bytes;
use crate::format::item_tag;
use crate::format::items_bytes;
use crate::format::payload_bytes;
use crate::format::text_field;
use crate::format::MAX_COUNT;
use crate::format::MAX_TEXT_LEN;
use crate::tag::Tag;
use crate::text::encode_text;
use crate::value::entries_view;
use crate::value::items_view;
use crate::value::Value;
use crate::value::ValueView;
use crate::wire::i32_bytes;
use crate::wire::i64_bytes;
use crate::wire::i8_bytes;
use crate::wire::u16_bytes;
use crate::wire::write_i16;
use crate::wire::write_i32;
use crate::wire::write_i64;
use crate::wire::write_i8;
use crate::wire::write_u16;
use crate::wire::write_u32;
use crate::wire::write_u64;

verus! {

/// What was written before, then `more`; an error stays as it is.
pub open spec fn after(done: Seq<u8>, more: Result<Seq<u8>, Error>) -> Result<Seq<u8>, Error> {
    match more {
        Ok(bytes) => Ok(done + bytes),
        Err(e) => Err(e),
    }
}

/// Whether a call that returned `r` appended to `before`, giving `now`,
/// what the grammar asks for, `wanted`. Where `wanted` is an error, the call
/// returned it, and nothing is said of the buffer.
pub open spec fn appended(
    r: Result<(), Error>,
    before: Seq<u8>,
    now: Seq<u8>,
    wanted: Result<Seq<u8>, Error>,
) -> bool {
    match r {
        Ok(()) => wanted is Ok && now == before + wanted->Ok_0,
        Err(e) => wanted == Err::<Seq<u8>, Error>(e),
    }
}

/// Appending one int to an array appends its four bytes.
proof fn lemma_i32s_push(items: Seq<i32>, last: i32)
    ensures
        i32s_bytes(items.push(last)) == i32s_bytes(items) + i32_bytes(last),
{
    assert(i32_bytes(last).len() == 4);
    assert(i32s_bytes(items.push(last)) =~= i32s_bytes(items) + i32_bytes(last));
}

/// Appending one long to an array appends its eight bytes.
proof fn lemma_i64s_push(items: Seq<i64>, last: i64)
    ensures
        i64s_bytes(items.push(last)) == i64s_bytes(items) + i64_bytes(last),
{
    assert(i64_bytes(last).len() == 8);
    assert(i64s_bytes(items.push(last)) =~= i64s_bytes(items) + i64_bytes(last));
}

/// Appends a text with its length in front.
fn write_text_field(out: &mut Vec<u8>, text: &str, too_long: Error) -> (r: Result<(), Error>)
    ensures
        appended(r, old(out)@, final(out)@, text_field(text@, too_long)),
{
    let body = encode_text(text);
    if body.len() > MAX_TEXT_LEN {
        return Err(too_long);
    }
    write_u16(out, body.len() as u16);
    let mut body = body;
    let ghost text_part = body@;
    out.append(&mut body);
    assert(out@ =~= old(out)@ + (u16_bytes(text_part.len() as int) + text_part));
    Ok(())
}

/// Appends the count of a list or an array.
fn write_count(out: &mut Vec<u8>, count: usize) -> (r: Result<(), Error>)
    ensures
        appended(r, old(out)@, final(out)@, counted(count as nat, Seq::empty())),
{
    if count > MAX_COUNT {
        return Err(Error::SequenceTooLong);
    }
    write_i32(out, count as i32);
    Ok(())
}

/// Appends a byte array: its count and its numbers.
fn write_i8s(out: &mut Vec<u8>, items: &Vec<i8>) -> (r: Result<(), Error>)
    ensures
        appended(r, old(out)@, final(out)@, counted(items@.len(), i8s_bytes(items@))),
{
    match write_count(out, items.len()) {
        Ok(()) => {},
        Err(e) => {
            return Err(e);
        },
    }
    let ghost start = out@;
    assert(start =~= old(out)@ + i32_bytes(items.len() as i32));
    let mut i: usize = 0;
    while i < items.len()
        invariant
            i <= items.len(),
            out@ == start + i8s_bytes(items@.take(i as int)),
        decreases items.len() - i,
    {
        write_i8(out, items[i]);
        i = i + 1;
        assert(i8s_bytes(items@.take(i as int)) =~= i8s_bytes(items@.take(i - 1)) + i8_bytes(
            items@[i - 1],
        ));
    }
    assert(items@.take(i as int) =~= items@);
    assert(out@ =~= old(out)@ + (i32_bytes(items.len() as i32) + i8s_bytes(items@)));
    Ok(())
}

/// Appends an int array: its count and its numbers.
fn write_i32s(out: &mut Vec<u8>, items: &Vec<i32>) -> (r: Result<(), Error>)
    ensures
        appended(r, old(out)@, final(out)@, counted(items@.len(), i32s_bytes(items@))),
{
    match write_count(out, items.len()) {
        Ok(()) => {},
        Err(e) => {
            return Err(e);
        },
    }
    let ghost start = out@;
    assert(start =~= old(out)@ + i32_bytes(items.len() as i32));
    let mut i: usize = 0;
    while i < items.len()
        invariant
            i <= items.len(),
            out@ == start + i32s_bytes(items@.take(i as int)),
        decreases items.len() - i,
    {
        write_i32(out, items[i]);
        proof {
            lemma_i32s_push(items@.take(i as int), items@[i as int]);
            assert(items@.take(i + 1) =~= items@.take(i as int).push(items@[i as int]));
        }
        i = i + 1;
    }
    assert(items@.take(i as int) =~= items@);
    assert(out@ =~= old(out)@ + (i32_bytes(items.len() as i32) + i32s_bytes(items@)));
    Ok(())
}

/// Appends a long array: its count and its numbers.
fn write_i64s(out: &mut Vec<u8>, items: &Vec<i64>) -> (r: Result<(), Error>)
    ensures
        appended(r, old(out)@, final(out)@, counted(items@.len(), i64s_bytes(items@))),
{
    match write_count(out, items.len()) {
        Ok(()) => {},
        Err(e) => {
            return Err(e);
        },
    }
    let ghost start = out@;
    assert(start =~= old(out)@ + i32_bytes(items.len() as i32));
    let mut i: usize = 0;
    while i < items.len()
        invariant
            i <= items.len(),
            out@ == start + i64s_bytes(items@.take(i as int)),
        decreases items.len() - i,
    {
        write_i64(out, items[i]);
        proof {
            lemma_i64s_push(items@.take(i as int), items@[i as int]);
            assert(items@.take(i + 1) =~= items@.take(i as int).push(items@[i as int]));
        }
        i = i + 1;
    }
    assert(items@.take(i as int) =~= items@);
    assert(out@ =~= old(out)@ + (i32_bytes(items.len() as i32) + i64s_bytes(items@)));
    Ok(())
}

/// Appends the payload of `value`.
pub fn write_payload(out: &mut Vec<u8>, value: &Value) -> (r: Result<(), Error>)
    ensures
        appended(r, old(out)@, final(out)@, payload_bytes(value@)),
    decreases value,
{
    match value {
        Value::Byte(v) => {
            write_i8(out, *v);
            Ok(())
        },
        Value::Short(v) => {
            write_i16(out, *v);
            Ok(())
        },
        Value::Int(v) => {
            write_i32(out, *v);
            Ok(())
        },
        Value::Long(v) => {
            write_i64(out, *v);
            Ok(())
        },
        Value::Float(v) => {
            write_u32(out, *v);
            Ok(())
        },
        Value::Double(v) => {
            write_u64(out, *v);
            Ok(())
        },
        Value::ByteArray(items) => write_i8s(out, items),
        Value::String(text) => write_text_field(out, text.as_str(), Error::SequenceTooLong),
        Value::List(items) => write_list(out, items),
        Value::Compound(entries) => write_entries(out, entries),
        Value::IntArray(items) => write_i32s(out, items),
        Value::LongArray(items) => write_i64s(out, items),
    }
}

/// Appends a list: the tag of its items, its count and the items.
fn write_list(out: &mut Vec<u8>, items: &Vec<Value>) -> (r: Result<(), Error>)
    ensures
        appended(r, old(out)@, final(out)@, payload_bytes(ValueView::List(items_view(items@)))),
    decreases items,
{
    let ghost all = items_view(items@);
    if items.len() > MAX_COUNT {
        return Err(Error::SequenceTooLong);
    }
    let tag = if items.len() == 0 {
        Tag::End
    } else {
        items[0].tag()
    };
    assert(tag == item_tag(all));
    let ghost before = out@;
    out.push(u8::from(tag));
    write_i32(out, items.len() as i32);
    let ghost head = seq![tag.code()] + i32_bytes(items.len() as i32);
    let ghost start = out@;
    assert(start == before + head);
    let mut i: usize = 0;
    let ghost mut done: Seq<u8> = Seq::empty();
    assert(all.skip(0) =~= all);
    while i < items.len()
        invariant
            i <= items.len(),
            items.len() <= MAX_COUNT,
            all == items_view(items@),
            tag == item_tag(all),
            out@ == start + done,
            items_bytes(all, tag) == after(done, items_bytes(all.skip(i as int), tag)),
        decreases items.len() - i,
    {
        let item = &items[i];
        let ghost rest = all.skip(i as int);
        assert(rest[0] == item@);
        assert(rest.drop_first() =~= all.skip(i + 1));
        if item.tag() != tag {
            return Err(Error::TypeMismatch);
        }
        let ghost mid = out@;
        match write_payload(out, item) {
            Ok(()) => {},
            Err(e) => {
                return Err(e);
            },
        }
        proof {
            let bytes = payload_bytes(item@)->Ok_0;
            let tail = items_bytes(all.skip(i + 1), tag);
            if tail is Ok {
                assert(done + (bytes + tail->Ok_0) =~= (done + bytes) + tail->Ok_0);
            }
            done = done + bytes;
            assert(out@ =~= start + done);
        }
        i = i + 1;
    }
    proof {
        assert(all.skip(i as int).len() == 0);
        assert(done + Seq::<u8>::empty() =~= done);
        assert(out@ =~= before + (head + done));
    }
    Ok(())
}

/// Appends the entries of a compound and the `End` that closes it.
fn write_entries(out: &mut Vec<u8>, entries: &Vec<(String, Value)>) -> (r: Result<(), Error>)
    ensures
        appended(r, old(out)@, final(out)@, entries_bytes(entries_view(entries@))),
    decreases entries,
{
    let ghost all = entries_view(entries@);
    let ghost start = out@;
    let mut i: usize = 0;
    let ghost mut done: Seq<u8> = Seq::empty();
    assert(all.skip(0) =~= all);
    assert(out@ =~= start + done);
    while i < entries.len()
        invariant
            i <= entries.len(),
            all == entries_view(entries@),
            out@ == start + done,
            entries_bytes(all) == after(done, entries_bytes(all.skip(i as int))),
        decreases entries.len() - i,
    {
        let entry = &entries[i];
        let ghost rest = all.skip(i as int);
        assert(rest[0] == (entry.0@, entry.1@));
        assert(rest.drop_first() =~= all.skip(i + 1));
        let ghost mid = out@;
        out.push(u8::from(entry.1.tag()));
        match write_text_field(out, entry.0.as_str(), Error::NameTooLong) {
            Ok(()) => {},
            Err(e) => {
                return Err(e);
            },
        }
        match write_payload(out, &entry.1) {
            Ok(()) => {},
            Err(e) => {
                return Err(e);
            },
        }
        proof {
            let bytes = entry_frame(entry.1@.tag(), entry.0@, payload_bytes(entry.1@))->Ok_0;
            let tail = entries_bytes(all.skip(i + 1));
            assert(out@ =~= mid + bytes);
            if tail is Ok {
                assert(done + (bytes + tail->Ok_0) =~= (done + bytes) + tail->Ok_0);
            }
            done = done + bytes;
            assert(out@ =~= start + done);
        }
        i = i + 1;
    }
    out.push(u8::from(Tag::End));
    proof {
        assert(all.skip(i as int).len() == 0);
        assert(out@ =~= start + (done + seq![Tag::End.code()]));
    }
    Ok(())
}

/// Writes `value` as a document.
///
/// Only a compound can be a document: any other value gives
/// `RootMustBeCompound`. The bytes are those of `document_bytes`, and so is
/// the error where a part of the value cannot be written.
pub fn to_bytes(value: &Value) -> (r: Result<Vec<u8>, Error>)
    ensures
        match r {
            Ok(bytes) => document_bytes(value@) == Ok::<Seq<u8>, Error>(bytes@),
            Err(e) => document_bytes(value@) == Err::<Seq<u8>, Error>(e),
        },
{
    match value {
        Value::Compound(entries) => {
            let mut out: Vec<u8> = Vec::new();
            out.push(u8::from(Tag::Compound));
            out.push(0);
            out.push(0);
            assert(out@ =~= document_header());
            match write_entries(&mut out, entries) {
                Ok(()) => Ok(out),
                Err(e) => Err(e),
            }
        },
        _ => Err(Error::RootMustBeCompound),
    }
}

} // verus!
