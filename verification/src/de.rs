//! Reading values from bytes.
//!
//! Reading walks the buffer once, from left to right. A count is checked
//! against the bound of the options before anything is allocated for it, and
//! against the bytes that are left before any of them is read.

use vstd::prelude::*;
use vstd::slice::slice_subrange;
use crate::error::Error;
use crate::format::decode;
use crate::format::lemma_payload_advances;
use crate::format::looks_compressed;
use crate::format::parse_count;
use crate::format::parse_entries;
use crate::format::parse_items;
use crate::format::parse_payload;
use crate::format::parse_tag;
use crate::format::parse_text;
use crate::format::Parsed;
use crate::format::GZIP_MAGIC_0;
use crate::format::GZIP_MAGIC_1;
use crate::opts::DeOpts;
use crate::tag::Tag;
use crate::text::decode_text;
use crate::value::entries_view;
use crate::value::items_view;
use crate::value::Value;
use crate::value::ValueView;
use crate::wire::i32_at;
use crate::wire::i64_at;
use crate::wire::i8_at;
use crate::wire::i8_of;
use crate::wire::lemma_len_fits;
use crate::wire::read_i16;
use crate::wire::read_i32;
use crate::wire::read_i64;
use crate::wire::read_i8;
use crate::wire::read_u16;
use crate::wire::read_u32;
use crate::wire::read_u64;
use crate::wire::read_u8;

verus! {

/// What was read before, then what `more` reads; an error stays as it is.
pub open spec fn then<T>(done: Seq<T>, more: Parsed<Seq<T>>) -> Parsed<Seq<T>> {
    match more {
        Ok((rest, end)) => Ok((done + rest, end)),
        Err(e) => Err(e),
    }
}

/// Reads a tag.
pub fn read_tag(bytes: &[u8], pos: usize) -> (r: Result<(Tag, usize), Error>)
    ensures
        match r {
            Ok((tag, end)) => parse_tag(bytes@, pos as int) == Ok::<(Tag, int), Error>(
                (tag, end as int),
            ),
            Err(e) => parse_tag(bytes@, pos as int) == Err::<(Tag, int), Error>(e),
        },
{
    proof {
        lemma_len_fits(bytes);
    }
    let code = match read_u8(bytes, pos) {
        Ok(code) => code,
        Err(e) => {
            return Err(e);
        },
    };
    match Tag::try_from(code) {
        Ok(tag) => Ok((tag, pos + 1)),
        Err(_) => Err(Error::MalformedTag),
    }
}

/// Reads a text: its length, checked against `max`, then its bytes.
pub fn read_text(bytes: &[u8], pos: usize, max: usize) -> (r: Result<(String, usize), Error>)
    ensures
        match r {
            Ok((text, end)) => parse_text(bytes@, pos as int, max as int) == Ok::<
                (Seq<char>, int),
                Error,
            >((text@, end as int)),
            Err(e) => parse_text(bytes@, pos as int, max as int) == Err::<(Seq<char>, int), Error>(
                e,
            ),
        },
{
    proof {
        lemma_len_fits(bytes);
    }
    let len = match read_u16(bytes, pos) {
        Ok(len) => len as usize,
        Err(e) => {
            return Err(e);
        },
    };
    if len > max {
        return Err(Error::SequenceTooLong);
    }
    let start = pos + 2;
    if len > bytes.len() - start {
        return Err(Error::UnexpectedEof);
    }
    let text = decode_text(slice_subrange(bytes, start, start + len));
    Ok((text, start + len))
}

/// Reads a count and checks it against `max`. A negative count reads as 0.
pub fn read_count(bytes: &[u8], pos: usize, max: usize) -> (r: Result<(usize, usize), Error>)
    ensures
        match r {
            Ok((count, end)) => parse_count(bytes@, pos as int, max as int) == Ok::<
                (nat, int),
                Error,
            >((count as nat, end as int)),
            Err(e) => parse_count(bytes@, pos as int, max as int) == Err::<(nat, int), Error>(e),
        },
{
    proof {
        lemma_len_fits(bytes);
    }
    let count = match read_i32(bytes, pos) {
        Ok(count) => count,
        Err(e) => {
            return Err(e);
        },
    };
    if count <= 0 {
        Ok((0, pos + 4))
    } else if count as usize > max {
        Err(Error::SequenceTooLong)
    } else {
        Ok((count as usize, pos + 4))
    }
}

/// Reads a byte array: its count, then its numbers.
fn read_i8s(bytes: &[u8], pos: usize, max: usize) -> (r: Result<(Value, usize), Error>)
    ensures
        match r {
            Ok((value, end)) => parse_payload(bytes@, pos as int, Tag::ByteArray, max as int)
                == Ok::<(ValueView, int), Error>((value@, end as int)),
            Err(e) => parse_payload(bytes@, pos as int, Tag::ByteArray, max as int) == Err::<
                (ValueView, int),
                Error,
            >(e),
        },
{
    let (count, at) = match read_count(bytes, pos, max) {
        Ok(r) => r,
        Err(e) => {
            return Err(e);
        },
    };
    if count > bytes.len() - at {
        return Err(Error::UnexpectedEof);
    }
    let mut items: Vec<i8> = Vec::new();
    let mut k: usize = 0;
    while k < count
        invariant
            k <= count,
            at + count <= bytes.len(),
            items@ == Seq::new(k as nat, |j: int| i8_at(bytes@, at + j)),
        decreases count - k,
    {
        items.push(i8_of(bytes[at + k]));
        k = k + 1;
        assert(items@ =~= Seq::new(k as nat, |j: int| i8_at(bytes@, at + j)));
    }
    Ok((Value::ByteArray(items), at + count))
}

/// Reads an int array: its count, then its numbers.
fn read_i32s(bytes: &[u8], pos: usize, max: usize) -> (r: Result<(Value, usize), Error>)
    ensures
        match r {
            Ok((value, end)) => parse_payload(bytes@, pos as int, Tag::IntArray, max as int)
                == Ok::<(ValueView, int), Error>((value@, end as int)),
            Err(e) => parse_payload(bytes@, pos as int, Tag::IntArray, max as int) == Err::<
                (ValueView, int),
                Error,
            >(e),
        },
{
    let (count, at) = match read_count(bytes, pos, max) {
        Ok(r) => r,
        Err(e) => {
            return Err(e);
        },
    };
    if count > (bytes.len() - at) / 4 {
        return Err(Error::UnexpectedEof);
    }
    let mut items: Vec<i32> = Vec::new();
    let mut k: usize = 0;
    while k < count
        invariant
            k <= count,
            at + 4 * count <= bytes.len(),
            items@ == Seq::new(k as nat, |j: int| i32_at(bytes@, at + 4 * j)),
        decreases count - k,
    {
        match read_i32(bytes, at + 4 * k) {
            Ok(v) => {
                items.push(v);
            },
            Err(e) => {
                return Err(e);
            },
        }
        k = k + 1;
        assert(items@ =~= Seq::new(k as nat, |j: int| i32_at(bytes@, at + 4 * j)));
    }
    Ok((Value::IntArray(items), at + 4 * count))
}

/// Reads a long array: its count, then its numbers.
fn read_i64s(bytes: &[u8], pos: usize, max: usize) -> (r: Result<(Value, usize), Error>)
    ensures
        match r {
            Ok((value, end)) => parse_payload(bytes@, pos as int, Tag::LongArray, max as int)
                == Ok::<(ValueView, int), Error>((value@, end as int)),
            Err(e) => parse_payload(bytes@, pos as int, Tag::LongArray, max as int) == Err::<
                (ValueView, int),
                Error,
            >(e),
        },
{
    let (count, at) = match read_count(bytes, pos, max) {
        Ok(r) => r,
        Err(e) => {
            return Err(e);
        },
    };
    if count > (bytes.len() - at) / 8 {
        return Err(Error::UnexpectedEof);
    }
    let mut items: Vec<i64> = Vec::new();
    let mut k: usize = 0;
    while k < count
        invariant
            k <= count,
            at + 8 * count <= bytes.len(),
            items@ == Seq::new(k as nat, |j: int| i64_at(bytes@, at + 8 * j)),
        decreases count - k,
    {
        match read_i64(bytes, at + 8 * k) {
            Ok(v) => {
                items.push(v);
            },
            Err(e) => {
                return Err(e);
            },
        }
        k = k + 1;
        assert(items@ =~= Seq::new(k as nat, |j: int| i64_at(bytes@, at + 8 * j)));
    }
    Ok((Value::LongArray(items), at + 8 * count))
}

/// Reads the payload of tag `tag` at `pos`: the value and the position
/// behind it.
pub fn read_payload(bytes: &[u8], pos: usize, tag: Tag, max: usize) -> (r: Result<
    (Value, usize),
    Error,
>)
    ensures
        match r {
            Ok((value, end)) => parse_payload(bytes@, pos as int, tag, max as int) == Ok::<
                (ValueView, int),
                Error,
            >((value@, end as int)),
            Err(e) => parse_payload(bytes@, pos as int, tag, max as int) == Err::<
                (ValueView, int),
                Error,
            >(e),
        },
    decreases bytes@.len() - pos, 1nat,
{
    proof {
        lemma_len_fits(bytes);
    }
    match tag {
        Tag::End => Err(Error::MalformedTag),
        Tag::Byte => match read_i8(bytes, pos) {
            Ok(v) => Ok((Value::Byte(v), pos + 1)),
            Err(e) => Err(e),
        },
        Tag::Short => match read_i16(bytes, pos) {
            Ok(v) => Ok((Value::Short(v), pos + 2)),
            Err(e) => Err(e),
        },
        Tag::Int => match read_i32(bytes, pos) {
            Ok(v) => Ok((Value::Int(v), pos + 4)),
            Err(e) => Err(e),
        },
        Tag::Long => match read_i64(bytes, pos) {
            Ok(v) => Ok((Value::Long(v), pos + 8)),
            Err(e) => Err(e),
        },
        Tag::Float => match read_u32(bytes, pos) {
            Ok(v) => Ok((Value::Float(v), pos + 4)),
            Err(e) => Err(e),
        },
        Tag::Double => match read_u64(bytes, pos) {
            Ok(v) => Ok((Value::Double(v), pos + 8)),
            Err(e) => Err(e),
        },
        Tag::ByteArray => read_i8s(bytes, pos, max),
        Tag::String => match read_text(bytes, pos, max) {
            Ok((text, end)) => Ok((Value::String(text), end)),
            Err(e) => Err(e),
        },
        Tag::List => {
            let (item_tag, at) = match read_tag(bytes, pos) {
                Ok(r) => r,
                Err(e) => {
                    return Err(e);
                },
            };
            let (count, first) = match read_count(bytes, at, max) {
                Ok(r) => r,
                Err(e) => {
                    return Err(e);
                },
            };
            if count > 0 && item_tag == Tag::End {
                return Err(Error::MalformedTag);
            }
            match read_items(bytes, first, item_tag, count, max) {
                Ok((items, end)) => Ok((Value::List(items), end)),
                Err(e) => Err(e),
            }
        },
        Tag::Compound => match read_entries(bytes, pos, max) {
            Ok((entries, end)) => Ok((Value::Compound(entries), end)),
            Err(e) => Err(e),
        },
        Tag::IntArray => read_i32s(bytes, pos, max),
        Tag::LongArray => read_i64s(bytes, pos, max),
    }
}

/// Reads `count` payloads of tag `tag`, one after the other.
fn read_items(bytes: &[u8], pos: usize, tag: Tag, count: usize, max: usize) -> (r: Result<
    (Vec<Value>, usize),
    Error,
>)
    requires
        pos <= bytes.len(),
    ensures
        match r {
            Ok((items, end)) => parse_items(bytes@, pos as int, tag, count as nat, max as int)
                == Ok::<(Seq<ValueView>, int), Error>((items_view(items@), end as int)),
            Err(e) => parse_items(bytes@, pos as int, tag, count as nat, max as int) == Err::<
                (Seq<ValueView>, int),
                Error,
            >(e),
        },
    decreases bytes@.len() - pos, 2nat,
{
    let ghost whole = parse_items(bytes@, pos as int, tag, count as nat, max as int);
    let mut items: Vec<Value> = Vec::new();
    let mut cur: usize = pos;
    let mut i: usize = 0;
    assert(items_view(items@) + Seq::<ValueView>::empty() =~= Seq::<ValueView>::empty());
    assert(Seq::<ValueView>::empty() + parse_items(
        bytes@,
        pos as int,
        tag,
        count as nat,
        max as int,
    )->Ok_0.0 =~= parse_items(bytes@, pos as int, tag, count as nat, max as int)->Ok_0.0);
    while i < count
        invariant
            i <= count,
            pos <= cur <= bytes.len(),
            whole == parse_items(bytes@, pos as int, tag, count as nat, max as int),
            whole == then(
                items_view(items@),
                parse_items(bytes@, cur as int, tag, (count - i) as nat, max as int),
            ),
        decreases count - i,
    {
        let ghost before = items_view(items@);
        let (value, next) = match read_payload(bytes, cur, tag, max) {
            Ok(r) => r,
            Err(e) => {
                return Err(e);
            },
        };
        proof {
            lemma_payload_advances(bytes@, cur as int, tag, max as int);
            let more = parse_items(bytes@, next as int, tag, (count - i - 1) as nat, max as int);
            if more is Ok {
                assert(before + (seq![value@] + more->Ok_0.0) =~= before.push(value@) + more->Ok_0.0);
            }
        }
        items.push(value);
        assert(items_view(items@) =~= before.push(value@));
        cur = next;
        i = i + 1;
    }
    assert(items_view(items@) + Seq::<ValueView>::empty() =~= items_view(items@));
    Ok((items, cur))
}

/// Reads the entries of a compound, up to and with the `End` that closes it.
fn read_entries(bytes: &[u8], pos: usize, max: usize) -> (r: Result<
    (Vec<(String, Value)>, usize),
    Error,
>)
    ensures
        match r {
            Ok((entries, end)) => parse_entries(bytes@, pos as int, max as int) == Ok::<
                (Seq<(Seq<char>, ValueView)>, int),
                Error,
            >((entries_view(entries@), end as int)),
            Err(e) => parse_entries(bytes@, pos as int, max as int) == Err::<
                (Seq<(Seq<char>, ValueView)>, int),
                Error,
            >(e),
        },
    decreases bytes@.len() - pos, 0nat,
{
    let ghost whole = parse_entries(bytes@, pos as int, max as int);
    let mut entries: Vec<(String, Value)> = Vec::new();
    let mut cur: usize = pos;
    assert(Seq::<(Seq<char>, ValueView)>::empty() + whole->Ok_0.0 =~= whole->Ok_0.0);
    assert(entries_view(entries@) =~= Seq::<(Seq<char>, ValueView)>::empty());
    loop
        invariant
            pos <= cur,
            cur == pos || cur <= bytes.len(),
            whole == parse_entries(bytes@, pos as int, max as int),
            whole == then(entries_view(entries@), parse_entries(bytes@, cur as int, max as int)),
        decreases bytes.len() - cur,
    {
        let ghost before = entries_view(entries@);
        let (tag, at) = match read_tag(bytes, cur) {
            Ok(r) => r,
            Err(e) => {
                return Err(e);
            },
        };
        if tag == Tag::End {
            assert(before + Seq::<(Seq<char>, ValueView)>::empty() =~= before);
            return Ok((entries, at));
        }
        let (name, start) = match read_text(bytes, at, max) {
            Ok(r) => r,
            Err(e) => {
                return Err(e);
            },
        };
        let (value, next) = match read_payload(bytes, start, tag, max) {
            Ok(r) => r,
            Err(e) => {
                return Err(e);
            },
        };
        proof {
            lemma_payload_advances(bytes@, start as int, tag, max as int);
            let more = parse_entries(bytes@, next as int, max as int);
            if more is Ok {
                assert(before + (seq![(name@, value@)] + more->Ok_0.0) =~= before.push(
                    (name@, value@),
                ) + more->Ok_0.0);
            }
        }
        entries.push((name, value));
        assert(entries_view(entries@) =~= before.push((name@, value@)));
        cur = next;
    }
}

/// Reads the document at the start of `input`, with a bound of
/// `opts` on every count.
///
/// The result is that of `decode`: the value of the document, and otherwise
/// the first error that reading from left to right comes upon.
pub fn from_bytes_with_opts(input: &[u8], opts: DeOpts) -> (r: Result<Value, Error>)
    ensures
        match r {
            Ok(value) => decode(input@, opts.bound() as int) == Ok::<ValueView, Error>(value@),
            Err(e) => decode(input@, opts.bound() as int) == Err::<ValueView, Error>(e),
        },
        looks_compressed(input@) ==> r == Err::<Value, Error>(Error::LikelyCompressedInput),
{
    let max = opts.limit();
    if input.len() >= 2 && input[0] == GZIP_MAGIC_0 && input[1] == GZIP_MAGIC_1 {
        return Err(Error::LikelyCompressedInput);
    }
    let (tag, at) = match read_tag(input, 0) {
        Ok(r) => r,
        Err(e) => {
            return Err(e);
        },
    };
    if tag != Tag::Compound {
        return Err(Error::TypeMismatch);
    }
    let (_, start) = match read_text(input, at, max) {
        Ok(r) => r,
        Err(e) => {
            return Err(e);
        },
    };
    match read_payload(input, start, Tag::Compound, max) {
        Ok((value, _)) => Ok(value),
        Err(e) => Err(e),
    }
}

/// Reads the document at the start of `input` with the default options.
pub fn from_bytes(input: &[u8]) -> (r: Result<Value, Error>)
    ensures
        match r {
            Ok(value) => decode(input@, crate::opts::DEFAULT_MAX_SEQ_LEN as int) == Ok::<
                ValueView,
                Error,
            >(value@),
            Err(e) => decode(input@, crate::opts::DEFAULT_MAX_SEQ_LEN as int) == Err::<
                ValueView,
                Error,
            >(e),
        },
        looks_compressed(input@) ==> r == Err::<Value, Error>(Error::LikelyCompressedInput),
{
    from_bytes_with_opts(input, DeOpts::new())
}

} // verus!
