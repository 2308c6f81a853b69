//! Values that differ are written differently; an array is no list.

use vstd::prelude::*;
use crate::error::Error;
use crate::format::MAX_COUNT;
use crate::format::decode;
use crate::format::document_bytes;
use crate::format::entries_bytes;
use crate::format::entry_bytes;
use crate::format::fits;
use crate::format::item_tag;
use crate::format::items_bytes;
use crate::format::payload_bytes;
use crate::format::text_field;
use crate::laws::round_trip::lemma_fits_compound;
use crate::laws::round_trip::lemma_round_trip;
use crate::tag::Tag;
use crate::text::text_bytes;
use crate::value::ValueView;

verus! {

/// Where the items of a list can be written, each of them can, and has the
/// tag of the list.
pub proof fn lemma_items_ok(items: Seq<ValueView>, tag: Tag, i: int)
    requires
        items_bytes(items, tag) is Ok,
        0 <= i < items.len(),
    ensures
        payload_bytes(items[i]) is Ok,
        items[i].tag() == tag,
    decreases items.len(),
{
    if i > 0 {
        lemma_items_ok(items.drop_first(), tag, i - 1);
    }
}

/// Where the entries of a compound can be written, each name and each value
/// can.
pub proof fn lemma_entries_ok(entries: Seq<(Seq<char>, ValueView)>, i: int)
    requires
        entries_bytes(entries) is Ok,
        0 <= i < entries.len(),
    ensures
        text_field(entries[i].0, Error::NameTooLong) is Ok,
        payload_bytes(entries[i].1) is Ok,
    decreases entries.len(),
{
    if i > 0 {
        lemma_entries_ok(entries.drop_first(), i - 1);
    }
}

/// What can be written fits the largest bound there is, that of the count
/// field itself.
pub proof fn lemma_written_fits(value: ValueView)
    requires
        payload_bytes(value) is Ok,
    ensures
        fits(value, MAX_COUNT as int),
    decreases value,
{
    match value {
        ValueView::List(items) => {
            assert forall|i: int| 0 <= i < items.len() implies fits(
                #[trigger] items[i],
                MAX_COUNT as int,
            ) by {
                lemma_items_ok(items, item_tag(items), i);
                lemma_written_fits(items[i]);
            }
        },
        ValueView::Compound(entries) => {
            assert forall|i: int| #![trigger entries[i]] 0 <= i < entries.len() implies text_bytes(
                entries[i].0,
            ).len() <= MAX_COUNT && fits(entries[i].1, MAX_COUNT as int) by {
                lemma_entries_ok(entries, i);
                lemma_written_fits(entries[i].1);
            }
            lemma_fits_compound(entries, MAX_COUNT as int);
        },
        _ => {},
    }
}

/// Two values that differ are written as documents that differ: nothing of
/// a value is lost in writing.
pub proof fn lemma_written_apart(a: ValueView, b: ValueView)
    requires
        document_bytes(a) is Ok,
        document_bytes(b) is Ok,
        a != b,
    ensures
        document_bytes(a)->Ok_0 != document_bytes(b)->Ok_0,
{
    lemma_written_fits(a);
    lemma_written_fits(b);
    lemma_round_trip(a, MAX_COUNT as int, Seq::empty());
    lemma_round_trip(b, MAX_COUNT as int, Seq::empty());
}

/// The compound with one entry.
pub open spec fn single(name: Seq<char>, value: ValueView) -> ValueView {
    ValueView::Compound(seq![(name, value)])
}

/// An array is no list: under the same name, an array and a list are
/// written differently from the tag of the entry on, whatever numbers they
/// hold, and each reads as the kind that was written.
pub proof fn lemma_array_is_no_list(name: Seq<char>, array: ValueView, list: ValueView)
    requires
        array is ByteArray || array is IntArray || array is LongArray,
        list is List,
        document_bytes(single(name, array)) is Ok,
        document_bytes(single(name, list)) is Ok,
    ensures
        document_bytes(single(name, array))->Ok_0 != document_bytes(single(name, list))->Ok_0,
        entry_bytes(name, array)->Ok_0[0] == array.tag().code(),
        entry_bytes(name, list)->Ok_0[0] == Tag::List.code(),
        array.tag().code() != Tag::List.code(),
        decode(document_bytes(single(name, array))->Ok_0, MAX_COUNT as int) == Ok::<
            ValueView,
            Error,
        >(single(name, array)),
        decode(document_bytes(single(name, list))->Ok_0, MAX_COUNT as int) == Ok::<
            ValueView,
            Error,
        >(single(name, list)),
{
    let with_array = single(name, array);
    let with_list = single(name, list);
    assert(with_array->Compound_0[0].1 == array);
    assert(with_list->Compound_0[0].1 == list);
    assert(with_array != with_list);
    lemma_written_apart(with_array, with_list);
    lemma_written_fits(with_array);
    lemma_written_fits(with_list);
    lemma_round_trip(with_array, MAX_COUNT as int, Seq::empty());
    lemma_round_trip(with_list, MAX_COUNT as int, Seq::empty());
    assert(document_bytes(with_array)->Ok_0 + Seq::<u8>::empty() =~= document_bytes(
        with_array,
    )->Ok_0);
    assert(document_bytes(with_list)->Ok_0 + Seq::<u8>::empty() =~= document_bytes(with_list)->Ok_0);
    lemma_entries_ok(with_array->Compound_0, 0);
    lemma_entries_ok(with_list->Compound_0, 0);
}

} // verus!
