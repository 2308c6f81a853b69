//! The events of a document are those of its value.

use vstd::prelude::*;
use crate::error::Error;
use crate::format::MAX_COUNT;
use crate::format::document_bytes;
use crate::format::document_header;
use crate::format::entries_bytes;
use crate::format::entry_frame;
use crate::format::fits;
use crate::format::item_tag;
use crate::format::items_bytes;
use crate::format::parse_tag;
use crate::format::parse_text;
use crate::format::payload_bytes;
use crate::format::text_field;
use crate::laws::round_trip::lemma_fits_compound;
use crate::laws::round_trip::lemma_list_head;
use crate::laws::round_trip::lemma_payload_round_trip;
use crate::laws::round_trip::lemma_text_field_round_trip;
use crate::stream::EventView;
use crate::stream::Layer;
use crate::stream::begin;
use crate::stream::entered;
use crate::stream::entries_events;
use crate::stream::events_of;
use crate::stream::items_events;
use crate::stream::run;
use crate::stream::step;
use crate::tag::Tag;
use crate::text::text_bytes;
use crate::value::ValueView;
use crate::wire::holds_at;
use crate::wire::lemma_holds_index;
use crate::wire::lemma_holds_split;

verus! {

/// Steps add up: `first + more` steps are `first` steps and then `more`
/// steps from where those ended.
pub proof fn lemma_run_add(
    bytes: Seq<u8>,
    pos: int,
    layers: Seq<Layer>,
    max: int,
    first: nat,
    more: nat,
)
    ensures
        run(bytes, pos, layers, max, first + more) == match run(bytes, pos, layers, max, first) {
            Ok((events, mid, inside)) => match run(bytes, mid, inside, max, more) {
                Ok((rest, end, last)) => Ok::<(Seq<EventView>, int, Seq<Layer>), Error>(
                    (events + rest, end, last),
                ),
                Err(e) => Err(e),
            },
            Err(e) => Err(e),
        },
    decreases first,
{
    if first == 0 {
        match run(bytes, pos, layers, max, more) {
            Ok((rest, end, last)) => {
                assert(Seq::<EventView>::empty() + rest =~= rest);
            },
            Err(e) => {},
        }
    } else {
        match step(bytes, pos, layers, max) {
            Ok((event, next, inside)) => {
                lemma_run_add(bytes, next, inside, max, (first - 1) as nat, more);
                assert((first - 1) as nat + more == (first + more - 1) as nat);
                match run(bytes, next, inside, max, (first - 1) as nat) {
                    Ok((events, mid, deeper)) => {
                        match run(bytes, mid, deeper, max, more) {
                            Ok((rest, end, last)) => {
                                assert(seq![event] + (events + rest) =~= (seq![event] + events)
                                    + rest);
                            },
                            Err(e) => {},
                        }
                    },
                    Err(e) => {},
                }
            },
            Err(e) => {},
        }
    }
}

/// Two runs in a row are one run.
proof fn lemma_run_chain(
    bytes: Seq<u8>,
    max: int,
    pos: int,
    layers: Seq<Layer>,
    first: Seq<EventView>,
    mid: int,
    inside: Seq<Layer>,
    rest: Seq<EventView>,
    end: int,
    last: Seq<Layer>,
)
    requires
        run(bytes, pos, layers, max, first.len()) == Ok::<(Seq<EventView>, int, Seq<Layer>), Error>(
            (first, mid, inside),
        ),
        run(bytes, mid, inside, max, rest.len()) == Ok::<(Seq<EventView>, int, Seq<Layer>), Error>(
            (rest, end, last),
        ),
    ensures
        run(bytes, pos, layers, max, (first + rest).len()) == Ok::<
            (Seq<EventView>, int, Seq<Layer>),
            Error,
        >((first + rest, end, last)),
{
    lemma_run_add(bytes, pos, layers, max, first.len(), rest.len());
}

/// A step and then a run are one run.
proof fn lemma_run_after_step(
    bytes: Seq<u8>,
    max: int,
    pos: int,
    layers: Seq<Layer>,
    event: EventView,
    mid: int,
    inside: Seq<Layer>,
    rest: Seq<EventView>,
    end: int,
    last: Seq<Layer>,
)
    requires
        step(bytes, pos, layers, max) == Ok::<(EventView, int, Seq<Layer>), Error>(
            (event, mid, inside),
        ),
        run(bytes, mid, inside, max, rest.len()) == Ok::<(Seq<EventView>, int, Seq<Layer>), Error>(
            (rest, end, last),
        ),
    ensures
        run(bytes, pos, layers, max, (seq![event] + rest).len()) == Ok::<
            (Seq<EventView>, int, Seq<Layer>),
            Error,
        >((seq![event] + rest, end, last)),
{
    assert(((seq![event] + rest).len() - 1) as nat == rest.len());
}

/// What the payload of a value that was written begins with, and the
/// events that follow up to the end of the value.
pub proof fn lemma_value_events(
    bytes: Seq<u8>,
    pos: int,
    name: Option<Seq<char>>,
    value: ValueView,
    max: int,
    under: Seq<Layer>,
)
    requires
        payload_bytes(value) is Ok,
        fits(value, max),
        holds_at(bytes, pos, payload_bytes(value)->Ok_0),
    ensures
        begin(bytes, pos, name, value.tag(), max) is Ok,
        events_of(name, value).len() >= 1,
        begin(bytes, pos, name, value.tag(), max)->Ok_0.0 == events_of(name, value)[0],
        run(
            bytes,
            begin(bytes, pos, name, value.tag(), max)->Ok_0.1,
            entered(under, begin(bytes, pos, name, value.tag(), max)->Ok_0.2),
            max,
            (events_of(name, value).len() - 1) as nat,
        ) == Ok::<(Seq<EventView>, int, Seq<Layer>), Error>(
            (events_of(name, value).drop_first(), pos + payload_bytes(value)->Ok_0.len(), under),
        ),
    decreases value,
{
    let events = events_of(name, value);
    match value {
        ValueView::Compound(entries) => {
            lemma_fits_compound(entries, max);
            lemma_entries_events(bytes, pos, entries, max, under);
            assert(events.drop_first() =~= entries_events(entries) + seq![EventView::CompoundEnd]);
        },
        ValueView::List(items) => {
            let tag = item_tag(items);
            let body = items_bytes(items, tag)->Ok_0;
            lemma_list_head(bytes, pos, tag, items.len(), body, max);
            lemma_items_events(bytes, pos + 5, items, tag, max, under);
            assert(events.drop_first() =~= items_events(items) + seq![EventView::ListEnd]);
        },
        _ => {
            lemma_payload_round_trip(bytes, pos, value, max);
            assert(events.drop_first() =~= Seq::<EventView>::empty());
        },
    }
}

/// The events of the entries of a compound that was written, up to and
/// with its end.
pub proof fn lemma_entries_events(
    bytes: Seq<u8>,
    pos: int,
    entries: Seq<(Seq<char>, ValueView)>,
    max: int,
    under: Seq<Layer>,
)
    requires
        entries_bytes(entries) is Ok,
        forall|i: int|
            #![trigger entries[i]]
            0 <= i < entries.len() ==> text_bytes(entries[i].0).len() <= max && fits(
                entries[i].1,
                max,
            ),
        holds_at(bytes, pos, entries_bytes(entries)->Ok_0),
    ensures
        run(
            bytes,
            pos,
            under.push(Layer::Compound),
            max,
            (entries_events(entries) + seq![EventView::CompoundEnd]).len(),
        ) == Ok::<(Seq<EventView>, int, Seq<Layer>), Error>(
            (
                entries_events(entries) + seq![EventView::CompoundEnd],
                pos + entries_bytes(entries)->Ok_0.len(),
                under,
            ),
        ),
    decreases entries,
{
    let inside = under.push(Layer::Compound);
    assert(inside.drop_last() =~= under);
    if entries.len() == 0 {
        lemma_holds_index(bytes, pos, seq![Tag::End.code()], 0);
        assert(step(bytes, pos, inside, max) == Ok::<(EventView, int, Seq<Layer>), Error>(
            (EventView::CompoundEnd, pos + 1, under),
        ));
        lemma_run_after_step(
            bytes,
            max,
            pos,
            inside,
            EventView::CompoundEnd,
            pos + 1,
            under,
            Seq::empty(),
            pos + 1,
            under,
        );
        assert(entries_events(entries) + seq![EventView::CompoundEnd] =~= seq![
            EventView::CompoundEnd,
        ] + Seq::<EventView>::empty());
    } else {
        let name = entries[0].0;
        let value = entries[0].1;
        let rest = entries.drop_first();
        let tag = value.tag();
        let name_field = text_field(name, Error::NameTooLong)->Ok_0;
        let payload = payload_bytes(value)->Ok_0;
        let head_bytes = entry_frame(tag, name, payload_bytes(value))->Ok_0;
        let rest_bytes = entries_bytes(rest)->Ok_0;
        assert(entries[0] == (name, value));
        lemma_holds_split(bytes, pos, head_bytes, rest_bytes);
        lemma_holds_split(bytes, pos, seq![tag.code()] + name_field, payload);
        lemma_holds_split(bytes, pos, seq![tag.code()], name_field);
        lemma_holds_index(bytes, pos, seq![tag.code()], 0);
        crate::tag::lemma_tag_round_trip(tag);
        lemma_text_field_round_trip(bytes, pos + 1, name, Error::NameTooLong, max);
        let start = pos + 1 + name_field.len();
        lemma_value_events(bytes, start, Some(name), value, max, inside);
        let begun = begin(bytes, start, Some(name), tag, max)->Ok_0;
        let own = events_of(Some(name), value);
        let next = pos + head_bytes.len();
        assert(step(bytes, pos, inside, max) == Ok::<(EventView, int, Seq<Layer>), Error>(
            (own[0], begun.1, entered(inside, begun.2)),
        ));
        lemma_run_after_step(
            bytes,
            max,
            pos,
            inside,
            own[0],
            begun.1,
            entered(inside, begun.2),
            own.drop_first(),
            next,
            inside,
        );
        assert(seq![own[0]] + own.drop_first() =~= own);
        assert forall|i: int| #![trigger rest[i]] 0 <= i < rest.len() implies text_bytes(
            rest[i].0,
        ).len() <= max && fits(rest[i].1, max) by {
            assert(rest[i] == entries[i + 1]);
        }
        lemma_entries_events(bytes, next, rest, max, under);
        let tail = entries_events(rest) + seq![EventView::CompoundEnd];
        lemma_run_chain(
            bytes,
            max,
            pos,
            inside,
            own,
            next,
            inside,
            tail,
            pos + entries_bytes(entries)->Ok_0.len(),
            under,
        );
        assert(own + tail =~= entries_events(entries) + seq![EventView::CompoundEnd]);
    }
}

/// The events of the items of a list that was written, up to and with its
/// end.
pub proof fn lemma_items_events(
    bytes: Seq<u8>,
    pos: int,
    items: Seq<ValueView>,
    tag: Tag,
    max: int,
    under: Seq<Layer>,
)
    requires
        items_bytes(items, tag) is Ok,
        items.len() <= MAX_COUNT,
        forall|i: int| 0 <= i < items.len() ==> fits(#[trigger] items[i], max),
        holds_at(bytes, pos, items_bytes(items, tag)->Ok_0),
    ensures
        run(
            bytes,
            pos,
            under.push(Layer::List(tag, items.len() as usize)),
            max,
            (items_events(items) + seq![EventView::ListEnd]).len(),
        ) == Ok::<(Seq<EventView>, int, Seq<Layer>), Error>(
            (
                items_events(items) + seq![EventView::ListEnd],
                pos + items_bytes(items, tag)->Ok_0.len(),
                under,
            ),
        ),
    decreases items,
{
    let inside = under.push(Layer::List(tag, items.len() as usize));
    assert(inside.drop_last() =~= under);
    if items.len() == 0 {
        assert(step(bytes, pos, inside, max) == Ok::<(EventView, int, Seq<Layer>), Error>(
            (EventView::ListEnd, pos, under),
        ));
        lemma_run_after_step(
            bytes,
            max,
            pos,
            inside,
            EventView::ListEnd,
            pos,
            under,
            Seq::empty(),
            pos,
            under,
        );
        assert(items_events(items) + seq![EventView::ListEnd] =~= seq![EventView::ListEnd]
            + Seq::<EventView>::empty());
    } else {
        let value = items[0];
        let rest = items.drop_first();
        let head_bytes = payload_bytes(value)->Ok_0;
        let rest_bytes = items_bytes(rest, tag)->Ok_0;
        let fewer = under.push(Layer::List(tag, rest.len() as usize));
        lemma_holds_split(bytes, pos, head_bytes, rest_bytes);
        assert(fits(value, max));
        lemma_value_events(bytes, pos, None, value, max, fewer);
        let begun = begin(bytes, pos, None, tag, max)->Ok_0;
        let own = events_of(None, value);
        let next = pos + head_bytes.len();
        assert(step(bytes, pos, inside, max) == Ok::<(EventView, int, Seq<Layer>), Error>(
            (own[0], begun.1, entered(fewer, begun.2)),
        ));
        lemma_run_after_step(
            bytes,
            max,
            pos,
            inside,
            own[0],
            begun.1,
            entered(fewer, begun.2),
            own.drop_first(),
            next,
            fewer,
        );
        assert(seq![own[0]] + own.drop_first() =~= own);
        assert forall|i: int| 0 <= i < rest.len() implies fits(#[trigger] rest[i], max) by {
            assert(rest[i] == items[i + 1]);
        }
        lemma_items_events(bytes, next, rest, tag, max, under);
        let tail = items_events(rest) + seq![EventView::ListEnd];
        lemma_run_chain(
            bytes,
            max,
            pos,
            inside,
            own,
            next,
            fewer,
            tail,
            pos + items_bytes(items, tag)->Ok_0.len(),
            under,
        );
        assert(own + tail =~= items_events(items) + seq![EventView::ListEnd]);
    }
}

/// The events of a document that was written are the events of its value
/// under the empty name, and they end where the document ends, outside any
/// container.
pub proof fn lemma_document_events(value: ValueView, max: int, behind: Seq<u8>)
    requires
        document_bytes(value) is Ok,
        fits(value, max),
        0 <= max,
    ensures
        run(
            document_bytes(value)->Ok_0 + behind,
            0,
            Seq::empty(),
            max,
            events_of(Some(Seq::empty()), value).len(),
        ) == Ok::<(Seq<EventView>, int, Seq<Layer>), Error>(
            (
                events_of(Some(Seq::empty()), value),
                document_bytes(value)->Ok_0.len() as int,
                Seq::empty(),
            ),
        ),
{
    let entries = value->Compound_0;
    let body = entries_bytes(entries)->Ok_0;
    let doc = document_bytes(value)->Ok_0;
    let bytes = doc + behind;
    let name = Some(Seq::<char>::empty());
    let outside = Seq::<Layer>::empty();
    assert(bytes.subrange(0, doc.len() as int) =~= doc);
    lemma_holds_split(bytes, 0, document_header(), body);
    lemma_holds_index(bytes, 0, document_header(), 0);
    lemma_holds_index(bytes, 0, document_header(), 1);
    lemma_holds_index(bytes, 0, document_header(), 2);
    assert(parse_tag(bytes, 0) == Ok::<(Tag, int), Error>((Tag::Compound, 1)));
    assert(parse_text(bytes, 1, max) == Ok::<(Seq<char>, int), Error>((Seq::empty(), 3))) by {
        reveal(crate::text::chars_from);
        assert(bytes.subrange(3, 3).len() == 0);
    }
    lemma_fits_compound(entries, max);
    lemma_entries_events(bytes, 3, entries, max, outside);
    let events = events_of(name, value);
    let tail = entries_events(entries) + seq![EventView::CompoundEnd];
    assert(step(bytes, 0, outside, max) == Ok::<(EventView, int, Seq<Layer>), Error>(
        (EventView::CompoundStart(name), 3, outside.push(Layer::Compound)),
    ));
    lemma_run_after_step(
        bytes,
        max,
        0,
        outside,
        EventView::CompoundStart(name),
        3,
        outside.push(Layer::Compound),
        tail,
        doc.len() as int,
        outside,
    );
    assert(seq![EventView::CompoundStart(name)] + tail =~= events);
}

} // verus!
