//! Reading a buffer as a sequence of events.
//!
//! The reader walks a buffer once, from left to right, and hands out one
//! event for each step: the start and the end of a compound, the start and
//! the end of a list, and each number, text and array as a value. It builds
//! no tree. What it keeps is its position and the containers it is inside
//! of.
//!
//! Outside any container the reader expects an entry, as inside a compound:
//! a tag, a name and a payload. It goes by the same grammar, the same errors
//! and the same bound on counts as decoding does.

use vstd::prelude::*;
use crate::de::read_count;
use crate::de::read_payload;
use crate::de::read_tag;
use crate::de::read_text;
use crate::error::Error;
use crate::format::parse_count;
use crate::format::parse_payload;
use crate::format::parse_tag;
use crate::format::parse_text;
use crate::opts::DeOpts;
use crate::tag::Tag;
use crate::value::Value;
use crate::value::ValueView;

verus! {

/// A container that the reader is inside of.
#[derive(Debug, Clone, Copy, PartialEq, Eq, Structural)]
pub enum Layer {
    /// A compound, which lasts until its `End`.
    Compound,
    /// A list of items of the given tag, with the number of items that are
    /// still to come.
    List(Tag, usize),
}

/// One step of reading.
#[derive(Debug, PartialEq, Eq)]
pub enum Event {
    /// A compound begins. The name is that of its entry; an item of a list
    /// has none.
    CompoundStart(Option<String>),
    /// The compound that was begun last and is not yet closed ends.
    CompoundEnd,
    /// A list begins, with the tag and the number of its items.
    ListStart(Option<String>, Tag, usize),
    /// The list that was begun last and is not yet closed ends.
    ListEnd,
    /// A number, a text or an array.
    Value(Option<String>, Value),
}

/// The mathematical model of an [`Event`].
pub enum EventView {
    CompoundStart(Option<Seq<char>>),
    CompoundEnd,
    ListStart(Option<Seq<char>>, Tag, usize),
    ListEnd,
    Value(Option<Seq<char>>, ValueView),
}

/// The model of a name that may be missing.
pub open spec fn name_view(name: Option<String>) -> Option<Seq<char>> {
    match name {
        Some(text) => Some(text@),
        None => None,
    }
}

impl View for Event {
    type V = EventView;

    open spec fn view(&self) -> EventView {
        match self {
            Event::CompoundStart(name) => EventView::CompoundStart(name_view(*name)),
            Event::CompoundEnd => EventView::CompoundEnd,
            Event::ListStart(name, tag, count) => EventView::ListStart(
                name_view(*name),
                *tag,
                *count,
            ),
            Event::ListEnd => EventView::ListEnd,
            Event::Value(name, value) => EventView::Value(name_view(*name), value@),
        }
    }
}

/// What a step gives: the event, the position behind what was read, and
/// the containers the reader is then inside of.
pub type Stepped = Result<(EventView, int, Seq<Layer>), Error>;

/// What the payload of tag `tag` at `pos` begins with: the event, the
/// position behind what the event covers, and the container that is
/// entered, if one is.
///
/// A compound is entered without reading anything. A list is entered
/// behind the tag of its items and its count. Any other payload is read
/// whole.
pub open spec fn begin(bytes: Seq<u8>, pos: int, name: Option<Seq<char>>, tag: Tag, max: int)
    -> Result<(EventView, int, Option<Layer>), Error> {
    match tag {
        Tag::End => Err(Error::MalformedTag),
        Tag::Compound => Ok((EventView::CompoundStart(name), pos, Some(Layer::Compound))),
        Tag::List => match parse_tag(bytes, pos) {
            Ok((item_tag, at)) => match parse_count(bytes, at, max) {
                Ok((count, first)) => if count > 0 && item_tag == Tag::End {
                    Err(Error::MalformedTag)
                } else {
                    Ok(
                        (
                            EventView::ListStart(name, item_tag, count as usize),
                            first,
                            Some(Layer::List(item_tag, count as usize)),
                        ),
                    )
                },
                Err(e) => Err(e),
            },
            Err(e) => Err(e),
        },
        _ => match parse_payload(bytes, pos, tag, max) {
            Ok((value, end)) => Ok((EventView::Value(name, value), end, None)),
            Err(e) => Err(e),
        },
    }
}

/// `layers` with the container that was entered, if one was.
pub open spec fn entered(layers: Seq<Layer>, layer: Option<Layer>) -> Seq<Layer> {
    match layer {
        Some(l) => layers.push(l),
        None => layers,
    }
}

/// One step of reading at `pos`, inside of `layers`, the innermost last.
///
/// Inside a list with no item to come, the list ends. Inside a list with
/// items to come, the next item begins. Elsewhere an entry is read: `End`
/// closes the compound, and is malformed where none is open; any other tag
/// is followed by a name and the beginning of a payload.
pub open spec fn step(bytes: Seq<u8>, pos: int, layers: Seq<Layer>, max: int) -> Stepped {
    if layers.len() > 0 && layers.last() is List {
        let tag = layers.last()->List_0;
        let left = layers.last()->List_1;
        if left == 0 {
            Ok((EventView::ListEnd, pos, layers.drop_last()))
        } else {
            match begin(bytes, pos, None, tag, max) {
                Ok((event, end, layer)) => Ok(
                    (
                        event,
                        end,
                        entered(
                            layers.drop_last().push(Layer::List(tag, (left - 1) as usize)),
                            layer,
                        ),
                    ),
                ),
                Err(e) => Err(e),
            }
        }
    } else {
        match parse_tag(bytes, pos) {
            Ok((tag, at)) => if tag == Tag::End {
                if layers.len() == 0 {
                    Err(Error::MalformedTag)
                } else {
                    Ok((EventView::CompoundEnd, at, layers.drop_last()))
                }
            } else {
                match parse_text(bytes, at, max) {
                    Ok((name, start)) => match begin(bytes, start, Some(name), tag, max) {
                        Ok((event, end, layer)) => Ok((event, end, entered(layers, layer))),
                        Err(e) => Err(e),
                    },
                    Err(e) => Err(e),
                }
            },
            Err(e) => Err(e),
        }
    }
}

/// Reads the beginning of the payload of tag `tag` at `pos`.
fn read_begin(bytes: &[u8], pos: usize, name: Option<String>, tag: Tag, max: usize) -> (r: Result<
    (Event, usize, Option<Layer>),
    Error,
>)
    ensures
        match r {
            Ok((event, end, layer)) => begin(bytes@, pos as int, name_view(name), tag, max as int)
                == Ok::<(EventView, int, Option<Layer>), Error>((event@, end as int, layer)),
            Err(e) => begin(bytes@, pos as int, name_view(name), tag, max as int) == Err::<
                (EventView, int, Option<Layer>),
                Error,
            >(e),
        },
{
    match tag {
        Tag::End => Err(Error::MalformedTag),
        Tag::Compound => Ok((Event::CompoundStart(name), pos, Some(Layer::Compound))),
        Tag::List => {
            let (item_tag, at) = match read_tag(bytes, pos) {
                Ok(r) => r,
                Err(e) => {
                    return Err(e);
                },
            };
            let (count, first) = match read_count(bytes, at, max) {
                Ok(r) => r,
                Err(e) => {
                    return Err(e);
                },
            };
            if count > 0 && item_tag == Tag::End {
                return Err(Error::MalformedTag);
            }
            Ok((Event::ListStart(name, item_tag, count), first, Some(Layer::List(item_tag, count))))
        },
        _ => match read_payload(bytes, pos, tag, max) {
            Ok((value, end)) => Ok((Event::Value(name, value), end, None)),
            Err(e) => Err(e),
        },
    }
}

/// A reader of events over a buffer.
///
/// It reads forward only. To read a buffer again, make a new reader.
pub struct Parser<'a> {
    input: &'a [u8],
    pos: usize,
    layers: Vec<Layer>,
    max: usize,
}

impl<'a> Parser<'a> {
    /// The buffer that is read.
    pub closed spec fn bytes(&self) -> Seq<u8> {
        self.input@
    }

    /// The position of the next byte to read.
    pub closed spec fn position(&self) -> int {
        self.pos as int
    }

    /// The containers that the reader is inside of, the innermost last.
    pub closed spec fn nesting(&self) -> Seq<Layer> {
        self.layers@
    }

    /// The bound on counts.
    pub closed spec fn bound(&self) -> int {
        self.max as int
    }

    /// A reader at the start of `input`, outside any container, with the
    /// bound of `opts` on every count.
    pub fn new(input: &'a [u8], opts: DeOpts) -> (parser: Parser<'a>)
        ensures
            parser.bytes() == input@,
            parser.position() == 0,
            parser.nesting() == Seq::<Layer>::empty(),
            parser.bound() == opts.bound(),
    {
        Parser { input, pos: 0, layers: Vec::new(), max: opts.limit() }
    }

    /// The position of the next byte to read.
    pub fn offset(&self) -> (offset: usize)
        ensures
            offset == self.position(),
    {
        self.pos
    }

    /// How deep the reader is inside of containers.
    pub fn depth(&self) -> (depth: usize)
        ensures
            depth == self.nesting().len(),
    {
        self.layers.len()
    }

    /// Reads the next event.
    ///
    /// The event, the new position and the new nesting are those of `step`.
    /// An error leaves the reader where it was.
    pub fn next(&mut self) -> (r: Result<Event, Error>)
        ensures
            final(self).bytes() == old(self).bytes(),
            final(self).bound() == old(self).bound(),
            match r {
                Ok(event) => step(
                    old(self).bytes(),
                    old(self).position(),
                    old(self).nesting(),
                    old(self).bound(),
                ) == Ok::<(EventView, int, Seq<Layer>), Error>(
                    (event@, final(self).position(), final(self).nesting()),
                ),
                Err(e) => {
                    &&& step(
                        old(self).bytes(),
                        old(self).position(),
                        old(self).nesting(),
                        old(self).bound(),
                    ) == Err::<(EventView, int, Seq<Layer>), Error>(e)
                    &&& final(self).position() == old(self).position()
                    &&& final(self).nesting() == old(self).nesting()
                },
            },
    {
        let depth = self.layers.len();
        if depth > 0 {
            match self.layers[depth - 1] {
                Layer::List(tag, left) => {
                    if left == 0 {
                        self.layers.pop();
                        assert(self.layers@ =~= old(self).layers@.drop_last());
                        return Ok(Event::ListEnd);
                    }
                    let (event, end, layer) = match read_begin(
                        self.input,
                        self.pos,
                        None,
                        tag,
                        self.max,
                    ) {
                        Ok(r) => r,
                        Err(e) => {
                            return Err(e);
                        },
                    };
                    self.layers.pop();
                    self.layers.push(Layer::List(tag, left - 1));
                    match layer {
                        Some(l) => {
                            self.layers.push(l);
                        },
                        None => {},
                    }
                    self.pos = end;
                    assert(self.layers@ =~= entered(
                        old(self).layers@.drop_last().push(Layer::List(tag, (left - 1) as usize)),
                        layer,
                    ));
                    return Ok(event);
                },
                Layer::Compound => {},
            }
        }
        let (tag, at) = match read_tag(self.input, self.pos) {
            Ok(r) => r,
            Err(e) => {
                return Err(e);
            },
        };
        if tag == Tag::End {
            if depth == 0 {
                return Err(Error::MalformedTag);
            }
            self.layers.pop();
            self.pos = at;
            assert(self.layers@ =~= old(self).layers@.drop_last());
            return Ok(Event::CompoundEnd);
        }
        let (name, start) = match read_text(self.input, at, self.max) {
            Ok(r) => r,
            Err(e) => {
                return Err(e);
            },
        };
        let (event, end, layer) = match read_begin(self.input, start, Some(name), tag, self.max) {
            Ok(r) => r,
            Err(e) => {
                return Err(e);
            },
        };
        match layer {
            Some(l) => {
                self.layers.push(l);
            },
            None => {},
        }
        self.pos = end;
        assert(self.layers@ =~= entered(old(self).layers@, layer));
        Ok(event)
    }
}

// ---------------------------------------------------------------------------
// The events of a value
// ---------------------------------------------------------------------------
/// What a number of steps give: the events in order, the position behind
/// what was read, and the containers the reader is then inside of.
pub type Ran = Result<(Seq<EventView>, int, Seq<Layer>), Error>;

/// `steps` steps of reading, one after the other, up to the first error.
pub open spec fn run(bytes: Seq<u8>, pos: int, layers: Seq<Layer>, max: int, steps: nat) -> Ran
    decreases steps,
{
    if steps == 0 {
        Ok((Seq::empty(), pos, layers))
    } else {
        match step(bytes, pos, layers, max) {
            Ok((event, next, inside)) => match run(bytes, next, inside, max, (steps - 1) as nat) {
                Ok((events, end, last)) => Ok((seq![event] + events, end, last)),
                Err(e) => Err(e),
            },
            Err(e) => Err(e),
        }
    }
}

/// The events of `value` under `name`: a number, a text or an array is one
/// event; a compound is its start, the events of its entries and its end; a
/// list is its start, the events of its items and its end.
pub open spec fn events_of(name: Option<Seq<char>>, value: ValueView) -> Seq<EventView>
    decreases value,
{
    match value {
        ValueView::Compound(entries) => seq![EventView::CompoundStart(name)] + entries_events(
            entries,
        ) + seq![EventView::CompoundEnd],
        ValueView::List(items) => seq![
            EventView::ListStart(name, crate::format::item_tag(items), items.len() as usize),
        ] + items_events(items) + seq![EventView::ListEnd],
        _ => seq![EventView::Value(name, value)],
    }
}

/// The events of the entries of a compound, each under its name.
pub open spec fn entries_events(entries: Seq<(Seq<char>, ValueView)>) -> Seq<EventView>
    decreases entries,
{
    if entries.len() == 0 {
        Seq::empty()
    } else {
        events_of(Some(entries[0].0), entries[0].1) + entries_events(entries.drop_first())
    }
}

/// The events of the items of a list, which have no names.
pub open spec fn items_events(items: Seq<ValueView>) -> Seq<EventView>
    decreases items,
{
    if items.len() == 0 {
        Seq::empty()
    } else {
        events_of(None, items[0]) + items_events(items.drop_first())
    }
}

} // verus!
