use fastnbt::stream::{Event, Parser};
use fastnbt::{to_bytes, DeOpts, Error, Tag, Value};

fn entry(name: &str, value: Value) -> (String, Value) {
    (name.to_string(), value)
}

fn name(s: &str) -> Option<String> {
    Some(s.to_string())
}

fn all_events(bytes: &[u8]) -> (Vec<Event>, Error) {
    let mut parser = Parser::new(bytes, DeOpts::new());
    let mut events = vec![];
    loop {
        match parser.next() {
            Ok(event) => events.push(event),
            Err(e) => return (events, e),
        }
    }
}

#[test]
fn events_of_a_document() {
    let doc = to_bytes(&Value::Compound(vec![
        entry("Count", Value::Byte(3)),
        entry(
            "Items",
            Value::List(vec![
                Value::String("a".to_string()),
                Value::String("bb".to_string()),
            ]),
        ),
    ]))
    .unwrap();
    let (events, end) = all_events(&doc);
    assert_eq!(
        events,
        vec![
            Event::CompoundStart(name("")),
            Event::Value(name("Count"), Value::Byte(3)),
            Event::ListStart(name("Items"), Tag::String, 2),
            Event::Value(None, Value::String("a".to_string())),
            Event::Value(None, Value::String("bb".to_string())),
            Event::ListEnd,
            Event::CompoundEnd,
        ]
    );
    assert_eq!(end, Error::UnexpectedEof);
}

#[test]
fn nested_containers() {
    let doc = to_bytes(&Value::Compound(vec![
        entry(
            "l",
            Value::List(vec![
                Value::List(vec![]),
                Value::List(vec![Value::Compound(vec![entry("x", Value::Int(1))])]),
            ]),
        ),
        entry("a", Value::IntArray(vec![1, 2])),
    ]))
    .unwrap();
    let mut parser = Parser::new(&doc, DeOpts::new());
    let mut depths = vec![parser.depth()];
    let mut events = vec![];
    while let Ok(event) = parser.next() {
        events.push(event);
        depths.push(parser.depth());
    }
    assert_eq!(
        events,
        vec![
            Event::CompoundStart(name("")),
            Event::ListStart(name("l"), Tag::List, 2),
            Event::ListStart(None, Tag::End, 0),
            Event::ListEnd,
            Event::ListStart(None, Tag::Compound, 1),
            Event::CompoundStart(None),
            Event::Value(name("x"), Value::Int(1)),
            Event::CompoundEnd,
            Event::ListEnd,
            Event::ListEnd,
            Event::Value(name("a"), Value::IntArray(vec![1, 2])),
            Event::CompoundEnd,
        ]
    );
    assert_eq!(depths, vec![0, 1, 2, 3, 2, 3, 4, 4, 3, 2, 1, 1, 0]);
}

#[test]
fn a_value_outside_any_compound_is_an_entry() {
    let (events, end) = all_events(&[3, 0, 1, b'n', 0, 0, 0, 5]);
    assert_eq!(events, vec![Event::Value(name("n"), Value::Int(5))]);
    assert_eq!(end, Error::UnexpectedEof);
}

#[test]
fn end_outside_any_compound_is_malformed() {
    let (events, end) = all_events(&[0]);
    assert_eq!(events, vec![]);
    assert_eq!(end, Error::MalformedTag);
    let (events, end) = all_events(&[0x0A, 0, 0, 0, 0]);
    assert_eq!(
        events,
        vec![Event::CompoundStart(name("")), Event::CompoundEnd]
    );
    assert_eq!(end, Error::MalformedTag);
}

#[test]
fn an_error_leaves_the_reader_in_place() {
    let doc = [0x0A, 0, 0, 13];
    let mut parser = Parser::new(&doc, DeOpts::new());
    assert_eq!(parser.offset(), 0);
    assert_eq!(parser.next(), Ok(Event::CompoundStart(name(""))));
    assert_eq!(parser.offset(), 3);
    assert_eq!(parser.next(), Err(Error::MalformedTag));
    assert_eq!(parser.next(), Err(Error::MalformedTag));
    assert_eq!(parser.depth(), 1);
    assert_eq!(parser.offset(), 3);
    // An entry that is cut short is read as a whole or not at all.
    let doc = [0x0A, 0, 0, 3, 0, 1, b'n', 0, 0];
    let mut parser = Parser::new(&doc, DeOpts::new());
    assert_eq!(parser.next(), Ok(Event::CompoundStart(name(""))));
    assert_eq!(parser.next(), Err(Error::UnexpectedEof));
    assert_eq!(parser.offset(), 3);
}

#[test]
fn positions_of_events() {
    let doc = [0x0A, 0, 0, 1, 0, 1, b'b', 7, 9, 0, 1, b'l', 1, 0, 0, 0, 1, 5, 0];
    let mut parser = Parser::new(&doc, DeOpts::new());
    let mut offsets = vec![];
    while parser.next().is_ok() {
        offsets.push(parser.offset());
    }
    // Start, byte, list start, item, list end, compound end.
    assert_eq!(offsets, vec![3, 8, 17, 18, 18, 19]);
    assert_eq!(parser.depth(), 0);
}

#[test]
fn the_bound_holds_for_events() {
    let doc = [0x0A, 0, 0, 9, 0, 0, 1, 0, 0, 0, 3, 1, 2, 3, 0];
    let mut parser = Parser::new(&doc, DeOpts::new().max_seq_len(2));
    assert_eq!(parser.next(), Ok(Event::CompoundStart(name(""))));
    assert_eq!(parser.next(), Err(Error::SequenceTooLong));
    let mut parser = Parser::new(&doc, DeOpts::new().max_seq_len(3));
    assert_eq!(parser.next(), Ok(Event::CompoundStart(name(""))));
    assert_eq!(parser.next(), Ok(Event::ListStart(name(""), Tag::Byte, 3)));
    assert_eq!(parser.next(), Ok(Event::Value(None, Value::Byte(1))));
    assert_eq!(parser.next(), Ok(Event::Value(None, Value::Byte(2))));
    assert_eq!(parser.next(), Ok(Event::Value(None, Value::Byte(3))));
    assert_eq!(parser.next(), Ok(Event::ListEnd));
    assert_eq!(parser.next(), Ok(Event::CompoundEnd));
    assert_eq!(parser.next(), Err(Error::UnexpectedEof));
}

#[test]
fn a_list_of_end_items_is_malformed() {
    let doc = [0x0A, 0, 0, 9, 0, 0, 0, 0, 0, 0, 1];
    let mut parser = Parser::new(&doc, DeOpts::new());
    assert_eq!(parser.next(), Ok(Event::CompoundStart(name(""))));
    assert_eq!(parser.next(), Err(Error::MalformedTag));
}
