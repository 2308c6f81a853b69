use fastnbt::de::read_payload;
use fastnbt::ser::write_payload;
use fastnbt::{from_bytes, from_bytes_with_opts, to_bytes, DeOpts, Error, Tag, Value};

fn entry(name: &str, value: Value) -> (String, Value) {
    (name.to_string(), value)
}

fn count_items() -> Value {
    Value::Compound(vec![
        entry("Count", Value::Byte(3)),
        entry(
            "Items",
            Value::List(vec![
                Value::String("a".to_string()),
                Value::String("bb".to_string()),
            ]),
        ),
    ])
}

fn count_items_bytes() -> Vec<u8> {
    let mut b = vec![0x0A, 0x00, 0x00];
    b.extend([0x01, 0x00, 0x05]);
    b.extend(b"Count");
    b.push(0x03);
    b.extend([0x09, 0x00, 0x05]);
    b.extend(b"Items");
    b.extend([0x08, 0x00, 0x00, 0x00, 0x02]);
    b.extend([0x00, 0x01, b'a']);
    b.extend([0x00, 0x02, b'b', b'b']);
    b.push(0x00);
    b
}

fn every_kind() -> Value {
    Value::Compound(vec![
        entry("byte", Value::Byte(-7)),
        entry("short", Value::Short(-300)),
        entry("int", Value::Int(i32::MIN)),
        entry("long", Value::Long(i64::MAX)),
        entry("float", Value::Float(1.5f32.to_bits())),
        entry("double", Value::Double((-0.25f64).to_bits())),
        entry("nan", Value::Float(f32::NAN.to_bits())),
        entry("bytes", Value::ByteArray(vec![-1, 0, 1, i8::MIN, i8::MAX])),
        entry("text", Value::String("héllo \0 😀".to_string())),
        entry(
            "list",
            Value::List(vec![
                Value::List(vec![]),
                Value::List(vec![Value::Int(1), Value::Int(2)]),
                Value::List(vec![Value::Compound(vec![])]),
            ]),
        ),
        entry(
            "nested",
            Value::Compound(vec![
                entry("", Value::Byte(0)),
                entry("inner", Value::Compound(vec![entry("x", Value::Long(-1))])),
            ]),
        ),
        entry("ints", Value::IntArray(vec![0, -1, i32::MAX, i32::MIN])),
        entry("longs", Value::LongArray(vec![0, -1, i64::MAX, i64::MIN])),
        entry("empty", Value::IntArray(vec![])),
    ])
}

#[test]
fn end_to_end_layout() {
    let bytes = to_bytes(&count_items()).unwrap();
    assert_eq!(bytes, count_items_bytes());
    assert_eq!(from_bytes(&bytes).unwrap(), count_items());
}

#[test]
fn empty_compound() {
    let v = Value::Compound(vec![]);
    let bytes = to_bytes(&v).unwrap();
    assert_eq!(bytes, vec![0x0A, 0x00, 0x00, 0x00]);
    assert_eq!(from_bytes(&bytes).unwrap(), v);
}

#[test]
fn every_kind_round_trips() {
    let v = every_kind();
    let bytes = to_bytes(&v).unwrap();
    assert_eq!(from_bytes(&bytes).unwrap(), v);
    // Writing what was read gives the same bytes again.
    assert_eq!(to_bytes(&from_bytes(&bytes).unwrap()).unwrap(), bytes);
}

#[test]
fn writing_is_deterministic() {
    assert_eq!(to_bytes(&every_kind()), to_bytes(&every_kind()));
    assert_eq!(to_bytes(&every_kind().clone()), to_bytes(&every_kind()));
}

#[test]
fn number_payloads() {
    let mut out = vec![];
    write_payload(&mut out, &Value::Short(0x0102)).unwrap();
    write_payload(&mut out, &Value::Int(-2)).unwrap();
    write_payload(&mut out, &Value::Float(1.0f32.to_bits())).unwrap();
    write_payload(&mut out, &Value::Double(1.0f64.to_bits())).unwrap();
    assert_eq!(
        out,
        vec![
            0x01, 0x02, 0xFF, 0xFF, 0xFF, 0xFE, 0x3F, 0x80, 0x00, 0x00, 0x3F, 0xF0, 0, 0, 0, 0, 0,
            0
        ]
    );
    assert_eq!(
        read_payload(&out, 0, Tag::Short, 10),
        Ok((Value::Short(0x0102), 2))
    );
    assert_eq!(read_payload(&out, 2, Tag::Int, 10), Ok((Value::Int(-2), 6)));
    assert_eq!(
        read_payload(&out, 6, Tag::Float, 10),
        Ok((Value::Float(0x3F80_0000), 10))
    );
    assert_eq!(
        read_payload(&out, 10, Tag::Double, 10),
        Ok((Value::Double(0x3FF0_0000_0000_0000), 18))
    );
}

#[test]
fn array_payloads() {
    let mut out = vec![];
    write_payload(&mut out, &Value::ByteArray(vec![1, -1])).unwrap();
    assert_eq!(out, vec![0, 0, 0, 2, 0x01, 0xFF]);
    let mut out = vec![];
    write_payload(&mut out, &Value::IntArray(vec![1, -1])).unwrap();
    assert_eq!(out, vec![0, 0, 0, 2, 0, 0, 0, 1, 0xFF, 0xFF, 0xFF, 0xFF]);
    let mut out = vec![];
    write_payload(&mut out, &Value::LongArray(vec![258])).unwrap();
    assert_eq!(out, vec![0, 0, 0, 1, 0, 0, 0, 0, 0, 0, 1, 2]);
    assert_eq!(
        read_payload(&out, 0, Tag::LongArray, 1),
        Ok((Value::LongArray(vec![258]), 12))
    );
}

#[test]
fn array_and_list_are_distinct() {
    let numbers = vec![1, 2, 3];
    let array = Value::Compound(vec![entry("v", Value::IntArray(numbers.clone()))]);
    let list = Value::Compound(vec![entry(
        "v",
        Value::List(numbers.iter().map(|n| Value::Int(*n)).collect()),
    )]);
    let array_bytes = to_bytes(&array).unwrap();
    let list_bytes = to_bytes(&list).unwrap();
    assert_ne!(array_bytes, list_bytes);
    assert_eq!(array_bytes[3], 11);
    assert_eq!(list_bytes[3], 9);
    assert_eq!(
        array_bytes,
        vec![0x0A, 0, 0, 11, 0, 1, b'v', 0, 0, 0, 3, 0, 0, 0, 1, 0, 0, 0, 2, 0, 0, 0, 3, 0]
    );
    assert_eq!(
        list_bytes,
        vec![0x0A, 0, 0, 9, 0, 1, b'v', 3, 0, 0, 0, 3, 0, 0, 0, 1, 0, 0, 0, 2, 0, 0, 0, 3, 0]
    );
    assert_eq!(from_bytes(&array_bytes).unwrap(), array);
    assert_eq!(from_bytes(&list_bytes).unwrap(), list);
    assert_ne!(from_bytes(&array_bytes).unwrap(), from_bytes(&list_bytes).unwrap());
}

#[test]
fn byte_and_long_arrays_are_no_lists() {
    let bytes = Value::Compound(vec![entry("v", Value::ByteArray(vec![5]))]);
    let byte_list = Value::Compound(vec![entry("v", Value::List(vec![Value::Byte(5)]))]);
    assert_ne!(to_bytes(&bytes), to_bytes(&byte_list));
    assert_eq!(from_bytes(&to_bytes(&bytes).unwrap()).unwrap(), bytes);
    assert_eq!(from_bytes(&to_bytes(&byte_list).unwrap()).unwrap(), byte_list);
    let longs = Value::Compound(vec![entry("v", Value::LongArray(vec![5]))]);
    let long_list = Value::Compound(vec![entry("v", Value::List(vec![Value::Long(5)]))]);
    assert_ne!(to_bytes(&longs), to_bytes(&long_list));
    assert_eq!(from_bytes(&to_bytes(&longs).unwrap()).unwrap(), longs);
    assert_eq!(from_bytes(&to_bytes(&long_list).unwrap()).unwrap(), long_list);
}

#[test]
fn truncation_gives_eof() {
    for doc in [count_items_bytes(), to_bytes(&every_kind()).unwrap()] {
        for k in 0..doc.len() {
            assert_eq!(
                from_bytes(&doc[..k]),
                Err(Error::UnexpectedEof),
                "cut at {}",
                k
            );
        }
        assert!(from_bytes(&doc).is_ok());
    }
}

#[test]
fn bytes_behind_the_document_are_ignored() {
    let mut doc = count_items_bytes();
    doc.extend([0xFF, 0x00, 0x13]);
    assert_eq!(from_bytes(&doc).unwrap(), count_items());
}

#[test]
fn gzip_is_recognised() {
    assert_eq!(
        from_bytes(&[0x1F, 0x8B]),
        Err(Error::LikelyCompressedInput)
    );
    assert_eq!(
        from_bytes(&[0x1F, 0x8B, 0x08, 0x00, 0x0A, 0x00]),
        Err(Error::LikelyCompressedInput)
    );
    assert_eq!(
        from_bytes_with_opts(&[0x1F, 0x8B, 0xFF], DeOpts::new().max_seq_len(0)),
        Err(Error::LikelyCompressedInput)
    );
    // One magic byte alone is no gzip header.
    assert_eq!(from_bytes(&[0x1F]), Err(Error::MalformedTag));
    assert_eq!(from_bytes(&[0x1F, 0x8A]), Err(Error::MalformedTag));
}

#[test]
fn duplicate_names_keep_their_order() {
    let mut doc = vec![0x0A, 0, 0];
    doc.extend([0x01, 0, 1, b'x', 1]);
    doc.extend([0x03, 0, 1, b'x', 0, 0, 0, 2]);
    doc.push(0);
    let v = from_bytes(&doc).unwrap();
    assert_eq!(
        v,
        Value::Compound(vec![entry("x", Value::Byte(1)), entry("x", Value::Int(2))])
    );
    // A lookup by name takes the later entry.
    assert_eq!(v.get("x"), Some(&Value::Int(2)));
    assert_eq!(v.get("y"), None);
    assert_eq!(to_bytes(&v).unwrap(), doc);
}

#[test]
fn the_last_entry_of_a_name_wins() {
    let v = Value::Compound(vec![
        entry("x", Value::Byte(1)),
        entry("y", Value::Byte(2)),
        entry("x", Value::Byte(3)),
    ]);
    assert!(!v.is_last_of_name(0));
    assert!(v.is_last_of_name(1));
    assert!(v.is_last_of_name(2));
    assert!(!v.is_last_of_name(3));
    assert!(!v.is_last_of_name(usize::MAX));
    assert!(!Value::List(vec![Value::Byte(1)]).is_last_of_name(0));
    assert!(!Value::Compound(vec![]).is_last_of_name(0));
    assert_eq!(v.get("x"), Some(&Value::Byte(3)));
    assert_eq!(v.get("y"), Some(&Value::Byte(2)));
}

#[test]
fn lookup_by_name() {
    let v = every_kind();
    assert_eq!(v.get("byte"), Some(&Value::Byte(-7)));
    assert_eq!(v.get("empty"), Some(&Value::IntArray(vec![])));
    assert_eq!(v.get("missing"), None);
    assert_eq!(Value::Int(1).get("byte"), None);
    assert_eq!(Value::List(vec![]).get(""), None);
    assert_eq!(Value::Compound(vec![]).get(""), None);
    assert_eq!(
        v.get("nested").unwrap().get("inner").unwrap().get("x"),
        Some(&Value::Long(-1))
    );
}

#[test]
fn tags_of_values() {
    assert_eq!(Value::Byte(0).tag(), Tag::Byte);
    assert_eq!(Value::Short(0).tag(), Tag::Short);
    assert_eq!(Value::Int(0).tag(), Tag::Int);
    assert_eq!(Value::Long(0).tag(), Tag::Long);
    assert_eq!(Value::Float(0).tag(), Tag::Float);
    assert_eq!(Value::Double(0).tag(), Tag::Double);
    assert_eq!(Value::ByteArray(vec![]).tag(), Tag::ByteArray);
    assert_eq!(Value::String(String::new()).tag(), Tag::String);
    assert_eq!(Value::List(vec![]).tag(), Tag::List);
    assert_eq!(Value::Compound(vec![]).tag(), Tag::Compound);
    assert_eq!(Value::IntArray(vec![]).tag(), Tag::IntArray);
    assert_eq!(Value::LongArray(vec![]).tag(), Tag::LongArray);
}

#[test]
fn clone_is_equal() {
    let v = every_kind();
    assert_eq!(v.clone(), v);
}

#[test]
fn root_name_is_read_and_dropped() {
    let mut doc = vec![0x0A, 0, 4];
    doc.extend(b"root");
    doc.extend([0x01, 0, 1, b'a', 9, 0]);
    assert_eq!(
        from_bytes(&doc).unwrap(),
        Value::Compound(vec![entry("a", Value::Byte(9))])
    );
}

#[test]
fn empty_list_writes_end_as_item_tag() {
    let v = Value::Compound(vec![entry("l", Value::List(vec![]))]);
    assert_eq!(
        to_bytes(&v).unwrap(),
        vec![0x0A, 0, 0, 9, 0, 1, b'l', 0, 0, 0, 0, 0, 0]
    );
}

#[test]
fn zero_and_negative_counts_read_as_empty() {
    // A list of ints with count -1, then a byte that must still be read.
    let mut doc = vec![0x0A, 0, 0];
    doc.extend([9, 0, 1, b'l', 3, 0xFF, 0xFF, 0xFF, 0xFF]);
    doc.extend([1, 0, 1, b'b', 7]);
    doc.push(0);
    assert_eq!(
        from_bytes(&doc).unwrap(),
        Value::Compound(vec![
            entry("l", Value::List(vec![])),
            entry("b", Value::Byte(7))
        ])
    );
    // A list with the item tag End and count 0.
    let doc = vec![0x0A, 0, 0, 9, 0, 1, b'l', 0, 0, 0, 0, 0, 0];
    assert_eq!(
        from_bytes(&doc).unwrap(),
        Value::Compound(vec![entry("l", Value::List(vec![]))])
    );
    // An int array with a negative count.
    let doc = vec![0x0A, 0, 0, 11, 0, 1, b'a', 0x80, 0, 0, 0, 0];
    assert_eq!(
        from_bytes(&doc).unwrap(),
        Value::Compound(vec![entry("a", Value::IntArray(vec![]))])
    );
}

#[test]
fn ill_formed_text_is_repaired() {
    let doc = vec![0x0A, 0, 0, 8, 0, 1, 0xFF, 0, 2, b'a', 0x80, 0];
    assert_eq!(
        from_bytes(&doc).unwrap(),
        Value::Compound(vec![entry("\u{FFFD}", Value::String("a\u{FFFD}".to_string()))])
    );
}
