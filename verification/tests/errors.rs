use fastnbt::de::{read_count, read_payload, read_tag, read_text};
use fastnbt::{from_bytes, from_bytes_with_opts, to_bytes, DeOpts, Error, Tag, Value};

fn entry(name: &str, value: Value) -> (String, Value) {
    (name.to_string(), value)
}

#[test]
fn malformed_tag() {
    for code in 13u8..=255 {
        if code == 0x1F {
            continue;
        }
        assert_eq!(from_bytes(&[code, 0, 0, 0]), Err(Error::MalformedTag));
    }
    // In an entry.
    assert_eq!(
        from_bytes(&[0x0A, 0, 0, 13, 0, 0, 0]),
        Err(Error::MalformedTag)
    );
    // As the tag of the items of a list, even of an empty one.
    assert_eq!(
        from_bytes(&[0x0A, 0, 0, 9, 0, 0, 200, 0, 0, 0, 0, 0]),
        Err(Error::MalformedTag)
    );
    assert_eq!(read_tag(&[13], 0), Err(Error::MalformedTag));
    assert_eq!(read_tag(&[12], 0), Ok((Tag::LongArray, 1)));
}

#[test]
fn end_is_no_value() {
    // A list of one item of tag End.
    assert_eq!(
        from_bytes(&[0x0A, 0, 0, 9, 0, 0, 0, 0, 0, 0, 1, 0]),
        Err(Error::MalformedTag)
    );
    assert_eq!(read_payload(&[0, 0], 0, Tag::End, 10), Err(Error::MalformedTag));
}

#[test]
fn unexpected_eof() {
    assert_eq!(from_bytes(&[]), Err(Error::UnexpectedEof));
    assert_eq!(from_bytes(&[0x0A]), Err(Error::UnexpectedEof));
    assert_eq!(from_bytes(&[0x0A, 0, 0]), Err(Error::UnexpectedEof));
    assert_eq!(
        from_bytes(&[0x0A, 0, 0, 3, 0, 0, 0, 0, 0]),
        Err(Error::UnexpectedEof)
    );
    // An array that announces more than is there.
    assert_eq!(
        from_bytes(&[0x0A, 0, 0, 12, 0, 0, 0, 0, 0, 2, 0, 0, 0, 0, 0, 0, 0, 0, 0]),
        Err(Error::UnexpectedEof)
    );
    assert_eq!(read_text(&[0, 3, b'a', b'b'], 0, 10), Err(Error::UnexpectedEof));
    assert_eq!(read_count(&[0, 0, 1], 0, 10), Err(Error::UnexpectedEof));
    assert_eq!(read_tag(&[], 0), Err(Error::UnexpectedEof));
    assert_eq!(
        read_payload(&[1, 2, 3], usize::MAX, Tag::Compound, 10),
        Err(Error::UnexpectedEof)
    );
}

#[test]
fn huge_counts_do_not_allocate() {
    // Counts within the bound but far beyond the buffer.
    let opts = || DeOpts::new().max_seq_len(usize::MAX);
    assert_eq!(
        from_bytes_with_opts(&[0x0A, 0, 0, 7, 0, 0, 0x7F, 0xFF, 0xFF, 0xFF], opts()),
        Err(Error::UnexpectedEof)
    );
    assert_eq!(
        from_bytes_with_opts(&[0x0A, 0, 0, 11, 0, 0, 0x7F, 0xFF, 0xFF, 0xFF], opts()),
        Err(Error::UnexpectedEof)
    );
    assert_eq!(
        from_bytes_with_opts(&[0x0A, 0, 0, 12, 0, 0, 0x7F, 0xFF, 0xFF, 0xFF], opts()),
        Err(Error::UnexpectedEof)
    );
    assert_eq!(
        from_bytes_with_opts(&[0x0A, 0, 0, 9, 0, 0, 1, 0x7F, 0xFF, 0xFF, 0xFF], opts()),
        Err(Error::UnexpectedEof)
    );
}

#[test]
fn sequence_too_long_on_read() {
    // A list that announces 100_001 items, with none behind it.
    let list = [0x0A, 0, 0, 9, 0, 0, 1, 0x00, 0x01, 0x86, 0xA1];
    assert_eq!(from_bytes(&list), Err(Error::SequenceTooLong));
    // 100_000 is within the default bound: the items are then missing.
    let list = [0x0A, 0, 0, 9, 0, 0, 1, 0x00, 0x01, 0x86, 0xA0];
    assert_eq!(from_bytes(&list), Err(Error::UnexpectedEof));
    for tag in [7u8, 11, 12] {
        let array = [0x0A, 0, 0, tag, 0, 0, 0x7F, 0xFF, 0xFF, 0xFF];
        assert_eq!(from_bytes(&array), Err(Error::SequenceTooLong));
    }
    // A text of three bytes under a bound of two, as payload and as name.
    let opts = || DeOpts::new().max_seq_len(2);
    let text = [0x0A, 0, 0, 8, 0, 0, 0, 3, b'a', b'b', b'c', 0];
    assert_eq!(from_bytes_with_opts(&text, opts()), Err(Error::SequenceTooLong));
    let name = [0x0A, 0, 0, 1, 0, 3, b'a', b'b', b'c', 0, 0];
    assert_eq!(from_bytes_with_opts(&name, opts()), Err(Error::SequenceTooLong));
    let root = [0x0A, 0, 3, b'a', b'b', b'c', 0];
    assert_eq!(from_bytes_with_opts(&root, opts()), Err(Error::SequenceTooLong));
    assert!(from_bytes(&text).is_ok());
    assert!(from_bytes(&name).is_ok());
    assert!(from_bytes(&root).is_ok());
}

#[test]
fn bound_is_inclusive() {
    let doc = to_bytes(&Value::Compound(vec![entry(
        "ab",
        Value::List(vec![Value::Byte(1), Value::Byte(2)]),
    )]))
    .unwrap();
    assert!(from_bytes_with_opts(&doc, DeOpts::new().max_seq_len(2)).is_ok());
    assert_eq!(
        from_bytes_with_opts(&doc, DeOpts::new().max_seq_len(1)),
        Err(Error::SequenceTooLong)
    );
    assert_eq!(read_count(&[0, 0, 0, 5], 0, 5), Ok((5, 4)));
    assert_eq!(read_count(&[0, 0, 0, 5], 0, 4), Err(Error::SequenceTooLong));
    assert_eq!(read_count(&[0xFF, 0xFF, 0xFF, 0xFB], 0, 0), Ok((0, 4)));
    assert_eq!(read_text(&[0, 1, b'a'], 0, 1), Ok(("a".to_string(), 3)));
    assert_eq!(read_text(&[0, 1, b'a'], 0, 0), Err(Error::SequenceTooLong));
}

#[test]
fn sequence_too_long_on_write() {
    let text = "a".repeat(65_536);
    let v = Value::Compound(vec![entry("t", Value::String(text))]);
    assert_eq!(to_bytes(&v), Err(Error::SequenceTooLong));
    let text = "a".repeat(65_535);
    let v = Value::Compound(vec![entry("t", Value::String(text))]);
    let bytes = to_bytes(&v).unwrap();
    assert_eq!(&bytes[7..9], &[0xFF, 0xFF]);
    assert_eq!(from_bytes(&bytes).unwrap(), v);
    // The length that counts is that of the bytes: U+0000 takes two.
    let v = Value::Compound(vec![entry("t", Value::String("\0".repeat(32_768)))]);
    assert_eq!(to_bytes(&v), Err(Error::SequenceTooLong));
}

#[test]
fn name_too_long() {
    let v = Value::Compound(vec![entry(&"n".repeat(65_536), Value::Byte(0))]);
    assert_eq!(to_bytes(&v), Err(Error::NameTooLong));
    let v = Value::Compound(vec![entry(&"n".repeat(65_535), Value::Byte(0))]);
    assert!(to_bytes(&v).is_ok());
    // The name comes before the payload.
    let v = Value::Compound(vec![entry(
        &"n".repeat(65_536),
        Value::String("a".repeat(65_536)),
    )]);
    assert_eq!(to_bytes(&v), Err(Error::NameTooLong));
}

#[test]
fn type_mismatch() {
    // A list whose items differ in tag cannot be written.
    let v = Value::Compound(vec![entry(
        "l",
        Value::List(vec![Value::Byte(1), Value::Int(2)]),
    )]);
    assert_eq!(to_bytes(&v), Err(Error::TypeMismatch));
    // A document must begin with the tag of a compound.
    for tag in (0u8..=12).filter(|t| *t != 10) {
        assert_eq!(
            from_bytes(&[tag, 0, 0, 0, 0, 0, 0, 0, 0, 0, 0, 0]),
            Err(Error::TypeMismatch)
        );
    }
}

#[test]
fn root_must_be_compound() {
    for v in [
        Value::Byte(1),
        Value::Int(1),
        Value::String("x".to_string()),
        Value::List(vec![]),
        Value::IntArray(vec![1]),
    ] {
        assert_eq!(to_bytes(&v), Err(Error::RootMustBeCompound));
    }
}

#[test]
fn first_error_wins() {
    let v = Value::Compound(vec![
        entry("a", Value::List(vec![Value::Byte(1), Value::Int(2)])),
        entry(&"n".repeat(65_536), Value::Byte(0)),
    ]);
    assert_eq!(to_bytes(&v), Err(Error::TypeMismatch));
    let v = Value::Compound(vec![
        entry(&"n".repeat(65_536), Value::Byte(0)),
        entry("a", Value::List(vec![Value::Byte(1), Value::Int(2)])),
    ]);
    assert_eq!(to_bytes(&v), Err(Error::NameTooLong));
}

#[test]
fn messages() {
    assert_eq!(Error::MalformedTag.to_string(), "malformed tag");
    assert_eq!(Error::UnexpectedEof.to_string(), "unexpected end of input");
    assert_eq!(Error::SequenceTooLong.to_string(), "sequence too long");
    assert_eq!(Error::TypeMismatch.to_string(), "type mismatch");
    assert_eq!(Error::NameTooLong.to_string(), "name too long");
    assert_eq!(Error::RootMustBeCompound.to_string(), "root must be a compound");
    assert_eq!(
        Error::LikelyCompressedInput.to_string(),
        "input appears to be gzip compressed"
    );
    let e = Error::bespoke("chunk has no sections".to_string());
    assert_eq!(e, Error::BespokeMessage("chunk has no sections".to_string()));
    assert_eq!(e.to_string(), "chunk has no sections");
    assert_eq!(e.clone(), e);
}
