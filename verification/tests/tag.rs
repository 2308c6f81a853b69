use fastnbt::Tag;

const ALL: [Tag; 13] = [
    Tag::End,
    Tag::Byte,
    Tag::Short,
    Tag::Int,
    Tag::Long,
    Tag::Float,
    Tag::Double,
    Tag::ByteArray,
    Tag::String,
    Tag::List,
    Tag::Compound,
    Tag::IntArray,
    Tag::LongArray,
];

#[test]
fn codes_are_stable() {
    for (code, tag) in ALL.iter().enumerate() {
        assert_eq!(u8::from(*tag), code as u8);
    }
}

#[test]
fn valid_codes_round_trip() {
    for code in 0u8..=12 {
        let tag = Tag::try_from(code).unwrap();
        assert_eq!(u8::from(tag), code);
        assert_eq!(tag, ALL[code as usize]);
    }
}

#[test]
fn invalid_codes_are_rejected() {
    for code in 13u8..=255 {
        assert_eq!(Tag::try_from(code), Err(()));
    }
}

#[test]
fn tags_round_trip_through_codes() {
    for tag in ALL {
        assert_eq!(Tag::try_from(u8::from(tag)), Ok(tag));
    }
}

#[test]
fn tag_names() {
    let names = [
        "end",
        "byte",
        "short",
        "int",
        "long",
        "float",
        "double",
        "byte-array",
        "string",
        "list",
        "compound",
        "int-array",
        "long-array",
    ];
    for (tag, name) in ALL.iter().zip(names) {
        assert_eq!(tag.to_string(), name);
    }
}
