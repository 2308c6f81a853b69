use fastnbt::text::{decode_text, encode_text, read_scalar, write_char};

#[test]
fn plain_text_is_utf8() {
    assert_eq!(encode_text("Count"), b"Count".to_vec());
    assert_eq!(encode_text(""), Vec::<u8>::new());
    assert_eq!(encode_text("é"), vec![0xC3, 0xA9]);
    assert_eq!(encode_text("€"), vec![0xE2, 0x82, 0xAC]);
    assert_eq!(decode_text(b"Count"), "Count");
    assert_eq!(decode_text(&[0xC3, 0xA9]), "é");
    assert_eq!(decode_text(&[0xE2, 0x82, 0xAC]), "€");
    assert_eq!(decode_text(&[]), "");
}

#[test]
fn nul_takes_two_bytes() {
    assert_eq!(encode_text("\0"), vec![0xC0, 0x80]);
    assert_eq!(encode_text("a\0b"), vec![0x61, 0xC0, 0x80, 0x62]);
    assert_eq!(decode_text(&[0x61, 0xC0, 0x80, 0x62]), "a\0b");
}

#[test]
fn plain_zero_byte_reads_as_nul() {
    assert_eq!(decode_text(&[0x61, 0x00, 0x62]), "a\0b");
}

#[test]
fn supplementary_characters_take_a_surrogate_pair() {
    assert_eq!(
        encode_text("😀"),
        vec![0xED, 0xA0, 0xBD, 0xED, 0xB8, 0x80]
    );
    assert_eq!(decode_text(&[0xED, 0xA0, 0xBD, 0xED, 0xB8, 0x80]), "😀");
    assert_eq!(
        encode_text("\u{10000}"),
        vec![0xED, 0xA0, 0x80, 0xED, 0xB0, 0x80]
    );
    assert_eq!(
        encode_text("\u{10FFFF}"),
        vec![0xED, 0xAF, 0xBF, 0xED, 0xBF, 0xBF]
    );
    assert_eq!(
        decode_text(&[0xED, 0xAF, 0xBF, 0xED, 0xBF, 0xBF]),
        "\u{10FFFF}"
    );
}

#[test]
fn four_byte_utf8_is_read() {
    assert_eq!(decode_text("😀".as_bytes()), "😀");
    assert_eq!(decode_text(&[0xF4, 0x8F, 0xBF, 0xBF]), "\u{10FFFF}");
    assert_eq!(read_scalar(&[0xF0, 0x9F, 0x98, 0x80], 0), Some((0x1F600, 4)));
}

#[test]
fn valid_utf8_reads_as_itself() {
    let samples = ["", "hello", "añb€c😀d", "\u{7FF}\u{800}\u{FFFF}\u{D7FF}\u{E000}"];
    for s in samples {
        assert_eq!(decode_text(s.as_bytes()), s);
    }
}

#[test]
fn text_round_trips() {
    let samples = [
        "",
        "a",
        "\0",
        "a\0\u{7F}\u{80}\u{7FF}\u{800}\u{D7FF}\u{E000}\u{FFFF}\u{10000}\u{10FFFF}z",
        "minecraft:stone",
        "😀😀",
    ];
    for s in samples {
        assert_eq!(decode_text(&encode_text(s)), s);
    }
}

#[test]
fn ill_formed_bytes_are_replaced_one_by_one() {
    assert_eq!(decode_text(&[0xFF]), "\u{FFFD}");
    assert_eq!(decode_text(&[0x61, 0x80, 0x62]), "a\u{FFFD}b");
    // An overlong form of 'A'.
    assert_eq!(decode_text(&[0xC1, 0x81]), "\u{FFFD}\u{FFFD}");
    // A sequence cut short.
    assert_eq!(decode_text(&[0xE2, 0x82]), "\u{FFFD}\u{FFFD}");
    assert_eq!(decode_text(&[0xC3]), "\u{FFFD}");
    // A high surrogate without a low one, and a low one alone.
    assert_eq!(decode_text(&[0xED, 0xA0, 0xBD, 0x61]), "\u{FFFD}\u{FFFD}\u{FFFD}a");
    assert_eq!(decode_text(&[0xED, 0xB8, 0x80]), "\u{FFFD}\u{FFFD}\u{FFFD}");
    // Above U+10FFFF.
    assert_eq!(
        decode_text(&[0xF4, 0x90, 0x80, 0x80]),
        "\u{FFFD}\u{FFFD}\u{FFFD}\u{FFFD}"
    );
    // An overlong three-byte form.
    assert_eq!(decode_text(&[0xE0, 0x80, 0x80]), "\u{FFFD}\u{FFFD}\u{FFFD}");
}

#[test]
fn scalars_and_steps() {
    assert_eq!(read_scalar(b"a", 0), Some((0x61, 1)));
    assert_eq!(read_scalar(&[0xC0, 0x80], 0), Some((0, 2)));
    assert_eq!(read_scalar(&[0xC3, 0xA9], 0), Some((0xE9, 2)));
    assert_eq!(read_scalar(&[0xE2, 0x82, 0xAC], 0), Some((0x20AC, 3)));
    assert_eq!(
        read_scalar(&[0x00, 0xED, 0xA0, 0xBD, 0xED, 0xB8, 0x80], 1),
        Some((0x1F600, 6))
    );
    assert_eq!(read_scalar(&[0x61], 1), None);
    assert_eq!(read_scalar(&[], 0), None);
    assert_eq!(read_scalar(&[0xFF], 0), Some((0xFFFD, 1)));
}

#[test]
fn characters_are_written_one_by_one() {
    let mut out = vec![7u8];
    write_char(&mut out, 'a');
    write_char(&mut out, '\0');
    write_char(&mut out, 'é');
    write_char(&mut out, '€');
    write_char(&mut out, '😀');
    assert_eq!(
        out,
        vec![
            7, 0x61, 0xC0, 0x80, 0xC3, 0xA9, 0xE2, 0x82, 0xAC, 0xED, 0xA0, 0xBD, 0xED, 0xB8, 0x80
        ]
    );
}
