use filecat::classify::{byte_is_graphic, byte_is_text, classify, is_text_file, Classification};

#[test]
fn empty_buffer_is_text() {
    assert!(is_text_file(b""));
    assert_eq!(classify(b""), Classification::Text);
}

#[test]
fn nul_byte_anywhere_is_binary() {
    assert_eq!(classify(b"\0abc"), Classification::Binary);
    assert_eq!(classify(b"ab\0c"), Classification::Binary);
    assert_eq!(classify(b"abc\0"), Classification::Binary);
    assert_eq!(classify(b"\0"), Classification::Binary);
}

#[test]
fn printable_text_with_whitespace_is_text() {
    assert_eq!(classify(b"hello, world!\n"), Classification::Text);
    assert_eq!(classify(b"a\tb\r\nc d\x0c"), Classification::Text);
    assert_eq!(classify(b"~!@#$%^&*()_+{}|:\"<>?"), Classification::Text);
}

#[test]
fn high_bit_and_control_bytes_are_binary() {
    assert_eq!(classify(&[0x80]), Classification::Binary);
    assert_eq!(classify(&[b'a', 0xff, b'b']), Classification::Binary);
    assert_eq!(classify(&[0x07]), Classification::Binary);
    assert_eq!(classify(&[0x0b]), Classification::Binary);
    assert_eq!(classify(&[0x1b]), Classification::Binary);
    assert_eq!(classify(&[0x7f]), Classification::Binary);
    assert_eq!(classify("é".as_bytes()), Classification::Binary);
}

#[test]
fn byte_predicates_agree_with_std_on_every_byte() {
    for b in 0..=255u8 {
        assert_eq!(byte_is_graphic(b), b.is_ascii_graphic(), "graphic {}", b);
        assert_eq!(
            byte_is_text(b),
            b.is_ascii_graphic() || b.is_ascii_whitespace() || b == b'\r',
            "text {}",
            b
        );
    }
}

#[test]
fn classification_is_text_exactly_when_every_byte_is() {
    let samples: Vec<Vec<u8>> = vec![
        vec![],
        b"plain".to_vec(),
        vec![b'a', 0, b'b'],
        vec![0x0c, 0x0d, 0x0a, 0x09, 0x20],
        vec![0x7e, 0x7f],
        (0..=255u8).collect(),
    ];
    for sample in samples {
        let every = sample.iter().all(|&b| byte_is_text(b));
        assert_eq!(classify(&sample) == Classification::Text, every);
        assert_eq!(is_text_file(&sample), every);
    }
}
