use filecat::classify::Classification;
use filecat::render::{
    byte_is_literal, print_content, print_filtered, print_verbose, push_escaped, render,
    select_mode, RenderMode,
};

#[test]
fn filtered_rendering_of_clean_text_adds_one_line_end() {
    assert_eq!(print_filtered(b"hi\n"), "hi\n\n");
    assert_eq!(print_filtered(b"a b\tc\r\nd"), "a b\tc\r\nd\n");
    assert_eq!(print_filtered(b""), "\n");
}

#[test]
fn filtered_rendering_of_every_clean_byte_is_the_byte() {
    let clean: Vec<u8> = (0..=255u8).filter(|&b| byte_is_literal(b)).collect();
    let mut want: String = clean.iter().map(|&b| b as char).collect();
    want.push('\n');
    assert_eq!(print_filtered(&clean), want);
}

#[test]
fn filtered_rendering_escapes_control_characters() {
    assert_eq!(print_filtered(&[7]), "'\\u{7}' \n");
    assert_eq!(print_filtered(&[0]), "'\\0' \n");
    assert_eq!(print_filtered(&[0x1b]), "'\\u{1b}' \n");
    assert_eq!(print_filtered(&[0x0c]), "'\\u{c}' \n");
    assert_eq!(print_filtered(&[0x7f]), "'\\u{7f}' \n");
    assert_eq!(print_filtered(&[b'a', 7, b'b']), "a'\\u{7}' b\n");
}

#[test]
fn filtered_rendering_matches_the_formatting_of_std_on_every_byte() {
    for b in 0..=255u8 {
        let want = if b.is_ascii_graphic() || b == b'\n' || b == b'\t' || b == b' ' || b == b'\r'
        {
            format!("{}\n", b as char)
        } else {
            format!("{:?} \n", b as char)
        };
        assert_eq!(print_filtered(&[b]), want, "byte {}", b);
    }
}

#[test]
fn escaped_character_is_followed_by_a_space() {
    let mut out = String::from("x");
    push_escaped(&mut out, "'\\u{7}'");
    assert_eq!(out, "x'\\u{7}' ");
}

#[test]
fn verbose_rendering_passes_text_through() {
    assert_eq!(print_verbose(b"hi\n"), "hi\n");
    assert_eq!(print_verbose(b""), "");
    assert_eq!(print_verbose("héllo".as_bytes()), "héllo");
    assert_eq!(print_verbose(&[7, b'a']), "\u{7}a");
}

#[test]
fn verbose_rendering_replaces_malformed_sequences() {
    assert_eq!(print_verbose(&[0xff]), "\u{fffd}");
    assert_eq!(print_verbose(&[b'a', 0x80, b'b']), "a\u{fffd}b");
    assert_eq!(print_verbose(&[0xe2, 0x82]), "\u{fffd}");
}

#[test]
fn content_is_verbose_or_filtered() {
    assert_eq!(print_content(&[b'a', 7], true), "a\u{7}");
    assert_eq!(print_content(&[b'a', 7], false), "a'\\u{7}' \n");
}

#[test]
fn mode_for_binary_content_follows_the_flags() {
    let b = Classification::Binary;
    assert_eq!(select_mode(b, true, false, false), RenderMode::Marker);
    assert_eq!(select_mode(b, true, true, true), RenderMode::Marker);
    assert_eq!(select_mode(b, false, true, false), RenderMode::HexDump);
    assert_eq!(select_mode(b, false, true, true), RenderMode::HexDump);
    assert_eq!(select_mode(b, false, false, true), RenderMode::VerboseRaw);
    assert_eq!(select_mode(b, false, false, false), RenderMode::FilteredPrintable);
}

#[test]
fn mode_for_text_ignores_hex_and_skip() {
    let t = Classification::Text;
    for skip in [false, true] {
        for hex in [false, true] {
            assert_eq!(select_mode(t, skip, hex, true), RenderMode::VerboseRaw);
            assert_eq!(select_mode(t, skip, hex, false), RenderMode::FilteredPrintable);
        }
    }
}

#[test]
fn render_follows_the_mode() {
    let bytes = [0u8, 1];
    assert_eq!(render(&bytes, RenderMode::Marker), "Non-text file\n");
    assert_eq!(render(&bytes, RenderMode::HexDump), "00000000  00 01 \n");
    assert_eq!(render(&bytes, RenderMode::VerboseRaw), "\u{0}\u{1}");
    assert_eq!(render(&bytes, RenderMode::FilteredPrintable), "'\\0' '\\u{1}' \n");
}
