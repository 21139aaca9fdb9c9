//! Turning a buffer into the text that is written for it.

use vstd::prelude::*;
use vstd::string::StringExecFns;
use vstd::utf8::{decode_utf8, encode_utf8, is_ascii_chars, valid_utf8};
use crate::classify::{byte_is_graphic, is_graphic, is_text, Classification};
use crate::hex::{hex_dump_of, print_hex};

verus! {

/// What `<char as Debug>::fmt` writes for a character: the character
/// between single quotes, escaped where Rust's source syntax would
/// need it.
pub uninterp spec fn char_debug(c: char) -> Seq<char>;

/// What `String::from_utf8_lossy` makes of a buffer: its text as UTF-8,
/// with U+FFFD in place of every malformed sequence.
pub uninterp spec fn utf8_lossy(bytes: Seq<u8>) -> Seq<char>;

/// Formats `c` with `{:?}`, that is through `<char as Debug>::fmt`.
/// The result is a function of the character alone; the contract names it
/// and claims nothing more.
#[verifier::external_body]
fn debug_repr(c: char) -> (s: String)
    ensures
        s@ == char_debug(c),
{
    format!("{:?}", c)
}

/// Calls `String::from_utf8_lossy` and takes the result as an owned
/// string. The result is a function of the bytes alone. On well-formed
/// UTF-8 the function replaces nothing, so the text is the decoded input.
#[verifier::external_body]
fn decode_lossy(bytes: &[u8]) -> (s: String)
    ensures
        s@ == utf8_lossy(bytes@),
        valid_utf8(bytes@) ==> s@ == decode_utf8(bytes@),
{
    String::from_utf8_lossy(bytes).into_owned()
}

/// How a buffer is rendered.
#[derive(Clone, Copy, Debug, PartialEq, Eq, Structural)]
pub enum RenderMode {
    /// Only a line that says the file is not text.
    Marker,
    /// The hexadecimal dump.
    HexDump,
    /// The bytes decoded as UTF-8 and passed through.
    VerboseRaw,
    /// Printable characters as they are, the others escaped.
    FilteredPrintable,
}

/// The mode for a buffer of the given class under the given flags. Text
/// is never dumped nor replaced by the marker.
pub open spec fn mode_for(
    class: Classification,
    skip_non_text: bool,
    hex: bool,
    verbose: bool,
) -> RenderMode {
    if class == Classification::Binary && skip_non_text {
        RenderMode::Marker
    } else if class == Classification::Binary && hex {
        RenderMode::HexDump
    } else if verbose {
        RenderMode::VerboseRaw
    } else {
        RenderMode::FilteredPrintable
    }
}

/// A byte that the filtered rendering writes as it is.
pub open spec fn is_literal_byte(b: u8) -> bool {
    is_graphic(b) || b == 0x0a || b == 0x09 || b == 0x20 || b == 0x0d
}

/// Every byte of the buffer is written as it is.
pub open spec fn is_clean(bytes: Seq<u8>) -> bool {
    forall|i: int| 0 <= i < bytes.len() ==> is_literal_byte(#[trigger] bytes[i])
}

/// The bytes read as characters, one for one.
pub open spec fn as_chars(bytes: Seq<u8>) -> Seq<char> {
    Seq::new(bytes.len(), |i: int| bytes[i] as char)
}

/// An escaped character as it is written: its representation and a space.
pub open spec fn escaped(repr: Seq<char>) -> Seq<char> {
    repr + seq![' ']
}

/// What the filtered rendering writes for one byte.
pub open spec fn filtered_byte(b: u8) -> Seq<char> {
    if is_literal_byte(b) {
        seq![b as char]
    } else {
        escaped(char_debug(b as char))
    }
}

/// What the filtered rendering writes for a run of bytes.
pub open spec fn filtered_text(bytes: Seq<u8>) -> Seq<char>
    decreases bytes.len(),
{
    if bytes.len() == 0 {
        Seq::<char>::empty()
    } else {
        filtered_byte(bytes[0]) + filtered_text(bytes.skip(1))
    }
}

/// The filtered rendering of a buffer: its bytes, then a line end.
pub open spec fn filtered_printable(bytes: Seq<u8>) -> Seq<char> {
    filtered_text(bytes) + seq!['\n']
}

/// The line written in place of a binary file's content.
pub open spec fn marker_line() -> Seq<char> {
    "Non-text file\n"@
}

/// The text of a buffer in the verbose or the filtered rendering.
pub open spec fn content_text(bytes: Seq<u8>, verbose: bool) -> Seq<char> {
    if verbose {
        utf8_lossy(bytes)
    } else {
        filtered_printable(bytes)
    }
}

/// The text of a buffer in the given mode.
pub open spec fn rendered(bytes: Seq<u8>, mode: RenderMode) -> Seq<char> {
    match mode {
        RenderMode::Marker => marker_line(),
        RenderMode::HexDump => hex_dump_of(bytes),
        RenderMode::VerboseRaw => content_text(bytes, true),
        RenderMode::FilteredPrintable => content_text(bytes, false),
    }
}

/// Chooses the mode for a buffer of the given class.
pub fn select_mode(class: Classification, skip_non_text: bool, hex: bool, verbose: bool) -> (mode:
    RenderMode)
    ensures
        mode == mode_for(class, skip_non_text, hex, verbose),
        class == Classification::Text ==> mode == RenderMode::VerboseRaw || mode
            == RenderMode::FilteredPrintable,
{
    let binary = class == Classification::Binary;
    if binary && skip_non_text {
        RenderMode::Marker
    } else if binary && hex {
        RenderMode::HexDump
    } else if verbose {
        RenderMode::VerboseRaw
    } else {
        RenderMode::FilteredPrintable
    }
}

/// Tests whether the filtered rendering writes `b` as it is.
pub fn byte_is_literal(b: u8) -> (r: bool)
    ensures
        r == is_literal_byte(b),
{
    byte_is_graphic(b) || b == 0x0a || b == 0x09 || b == 0x20 || b == 0x0d
}

/// Appends an escaped character: its representation `repr` and a space.
pub fn push_escaped(out: &mut String, repr: &str)
    ensures
        final(out)@ == old(out)@ + escaped(repr@),
{
    out.append(repr);
    out.push(' ');
    assert((old(out)@ + repr@).push(' ') =~= old(out)@ + escaped(repr@));
}

/// The filtered rendering: printable characters, tab, space, line feed
/// and carriage return as they are, every other byte escaped, and a line
/// end after the last byte.
pub fn print_filtered(content: &[u8]) -> (out: String)
    ensures
        out@ == filtered_printable(content@),
        is_clean(content@) ==> out@ == as_chars(content@) + seq!['\n'],
{
    let mut out = String::new();
    let mut i: usize = 0;
    assert(content@.skip(0) =~= content@);
    assert(out@ + filtered_text(content@) =~= filtered_text(content@));
    while i < content.len()
        invariant
            i <= content.len(),
            out@ + filtered_text(content@.skip(i as int)) == filtered_text(content@),
        decreases content.len() - i,
    {
        let b = content[i];
        let ghost rest = content@.skip(i as int);
        let ghost sofar = out@;
        if byte_is_literal(b) {
            out.push(b as char);
            assert(out@ =~= sofar + filtered_byte(b));
        } else {
            let repr = debug_repr(b as char);
            push_escaped(&mut out, repr.as_str());
        }
        proof {
            assert(rest[0] == b);
            assert(rest.skip(1) =~= content@.skip(i + 1));
            assert(sofar + filtered_byte(b) + filtered_text(rest.skip(1)) =~= sofar
                + filtered_text(rest));
        }
        i += 1;
    }
    assert(content@.skip(content.len() as int) =~= Seq::<u8>::empty());
    assert(out@ + Seq::<char>::empty() =~= out@);
    out.push('\n');
    proof {
        if is_clean(content@) {
            lemma_filtered_clean(content@);
        }
    }
    out
}

/// The verbose rendering: the buffer decoded as UTF-8, malformed
/// sequences replaced, nothing escaped and nothing added.
pub fn print_verbose(content: &[u8]) -> (out: String)
    ensures
        out@ == utf8_lossy(content@),
        valid_utf8(content@) ==> out@ == decode_utf8(content@),
        is_seven_bit(content@) ==> out@ == as_chars(content@),
{
    proof {
        if is_seven_bit(content@) {
            lemma_seven_bit_decodes(content@);
        }
    }
    decode_lossy(content)
}

/// Renders a buffer as text: decoded as it is when `verbose`, filtered
/// otherwise.
pub fn print_content(content: &[u8], verbose: bool) -> (out: String)
    ensures
        out@ == content_text(content@, verbose),
{
    if verbose {
        print_verbose(content)
    } else {
        print_filtered(content)
    }
}

/// Renders a buffer in the given mode.
pub fn render(content: &[u8], mode: RenderMode) -> (out: String)
    ensures
        out@ == rendered(content@, mode),
{
    match mode {
        RenderMode::Marker => String::from_str("Non-text file\n"),
        RenderMode::HexDump => print_hex(content),
        RenderMode::VerboseRaw => print_content(content, true),
        RenderMode::FilteredPrintable => print_content(content, false),
    }
}

/// Every byte of the buffer is below 128.
pub open spec fn is_seven_bit(bytes: Seq<u8>) -> bool {
    forall|i: int| 0 <= i < bytes.len() ==> (#[trigger] bytes[i]) < 0x80
}

/// The filtered rendering of a clean buffer is the buffer itself and one
/// line end: rendering what is already printable changes nothing.
pub proof fn lemma_filtered_clean(bytes: Seq<u8>)
    requires
        is_clean(bytes),
    ensures
        filtered_text(bytes) == as_chars(bytes),
        filtered_printable(bytes) == as_chars(bytes) + seq!['\n'],
    decreases bytes.len(),
{
    if bytes.len() == 0 {
        assert(filtered_text(bytes) =~= as_chars(bytes));
    } else {
        let rest = bytes.skip(1);
        assert forall|i: int| 0 <= i < rest.len() implies is_literal_byte(#[trigger] rest[i]) by {
            assert(rest[i] == bytes[i + 1]);
        }
        lemma_filtered_clean(rest);
        assert(is_literal_byte(bytes[0]));
        assert(seq![bytes[0] as char] + as_chars(rest) =~= as_chars(bytes));
    }
}

/// A clean buffer is text, and a text buffer without a form feed is
/// clean.
pub proof fn lemma_clean_is_text(bytes: Seq<u8>)
    ensures
        is_clean(bytes) ==> is_text(bytes),
        is_text(bytes) && (forall|i: int| 0 <= i < bytes.len() ==> bytes[i] != 0x0c) ==> is_clean(
            bytes,
        ),
{
    if is_clean(bytes) {
        assert forall|i: int| 0 <= i < bytes.len() implies crate::classify::is_text_byte(
            #[trigger] bytes[i],
        ) by {
            assert(is_literal_byte(bytes[i]));
        }
    }
    if is_text(bytes) && (forall|i: int| 0 <= i < bytes.len() ==> bytes[i] != 0x0c) {
        assert forall|i: int| 0 <= i < bytes.len() implies is_literal_byte(#[trigger] bytes[i]) by {
            assert(crate::classify::is_text_byte(bytes[i]));
        }
    }
}

/// A buffer of bytes below 128 is well-formed UTF-8 and decodes to its
/// bytes read as characters.
pub proof fn lemma_seven_bit_decodes(bytes: Seq<u8>)
    requires
        is_seven_bit(bytes),
    ensures
        valid_utf8(bytes),
        decode_utf8(bytes) == as_chars(bytes),
{
    let chars = as_chars(bytes);
    assert(is_ascii_chars(chars)) by {
        assert forall|i: int| 0 <= i < chars.len() implies '\0' <= #[trigger] chars[i]
            <= '\u{7f}' by {
            assert(bytes[i] < 0x80);
        }
    }
    vstd::utf8::is_ascii_chars_encode_utf8(chars);
    assert(encode_utf8(chars) =~= bytes) by {
        assert forall|i: int| 0 <= i < bytes.len() implies encode_utf8(chars)[i] == bytes[i] by {
            assert(chars[i] as u8 == encode_utf8(chars)[i]);
            assert(bytes[i] < 0x80);
        }
    }
    vstd::utf8::encode_utf8_valid_utf8(chars);
    vstd::utf8::encode_utf8_decode_utf8(chars);
}

} // verus!
