//! Telling text from binary content, byte by byte.

use vstd::prelude::*;

verus! {

/// What a file's content is taken to be.
#[derive(Clone, Copy, Debug, PartialEq, Eq, Structural)]
pub enum Classification {
    Text,
    Binary,
}

/// A visible ASCII character: `!` up to `~`.
pub open spec fn is_graphic(b: u8) -> bool {
    0x21 <= b <= 0x7e
}

/// ASCII whitespace: space, tab, line feed, form feed, carriage return.
pub open spec fn is_whitespace(b: u8) -> bool {
    b == 0x20 || b == 0x09 || b == 0x0a || b == 0x0c || b == 0x0d
}

/// A byte that may stand in a text file.
pub open spec fn is_text_byte(b: u8) -> bool {
    is_graphic(b) || is_whitespace(b) || b == 0x0d
}

/// Every byte of the buffer is a text byte.
pub open spec fn is_text(bytes: Seq<u8>) -> bool {
    forall|i: int| 0 <= i < bytes.len() ==> is_text_byte(#[trigger] bytes[i])
}

/// The classification of a buffer.
pub open spec fn classification_of(bytes: Seq<u8>) -> Classification {
    if is_text(bytes) {
        Classification::Text
    } else {
        Classification::Binary
    }
}

/// Tests whether `b` is a visible ASCII character.
pub fn byte_is_graphic(b: u8) -> (r: bool)
    ensures
        r == is_graphic(b),
{
    0x21 <= b && b <= 0x7e
}

/// Tests whether `b` may stand in a text file.
pub fn byte_is_text(b: u8) -> (r: bool)
    ensures
        r == is_text_byte(b),
{
    byte_is_graphic(b) || b == 0x20 || b == 0x09 || b == 0x0a || b == 0x0c || b == 0x0d
}

/// Tests whether the whole buffer is text. An empty buffer is.
pub fn is_text_file(content: &[u8]) -> (r: bool)
    ensures
        r == is_text(content@),
{
    let mut i: usize = 0;
    while i < content.len()
        invariant
            i <= content.len(),
            forall|j: int| 0 <= j < i ==> is_text_byte(#[trigger] content@[j]),
        decreases content.len() - i,
    {
        if !byte_is_text(content[i]) {
            return false;
        }
        i += 1;
    }
    true
}

/// Classifies a buffer: text if and only if every byte is a text byte.
pub fn classify(content: &[u8]) -> (c: Classification)
    ensures
        c == classification_of(content@),
        (c == Classification::Text) <==> is_text(content@),
{
    if is_text_file(content) {
        Classification::Text
    } else {
        Classification::Binary
    }
}

/// A buffer with a NUL byte anywhere in it is binary.
pub proof fn lemma_nul_is_binary(bytes: Seq<u8>, at: int)
    requires
        0 <= at < bytes.len(),
        bytes[at] == 0,
    ensures
        classification_of(bytes) == Classification::Binary,
{
    assert(!is_text_byte(bytes[at]));
}

/// A buffer with any byte that is not a text byte is binary.
pub proof fn lemma_other_byte_is_binary(bytes: Seq<u8>, at: int)
    requires
        0 <= at < bytes.len(),
        !is_text_byte(bytes[at]),
    ensures
        classification_of(bytes) == Classification::Binary,
{
}

/// The empty buffer is text.
pub proof fn lemma_empty_is_text()
    ensures
        classification_of(Seq::<u8>::empty()) == Classification::Text,
{
}

} // verus!
