//! The line that is written above each file.

use vstd::prelude::*;
use crate::paint::{may_show, show, Paint};
use crate::path::{normalize, normalize_chars};
use crate::text::{
    chars_of,
    contains,
    contains_sub,
    lemma_replace_absent,
    replace,
    replace_all,
    string_of,
};

verus! {

/// What a header template holds in the place of the file's path.
pub open spec fn placeholder() -> Seq<char> {
    seq!['{', 'f', 'i', 'l', 'e', '}']
}

/// Whether the template holds the placeholder.
pub open spec fn mentions_file(template: Seq<char>) -> bool {
    contains_sub(template, placeholder())
}

/// The header for a file: the template with the file's path, in normal
/// form, in the place of every placeholder.
pub open spec fn header_text(template: Seq<char>, path: Seq<char>) -> Seq<char> {
    replace_all(template, placeholder(), normalize(path))
}

/// The placeholder, letter by letter.
pub fn placeholder_chars() -> (v: Vec<char>)
    ensures
        v@ == placeholder(),
{
    let mut v: Vec<char> = Vec::new();
    v.push('{');
    v.push('f');
    v.push('i');
    v.push('l');
    v.push('e');
    v.push('}');
    assert(v@ =~= placeholder());
    v
}

/// Tests whether the template holds the placeholder.
pub fn has_placeholder(template: &str) -> (r: bool)
    ensures
        r == mentions_file(template@),
{
    let chars = chars_of(template);
    let mark = placeholder_chars();
    contains(chars.as_slice(), mark.as_slice())
}

/// Makes the header for the file at `path`.
///
/// A template without the placeholder is the header as it stands.
pub fn expand_header(template: &str, path: &str) -> (out: String)
    ensures
        out@ == header_text(template@, path@),
        !mentions_file(template@) ==> out@ == template@,
{
    let chars = chars_of(template);
    let mark = placeholder_chars();
    let raw = chars_of(path);
    let shown = normalize_chars(raw.as_slice());
    let out = replace(chars.as_slice(), mark.as_slice(), shown.as_slice());
    proof {
        if !mentions_file(template@) {
            lemma_replace_absent(template@, placeholder(), normalize(path@));
        }
    }
    string_of(out.as_slice())
}

/// Whether `shown` is the header of the file as it may be written: in
/// bold blue where colours are asked for, else the header and nothing
/// else.
pub open spec fn is_header(
    template: Seq<char>,
    path: Seq<char>,
    use_color: bool,
    shown: Seq<char>,
) -> bool {
    may_show(Paint::BoldBlue, use_color, header_text(template, path), shown)
}

/// Makes the header for the file at `path` as it is written.
pub fn show_header(template: &str, path: &str, use_color: bool) -> (shown: String)
    ensures
        is_header(template@, path@, use_color, shown@),
        !use_color ==> shown@ == header_text(template@, path@),
{
    let text = expand_header(template, path);
    show(Paint::BoldBlue, use_color, text.as_str())
}

} // verus!
