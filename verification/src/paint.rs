//! Terminal colours for headers and log tags.
//!
//! Whether anything is coloured at all is decided outside this crate, by
//! the terminal and the settings of the process. So every function here
//! states two outcomes: the text as it was, or the text between colour
//! codes. The decision is taken not to change while one text is being
//! shown.

use vstd::prelude::*;
use vstd::string::StringExecFns;
use colored::Colorize;

verus! {

/// The escape character that opens every colour code.
pub open spec fn escape() -> char {
    '\u{1b}'
}

/// The code for bold blue.
pub open spec fn bold_blue() -> Seq<char> {
    seq!['1', ';', '3', '4']
}

/// The code for red.
pub open spec fn red() -> Seq<char> {
    seq!['3', '1']
}

/// The code for yellow.
pub open spec fn yellow() -> Seq<char> {
    seq!['3', '3']
}

/// The code for bright blue.
pub open spec fn bright_blue() -> Seq<char> {
    seq!['9', '4']
}

/// Whether the text holds an escape character.
pub open spec fn has_escape(text: Seq<char>) -> bool {
    exists|i: int| 0 <= i < text.len() && text[i] == escape()
}

/// The text between the sequence that switches `code` on and the one that
/// switches everything off.
pub open spec fn painted(code: Seq<char>, text: Seq<char>) -> Seq<char> {
    seq![escape(), '['] + code + seq!['m'] + text + seq![escape(), '[', '0', 'm']
}

/// Whether `out` is a way to show `text` in the colour `code`: the text
/// itself where colours are off; where they are on, the painted text.
/// Of a text that holds an escape character itself nothing is said for
/// that case.
pub open spec fn is_shown(code: Seq<char>, text: Seq<char>, out: Seq<char>) -> bool {
    out == text || (!has_escape(text) ==> out == painted(code, text))
}

/// Calls `Colorize::blue` and then `Colorize::bold` of `colored` on the
/// text, and formats the result.
///
/// With colours off `colored` writes the text unchanged. With colours on
/// it writes `ESC[1;34m`, the text, and `ESC[0m`; inside the text it
/// repeats the opening code after every `ESC[0m`, which a text without
/// an escape character cannot hold.
#[verifier::external_body]
fn paint_bold_blue(text: &str) -> (out: String)
    ensures
        is_shown(bold_blue(), text@, out@),
{
    text.blue().bold().to_string()
}

/// Calls `Colorize::red` of `colored` on the text and formats the result:
/// the text unchanged, or between `ESC[31m` and `ESC[0m`.
#[verifier::external_body]
fn paint_red(text: &str) -> (out: String)
    ensures
        is_shown(red(), text@, out@),
{
    text.red().to_string()
}

/// Calls `Colorize::yellow` of `colored` on the text and formats the
/// result: the text unchanged, or between `ESC[33m` and `ESC[0m`.
#[verifier::external_body]
fn paint_yellow(text: &str) -> (out: String)
    ensures
        is_shown(yellow(), text@, out@),
{
    text.yellow().to_string()
}

/// Calls `Colorize::bright_blue` of `colored` on the text and formats the
/// result: the text unchanged, or between `ESC[94m` and `ESC[0m`.
#[verifier::external_body]
fn paint_bright_blue(text: &str) -> (out: String)
    ensures
        is_shown(bright_blue(), text@, out@),
{
    text.bright_blue().to_string()
}

/// The colours this crate uses.
#[derive(Clone, Copy, Debug, PartialEq, Eq, Structural)]
pub enum Paint {
    BoldBlue,
    Red,
    Yellow,
    BrightBlue,
}

/// The code of a colour.
pub open spec fn code_of(paint: Paint) -> Seq<char> {
    match paint {
        Paint::BoldBlue => bold_blue(),
        Paint::Red => red(),
        Paint::Yellow => yellow(),
        Paint::BrightBlue => bright_blue(),
    }
}

/// What may be written for `text` in the colour `paint`: with colours
/// not asked for, the text and nothing else.
pub open spec fn may_show(paint: Paint, use_color: bool, text: Seq<char>, out: Seq<char>) -> bool {
    if use_color {
        is_shown(code_of(paint), text, out)
    } else {
        out == text
    }
}

/// Shows `text` in the colour `paint` where `use_color` asks for it.
pub fn show(paint: Paint, use_color: bool, text: &str) -> (out: String)
    ensures
        may_show(paint, use_color, text@, out@),
{
    if !use_color {
        return String::from_str(text);
    }
    match paint {
        Paint::BoldBlue => paint_bold_blue(text),
        Paint::Red => paint_red(text),
        Paint::Yellow => paint_yellow(text),
        Paint::BrightBlue => paint_bright_blue(text),
    }
}

} // verus!
