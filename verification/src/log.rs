//! The messages of a run, and how they are written.

use vstd::prelude::*;
use vstd::string::StringExecFns;
use crate::paint::{may_show, show, Paint};

verus! {

/// How grave a message is.
#[derive(Clone, Copy, Debug, PartialEq, Eq, Structural)]
pub enum LogLevel {
    Error,
    Warning,
    Info,
}

/// One message of a run.
#[derive(Debug)]
pub struct LogLine {
    pub level: LogLevel,
    pub message: String,
}

/// A message as a mathematical value.
pub struct LogLineView {
    pub level: LogLevel,
    pub message: Seq<char>,
}

impl View for LogLine {
    type V = LogLineView;

    open spec fn view(&self) -> LogLineView {
        LogLineView { level: self.level, message: self.message@ }
    }
}

/// The messages as mathematical values, in order.
pub open spec fn log_views(lines: Seq<LogLine>) -> Seq<LogLineView> {
    Seq::new(lines.len(), |i: int| lines[i]@)
}

/// An error with the given message.
pub open spec fn error_line(message: Seq<char>) -> LogLineView {
    LogLineView { level: LogLevel::Error, message }
}

/// A warning with the given message.
pub open spec fn warning_line(message: Seq<char>) -> LogLineView {
    LogLineView { level: LogLevel::Warning, message }
}

/// A note with the given message.
pub open spec fn info_line(message: Seq<char>) -> LogLineView {
    LogLineView { level: LogLevel::Info, message }
}

/// The word that tags messages of a level.
pub open spec fn level_word(level: LogLevel) -> Seq<char> {
    match level {
        LogLevel::Error => "error"@,
        LogLevel::Warning => "warning"@,
        LogLevel::Info => "info"@,
    }
}

/// The colour of the tag of a level.
pub open spec fn level_paint(level: LogLevel) -> Paint {
    match level {
        LogLevel::Error => Paint::Red,
        LogLevel::Warning => Paint::Yellow,
        LogLevel::Info => Paint::BrightBlue,
    }
}

/// A message behind its tag: `[tag] message`.
pub open spec fn tagged(tag: Seq<char>, message: Seq<char>) -> Seq<char> {
    seq!['['] + tag + seq![']', ' '] + message
}

/// The decimal digit for a value below ten.
pub open spec fn decimal_digit(d: int) -> char {
    (48 + d) as char
}

/// `n` in decimal.
pub open spec fn decimal(n: nat) -> Seq<char>
    decreases n,
{
    if n < 10 {
        seq![decimal_digit(n as int)]
    } else {
        decimal(n / 10) + seq![decimal_digit((n % 10) as int)]
    }
}

/// The message after each file when files are counted.
pub open spec fn progress_message(count: nat) -> Seq<char> {
    "Files processed so far: "@ + decimal(count)
}

/// The message at the end of a run when files are counted.
pub open spec fn total_message(count: nat) -> Seq<char> {
    "Total files processed: "@ + decimal(count)
}

/// The message for an entry that is neither a file nor a directory.
pub open spec fn invalid_entry_message(path: Seq<char>) -> Seq<char> {
    path + " is not a valid file or directory"@
}

/// The message for a file or directory that could not be read.
pub open spec fn unreadable_message(path: Seq<char>, reason: Seq<char>) -> Seq<char> {
    path + ": "@ + reason
}

/// The word that tags messages of a level.
pub fn level_tag(level: LogLevel) -> (tag: &'static str)
    ensures
        tag@ == level_word(level),
{
    match level {
        LogLevel::Error => "error",
        LogLevel::Warning => "warning",
        LogLevel::Info => "info",
    }
}

/// The colour of the tag of a level.
pub fn tag_paint(level: LogLevel) -> (paint: Paint)
    ensures
        paint == level_paint(level),
{
    match level {
        LogLevel::Error => Paint::Red,
        LogLevel::Warning => Paint::Yellow,
        LogLevel::Info => Paint::BrightBlue,
    }
}

/// Puts a message behind its tag, the tag as it is to be shown.
pub fn tag_message(shown_tag: &str, message: &str) -> (out: String)
    ensures
        out@ == tagged(shown_tag@, message@),
{
    let mut out = String::new();
    out.push('[');
    out.append(shown_tag);
    out.push(']');
    out.push(' ');
    out.append(message);
    assert(out@ =~= tagged(shown_tag@, message@));
    out
}

/// Whether `out` is the message as it is written: behind its tag, the
/// tag in the colour of its level where colours are asked for.
pub open spec fn is_log_text(line: LogLine, use_color: bool, out: Seq<char>) -> bool {
    exists|tag: Seq<char>|
        may_show(level_paint(line.level), use_color, level_word(line.level), tag) && out == tagged(
            tag,
            line.message@,
        )
}

/// Writes a message as one line of the log, without the line end.
///
/// Without colours the line is `[error] `, `[warning] ` or `[info] ` and
/// the message.
pub fn format_log(line: &LogLine, use_color: bool) -> (out: String)
    ensures
        is_log_text(*line, use_color, out@),
        !use_color ==> out@ == tagged(level_word(line.level), line.message@),
{
    let tag = show(tag_paint(line.level), use_color, level_tag(line.level));
    tag_message(tag.as_str(), line.message.as_str())
}

/// Appends `n` in decimal.
pub fn push_decimal(out: &mut String, n: usize)
    ensures
        final(out)@ == old(out)@ + decimal(n as nat),
    decreases n,
{
    if n < 10 {
        out.push((48u8 + n as u8) as char);
        assert(old(out)@.push(decimal_digit(n as int)) =~= old(out)@ + decimal(n as nat));
    } else {
        push_decimal(out, n / 10);
        out.push((48u8 + (n % 10) as u8) as char);
        assert((old(out)@ + decimal((n / 10) as nat)).push(decimal_digit((n % 10) as int))
            =~= old(out)@ + decimal(n as nat));
    }
}

/// The message after each file when files are counted.
pub fn progress(count: usize) -> (line: LogLine)
    ensures
        line.level == LogLevel::Info,
        line.message@ == progress_message(count as nat),
{
    let mut message = String::from_str("Files processed so far: ");
    push_decimal(&mut message, count);
    LogLine { level: LogLevel::Info, message }
}

/// The message at the end of a run when files are counted.
pub fn total(count: usize) -> (line: LogLine)
    ensures
        line.level == LogLevel::Info,
        line.message@ == total_message(count as nat),
{
    let mut message = String::from_str("Total files processed: ");
    push_decimal(&mut message, count);
    LogLine { level: LogLevel::Info, message }
}

/// The message for an entry that is neither a file nor a directory.
pub fn invalid_entry(path: &str) -> (line: LogLine)
    ensures
        line.level == LogLevel::Error,
        line.message@ == invalid_entry_message(path@),
{
    let mut message = String::from_str(path);
    message.append(" is not a valid file or directory");
    LogLine { level: LogLevel::Error, message }
}

/// The warning for a directory that was passed over while patterns were
/// expanded, with the reason as the system gave it.
pub fn passed_over(path: &str, reason: &str) -> (line: LogLine)
    ensures
        line.level == LogLevel::Warning,
        line.message@ == unreadable_message(path@, reason@),
{
    let mut message = String::from_str(path);
    message.append(": ");
    message.append(reason);
    LogLine { level: LogLevel::Warning, message }
}

/// The message for a file or directory that could not be read, with the
/// reason as the system gave it.
pub fn unreadable(path: &str, reason: &str) -> (line: LogLine)
    ensures
        line.level == LogLevel::Error,
        line.message@ == unreadable_message(path@, reason@),
{
    let mut message = String::from_str(path);
    message.append(": ");
    message.append(reason);
    LogLine { level: LogLevel::Error, message }
}

} // verus!
