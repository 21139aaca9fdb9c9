//! What is settled before a run reads or writes anything.

use vstd::prelude::*;
use vstd::string::StringExecFns;
use crate::exclude::{is_first_fault, normalized_all, ExclusionMatcher, InvalidPattern};
use crate::expand::{Expansion, ExpansionView, InvalidInput};
use crate::glob::{parse_pattern, well_formed, PatternError, TokenView};
use crate::header::{has_placeholder, mentions_file};
use crate::log::{decimal, push_decimal, LogLevel, LogLine};
use crate::path::normalize;
use crate::text::texts;

verus! {

/// What the caller found at the path that the output is to go to.
#[derive(Clone, Copy, Debug, PartialEq, Eq, Structural)]
pub struct OutputProbe {
    /// Something is there already.
    pub exists: bool,
    /// What is there is a directory.
    pub is_dir: bool,
}

/// Why a run stops before it has done anything.
#[derive(Debug)]
pub enum Fatal {
    /// The output path is a directory.
    OutputIsDirectory,
    /// The output path is taken: something is there already.
    OutputExists,
    /// No path was given.
    NoPaths,
    /// An exclusion pattern cannot be compiled.
    InvalidPattern(InvalidPattern),
    /// An input pattern cannot be compiled.
    InvalidInput(InvalidInput),
}

/// Why the output cannot go where it is to go, if it cannot: a directory
/// is no file, and what exists is not overwritten.
pub open spec fn output_fault(probe: Option<OutputProbe>) -> Option<Fatal> {
    match probe {
        Some(p) => if p.is_dir {
            Some(Fatal::OutputIsDirectory)
        } else if p.exists {
            Some(Fatal::OutputExists)
        } else {
            None
        },
        None => None,
    }
}

/// Whether every pattern, in normal form, can be compiled.
pub open spec fn all_well_formed(raw: Seq<String>) -> bool {
    forall|i: int| 0 <= i < raw.len() ==> well_formed(normalize(#[trigger] raw[i]@))
}

/// What a fault in a pattern is called.
pub open spec fn fault_text(error: PatternError) -> Seq<char> {
    match error {
        PatternError::UnclosedClass(at) => "no ']' closes the '[' at index "@ + decimal(at as nat),
        PatternError::ReversedRange(at) => "a range runs downwards in the set at index "@ + decimal(
            at as nat,
        ),
    }
}

/// The message for a pattern that cannot be compiled.
pub open spec fn pattern_message(what: Seq<char>, pattern: Seq<char>, error: PatternError) -> Seq<
    char,
> {
    what + seq![' ', '\''] + pattern + seq!['\'', ':', ' '] + fault_text(error)
}

/// The message of a fatal error.
pub open spec fn fatal_message(fatal: Fatal) -> Seq<char> {
    match fatal {
        Fatal::OutputIsDirectory => "Output path is a directory"@,
        Fatal::OutputExists => "Output file already exists"@,
        Fatal::NoPaths => "No files or directories provided"@,
        Fatal::InvalidPattern(e) => pattern_message(
            "Invalid exclusion pattern"@,
            e.pattern@,
            e.error,
        ),
        Fatal::InvalidInput(e) => pattern_message("Invalid input pattern"@, e.pattern@, e.error),
    }
}

/// The warning for a header template without the placeholder.
pub open spec fn header_warning() -> Seq<char> {
    "Header does not contain the placeholder {file}"@
}

/// The note for a run whose patterns yield nothing.
pub open spec fn no_match_note() -> Seq<char> {
    "No matching files"@
}

/// Tests where the output is to go: fails where the path is a directory,
/// or is taken.
pub fn check_output(probe: Option<OutputProbe>) -> (r: Result<(), Fatal>)
    ensures
        match r {
            Ok(_) => output_fault(probe).is_none(),
            Err(e) => output_fault(probe) == Some(e),
        },
{
    match probe {
        Some(p) => {
            if p.is_dir {
                Err(Fatal::OutputIsDirectory)
            } else if p.exists {
                Err(Fatal::OutputExists)
            } else {
                Ok(())
            }
        },
        None => Ok(()),
    }
}

/// The warning for the header template, if it earns one: a template
/// without the placeholder is used as it stands.
pub fn check_header(template: &str) -> (warning: Option<LogLine>)
    ensures
        match warning {
            Some(line) => !mentions_file(template@) && line.level == LogLevel::Warning
                && line.message@ == header_warning(),
            None => mentions_file(template@),
        },
{
    if has_placeholder(template) {
        None
    } else {
        Some(
            LogLine {
                level: LogLevel::Warning,
                message: String::from_str("Header does not contain the placeholder {file}"),
            },
        )
    }
}

/// The note for a run whose patterns yield nothing.
pub fn no_match() -> (line: LogLine)
    ensures
        line.level == LogLevel::Info,
        line.message@ == no_match_note(),
{
    LogLine { level: LogLevel::Info, message: String::from_str("No matching files") }
}

/// Takes the entries that the expansion found. Where it found none,
/// gives the note that says so: such a run ends there, and that is no
/// error.
pub fn entries_of(expansion: Expansion) -> (r: Result<Vec<String>, LogLine>)
    ensures
        match r {
            Ok(entries) => entries@.len() > 0 && texts(entries@) == expansion@.found,
            Err(line) => expansion@.found.len() == 0 && line.level == LogLevel::Info
                && line.message@ == no_match_note(),
        },
{
    let entries = expansion.into_found();
    if entries.len() == 0 {
        Err(no_match())
    } else {
        Ok(entries)
    }
}

/// Says what a fault in a pattern is.
pub fn describe_fault(error: PatternError) -> (out: String)
    ensures
        out@ == fault_text(error),
{
    match error {
        PatternError::UnclosedClass(at) => {
            let mut out = String::from_str("no ']' closes the '[' at index ");
            push_decimal(&mut out, at);
            out
        },
        PatternError::ReversedRange(at) => {
            let mut out = String::from_str("a range runs downwards in the set at index ");
            push_decimal(&mut out, at);
            out
        },
    }
}

/// Makes the message for a pattern that cannot be compiled.
fn describe_pattern(what: &str, pattern: &str, error: PatternError) -> (out: String)
    ensures
        out@ == pattern_message(what@, pattern@, error),
{
    let mut out = String::from_str(what);
    out.push(' ');
    out.push('\'');
    out.append(pattern);
    out.push('\'');
    out.push(':');
    out.push(' ');
    let fault = describe_fault(error);
    out.append(fault.as_str());
    assert(out@ =~= pattern_message(what@, pattern@, error));
    out
}

impl Fatal {
    /// The message of the error.
    pub fn message(&self) -> (out: String)
        ensures
            out@ == fatal_message(*self),
    {
        match self {
            Fatal::OutputIsDirectory => String::from_str("Output path is a directory"),
            Fatal::OutputExists => String::from_str("Output file already exists"),
            Fatal::NoPaths => String::from_str("No files or directories provided"),
            Fatal::InvalidPattern(e) => describe_pattern(
                "Invalid exclusion pattern",
                e.pattern.as_str(),
                e.error,
            ),
            Fatal::InvalidInput(e) => describe_pattern(
                "Invalid input pattern",
                e.pattern.as_str(),
                e.error,
            ),
        }
    }

    /// The error as a log line.
    pub fn log_line(&self) -> (line: LogLine)
        ensures
            line.level == LogLevel::Error,
            line.message@ == fatal_message(*self),
    {
        LogLine { level: LogLevel::Error, message: self.message() }
    }
}

/// What a run starts from, once everything is settled.
#[derive(Debug)]
pub struct Plan {
    /// The exclusion rules, compiled.
    pub matcher: ExclusionMatcher,
    /// The input patterns, compiled and ready to be expanded.
    pub expansion: Expansion,
}

/// What settling a run gives: the plan or the reason why there is none,
/// and the warning about the header template, if it earned one.
#[derive(Debug)]
pub struct Prepared {
    pub warning: Option<LogLine>,
    pub plan: Result<Plan, Fatal>,
}

/// The first reason, in the order in which they are looked for, why a
/// run with these arguments stops before it starts: the output, the
/// paths, the exclusion patterns, the input patterns.
pub open spec fn first_fault(
    paths: Seq<String>,
    exclude: Seq<String>,
    probe: Option<OutputProbe>,
    fatal: Fatal,
) -> bool {
    if output_fault(probe).is_some() {
        output_fault(probe) == Some(fatal)
    } else if paths.len() == 0 {
        fatal == Fatal::NoPaths
    } else if !all_well_formed(exclude) {
        &&& fatal is InvalidPattern
        &&& is_first_fault(exclude, fatal->InvalidPattern_0.index as int)
        &&& fatal->InvalidPattern_0.pattern@ == exclude[fatal->InvalidPattern_0.index as int]@
        &&& parse_pattern(normalize(exclude[fatal->InvalidPattern_0.index as int]@)) == Err::<
            Seq<TokenView>,
            PatternError,
        >(fatal->InvalidPattern_0.error)
    } else {
        &&& !all_well_formed(paths)
        &&& fatal is InvalidInput
        &&& is_first_fault(paths, fatal->InvalidInput_0.index as int)
        &&& fatal->InvalidInput_0.pattern@ == paths[fatal->InvalidInput_0.index as int]@
        &&& parse_pattern(normalize(paths[fatal->InvalidInput_0.index as int]@)) == Err::<
            Seq<TokenView>,
            PatternError,
        >(fatal->InvalidInput_0.error)
    }
}

/// Whether a run with these arguments can start.
pub open spec fn can_start(paths: Seq<String>, exclude: Seq<String>, probe: Option<OutputProbe>) -> bool {
    &&& output_fault(probe).is_none()
    &&& paths.len() > 0
    &&& all_well_formed(exclude)
    &&& all_well_formed(paths)
}

/// Settles everything that can stop a run before it starts.
///
/// The run can start exactly when the output path, if there is one, is
/// free, a path was given, and every pattern can be compiled. Otherwise
/// the error is the first of these that fails. Unless the output path
/// is at fault, a header template without the placeholder earns a
/// warning, whatever else is found.
pub fn prepare(
    header: &str,
    paths: &Vec<String>,
    exclude: &Vec<String>,
    probe: Option<OutputProbe>,
) -> (r: Prepared)
    ensures
        match r.plan {
            Ok(plan) => {
                &&& can_start(paths@, exclude@, probe)
                &&& plan.matcher@ == normalized_all(exclude@)
                &&& plan.expansion.wf()
                &&& plan.expansion@ == ExpansionView::initial(texts(paths@))
            },
            Err(fatal) => !can_start(paths@, exclude@, probe) && first_fault(
                paths@,
                exclude@,
                probe,
                fatal,
            ),
        },
        match r.warning {
            Some(line) => output_fault(probe).is_none() && !mentions_file(header@) && line.level
                == LogLevel::Warning && line.message@ == header_warning(),
            None => output_fault(probe).is_some() || mentions_file(header@),
        },
{
    match check_output(probe) {
        Err(e) => {
            return Prepared { warning: None, plan: Err(e) };
        },
        Ok(_) => {},
    }
    let warning = check_header(header);
    if paths.len() == 0 {
        return Prepared { warning, plan: Err(Fatal::NoPaths) };
    }
    let matcher = match ExclusionMatcher::new(exclude) {
        Ok(m) => m,
        Err(e) => {
            assert(!well_formed(normalize(exclude@[e.index as int]@)));
            return Prepared { warning, plan: Err(Fatal::InvalidPattern(e)) };
        },
    };
    let expansion = match Expansion::new(paths) {
        Ok(x) => x,
        Err(e) => {
            assert(!well_formed(normalize(paths@[e.index as int]@)));
            return Prepared { warning, plan: Err(Fatal::InvalidInput(e)) };
        },
    };
    Prepared { warning, plan: Ok(Plan { matcher, expansion }) }
}

} // verus!
