//! The state of one run: its settings and the count of files shown.

use vstd::prelude::*;
use vstd::string::StringExecFns;
use crate::classify::{classification_of, classify, Classification};
use crate::header::{header_text, is_header, show_header};
use crate::log::{progress, progress_message, LogLevel, LogLine};
use crate::render::{mode_for, render, rendered, select_mode, RenderMode};

verus! {

/// The settings of a run and the number of files it has shown.
#[derive(Debug)]
pub struct FileCat {
    header: String,
    verbose: bool,
    hex: bool,
    use_color: bool,
    output: Option<String>,
    counter: bool,
    skip_non_text: bool,
    file_count: usize,
    use_log_color: bool,
}

/// A run's state as a mathematical value.
pub struct FileCatView {
    /// The template of the line above each file.
    pub header: Seq<char>,
    /// Text is passed through as it is, not filtered.
    pub verbose: bool,
    /// Binary content is dumped in hexadecimal.
    pub hex: bool,
    /// Headers are coloured.
    pub use_color: bool,
    /// The file that the output goes to, if not the console.
    pub output: Option<Seq<char>>,
    /// Files are counted, and the count is logged.
    pub counter: bool,
    /// Binary content is replaced by a marker line.
    pub skip_non_text: bool,
    /// How many files were shown so far.
    pub file_count: nat,
    /// Log tags are coloured.
    pub use_log_color: bool,
}

impl FileCatView {
    /// The state after one more file was shown: one more is counted
    /// where files are counted.
    pub open spec fn after_file(self) -> FileCatView {
        FileCatView {
            file_count: if self.counter {
                self.file_count + 1
            } else {
                self.file_count
            },
            ..self
        }
    }

    /// How a buffer is rendered under these settings.
    pub open spec fn mode(self, content: Seq<u8>) -> RenderMode {
        mode_for(classification_of(content), self.skip_non_text, self.hex, self.verbose)
    }

    /// What is written for a file's content under these settings.
    pub open spec fn body(self, content: Seq<u8>) -> Seq<char> {
        rendered(content, self.mode(content))
    }

    /// What is written for a file where headers are not coloured: the
    /// header, a line end, and the content as rendered.
    pub open spec fn plain_text(self, path: Seq<char>, content: Seq<u8>) -> Seq<char> {
        file_text(header_text(self.header, path), self.body(content))
    }

    /// Whether `text` is what may be written for a file: its header as
    /// it may be shown, a line end, and the content as rendered.
    pub open spec fn is_text_for(self, path: Seq<char>, content: Seq<u8>, text: Seq<char>) -> bool {
        exists|shown: Seq<char>|
            is_header(self.header, path, self.use_color, shown) && text == file_text(
                shown,
                self.body(content),
            )
    }

    /// The message logged after a file: the new count, where files are
    /// counted.
    pub open spec fn progress_after(self) -> Option<Seq<char>> {
        if self.counter {
            Some(progress_message(self.file_count + 1))
        } else {
            None
        }
    }

    /// Whether one more file can be counted.
    pub open spec fn can_count(self) -> bool {
        self.counter ==> self.file_count < usize::MAX
    }
}

/// What is written for one file: the header as shown, a line end, and
/// the rendered content.
pub open spec fn file_text(shown_header: Seq<char>, body: Seq<char>) -> Seq<char> {
    shown_header + seq!['\n'] + body
}

/// What showing one file gives: the text for the output, and the message
/// for the log if there is one.
#[derive(Debug)]
pub struct FileOutput {
    pub text: String,
    pub log: Option<LogLine>,
}

/// Puts the header as shown, a line end and the rendered content
/// together.
pub fn compose(shown_header: &str, body: &str) -> (out: String)
    ensures
        out@ == file_text(shown_header@, body@),
{
    let mut out = String::from_str(shown_header);
    out.push('\n');
    out.append(body);
    assert(out@ =~= file_text(shown_header@, body@));
    out
}

impl View for FileCat {
    type V = FileCatView;

    closed spec fn view(&self) -> FileCatView {
        FileCatView {
            header: self.header@,
            verbose: self.verbose,
            hex: self.hex,
            use_color: self.use_color,
            output: match self.output {
                Some(path) => Some(path@),
                None => None,
            },
            counter: self.counter,
            skip_non_text: self.skip_non_text,
            file_count: self.file_count as nat,
            use_log_color: self.use_log_color,
        }
    }
}

impl FileCat {
    /// The state at the start of a run: the given settings, and no file
    /// shown yet.
    pub fn new(
        header: String,
        verbose: bool,
        hex: bool,
        use_color: bool,
        output: Option<String>,
        counter: bool,
        skip_non_text: bool,
        use_log_color: bool,
    ) -> (viewer: FileCat)
        ensures
            viewer@ == (FileCatView {
                header: header@,
                verbose,
                hex,
                use_color,
                output: match output {
                    Some(path) => Some(path@),
                    None => None,
                },
                counter,
                skip_non_text,
                file_count: 0,
                use_log_color,
            }),
    {
        FileCat {
            header,
            verbose,
            hex,
            use_color,
            output,
            counter,
            skip_non_text,
            file_count: 0,
            use_log_color,
        }
    }

    /// Shows one file: makes its header and renders its content, and
    /// counts it where files are counted.
    ///
    /// Binary content gives the marker line where such content is
    /// skipped, else the dump where dumps are asked for; everything else
    /// is rendered as text, as it is or filtered.
    pub fn process_file(&mut self, file: &str, content: &[u8]) -> (out: FileOutput)
        requires
            old(self)@.can_count(),
        ensures
            final(self)@ == old(self)@.after_file(),
            old(self)@.is_text_for(file@, content@, out.text@),
            !old(self)@.use_color ==> out.text@ == old(self)@.plain_text(file@, content@),
            match out.log {
                Some(line) => line.level == LogLevel::Info && old(self)@.progress_after() == Some(
                    line.message@,
                ),
                None => old(self)@.progress_after().is_none(),
            },
    {
        let shown = show_header(self.header.as_str(), file, self.use_color);
        let mode = select_mode(classify(content), self.skip_non_text, self.hex, self.verbose);
        let body = render(content, mode);
        let text = compose(shown.as_str(), body.as_str());
        assert(is_header(self@.header, file@, self@.use_color, shown@) && text@ == file_text(
            shown@,
            self@.body(content@),
        ));
        let log = if self.counter {
            self.file_count += 1;
            Some(progress(self.file_count))
        } else {
            None
        };
        FileOutput { text, log }
    }

    /// The template of the line above each file.
    pub fn header(&self) -> (h: &str)
        ensures
            h@ == self@.header,
    {
        self.header.as_str()
    }

    /// Whether text is passed through as it is.
    pub fn verbose(&self) -> (b: bool)
        ensures
            b == self@.verbose,
    {
        self.verbose
    }

    /// Whether binary content is dumped in hexadecimal.
    pub fn hex(&self) -> (b: bool)
        ensures
            b == self@.hex,
    {
        self.hex
    }

    /// Whether headers are coloured.
    pub fn use_color(&self) -> (b: bool)
        ensures
            b == self@.use_color,
    {
        self.use_color
    }

    /// The file that the output goes to, if not the console.
    pub fn output(&self) -> (path: Option<&str>)
        ensures
            match path {
                Some(p) => self@.output == Some(p@),
                None => self@.output.is_none(),
            },
    {
        match &self.output {
            Some(p) => Some(p.as_str()),
            None => None,
        }
    }

    /// Whether files are counted.
    pub fn counter(&self) -> (b: bool)
        ensures
            b == self@.counter,
    {
        self.counter
    }

    /// Whether binary content is replaced by a marker line.
    pub fn skip_non_text(&self) -> (b: bool)
        ensures
            b == self@.skip_non_text,
    {
        self.skip_non_text
    }

    /// How many files were shown so far.
    pub fn file_count(&self) -> (n: usize)
        ensures
            n == self@.file_count,
    {
        self.file_count
    }

    /// Whether log tags are coloured.
    pub fn use_log_color(&self) -> (b: bool)
        ensures
            b == self@.use_log_color,
    {
        self.use_log_color
    }

    /// Tests whether one more file can be counted.
    pub fn can_count(&self) -> (b: bool)
        ensures
            b == self@.can_count(),
    {
        !self.counter || self.file_count < usize::MAX
    }
}

} // verus!
