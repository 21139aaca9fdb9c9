//! The walk over the entries of a run.
//!
//! The walk decides and the caller acts: every step ends in a request
//! (look at this path, read this file, list this directory, or stop),
//! and the caller answers with what it found. Entries are visited in the
//! order given, the children of a directory before whatever follows the
//! directory, and an excluded entry is never looked at.

use vstd::prelude::*;
use crate::exclude::{excludes, ExclusionMatcher};
use crate::state::{FileCat, FileCatView};
use crate::log::{
    error_line,
    info_line,
    invalid_entry,
    invalid_entry_message,
    log_views,
    progress_message,
    total,
    total_message,
    unreadable,
    unreadable_message,
    LogLine,
    LogLineView,
};
use crate::text::texts;

verus! {

/// What the caller found at a path.
#[derive(Clone, Copy, Debug, PartialEq, Eq, Structural)]
pub enum EntryKind {
    File,
    Directory,
    /// Neither, or nothing that can be looked at.
    Other,
}

/// An entry still to be visited.
pub struct EntryView {
    pub path: Seq<char>,
    /// Whether the entry was given to the run, not found in a directory.
    pub top_level: bool,
}

/// What the walk waits for.
pub enum WaitingView {
    /// Nothing: the walk has not begun, or is over.
    Nothing,
    /// What kind of thing the entry is.
    Kind(EntryView),
    /// The content of the file at this path.
    Content(Seq<char>),
    /// The children of the directory at this path.
    Children(Seq<char>),
}

/// What the caller is asked to do next.
#[derive(Debug)]
pub enum Request {
    /// Find out what is at this path, and answer with `Event::Kind`.
    Inspect(String),
    /// Read this file, and answer with `Event::Content` or
    /// `Event::ReadFailed`.
    Read(String),
    /// List this directory, and answer with `Event::Children` or
    /// `Event::ListFailed`.
    List(String),
    /// Nothing more: the walk is over.
    Finish,
}

/// A request as a mathematical value.
pub enum RequestView {
    Inspect(Seq<char>),
    Read(Seq<char>),
    List(Seq<char>),
    Finish,
}

impl View for Request {
    type V = RequestView;

    open spec fn view(&self) -> RequestView {
        match *self {
            Request::Inspect(p) => RequestView::Inspect(p@),
            Request::Read(p) => RequestView::Read(p@),
            Request::List(p) => RequestView::List(p@),
            Request::Finish => RequestView::Finish,
        }
    }
}

/// What listing a directory gave.
#[derive(Debug)]
pub struct Listing {
    /// The paths of the children, in the order they were listed.
    pub children: Vec<String>,
    /// For each child that could not be read, why.
    pub failures: Vec<String>,
}

/// The caller's answer to a request.
#[derive(Debug)]
pub enum Event {
    Kind(EntryKind),
    Content(Vec<u8>),
    /// The file could not be read, with the reason.
    ReadFailed(String),
    Children(Listing),
    /// The directory could not be listed, with the reason.
    ListFailed(String),
}

/// An answer as a mathematical value.
pub enum EventView {
    Kind(EntryKind),
    Content(Seq<u8>),
    ReadFailed(Seq<char>),
    Children(Seq<Seq<char>>, Seq<Seq<char>>),
    ListFailed(Seq<char>),
}

impl View for Event {
    type V = EventView;

    open spec fn view(&self) -> EventView {
        match *self {
            Event::Kind(k) => EventView::Kind(k),
            Event::Content(bytes) => EventView::Content(bytes@),
            Event::ReadFailed(reason) => EventView::ReadFailed(reason@),
            Event::Children(listing) => EventView::Children(
                texts(listing.children@),
                texts(listing.failures@),
            ),
            Event::ListFailed(reason) => EventView::ListFailed(reason@),
        }
    }
}

/// What one step of the walk gives.
#[derive(Debug)]
pub struct Step {
    /// The text for the output; empty unless a file was shown.
    pub output: String,
    /// The messages for the log, in order.
    pub logs: Vec<LogLine>,
    /// What the caller is to do next.
    pub request: Request,
}

/// The entries with the excluded ones at the end taken off, up to the
/// first that is not excluded. The end of the sequence is what is visited
/// next.
pub open spec fn settle(rules: Seq<Seq<char>>, pending: Seq<EntryView>) -> Seq<EntryView>
    decreases pending.len(),
{
    if pending.len() > 0 && excludes(rules, pending.last().path) {
        settle(rules, pending.drop_last())
    } else {
        pending
    }
}

/// The children of a directory as entries to visit, the first child at
/// the end.
pub open spec fn stacked(children: Seq<Seq<char>>) -> Seq<EntryView> {
    Seq::new(
        children.len(),
        |i: int| EntryView { path: children[children.len() - 1 - i], top_level: false },
    )
}

/// The entries given to a run, the first at the end.
pub open spec fn stacked_top(paths: Seq<Seq<char>>) -> Seq<EntryView> {
    Seq::new(paths.len(), |i: int| EntryView { path: paths[paths.len() - 1 - i], top_level: true })
}

/// One error for each failure, about the directory at `path`.
pub open spec fn failure_lines(path: Seq<char>, failures: Seq<Seq<char>>) -> Seq<LogLineView> {
    Seq::new(failures.len(), |i: int| error_line(unreadable_message(path, failures[i])))
}

/// The walk as a mathematical value.
pub struct TraversalView {
    /// The run's settings and count.
    pub viewer: FileCatView,
    /// The patterns of the exclusion rules.
    pub rules: Seq<Seq<char>>,
    /// Whether directories are entered.
    pub recursive: bool,
    /// The entries still to be visited; the next one is the last.
    pub pending: Seq<EntryView>,
    /// What the walk waits for.
    pub waiting: WaitingView,
}

/// What a step does, apart from the text it writes.
pub struct Effect {
    /// The walk after the step.
    pub next: TraversalView,
    /// The messages of the step.
    pub logs: Seq<LogLineView>,
    /// The file shown in the step, if any: its path and its content.
    pub shown: Option<(Seq<char>, Seq<u8>)>,
}

impl TraversalView {
    /// The request that stands open.
    pub open spec fn request(self) -> RequestView {
        match self.waiting {
            WaitingView::Nothing => RequestView::Finish,
            WaitingView::Kind(e) => RequestView::Inspect(e.path),
            WaitingView::Content(p) => RequestView::Read(p),
            WaitingView::Children(p) => RequestView::List(p),
        }
    }

    /// The walk turned to its next entry: excluded entries are passed
    /// over, and the first that is not excluded is the one to look at.
    /// With no such entry the walk is over.
    pub open spec fn proceed(self) -> TraversalView {
        let rest = settle(self.rules, self.pending);
        if rest.len() == 0 {
            TraversalView { pending: rest, waiting: WaitingView::Nothing, ..self }
        } else {
            TraversalView {
                pending: rest.drop_last(),
                waiting: WaitingView::Kind(rest.last()),
                ..self
            }
        }
    }

    /// The messages at the end of the walk: the total, where files are
    /// counted.
    pub open spec fn closing(self) -> Seq<LogLineView> {
        if self.waiting is Nothing && self.viewer.counter {
            seq![info_line(total_message(self.viewer.file_count))]
        } else {
            Seq::<LogLineView>::empty()
        }
    }

    /// The step that ends the work on one entry with the given messages
    /// and turns to the next.
    pub open spec fn move_on(self, logs: Seq<LogLineView>) -> Effect {
        let next = self.proceed();
        Effect { next, logs: logs + next.closing(), shown: None }
    }

    /// The walk with something else to wait for.
    pub open spec fn wait_for(self, waiting: WaitingView) -> Effect {
        Effect {
            next: TraversalView { waiting, ..self },
            logs: Seq::<LogLineView>::empty(),
            shown: None,
        }
    }

    /// The step that the walk takes on the answer `event`.
    ///
    /// A file is read; a directory is listed where directories are
    /// entered and passed over where not; anything else is an error
    /// where it was given to the run and passed over where it was found
    /// in a directory. A file's content is shown and counted. The
    /// children of a directory are visited next, in their order. What
    /// cannot be read is an error, and the walk goes on. An answer that
    /// does not fit the open request changes nothing.
    pub open spec fn react(self, event: EventView) -> Effect {
        match (self.waiting, event) {
            (WaitingView::Kind(e), EventView::Kind(EntryKind::File)) => self.wait_for(
                WaitingView::Content(e.path),
            ),
            (WaitingView::Kind(e), EventView::Kind(EntryKind::Directory)) => if self.recursive {
                self.wait_for(WaitingView::Children(e.path))
            } else {
                self.move_on(Seq::<LogLineView>::empty())
            },
            (WaitingView::Kind(e), EventView::Kind(EntryKind::Other)) => self.move_on(
                if e.top_level {
                    seq![error_line(invalid_entry_message(e.path))]
                } else {
                    Seq::<LogLineView>::empty()
                },
            ),
            (WaitingView::Content(p), EventView::Content(bytes)) => {
                let counted = TraversalView { viewer: self.viewer.after_file(), ..self };
                let after = counted.move_on(
                    match self.viewer.progress_after() {
                        Some(m) => seq![info_line(m)],
                        None => Seq::<LogLineView>::empty(),
                    },
                );
                Effect { shown: Some((p, bytes)), ..after }
            },
            (WaitingView::Content(p), EventView::ReadFailed(reason)) => self.move_on(
                seq![error_line(unreadable_message(p, reason))],
            ),
            (WaitingView::Children(p), EventView::Children(children, failures)) => {
                let grown = TraversalView { pending: self.pending + stacked(children), ..self };
                grown.move_on(failure_lines(p, failures))
            },
            (WaitingView::Children(p), EventView::ListFailed(reason)) => self.move_on(
                seq![error_line(unreadable_message(p, reason))],
            ),
            _ => Effect { next: self, logs: Seq::<LogLineView>::empty(), shown: None },
        }
    }

    /// Whether the walk is sound: what it waits for is not excluded.
    pub open spec fn sound(self) -> bool {
        match self.waiting {
            WaitingView::Nothing => true,
            WaitingView::Kind(e) => !excludes(self.rules, e.path),
            WaitingView::Content(p) => !excludes(self.rules, p),
            WaitingView::Children(p) => !excludes(self.rules, p),
        }
    }

    /// The walk at its start over the given paths, before its first step.
    pub open spec fn initial(
        viewer: FileCatView,
        rules: Seq<Seq<char>>,
        recursive: bool,
        paths: Seq<Seq<char>>,
    ) -> TraversalView {
        TraversalView {
            viewer,
            rules,
            recursive,
            pending: stacked_top(paths),
            waiting: WaitingView::Nothing,
        }
    }
}

/// An entry still to be visited.
#[derive(Debug)]
struct Entry {
    path: String,
    top_level: bool,
}

/// What kind of answer the walk waits for.
#[derive(Clone, Copy, Debug, PartialEq, Eq, Structural)]
enum Phase {
    Nothing,
    Kind,
    Content,
    Children,
}

/// The entries as mathematical values, in order.
spec fn entry_views(entries: Seq<Entry>) -> Seq<EntryView> {
    Seq::new(
        entries.len(),
        |i: int| EntryView { path: entries[i].path@, top_level: entries[i].top_level },
    )
}

/// The walk over the entries of a run.
#[derive(Debug)]
pub struct Traversal {
    viewer: FileCat,
    matcher: ExclusionMatcher,
    recursive: bool,
    pending: Vec<Entry>,
    phase: Phase,
    current: String,
    current_top: bool,
}

impl View for Traversal {
    type V = TraversalView;

    closed spec fn view(&self) -> TraversalView {
        TraversalView {
            viewer: self.viewer@,
            rules: self.matcher@,
            recursive: self.recursive,
            pending: entry_views(self.pending@),
            waiting: match self.phase {
                Phase::Nothing => WaitingView::Nothing,
                Phase::Kind => WaitingView::Kind(
                    EntryView { path: self.current@, top_level: self.current_top },
                ),
                Phase::Content => WaitingView::Content(self.current@),
                Phase::Children => WaitingView::Children(self.current@),
            },
        }
    }
}

impl Traversal {
    /// The walk over `paths`, in their order, before its first step.
    pub fn new(
        viewer: FileCat,
        matcher: ExclusionMatcher,
        recursive: bool,
        paths: Vec<String>,
    ) -> (walk: Traversal)
        ensures
            walk@ == TraversalView::initial(viewer@, matcher@, recursive, texts(paths@)),
            walk@.sound(),
    {
        let mut paths = paths;
        let ghost given = texts(paths@);
        let mut pending: Vec<Entry> = Vec::new();
        loop
            invariant
                paths@.len() + pending@.len() == given.len(),
                texts(paths@) == given.take(paths@.len() as int),
                entry_views(pending@) == stacked_top(given).take(pending@.len() as int),
            ensures
                paths@.len() == 0,
            decreases paths@.len(),
        {
            let ghost before = pending@;
            let ghost left = paths@;
            match paths.pop() {
                Some(path) => {
                    pending.push(Entry { path, top_level: true });
                    assert(path@ == texts(left)[left.len() - 1]);
                    assert(texts(paths@) =~= given.take(paths@.len() as int)) by {
                        assert forall|i: int| 0 <= i < paths@.len() implies texts(paths@)[i]
                            == given[i] by {
                            assert(texts(left)[i] == given.take(left.len() as int)[i]);
                        }
                    }
                    assert(entry_views(pending@) =~= stacked_top(given).take(
                        pending@.len() as int,
                    )) by {
                        assert forall|i: int| 0 <= i < pending@.len() implies entry_views(
                            pending@,
                        )[i] == stacked_top(given)[i] by {
                            if i < before.len() {
                                assert(entry_views(before)[i] == stacked_top(given).take(
                                    before.len() as int,
                                )[i]);
                            }
                        }
                    }
                },
                None => {
                    break ;
                },
            }
        }
        assert(stacked_top(given).take(given.len() as int) =~= stacked_top(given));
        Traversal {
            viewer,
            matcher,
            recursive,
            pending,
            phase: Phase::Nothing,
            current: String::new(),
            current_top: false,
        }
    }

    /// The run's settings and count.
    pub fn viewer(&self) -> (v: &FileCat)
        ensures
            v@ == self@.viewer,
    {
        &self.viewer
    }

    /// Whether the walk waits for nothing: it has not begun, or is over.
    pub fn is_idle(&self) -> (b: bool)
        ensures
            b == (self@.waiting is Nothing),
    {
        self.phase == Phase::Nothing
    }

    /// The request that stands open.
    pub fn request(&self) -> (r: Request)
        ensures
            r@ == self@.request(),
    {
        match self.phase {
            Phase::Nothing => Request::Finish,
            Phase::Kind => Request::Inspect(self.current.clone()),
            Phase::Content => Request::Read(self.current.clone()),
            Phase::Children => Request::List(self.current.clone()),
        }
    }

    /// Turns to the next entry that is not excluded.
    fn proceed(&mut self)
        ensures
            final(self)@ == old(self)@.proceed(),
    {
        let ghost rules = self@.rules;
        loop
            invariant
                self@.rules == rules,
                self@.viewer == old(self)@.viewer,
                self@.recursive == old(self)@.recursive,
                rules == old(self)@.rules,
                settle(rules, self@.pending) == settle(rules, old(self)@.pending),
            decreases self.pending@.len(),
        {
            let ghost before = self@.pending;
            match self.pending.pop() {
                Some(entry) => {
                    assert(before.last() == (EntryView {
                        path: entry.path@,
                        top_level: entry.top_level,
                    }));
                    assert(self@.pending =~= before.drop_last());
                    if !self.matcher.is_excluded(entry.path.as_str()) {
                        self.phase = Phase::Kind;
                        self.current = entry.path;
                        self.current_top = entry.top_level;
                        return ;
                    }
                },
                None => {
                    self.phase = Phase::Nothing;
                    assert(self@.pending =~= before);
                    return ;
                },
            }
        }
    }

    /// Ends the work on one entry with the given messages and turns to
    /// the next.
    fn move_on(&mut self, logs: Vec<LogLine>) -> (step: Step)
        ensures
            final(self)@ == old(self)@.move_on(log_views(logs@)).next,
            log_views(step.logs@) == old(self)@.move_on(log_views(logs@)).logs,
            step.request@ == final(self)@.request(),
            step.output@ == Seq::<char>::empty(),
    {
        let mut logs = logs;
        let ghost given = log_views(logs@);
        self.proceed();
        if self.is_idle() && self.viewer.counter() {
            let line = total(self.viewer.file_count());
            logs.push(line);
            assert(log_views(logs@) =~= given + self@.closing());
        } else {
            assert(given + self@.closing() =~= given);
        }
        Step { output: String::new(), logs, request: self.request() }
    }

    /// Goes on waiting, now for something else about the same entry.
    fn wait_for(&mut self, phase: Phase) -> (step: Step)
        requires
            phase != Phase::Nothing,
            old(self).phase != Phase::Nothing,
        ensures
            final(self).phase == phase,
            final(self).current == old(self).current,
            final(self).current_top == old(self).current_top,
            final(self)@.viewer == old(self)@.viewer,
            final(self)@.rules == old(self)@.rules,
            final(self)@.recursive == old(self)@.recursive,
            final(self)@.pending == old(self)@.pending,
            log_views(step.logs@) == Seq::<LogLineView>::empty(),
            step.request@ == final(self)@.request(),
            step.output@ == Seq::<char>::empty(),
    {
        self.phase = phase;
        let logs: Vec<LogLine> = Vec::new();
        assert(log_views(logs@) =~= Seq::<LogLineView>::empty());
        Step { output: String::new(), logs, request: self.request() }
    }

    /// Takes the first step of the walk: turns to the first entry. Does
    /// nothing where the walk waits for an answer.
    pub fn start(&mut self) -> (step: Step)
        ensures
            old(self)@.waiting is Nothing ==> {
                &&& final(self)@ == old(self)@.proceed()
                &&& log_views(step.logs@) == final(self)@.closing()
            },
            !(old(self)@.waiting is Nothing) ==> {
                &&& final(self)@ == old(self)@
                &&& log_views(step.logs@) == Seq::<LogLineView>::empty()
            },
            step.request@ == final(self)@.request(),
            step.output@ == Seq::<char>::empty(),
            old(self)@.sound() ==> final(self)@.sound(),
    {
        proof {
            lemma_proceed_sound(self@);
        }
        let logs: Vec<LogLine> = Vec::new();
        assert(log_views(logs@) =~= Seq::<LogLineView>::empty());
        if self.is_idle() {
            let step = self.move_on(logs);
            assert(Seq::<LogLineView>::empty() + self@.closing() =~= self@.closing());
            step
        } else {
            Step { output: String::new(), logs, request: self.request() }
        }
    }

    /// Takes the answer to the open request and makes the next step.
    ///
    /// What is written, if anything, is the text of the file that the
    /// answer brought, under the run's settings.
    pub fn advance(&mut self, event: Event) -> (step: Step)
        requires
            old(self)@.waiting is Content && event is Content ==> old(self)@.viewer.can_count(),
        ensures
            old(self)@.sound() ==> final(self)@.sound(),
            final(self)@ == old(self)@.react(event@).next,
            log_views(step.logs@) == old(self)@.react(event@).logs,
            step.request@ == final(self)@.request(),
            match old(self)@.react(event@).shown {
                Some((path, content)) => old(self)@.viewer.is_text_for(path, content, step.output@),
                None => step.output@ == Seq::<char>::empty(),
            },
            !old(self)@.viewer.use_color ==> match old(self)@.react(event@).shown {
                Some((path, content)) => step.output@ == old(self)@.viewer.plain_text(
                    path,
                    content,
                ),
                None => true,
            },
    {
        proof {
            if self@.sound() {
                lemma_react_sound(self@, event@);
            }
        }
        match event {
            Event::Kind(kind) => {
                if self.phase == Phase::Kind {
                    self.process_path(kind)
                } else {
                    self.stay()
                }
            },
            Event::Content(bytes) => {
                if self.phase == Phase::Content {
                    self.process_file(bytes.as_slice())
                } else {
                    self.stay()
                }
            },
            Event::ReadFailed(reason) => {
                if self.phase == Phase::Content {
                    self.unreadable(reason.as_str())
                } else {
                    self.stay()
                }
            },
            Event::Children(listing) => {
                if self.phase == Phase::Children {
                    self.process_dir(listing)
                } else {
                    self.stay()
                }
            },
            Event::ListFailed(reason) => {
                if self.phase == Phase::Children {
                    self.unreadable(reason.as_str())
                } else {
                    self.stay()
                }
            },
        }
    }

    /// Takes what the entry that the walk waits for turned out to be. A
    /// file is to be read. A directory is to be listed where directories
    /// are entered, and passed over where not. Anything else is an error
    /// where it was given to the run, and passed over in silence where it
    /// was found in a directory.
    pub fn process_path(&mut self, kind: EntryKind) -> (step: Step)
        requires
            old(self)@.waiting is Kind,
        ensures
            final(self)@ == old(self)@.react(EventView::Kind(kind)).next,
            log_views(step.logs@) == old(self)@.react(EventView::Kind(kind)).logs,
            step.request@ == final(self)@.request(),
            step.output@ == Seq::<char>::empty(),
    {
        match kind {
            EntryKind::File => self.wait_for(Phase::Content),
            EntryKind::Directory => {
                if self.recursive {
                    self.wait_for(Phase::Children)
                } else {
                    let logs: Vec<LogLine> = Vec::new();
                    assert(log_views(logs@) =~= Seq::<LogLineView>::empty());
                    self.move_on(logs)
                }
            },
            EntryKind::Other => {
                let mut logs: Vec<LogLine> = Vec::new();
                if self.current_top {
                    logs.push(invalid_entry(self.current.as_str()));
                    assert(log_views(logs@) =~= seq![
                        error_line(invalid_entry_message(self.current@)),
                    ]);
                } else {
                    assert(log_views(logs@) =~= Seq::<LogLineView>::empty());
                }
                self.move_on(logs)
            },
        }
    }

    /// Changes nothing and repeats the open request.
    fn stay(&self) -> (step: Step)
        ensures
            log_views(step.logs@) == Seq::<LogLineView>::empty(),
            step.request@ == self@.request(),
            step.output@ == Seq::<char>::empty(),
    {
        let logs: Vec<LogLine> = Vec::new();
        assert(log_views(logs@) =~= Seq::<LogLineView>::empty());
        Step { output: String::new(), logs, request: self.request() }
    }

    /// Gives up the entry at hand, which could not be read, with an
    /// error that holds the reason, and turns to the next.
    fn unreadable(&mut self, reason: &str) -> (step: Step)
        requires
            old(self).phase != Phase::Nothing,
        ensures
            final(self)@ == old(self)@.move_on(
                seq![error_line(unreadable_message(old(self).current@, reason@))],
            ).next,
            log_views(step.logs@) == old(self)@.move_on(
                seq![error_line(unreadable_message(old(self).current@, reason@))],
            ).logs,
            step.request@ == final(self)@.request(),
            step.output@ == Seq::<char>::empty(),
    {
        let mut logs: Vec<LogLine> = Vec::new();
        logs.push(unreadable(self.current.as_str(), reason));
        assert(log_views(logs@) =~= seq![
            error_line(unreadable_message(self.current@, reason@)),
        ]);
        self.move_on(logs)
    }

    /// Shows the file that the walk waits for, given its content, and
    /// turns to the next entry.
    pub fn process_file(&mut self, content: &[u8]) -> (step: Step)
        requires
            old(self)@.waiting is Content,
            old(self)@.viewer.can_count(),
        ensures
            final(self)@ == old(self)@.react(EventView::Content(content@)).next,
            log_views(step.logs@) == old(self)@.react(EventView::Content(content@)).logs,
            step.request@ == final(self)@.request(),
            old(self)@.viewer.is_text_for(old(self)@.waiting->Content_0, content@, step.output@),
            !old(self)@.viewer.use_color ==> step.output@ == old(self)@.viewer.plain_text(
                old(self)@.waiting->Content_0,
                content@,
            ),
    {
        let shown = self.viewer.process_file(self.current.as_str(), content);
        let mut logs: Vec<LogLine> = Vec::new();
        match shown.log {
            Some(line) => {
                logs.push(line);
                assert(log_views(logs@) =~= seq![info_line(line.message@)]);
            },
            None => {
                assert(log_views(logs@) =~= Seq::<LogLineView>::empty());
            },
        }
        let step = self.move_on(logs);
        Step { output: shown.text, logs: step.logs, request: step.request }
    }

    /// Takes the children of the directory that the walk waits for: they
    /// are visited next, in their order, before anything else. Each
    /// failure is logged as an error.
    pub fn process_dir(&mut self, listing: Listing) -> (step: Step)
        requires
            old(self)@.waiting is Children,
        ensures
            final(self)@ == old(self)@.react(
                EventView::Children(texts(listing.children@), texts(listing.failures@)),
            ).next,
            log_views(step.logs@) == old(self)@.react(
                EventView::Children(texts(listing.children@), texts(listing.failures@)),
            ).logs,
            step.request@ == final(self)@.request(),
            step.output@ == Seq::<char>::empty(),
    {
        let ghost given = texts(listing.children@);
        let ghost faults = texts(listing.failures@);
        let mut children = listing.children;
        let failures = listing.failures;
        let mut logs: Vec<LogLine> = Vec::new();
        let mut i: usize = 0;
        assert(log_views(logs@) =~= failure_lines(self.current@, faults).take(0));
        while i < failures.len()
            invariant
                i <= failures.len(),
                faults == texts(failures@),
                self.current == old(self).current,
                logs@.len() == i,
                log_views(logs@) == failure_lines(self.current@, faults).take(i as int),
            decreases failures.len() - i,
        {
            let ghost before = log_views(logs@);
            let line = unreadable(self.current.as_str(), failures[i].as_str());
            assert(faults[i as int] == failures@[i as int]@);
            assert(line@ == failure_lines(self.current@, faults)[i as int]);
            logs.push(line);
            assert(log_views(logs@) =~= failure_lines(self.current@, faults).take(i + 1)) by {
                let want = failure_lines(self.current@, faults).take(i + 1);
                assert forall|k: int| 0 <= k < i + 1 implies log_views(logs@)[k] == want[k] by {
                    if k < i {
                        assert(before[k] == failure_lines(self.current@, faults).take(i as int)[k]);
                    }
                }
            }
            i += 1;
        }
        assert(failure_lines(self.current@, faults).take(faults.len() as int) =~= failure_lines(
            self.current@,
            faults,
        ));
        let ghost held = self.pending@;
        assert(entry_views(held) + stacked(given).take(0) =~= entry_views(held));
        loop
            invariant
                self.viewer == old(self).viewer,
                self.matcher == old(self).matcher,
                self.recursive == old(self).recursive,
                self.phase == old(self).phase,
                self.current == old(self).current,
                self.current_top == old(self).current_top,
                held == old(self).pending@,
                self.pending@.len() == held.len() + given.len() - children@.len(),
                children@.len() <= given.len(),
                texts(children@) == given.take(children@.len() as int),
                entry_views(self.pending@) == entry_views(held) + stacked(given).take(
                    given.len() - children@.len(),
                ),
            ensures
                children@.len() == 0,
            decreases children@.len(),
        {
            let ghost before = self.pending@;
            let ghost left = children@;
            match children.pop() {
                Some(path) => {
                    self.pending.push(Entry { path, top_level: false });
                    assert(path@ == texts(left)[left.len() - 1]);
                    assert(path@ == given[left.len() - 1]);
                    assert(texts(children@) =~= given.take(children@.len() as int)) by {
                        assert forall|k: int| 0 <= k < children@.len() implies texts(
                            children@,
                        )[k] == given[k] by {
                            assert(texts(left)[k] == given.take(left.len() as int)[k]);
                        }
                    }
                    assert(entry_views(self.pending@) =~= entry_views(held) + stacked(given).take(
                        given.len() - children@.len(),
                    )) by {
                        let want = entry_views(held) + stacked(given).take(
                            given.len() - children@.len(),
                        );
                        let had = entry_views(held) + stacked(given).take(
                            given.len() - left.len(),
                        );
                        assert forall|k: int| 0 <= k < self.pending@.len() implies entry_views(
                            self.pending@,
                        )[k] == want[k] by {
                            if k < before.len() {
                                assert(entry_views(before)[k] == had[k]);
                            }
                        }
                    }
                },
                None => {
                    break ;
                },
            }
        }
        assert(stacked(given).take(given.len() as int) =~= stacked(given));
        self.move_on(logs)
    }
}

/// The path that a request names, if it names one.
pub open spec fn requested_path(request: RequestView) -> Option<Seq<char>> {
    match request {
        RequestView::Inspect(p) => Some(p),
        RequestView::Read(p) => Some(p),
        RequestView::List(p) => Some(p),
        RequestView::Finish => None,
    }
}

/// What is left after the excluded entries at the end are taken off is a
/// beginning of the entries, and ends in an entry that is not excluded.
pub proof fn lemma_settle(rules: Seq<Seq<char>>, pending: Seq<EntryView>)
    ensures
        settle(rules, pending).len() <= pending.len(),
        settle(rules, pending) == pending.take(settle(rules, pending).len() as int),
        settle(rules, pending).len() > 0 ==> !excludes(rules, settle(rules, pending).last().path),
        forall|i: int|
            settle(rules, pending).len() <= i < pending.len() ==> excludes(
                rules,
                (#[trigger] pending[i]).path,
            ),
    decreases pending.len(),
{
    if pending.len() > 0 && excludes(rules, pending.last().path) {
        lemma_settle(rules, pending.drop_last());
        let kept = settle(rules, pending);
        assert(pending.drop_last().take(kept.len() as int) =~= pending.take(kept.len() as int));
        assert forall|i: int| kept.len() <= i < pending.len() implies excludes(
            rules,
            (#[trigger] pending[i]).path,
        ) by {
            if i < pending.len() - 1 {
                assert(pending.drop_last()[i] == pending[i]);
            }
        }
    } else {
        assert(pending.take(pending.len() as int) =~= pending);
    }
}

/// Turning to the next entry never lands on an excluded one.
pub proof fn lemma_proceed_sound(walk: TraversalView)
    ensures
        walk.proceed().sound(),
{
    lemma_settle(walk.rules, walk.pending);
}

/// No step makes the walk wait for an excluded entry: an excluded file is
/// never read, and an excluded directory is never listed, so that nothing
/// below it is ever visited.
pub proof fn lemma_react_sound(walk: TraversalView, event: EventView)
    requires
        walk.sound(),
    ensures
        walk.react(event).next.sound(),
        match requested_path(walk.react(event).next.request()) {
            Some(path) => !excludes(walk.rules, path),
            None => true,
        },
{
    let next = walk.react(event).next;
    match (walk.waiting, event) {
        (WaitingView::Kind(e), EventView::Kind(EntryKind::File)) => {},
        (WaitingView::Kind(e), EventView::Kind(EntryKind::Directory)) => {
            lemma_proceed_sound(walk);
        },
        (WaitingView::Kind(e), EventView::Kind(EntryKind::Other)) => {
            lemma_proceed_sound(walk);
        },
        (WaitingView::Content(p), EventView::Content(bytes)) => {
            lemma_proceed_sound(TraversalView { viewer: walk.viewer.after_file(), ..walk });
        },
        (WaitingView::Content(p), EventView::ReadFailed(reason)) => {
            lemma_proceed_sound(walk);
        },
        (WaitingView::Children(p), EventView::Children(children, failures)) => {
            lemma_proceed_sound(
                TraversalView { pending: walk.pending + stacked(children), ..walk },
            );
        },
        (WaitingView::Children(p), EventView::ListFailed(reason)) => {
            lemma_proceed_sound(walk);
        },
        _ => {},
    }
}

/// A step changes neither the settings nor the rules. The count goes up
/// by one when the content of a file arrives and files are counted, and
/// stays as it is in every other step.
pub proof fn lemma_react_counts(walk: TraversalView, event: EventView)
    ensures
        walk.react(event).next.rules == walk.rules,
        walk.react(event).next.recursive == walk.recursive,
        walk.react(event).next.viewer == (FileCatView {
            file_count: walk.react(event).next.viewer.file_count,
            ..walk.viewer
        }),
        walk.react(event).next.viewer.file_count == walk.viewer.file_count + (if walk.waiting
            is Content && event is Content && walk.viewer.counter {
            1nat
        } else {
            0nat
        }),
        walk.react(event).shown is Some <==> (walk.waiting is Content && event is Content),
{
}

/// After a directory is listed, its first child is looked at next,
/// unless it is excluded, and the other children stand before whatever
/// stood there already.
pub proof fn lemma_children_come_first(
    walk: TraversalView,
    children: Seq<Seq<char>>,
    failures: Seq<Seq<char>>,
)
    requires
        walk.waiting is Children,
        children.len() > 0,
        !excludes(walk.rules, children[0]),
    ensures
        walk.react(EventView::Children(children, failures)).next.waiting == WaitingView::Kind(
            EntryView { path: children[0], top_level: false },
        ),
        walk.react(EventView::Children(children, failures)).next.pending == walk.pending
            + stacked(children.skip(1)),
{
    let grown = walk.pending + stacked(children);
    assert(grown.last() == stacked(children).last());
    assert(stacked(children).last().path == children[0]);
    assert(grown.drop_last() =~= walk.pending + stacked(children.skip(1)));
}

/// A directory is entered only where the run asks for it: without that,
/// the answer that an entry is a directory makes the walk pass on.
pub proof fn lemma_directories_not_entered(walk: TraversalView)
    requires
        walk.waiting is Kind,
        !walk.recursive,
    ensures
        walk.react(EventView::Kind(EntryKind::Directory)).next == walk.proceed(),
        !(walk.react(EventView::Kind(EntryKind::Directory)).next.waiting is Children),
{
}

/// One bad entry never ends the walk: after a failure the walk turns to
/// the next entry as it would have after a success.
pub proof fn lemma_failures_pass_on(walk: TraversalView, reason: Seq<char>)
    ensures
        walk.waiting is Content ==> walk.react(EventView::ReadFailed(reason)).next
            == walk.proceed(),
        walk.waiting is Children ==> walk.react(EventView::ListFailed(reason)).next
            == walk.proceed(),
        walk.waiting is Kind ==> walk.react(EventView::Kind(EntryKind::Other)).next
            == walk.proceed(),
{
}

} // verus!
