//! From the patterns given to a run to the entries it visits.
//!
//! A pattern without a wildcard is an entry as it stands. Any other
//! pattern is expanded against the directories on disk: the caller lists
//! the directories that are asked for, one at a time, and what is found
//! in them is held against the pattern and the exclusion rules.

use vstd::prelude::*;
use vstd::slice::slice_subrange;
use vstd::string::StringExecFns;
use crate::exclude::{excludes, is_first_fault, ExclusionMatcher};
use crate::glob::{
    glob_matches,
    has_any_path,
    is_literal,
    lemma_literal_len,
    lemma_match_starts_literally,
    lemma_no_match_below,
    literal_len,
    parse_pattern,
    pattern_matches,
    separators,
    well_formed,
    Pattern,
    PatternError,
    TokenView,
};
use crate::log::{passed_over, unreadable_message, warning_line, LogLine};
use crate::path::{normalize, normalize_chars};
use crate::text::{chars_of, count_char, count_of, push_all, string_of, texts};

verus! {

/// Where the directory part of the first `w` characters ends: behind
/// their last `/`, or at zero where they hold none.
pub open spec fn prefix_end(p: Seq<char>, w: int) -> int
    decreases w,
{
    if w <= 0 {
        0
    } else if p[w - 1] == '/' {
        w
    } else {
        prefix_end(p, w - 1)
    }
}

/// The directory that every match of the pattern lies in: what stands
/// before the first wildcard, up to and with its last `/`. Empty for the
/// current directory.
pub open spec fn dir_prefix(p: Seq<char>) -> Seq<char> {
    p.take(prefix_end(p, literal_len(p) as int))
}

/// The tokens of the pattern `raw`, brought to normal form.
pub open spec fn tokens_of(raw: Seq<char>) -> Seq<TokenView> {
    parse_pattern(normalize(raw))->Ok_0
}

/// Whether the pattern `raw` yields the entry at `path`: the pattern
/// stands for the path, and no rule excludes it.
pub open spec fn selects(raw: Seq<char>, rules: Seq<Seq<char>>, path: Seq<char>) -> bool {
    !excludes(rules, path) && pattern_matches(normalize(raw), normalize(path))
}

/// Whether anything below the directory at `path` can match the
/// pattern: the pattern crosses directories, or has more components than
/// the path.
pub open spec fn may_hold_matches(raw: Seq<char>, path: Seq<char>) -> bool {
    has_any_path(tokens_of(raw)) || count_of(normalize(path), '/') < separators(tokens_of(raw))
}

/// What a directory holds, as the caller found it.
#[derive(Debug)]
pub struct Child {
    /// The name of the child, without the directory.
    pub name: String,
    pub is_dir: bool,
}

/// A child as a mathematical value.
pub struct ChildView {
    pub name: Seq<char>,
    pub is_dir: bool,
}

impl View for Child {
    type V = ChildView;

    open spec fn view(&self) -> ChildView {
        ChildView { name: self.name@, is_dir: self.is_dir }
    }
}

/// The children as mathematical values, in order.
pub open spec fn child_views(children: Seq<Child>) -> Seq<ChildView> {
    Seq::new(children.len(), |i: int| children[i]@)
}

/// Whether the walk for the pattern `raw` enters the child at `path`.
pub open spec fn enters(
    raw: Seq<char>,
    rules: Seq<Seq<char>>,
    child: ChildView,
    path: Seq<char>,
) -> bool {
    child.is_dir && !excludes(rules, path) && may_hold_matches(raw, path)
}

/// The paths of the children that the pattern yields, in the order of
/// the listing. `prefix` is the path of the directory, closed by `/`
/// unless it is empty.
pub open spec fn matches_in(
    raw: Seq<char>,
    rules: Seq<Seq<char>>,
    prefix: Seq<char>,
    children: Seq<ChildView>,
) -> Seq<Seq<char>>
    decreases children.len(),
{
    if children.len() == 0 {
        Seq::<Seq<char>>::empty()
    } else {
        let path = prefix + children[0].name;
        let rest = matches_in(raw, rules, prefix, children.skip(1));
        if selects(raw, rules, path) {
            seq![path] + rest
        } else {
            rest
        }
    }
}

/// The directories among the children that the walk enters, each closed
/// by `/`, the last of the listing first.
pub open spec fn dirs_in(
    raw: Seq<char>,
    rules: Seq<Seq<char>>,
    prefix: Seq<char>,
    children: Seq<ChildView>,
) -> Seq<Seq<char>>
    decreases children.len(),
{
    if children.len() == 0 {
        Seq::<Seq<char>>::empty()
    } else {
        let path = prefix + children.last().name;
        let rest = dirs_in(raw, rules, prefix, children.drop_last());
        if enters(raw, rules, children.last(), path) {
            seq![path + seq!['/']] + rest
        } else {
            rest
        }
    }
}

/// The expansion as a mathematical value.
pub struct ExpansionView {
    /// The patterns, as they were given.
    pub inputs: Seq<Seq<char>>,
    /// Which pattern is at work; the ones before it are done.
    pub cursor: nat,
    /// Whether directories are walked for the pattern at work.
    pub walking: bool,
    /// The directories still to be listed for it; the next one is last.
    pub dirs: Seq<Seq<char>>,
    /// The directory whose listing is asked for, if one is.
    pub listing: Option<Seq<char>>,
    /// The entries found so far.
    pub found: Seq<Seq<char>>,
}

impl ExpansionView {
    /// The expansion of the given patterns before its first step.
    pub open spec fn initial(inputs: Seq<Seq<char>>) -> ExpansionView {
        ExpansionView {
            inputs,
            cursor: 0,
            walking: false,
            dirs: Seq::<Seq<char>>::empty(),
            listing: None,
            found: Seq::<Seq<char>>::empty(),
        }
    }

    /// Whether the expansion is over.
    pub open spec fn done(self) -> bool {
        self.listing.is_none() && self.cursor >= self.inputs.len()
    }

    /// The directory that the caller is asked to list, if any: `.` for
    /// the current directory.
    pub open spec fn request(self) -> Option<Seq<char>> {
        match self.listing {
            Some(prefix) => Some(
                if prefix.len() == 0 {
                    seq!['.']
                } else {
                    prefix
                },
            ),
            None => None,
        }
    }

    /// The expansion turned to its next directory. A pattern without a
    /// wildcard is an entry as it stands, unless it is excluded; for any
    /// other pattern the walk starts at the directory that all its
    /// matches lie in.
    pub open spec fn proceed(self, rules: Seq<Seq<char>>) -> ExpansionView
        decreases
                (if self.cursor < self.inputs.len() {
                    2 * (self.inputs.len() - self.cursor) + if self.walking {
                        1int
                    } else {
                        0int
                    }
                } else {
                    0
                }),
    {
        if self.cursor >= self.inputs.len() {
            ExpansionView { walking: false, listing: None, ..self }
        } else if self.walking {
            if self.dirs.len() > 0 {
                ExpansionView {
                    listing: Some(self.dirs.last()),
                    dirs: self.dirs.drop_last(),
                    ..self
                }
            } else {
                (ExpansionView {
                    cursor: self.cursor + 1,
                    walking: false,
                    listing: None,
                    ..self
                }).proceed(rules)
            }
        } else {
            let raw = self.inputs[self.cursor as int];
            if is_literal(normalize(raw)) {
                (ExpansionView {
                    found: if excludes(rules, raw) {
                        self.found
                    } else {
                        self.found.push(raw)
                    },
                    cursor: self.cursor + 1,
                    listing: None,
                    ..self
                }).proceed(rules)
            } else {
                ExpansionView {
                    walking: true,
                    listing: Some(dir_prefix(normalize(raw))),
                    dirs: Seq::<Seq<char>>::empty(),
                    ..self
                }
            }
        }
    }

    /// The expansion after the directory asked for was listed: the
    /// children that the pattern yields are found, and the directories
    /// among them that may hold more are listed next, in their order.
    pub open spec fn supply(self, rules: Seq<Seq<char>>, children: Seq<ChildView>) -> ExpansionView {
        let raw = self.inputs[self.cursor as int];
        let prefix = self.listing->Some_0;
        (ExpansionView {
            found: self.found + matches_in(raw, rules, prefix, children),
            dirs: self.dirs + dirs_in(raw, rules, prefix, children),
            listing: None,
            ..self
        }).proceed(rules)
    }

    /// The expansion after the directory asked for could not be listed:
    /// it is passed over.
    pub open spec fn pass_over(self, rules: Seq<Seq<char>>) -> ExpansionView {
        (ExpansionView { listing: None, ..self }).proceed(rules)
    }
}

/// An input pattern that could not be compiled, and why.
#[derive(Debug)]
pub struct InvalidInput {
    /// Which of the patterns it is, counting from zero.
    pub index: usize,
    /// The pattern as it was given.
    pub pattern: String,
    /// Its first fault.
    pub error: PatternError,
}

/// One input pattern, compiled.
#[derive(Debug)]
struct Input {
    raw: String,
    normal: Vec<char>,
    matcher: Pattern,
    wild_at: usize,
    prefix_len: usize,
    deep: bool,
    slashes: usize,
}

/// Whether what is held for the pattern is what the pattern gives.
spec fn input_ok(input: Input) -> bool {
    &&& input.normal@ == normalize(input.raw@)
    &&& parse_pattern(input.normal@) == Ok::<Seq<TokenView>, PatternError>(input.matcher@)
    &&& input.wild_at == literal_len(input.normal@)
    &&& input.prefix_len == prefix_end(input.normal@, input.wild_at as int)
    &&& input.prefix_len <= input.wild_at <= input.normal@.len()
    &&& input.deep == has_any_path(input.matcher@)
    &&& input.slashes == separators(input.matcher@)
}

/// The patterns as they were given, in order.
spec fn raw_inputs(inputs: Seq<Input>) -> Seq<Seq<char>> {
    Seq::new(inputs.len(), |i: int| inputs[i].raw@)
}

/// Counts the characters at the start of the pattern before its first
/// wildcard.
fn count_literal(p: &[char]) -> (n: usize)
    ensures
        n == literal_len(p@),
        n <= p.len(),
{
    let mut n: usize = 0;
    assert(p@.skip(0) =~= p@);
    while n < p.len() && !(p[n] == '*' || p[n] == '?' || p[n] == '[')
        invariant
            n <= p.len(),
            literal_len(p@) == n + literal_len(p@.skip(n as int)),
        decreases p.len() - n,
    {
        assert(p@.skip(n as int).skip(1) =~= p@.skip(n + 1));
        n += 1;
    }
    n
}

/// Finds where the directory part of the first `w` characters ends.
fn find_prefix_end(p: &[char], w: usize) -> (n: usize)
    requires
        w <= p.len(),
    ensures
        n == prefix_end(p@, w as int),
        n <= w,
{
    let mut n: usize = w;
    while n > 0 && p[n - 1] != '/'
        invariant
            n <= w <= p.len(),
            prefix_end(p@, w as int) == prefix_end(p@, n as int),
        decreases n,
    {
        n -= 1;
    }
    n
}

/// Compiles one input pattern.
fn compile_input(raw: &str) -> (r: Result<Input, PatternError>)
    ensures
        match r {
            Ok(input) => input_ok(input) && input.raw@ == raw@ && well_formed(normalize(raw@)),
            Err(e) => parse_pattern(normalize(raw@)) == Err::<Seq<TokenView>, PatternError>(e),
        },
{
    let chars = chars_of(raw);
    let normal = normalize_chars(chars.as_slice());
    match Pattern::parse_chars(normal.as_slice()) {
        Ok(matcher) => {
            let wild_at = count_literal(normal.as_slice());
            let prefix_len = find_prefix_end(normal.as_slice(), wild_at);
            let deep = matcher.crosses_directories();
            let slashes = matcher.count_separators();
            Ok(
                Input {
                    raw: String::from_str(raw),
                    normal,
                    matcher,
                    wild_at,
                    prefix_len,
                    deep,
                    slashes,
                },
            )
        },
        Err(e) => Err(e),
    }
}

/// The expansion of the patterns given to a run.
#[derive(Debug)]
pub struct Expansion {
    inputs: Vec<Input>,
    cursor: usize,
    walking: bool,
    dirs: Vec<String>,
    listing: bool,
    current: String,
    found: Vec<String>,
}

impl View for Expansion {
    type V = ExpansionView;

    closed spec fn view(&self) -> ExpansionView {
        ExpansionView {
            inputs: raw_inputs(self.inputs@),
            cursor: self.cursor as nat,
            walking: self.walking,
            dirs: texts(self.dirs@),
            listing: if self.listing {
                Some(self.current@)
            } else {
                None
            },
            found: texts(self.found@),
        }
    }
}

impl Expansion {
    /// Whether the expansion holds together: every pattern is compiled,
    /// and a directory is asked for only while a pattern is walked.
    pub closed spec fn wf(&self) -> bool {
        &&& forall|i: int| 0 <= i < self.inputs@.len() ==> input_ok(#[trigger] self.inputs@[i])
        &&& self.cursor <= self.inputs@.len()
        &&& (self.listing ==> self.walking)
        &&& (self.walking ==> self.cursor < self.inputs@.len())
        &&& (!self.walking ==> self.dirs@.len() == 0)
    }

    /// Compiles the patterns given to a run.
    ///
    /// Succeeds exactly when every pattern, in normal form, is well
    /// formed. Otherwise the error names the first pattern that is not,
    /// with its fault.
    pub fn new(patterns: &Vec<String>) -> (r: Result<Expansion, InvalidInput>)
        ensures
            match r {
                Ok(e) => {
                    &&& e.wf()
                    &&& e@ == ExpansionView::initial(texts(patterns@))
                    &&& forall|i: int|
                        0 <= i < patterns.len() ==> well_formed(normalize(#[trigger] patterns[i]@))
                },
                Err(e) => {
                    &&& is_first_fault(patterns@, e.index as int)
                    &&& e.pattern@ == patterns[e.index as int]@
                    &&& parse_pattern(normalize(patterns[e.index as int]@)) == Err::<
                        Seq<TokenView>,
                        PatternError,
                    >(e.error)
                },
            },
    {
        let mut inputs: Vec<Input> = Vec::new();
        let mut i: usize = 0;
        while i < patterns.len()
            invariant
                i <= patterns.len(),
                inputs@.len() == i,
                forall|j: int| 0 <= j < i ==> input_ok(#[trigger] inputs@[j]),
                forall|j: int| 0 <= j < i ==> (#[trigger] inputs@[j]).raw@ == patterns[j]@,
                forall|j: int| 0 <= j < i ==> well_formed(normalize(#[trigger] patterns[j]@)),
            decreases patterns.len() - i,
        {
            match compile_input(patterns[i].as_str()) {
                Ok(input) => {
                    inputs.push(input);
                },
                Err(error) => {
                    return Err(InvalidInput { index: i, pattern: patterns[i].clone(), error });
                },
            }
            i += 1;
        }
        let e = Expansion {
            inputs,
            cursor: 0,
            walking: false,
            dirs: Vec::new(),
            listing: false,
            current: String::new(),
            found: Vec::new(),
        };
        assert(e@.inputs =~= texts(patterns@));
        assert(e@.dirs =~= Seq::<Seq<char>>::empty());
        assert(e@.found =~= Seq::<Seq<char>>::empty());
        Ok(e)
    }

    /// Tests whether the expansion is over.
    pub fn is_done(&self) -> (b: bool)
        ensures
            b == self@.done(),
    {
        !self.listing && self.cursor >= self.inputs.len()
    }

    /// The directory that the caller is asked to list, if any.
    pub fn request(&self) -> (dir: Option<String>)
        ensures
            match dir {
                Some(d) => self@.request() == Some(d@),
                None => self@.request().is_none(),
            },
    {
        if !self.listing {
            None
        } else if self.current.as_str().is_empty() {
            proof {
                reveal_strlit(".");
            }
            let dot = String::from_str(".");
            assert(dot@ =~= seq!['.']);
            Some(dot)
        } else {
            Some(self.current.clone())
        }
    }

    /// The entries found so far.
    pub fn found(&self) -> (entries: &Vec<String>)
        ensures
            texts(entries@) == self@.found,
    {
        &self.found
    }

    /// Gives the entries found.
    pub fn into_found(self) -> (entries: Vec<String>)
        ensures
            texts(entries@) == self@.found,
    {
        self.found
    }

    /// Turns to the next directory to list.
    fn proceed(&mut self, matcher: &ExclusionMatcher)
        requires
            old(self).wf(),
            !old(self).listing,
        ensures
            final(self).wf(),
            final(self)@ == old(self)@.proceed(matcher@),
    {
        let ghost rules = matcher@;
        let ghost goal = old(self)@.proceed(rules);
        loop
            invariant
                self.wf(),
                !self.listing,
                rules == matcher@,
                goal == old(self)@.proceed(rules),
                self@.proceed(rules) == goal,
            decreases 2 * (self.inputs@.len() - self.cursor) + if self.walking {
                1int
            } else {
                0int
            },
        {
            let ghost here = self@;
            if self.cursor >= self.inputs.len() {
                self.walking = false;
                assert(self@ == here.proceed(rules));
                return ;
            }
            if self.walking {
                let ghost held = self.dirs@;
                match self.dirs.pop() {
                    Some(dir) => {
                        self.current = dir;
                        self.listing = true;
                        assert(texts(self.dirs@) =~= texts(held).drop_last());
                        assert(self@ == here.proceed(rules));
                        return ;
                    },
                    None => {
                        self.cursor += 1;
                        self.walking = false;
                        assert(texts(self.dirs@) =~= texts(held));
                    },
                }
            } else {
                let input = &self.inputs[self.cursor];
                assert(input_ok(*input));
                assert(here.inputs[self.cursor as int] == input.raw@);
                if input.wild_at == input.normal.len() {
                    let ghost had = self.found@;
                    if !matcher.is_excluded(input.raw.as_str()) {
                        self.found.push(input.raw.clone());
                        assert(texts(self.found@) =~= texts(had).push(input.raw@));
                    }
                    self.cursor += 1;
                } else {
                    let prefix = slice_subrange(input.normal.as_slice(), 0, input.prefix_len);
                    assert(prefix@ =~= dir_prefix(input.normal@));
                    self.current = string_of(prefix);
                    self.walking = true;
                    self.listing = true;
                    assert(texts(self.dirs@) =~= Seq::<Seq<char>>::empty());
                    assert(self@ == here.proceed(rules));
                    return ;
                }
            }
        }
    }

    /// Takes the first step: turns to the first directory to list. Gives
    /// the directory, or nothing where no pattern needs one.
    pub fn start(&mut self, matcher: &ExclusionMatcher) -> (dir: Option<String>)
        requires
            old(self).wf(),
        ensures
            final(self).wf(),
            old(self)@.listing.is_none() ==> final(self)@ == old(self)@.proceed(matcher@),
            old(self)@.listing.is_some() ==> final(self)@ == old(self)@,
            match dir {
                Some(d) => final(self)@.request() == Some(d@),
                None => final(self)@.request().is_none(),
            },
    {
        if !self.listing {
            self.proceed(matcher);
        }
        self.request()
    }

    /// Takes the listing of the directory asked for, and turns to the
    /// next. Gives the next directory to list, if there is one.
    pub fn supply(&mut self, matcher: &ExclusionMatcher, children: &Vec<Child>) -> (dir: Option<
        String,
    >)
        requires
            old(self).wf(),
            old(self)@.listing.is_some(),
        ensures
            final(self).wf(),
            final(self)@ == old(self)@.supply(matcher@, child_views(children@)),
            match dir {
                Some(d) => final(self)@.request() == Some(d@),
                None => final(self)@.request().is_none(),
            },
    {
        let ghost rules = matcher@;
        let ghost pre = self@;
        let ghost kids = child_views(children@);
        let ghost prefix_text = self.current@;
        let prefix = chars_of(self.current.as_str());
        let input = &self.inputs[self.cursor];
        assert(input_ok(*input));
        let ghost raw = input.raw@;
        assert(pre.inputs[self.cursor as int] == raw);
        let ghost had = texts(self.found@);
        let mut i: usize = 0;
        assert(kids.skip(0) =~= kids);
        assert(had + matches_in(raw, rules, prefix_text, kids) =~= texts(self.found@) + matches_in(
            raw,
            rules,
            prefix_text,
            kids,
        ));
        while i < children.len()
            invariant
                i <= children.len(),
                self.wf(),
                self.listing,
                self.walking,
                self.cursor == old(self).cursor,
                self.inputs == old(self).inputs,
                self.current == old(self).current,
                pre == old(self)@,
                self.dirs == old(self).dirs,
                had == texts(old(self).found@),
                kids == child_views(children@),
                prefix@ == prefix_text,
                rules == matcher@,
                input_ok(*input),
                raw == input.raw@,
                texts(self.found@) + matches_in(raw, rules, prefix_text, kids.skip(i as int)) == had
                    + matches_in(raw, rules, prefix_text, kids),
            decreases children.len() - i,
        {
            let ghost sofar = texts(self.found@);
            let ghost rest = kids.skip(i as int);
            let name = chars_of(children[i].name.as_str());
            let mut path: Vec<char> = Vec::new();
            push_all(&mut path, prefix.as_slice());
            push_all(&mut path, name.as_slice());
            assert(path@ =~= prefix_text + rest[0].name);
            assert(rest.skip(1) =~= kids.skip(i + 1));
            let normal = normalize_chars(path.as_slice());
            if !matcher.covers(normal.as_slice()) && input.matcher.matches_chars(
                normal.as_slice(),
            ) {
                assert(selects(raw, rules, path@));
                self.found.push(string_of(path.as_slice()));
                assert(texts(self.found@) =~= sofar.push(path@));
                assert(sofar.push(path@) + matches_in(raw, rules, prefix_text, rest.skip(1))
                    =~= sofar + matches_in(raw, rules, prefix_text, rest));
            } else {
                assert(!selects(raw, rules, path@));
            }
            i += 1;
        }
        assert(kids.skip(children.len() as int) =~= Seq::<ChildView>::empty());
        assert(texts(self.found@) =~= had + matches_in(raw, rules, prefix_text, kids));
        let ghost stack = texts(self.dirs@);
        let mut k: usize = children.len();
        assert(kids.take(children.len() as int) =~= kids);
        assert(stack + dirs_in(raw, rules, prefix_text, kids) =~= texts(self.dirs@) + dirs_in(
            raw,
            rules,
            prefix_text,
            kids,
        ));
        while k > 0
            invariant
                k <= children.len(),
                self.wf(),
                self.listing,
                self.walking,
                self.cursor == old(self).cursor,
                self.inputs == old(self).inputs,
                self.current == old(self).current,
                pre == old(self)@,
                stack == texts(old(self).dirs@),
                texts(self.found@) == had + matches_in(raw, rules, prefix_text, kids),
                had == texts(old(self).found@),
                prefix_text == old(self).current@,
                raw == pre.inputs[self.cursor as int],
                kids == child_views(children@),
                prefix@ == prefix_text,
                rules == matcher@,
                input_ok(*input),
                raw == input.raw@,
                texts(self.dirs@) + dirs_in(raw, rules, prefix_text, kids.take(k as int)) == stack
                    + dirs_in(raw, rules, prefix_text, kids),
            decreases k,
        {
            let ghost sofar = texts(self.dirs@);
            let ghost upto = kids.take(k as int);
            k -= 1;
            assert(upto.last() == kids[k as int]);
            assert(upto.drop_last() =~= kids.take(k as int));
            let child = &children[k];
            let name = chars_of(child.name.as_str());
            let mut path: Vec<char> = Vec::new();
            push_all(&mut path, prefix.as_slice());
            push_all(&mut path, name.as_slice());
            assert(path@ =~= prefix_text + upto.last().name);
            let ghost plain = path@;
            let mut entered = false;
            if child.is_dir {
                let normal = normalize_chars(path.as_slice());
                if !matcher.covers(normal.as_slice()) && (input.deep || count_char(
                    normal.as_slice(),
                    '/',
                ) < input.slashes) {
                    entered = true;
                }
            }
            assert(entered == enters(raw, rules, upto.last(), plain));
            if entered {
                path.push('/');
                assert(path@ =~= plain + seq!['/']);
                self.dirs.push(string_of(path.as_slice()));
                assert(texts(self.dirs@) =~= sofar.push(plain + seq!['/']));
                assert(sofar.push(plain + seq!['/']) + dirs_in(
                    raw,
                    rules,
                    prefix_text,
                    upto.drop_last(),
                ) =~= sofar + dirs_in(raw, rules, prefix_text, upto));
            }
        }
        assert(kids.take(0) =~= Seq::<ChildView>::empty());
        assert(texts(self.dirs@) =~= stack + dirs_in(raw, rules, prefix_text, kids));
        self.listing = false;
        self.proceed(matcher);
        self.request()
    }

    /// Passes over the directory asked for, which could not be listed,
    /// and turns to the next. Gives the warning to log.
    pub fn pass_over(&mut self, matcher: &ExclusionMatcher, reason: &str) -> (line: LogLine)
        requires
            old(self).wf(),
            old(self)@.listing.is_some(),
        ensures
            final(self).wf(),
            final(self)@ == old(self)@.pass_over(matcher@),
            line@ == warning_line(
                unreadable_message(old(self)@.request()->Some_0, reason@),
            ),
    {
        let dir = self.request();
        let line = match dir {
            Some(d) => passed_over(d.as_str(), reason),
            None => passed_over("", reason),
        };
        self.listing = false;
        self.proceed(matcher);
        line
    }
}

/// Where the directory part ends lies within the characters it is
/// taken from.
pub proof fn lemma_prefix_end(p: Seq<char>, w: int)
    requires
        0 <= w,
    ensures
        0 <= prefix_end(p, w) <= w,
    decreases w,
{
    if w > 0 && p[w - 1] != '/' {
        lemma_prefix_end(p, w - 1);
    }
}

/// Every entry that a listing adds is a child of the directory listed,
/// is what the pattern stands for, and is not excluded.
pub proof fn lemma_matches_in(
    raw: Seq<char>,
    rules: Seq<Seq<char>>,
    prefix: Seq<char>,
    children: Seq<ChildView>,
)
    ensures
        forall|k: int|
            0 <= k < matches_in(raw, rules, prefix, children).len() ==> {
                &&& selects(raw, rules, #[trigger] matches_in(raw, rules, prefix, children)[k])
                &&& exists|i: int|
                    0 <= i < children.len() && matches_in(raw, rules, prefix, children)[k]
                        == prefix + (#[trigger] children[i]).name
            },
        forall|i: int|
            0 <= i < children.len() && selects(raw, rules, prefix + (#[trigger] children[i]).name)
                ==> matches_in(raw, rules, prefix, children).contains(prefix + children[i].name),
    decreases children.len(),
{
    let found = matches_in(raw, rules, prefix, children);
    if children.len() > 0 {
        let rest = children.skip(1);
        let later = matches_in(raw, rules, prefix, rest);
        let path = prefix + children[0].name;
        lemma_matches_in(raw, rules, prefix, rest);
        let shift: int = if selects(raw, rules, path) {
            1
        } else {
            0
        };
        assert forall|k: int| 0 <= k < found.len() implies {
            &&& selects(raw, rules, #[trigger] found[k])
            &&& exists|i: int|
                0 <= i < children.len() && found[k] == prefix + (#[trigger] children[i]).name
        } by {
            if k < shift {
                assert(found[k] == prefix + children[0].name);
            } else {
                assert(found[k] == later[k - shift]);
                let i = choose|i: int|
                    0 <= i < rest.len() && later[k - shift] == prefix + (#[trigger] rest[i]).name;
                assert(rest[i] == children[i + 1]);
            }
        }
        assert forall|i: int|
            0 <= i < children.len() && selects(
                raw,
                rules,
                prefix + (#[trigger] children[i]).name,
            ) implies found.contains(prefix + children[i].name) by {
            if i == 0 {
                assert(found[0] == path);
            } else {
                assert(rest[i - 1] == children[i]);
                assert(later.contains(prefix + rest[i - 1].name));
                let k = choose|k: int| 0 <= k < later.len() && later[k] == prefix + rest[i - 1].name;
                assert(found[k + shift] == later[k]);
            }
        }
    }
}

/// Whether `dir` is the path, closed by `/`, of a child that the walk
/// enters.
pub open spec fn is_entered(
    raw: Seq<char>,
    rules: Seq<Seq<char>>,
    prefix: Seq<char>,
    children: Seq<ChildView>,
    dir: Seq<char>,
) -> bool {
    exists|i: int|
        0 <= i < children.len() && enters(
            raw,
            rules,
            #[trigger] children[i],
            prefix + children[i].name,
        ) && dir == prefix + children[i].name + seq!['/']
}

/// Every directory that a listing adds to the walk is a child of the
/// directory listed that is a directory, is not excluded, and may hold
/// matches.
pub proof fn lemma_dirs_in(
    raw: Seq<char>,
    rules: Seq<Seq<char>>,
    prefix: Seq<char>,
    children: Seq<ChildView>,
)
    ensures
        forall|k: int|
            0 <= k < dirs_in(raw, rules, prefix, children).len() ==> is_entered(
                raw,
                rules,
                prefix,
                children,
                #[trigger] dirs_in(raw, rules, prefix, children)[k],
            ),
    decreases children.len(),
{
    let dirs = dirs_in(raw, rules, prefix, children);
    if children.len() > 0 {
        let rest = children.drop_last();
        let later = dirs_in(raw, rules, prefix, rest);
        let path = prefix + children.last().name;
        lemma_dirs_in(raw, rules, prefix, rest);
        let shift: int = if enters(raw, rules, children.last(), path) {
            1
        } else {
            0
        };
        assert forall|k: int| 0 <= k < dirs.len() implies is_entered(
            raw,
            rules,
            prefix,
            children,
            #[trigger] dirs[k],
        ) by {
            if k < shift {
                let i = children.len() - 1;
                assert(enters(raw, rules, children[i], prefix + children[i].name));
                assert(dirs[k] == prefix + children[i].name + seq!['/']);
            } else {
                assert(dirs[k] == later[k - shift]);
                assert(is_entered(raw, rules, prefix, rest, later[k - shift]));
                let i = choose|i: int|
                    0 <= i < rest.len() && enters(
                        raw,
                        rules,
                        #[trigger] rest[i],
                        prefix + rest[i].name,
                    ) && later[k - shift] == prefix + rest[i].name + seq!['/'];
                assert(rest[i] == children[i]);
            }
        }
    }
}

/// Nothing is lost by passing a directory over: where nothing below it
/// may match, the pattern stands for no path that lies below it.
pub proof fn lemma_pruned_holds_nothing(raw: Seq<char>, path: Seq<char>, below: Seq<char>)
    requires
        well_formed(normalize(raw)),
        !may_hold_matches(raw, path),
    ensures
        !pattern_matches(normalize(raw), normalize(path) + seq!['/'] + below),
{
    lemma_no_match_below(tokens_of(raw), normalize(path), below);
}

/// Nothing is lost by starting the walk at the directory part of the
/// pattern: whatever the pattern stands for lies in it.
pub proof fn lemma_matches_lie_in_prefix(pattern: Seq<char>, path: Seq<char>)
    requires
        pattern_matches(pattern, path),
    ensures
        dir_prefix(pattern).len() <= path.len(),
        path.take(dir_prefix(pattern).len() as int) == dir_prefix(pattern),
{
    lemma_match_starts_literally(pattern, path);
    lemma_literal_len(pattern);
    let w = literal_len(pattern) as int;
    lemma_prefix_end(pattern, w);
    let e = prefix_end(pattern, w);
    assert(path.take(e) =~= path.take(w).take(e));
    assert(pattern.take(e) =~= pattern.take(w).take(e));
}

/// What was found stays found: turning to the next directory only adds
/// entries, and only patterns without a wildcard, as they were given.
pub proof fn lemma_proceed_keeps_found(x: ExpansionView, rules: Seq<Seq<char>>)
    ensures
        x.found.len() <= x.proceed(rules).found.len(),
        x.proceed(rules).found.take(x.found.len() as int) == x.found,
        x.proceed(rules).inputs == x.inputs,
        forall|k: int|
            x.found.len() <= k < x.proceed(rules).found.len() ==> exists|i: int|
                x.cursor <= i < x.inputs.len() && is_literal(normalize(#[trigger] x.inputs[i]))
                    && !excludes(rules, x.inputs[i]) && #[trigger] x.proceed(rules).found[k]
                    == x.inputs[i],
    decreases
            (if x.cursor < x.inputs.len() {
                2 * (x.inputs.len() - x.cursor) + if x.walking {
                    1int
                } else {
                    0int
                }
            } else {
                0
            }),
{
    let after = x.proceed(rules);
    if x.cursor >= x.inputs.len() {
        assert(after.found.take(x.found.len() as int) =~= x.found);
    } else if x.walking {
        if x.dirs.len() > 0 {
            assert(after.found.take(x.found.len() as int) =~= x.found);
        } else {
            let next = ExpansionView {
                cursor: x.cursor + 1,
                walking: false,
                listing: None,
                ..x
            };
            lemma_proceed_keeps_found(next, rules);
            assert forall|k: int| x.found.len() <= k < after.found.len() implies exists|i: int|
                x.cursor <= i < x.inputs.len() && is_literal(normalize(#[trigger] x.inputs[i]))
                    && !excludes(rules, x.inputs[i]) && #[trigger] after.found[k]
                    == x.inputs[i] by {
                let i = choose|i: int|
                    next.cursor <= i < next.inputs.len() && is_literal(
                        normalize(#[trigger] next.inputs[i]),
                    ) && !excludes(rules, next.inputs[i]) && after.found[k] == next.inputs[i];
                assert(x.inputs[i] == next.inputs[i]);
            }
        }
    } else {
        let raw = x.inputs[x.cursor as int];
        if is_literal(normalize(raw)) {
            let next = ExpansionView {
                found: if excludes(rules, raw) {
                    x.found
                } else {
                    x.found.push(raw)
                },
                cursor: x.cursor + 1,
                listing: None,
                ..x
            };
            lemma_proceed_keeps_found(next, rules);
            assert(after.found.take(x.found.len() as int) =~= after.found.take(
                next.found.len() as int,
            ).take(x.found.len() as int));
            assert(next.found.take(x.found.len() as int) =~= x.found);
            assert forall|k: int| x.found.len() <= k < after.found.len() implies exists|i: int|
                x.cursor <= i < x.inputs.len() && is_literal(normalize(#[trigger] x.inputs[i]))
                    && !excludes(rules, x.inputs[i]) && #[trigger] after.found[k]
                    == x.inputs[i] by {
                if k < next.found.len() {
                    assert(after.found[k] == after.found.take(next.found.len() as int)[k]);
                    assert(after.found[k] == raw);
                    assert(x.inputs[x.cursor as int] == raw);
                } else {
                    let i = choose|i: int|
                        next.cursor <= i < next.inputs.len() && is_literal(
                            normalize(#[trigger] next.inputs[i]),
                        ) && !excludes(rules, next.inputs[i]) && after.found[k] == next.inputs[i];
                    assert(x.inputs[i] == next.inputs[i]);
                }
            }
        } else {
            assert(after.found.take(x.found.len() as int) =~= x.found);
        }
    }
}

} // verus!
