//! Shell-style wildcard patterns: what they mean, how they are read, and
//! how a path is matched against one.
//!
//! In a pattern `?` stands for one character, `*` for any run of
//! characters, `**` for any run that may cross directories, and
//! `[...]` for one character out of a set (`[!...]`: not out of it).
//! Apart from `**`, no wildcard ever takes a `/`.

use vstd::prelude::*;
use crate::text::{chars_of, count_of, lemma_count_concat};

verus! {

/// One member of a bracketed set. Characters are held as their code
/// points.
#[derive(Clone, Copy, Debug, PartialEq, Eq, Structural)]
pub enum ClassItem {
    /// A single character.
    One(u32),
    /// Every character from the first up to the second.
    Range(u32, u32),
}

/// A member of a set as a mathematical value.
pub enum ClassItemView {
    One(int),
    Range(int, int),
}

impl View for ClassItem {
    type V = ClassItemView;

    open spec fn view(&self) -> ClassItemView {
        match *self {
            ClassItem::One(x) => ClassItemView::One(x as int),
            ClassItem::Range(lo, hi) => ClassItemView::Range(lo as int, hi as int),
        }
    }
}

/// The members as mathematical values, in order.
pub open spec fn item_views(items: Seq<ClassItem>) -> Seq<ClassItemView> {
    Seq::new(items.len(), |i: int| items[i]@)
}

/// The code point of a character.
pub fn code_point(c: char) -> (x: u32)
    ensures
        x as int == c as int,
{
    c as u32
}

/// One piece of a compiled pattern.
#[derive(Debug)]
pub enum Token {
    /// The character with this code point and no other.
    Literal(u32),
    /// `?`: any one character but `/`.
    AnyChar,
    /// `*`: any run of characters without `/`.
    AnyRun,
    /// `**`: any run of characters.
    AnyPath,
    /// `[...]` or, with `true`, `[!...]`: one character in, or not in,
    /// the set; never `/`.
    Class(bool, Vec<ClassItem>),
}

/// A token as a mathematical value.
pub enum TokenView {
    Literal(int),
    AnyChar,
    AnyRun,
    AnyPath,
    Class(bool, Seq<ClassItemView>),
}

impl View for Token {
    type V = TokenView;

    open spec fn view(&self) -> TokenView {
        match *self {
            Token::Literal(c) => TokenView::Literal(c as int),
            Token::AnyChar => TokenView::AnyChar,
            Token::AnyRun => TokenView::AnyRun,
            Token::AnyPath => TokenView::AnyPath,
            Token::Class(negated, items) => TokenView::Class(negated, item_views(items@)),
        }
    }
}

/// Whether the set member covers `c`.
pub open spec fn item_has(item: ClassItemView, c: char) -> bool {
    match item {
        ClassItemView::One(x) => c as int == x,
        ClassItemView::Range(lo, hi) => lo <= c as int <= hi,
    }
}

/// Whether some member of the set covers `c`.
pub open spec fn class_has(items: Seq<ClassItemView>, c: char) -> bool {
    exists|i: int| 0 <= i < items.len() && item_has(#[trigger] items[i], c)
}

/// Whether a token that stands for one character stands for `c`.
pub open spec fn takes(t: TokenView, c: char) -> bool {
    match t {
        TokenView::Literal(x) => c as int == x,
        TokenView::AnyChar => c != '/',
        TokenView::Class(negated, items) => c != '/' && (class_has(items, c) != negated),
        TokenView::AnyRun => false,
        TokenView::AnyPath => false,
    }
}

/// No `/` in the segment.
pub open spec fn within_component(seg: Seq<char>) -> bool {
    forall|i: int| 0 <= i < seg.len() ==> #[trigger] seg[i] != '/'
}

/// Whether the token stands for exactly the segment `seg`.
pub open spec fn accepts(t: TokenView, seg: Seq<char>) -> bool {
    match t {
        TokenView::AnyRun => within_component(seg),
        TokenView::AnyPath => true,
        _ => seg.len() == 1 && takes(t, seg[0]),
    }
}

/// Whether the tokens from index `i` on stand for the text from index `j`
/// on: the text can be cut into one segment for each token, in order.
pub open spec fn matches_from(toks: Seq<TokenView>, i: int, s: Seq<char>, j: int) -> bool
    decreases
            (if i < toks.len() {
                toks.len() - i
            } else {
                0
            }),
{
    if i < 0 || j < 0 || j > s.len() || i > toks.len() {
        false
    } else if i == toks.len() {
        j == s.len()
    } else {
        exists|k: int|
            j <= k <= s.len() && accepts(toks[i], #[trigger] s.subrange(j, k)) && matches_from(
                toks,
                i + 1,
                s,
                k,
            )
    }
}

/// Whether the pattern stands for the whole text.
pub open spec fn glob_matches(toks: Seq<TokenView>, s: Seq<char>) -> bool {
    matches_from(toks, 0, s, 0)
}

/// A token for one character takes the next character or fails.
pub proof fn lemma_step_single(toks: Seq<TokenView>, i: int, s: Seq<char>, j: int)
    requires
        0 <= i < toks.len(),
        0 <= j <= s.len(),
        !(toks[i] is AnyRun),
        !(toks[i] is AnyPath),
    ensures
        matches_from(toks, i, s, j) <==> (j < s.len() && takes(toks[i], s[j]) && matches_from(
            toks,
            i + 1,
            s,
            j + 1,
        )),
{
    if matches_from(toks, i, s, j) {
        let k = choose|k: int|
            j <= k <= s.len() && accepts(toks[i], #[trigger] s.subrange(j, k)) && matches_from(
                toks,
                i + 1,
                s,
                k,
            );
        assert(s.subrange(j, k).len() == 1);
        assert(s.subrange(j, k)[0] == s[j]);
    }
    if j < s.len() && takes(toks[i], s[j]) && matches_from(toks, i + 1, s, j + 1) {
        assert(s.subrange(j, j + 1)[0] == s[j]);
        assert(accepts(toks[i], s.subrange(j, j + 1)));
    }
}

/// `*` takes nothing, or one character that is not `/` and then goes on.
pub proof fn lemma_step_run(toks: Seq<TokenView>, i: int, s: Seq<char>, j: int)
    requires
        0 <= i < toks.len(),
        0 <= j <= s.len(),
        toks[i] is AnyRun,
    ensures
        matches_from(toks, i, s, j) <==> (matches_from(toks, i + 1, s, j) || (j < s.len() && s[j]
            != '/' && matches_from(toks, i, s, j + 1))),
{
    if matches_from(toks, i, s, j) {
        let k = choose|k: int|
            j <= k <= s.len() && accepts(toks[i], #[trigger] s.subrange(j, k)) && matches_from(
                toks,
                i + 1,
                s,
                k,
            );
        if k > j {
            assert(s.subrange(j, k)[0] == s[j]);
            let seg = s.subrange(j + 1, k);
            assert(within_component(seg)) by {
                assert forall|x: int| 0 <= x < seg.len() implies #[trigger] seg[x] != '/' by {
                    assert(s.subrange(j, k)[x + 1] == s[j + 1 + x]);
                }
            }
            assert(accepts(toks[i], s.subrange(j + 1, k)));
            assert(matches_from(toks, i, s, j + 1));
        }
    }
    if matches_from(toks, i + 1, s, j) {
        assert(within_component(s.subrange(j, j)));
        assert(accepts(toks[i], s.subrange(j, j)));
    }
    if j < s.len() && s[j] != '/' && matches_from(toks, i, s, j + 1) {
        let k = choose|k: int|
            j + 1 <= k <= s.len() && accepts(toks[i], #[trigger] s.subrange(j + 1, k))
                && matches_from(toks, i + 1, s, k);
        let seg = s.subrange(j, k);
        assert(within_component(seg)) by {
            assert forall|x: int| 0 <= x < seg.len() implies #[trigger] seg[x] != '/' by {
                if x > 0 {
                    assert(s.subrange(j + 1, k)[x - 1] == s[j + x]);
                }
            }
        }
        assert(accepts(toks[i], s.subrange(j, k)));
    }
}

/// `**` takes nothing, or any one character and then goes on.
pub proof fn lemma_step_path(toks: Seq<TokenView>, i: int, s: Seq<char>, j: int)
    requires
        0 <= i < toks.len(),
        0 <= j <= s.len(),
        toks[i] is AnyPath,
    ensures
        matches_from(toks, i, s, j) <==> (matches_from(toks, i + 1, s, j) || (j < s.len()
            && matches_from(toks, i, s, j + 1))),
{
    if matches_from(toks, i, s, j) {
        let k = choose|k: int|
            j <= k <= s.len() && accepts(toks[i], #[trigger] s.subrange(j, k)) && matches_from(
                toks,
                i + 1,
                s,
                k,
            );
        if k > j {
            assert(accepts(toks[i], s.subrange(j + 1, k)));
            assert(matches_from(toks, i, s, j + 1));
        }
    }
    if matches_from(toks, i + 1, s, j) {
        assert(accepts(toks[i], s.subrange(j, j)));
    }
    if j < s.len() && matches_from(toks, i, s, j + 1) {
        let k = choose|k: int|
            j + 1 <= k <= s.len() && accepts(toks[i], #[trigger] s.subrange(j + 1, k))
                && matches_from(toks, i + 1, s, k);
        assert(accepts(toks[i], s.subrange(j, k)));
    }
}

/// Tests whether the set member covers `c`.
pub fn item_covers(item: ClassItem, c: char) -> (r: bool)
    ensures
        r == item_has(item@, c),
{
    let code = code_point(c);
    match item {
        ClassItem::One(x) => code == x,
        ClassItem::Range(lo, hi) => lo <= code && code <= hi,
    }
}

/// Tests whether some member of the set covers `c`.
pub fn class_covers(items: &[ClassItem], c: char) -> (r: bool)
    ensures
        r == class_has(item_views(items@), c),
{
    let mut i: usize = 0;
    while i < items.len()
        invariant
            i <= items.len(),
            forall|x: int| 0 <= x < i ==> !item_has(#[trigger] item_views(items@)[x], c),
        decreases items.len() - i,
    {
        if item_covers(items[i], c) {
            assert(item_has(item_views(items@)[i as int], c));
            return true;
        }
        i += 1;
    }
    false
}

/// Tests whether a token for one character stands for `c`.
pub fn token_takes(t: &Token, c: char) -> (r: bool)
    ensures
        r == takes(t@, c),
{
    match t {
        Token::Literal(x) => code_point(c) == *x,
        Token::AnyChar => c != '/',
        Token::Class(negated, items) => c != '/' && (class_covers(items.as_slice(), c) != *negated),
        Token::AnyRun => false,
        Token::AnyPath => false,
    }
}

/// A compiled pattern.
#[derive(Debug)]
pub struct Pattern {
    tokens: Vec<Token>,
}

/// The tokens as mathematical values.
pub open spec fn views(tokens: Seq<Token>) -> Seq<TokenView> {
    Seq::new(tokens.len(), |i: int| tokens[i]@)
}

impl View for Pattern {
    type V = Seq<TokenView>;

    closed spec fn view(&self) -> Seq<TokenView> {
        views(self.tokens@)
    }
}

impl Pattern {
    /// Tests whether the pattern stands for the whole of `path`.
    pub fn matches_chars(&self, path: &[char]) -> (r: bool)
        ensures
            r == glob_matches(self@, path@),
    {
        let n = path.len();
        let m = self.tokens.len();
        let ghost toks = self@;
        let ghost s = path@;
        let mut cur: Vec<bool> = Vec::new();
        let mut j: usize = 0;
        while j < n
            invariant
                j <= n,
                n == s.len(),
                m == toks.len(),
                cur.len() == j,
                forall|x: int| 0 <= x < j ==> cur[x] == matches_from(toks, m as int, s, x),
            decreases n - j,
        {
            cur.push(false);
            j += 1;
        }
        cur.push(true);
        let mut i: usize = m;
        while i > 0
            invariant
                i <= m,
                n == s.len(),
                n == path.len(),
                s == path@,
                m == toks.len(),
                m == self.tokens.len(),
                toks == self@,
                cur.len() == n + 1,
                forall|x: int| 0 <= x <= n ==> cur[x] == matches_from(toks, i as int, s, x),
            decreases i,
        {
            i -= 1;
            let tok = &self.tokens[i];
            assert(toks[i as int] == tok@);
            let ghost before = cur@;
            match tok {
                Token::AnyRun => {
                    let mut j: usize = n;
                    proof {
                        lemma_step_run(toks, i as int, s, n as int);
                    }
                    while j > 0
                        invariant
                            j <= n,
                            n == s.len(),
                            n == path.len(),
                            s == path@,
                            0 <= i < toks.len(),
                            toks[i as int] is AnyRun,
                            cur.len() == n + 1,
                            before.len() == n + 1,
                            forall|x: int| 0 <= x < j ==> cur[x] == before[x],
                            forall|x: int|
                                0 <= x <= n ==> before[x] == matches_from(toks, i + 1, s, x),
                            forall|x: int|
                                j <= x <= n ==> cur[x] == matches_from(toks, i as int, s, x),
                        decreases j,
                    {
                        j -= 1;
                        proof {
                            lemma_step_run(toks, i as int, s, j as int);
                        }
                        assert(cur[j as int] == before[j as int]);
                        assert(cur[j + 1] == matches_from(toks, i as int, s, j + 1));
                        let v = cur[j] || (path[j] != '/' && cur[j + 1]);
                        assert(v == matches_from(toks, i as int, s, j as int));
                        cur.set(j, v);
                    }
                },
                Token::AnyPath => {
                    let mut j: usize = n;
                    proof {
                        lemma_step_path(toks, i as int, s, n as int);
                    }
                    while j > 0
                        invariant
                            j <= n,
                            n == s.len(),
                            0 <= i < toks.len(),
                            toks[i as int] is AnyPath,
                            cur.len() == n + 1,
                            before.len() == n + 1,
                            forall|x: int| 0 <= x < j ==> cur[x] == before[x],
                            forall|x: int|
                                0 <= x <= n ==> before[x] == matches_from(toks, i + 1, s, x),
                            forall|x: int|
                                j <= x <= n ==> cur[x] == matches_from(toks, i as int, s, x),
                        decreases j,
                    {
                        j -= 1;
                        proof {
                            lemma_step_path(toks, i as int, s, j as int);
                        }
                        assert(cur[j as int] == before[j as int]);
                        assert(cur[j + 1] == matches_from(toks, i as int, s, j + 1));
                        let v = cur[j] || cur[j + 1];
                        assert(v == matches_from(toks, i as int, s, j as int));
                        cur.set(j, v);
                    }
                },
                _ => {
                    let mut j: usize = 0;
                    while j < n
                        invariant
                            j <= n,
                            n == s.len(),
                            n == path.len(),
                            s == path@,
                            0 <= i < toks.len(),
                            toks[i as int] == tok@,
                            !(toks[i as int] is AnyRun),
                            !(toks[i as int] is AnyPath),
                            cur.len() == n + 1,
                            before.len() == n + 1,
                            forall|x: int| j <= x <= n ==> cur[x] == before[x],
                            forall|x: int|
                                0 <= x <= n ==> before[x] == matches_from(toks, i + 1, s, x),
                            forall|x: int|
                                0 <= x < j ==> cur[x] == matches_from(toks, i as int, s, x),
                        decreases n - j,
                    {
                        proof {
                            lemma_step_single(toks, i as int, s, j as int);
                        }
                        assert(cur[j + 1] == before[j + 1]);
                        let v = token_takes(tok, path[j]) && cur[j + 1];
                        assert(v == matches_from(toks, i as int, s, j as int));
                        cur.set(j, v);
                        j += 1;
                    }
                    proof {
                        lemma_step_single(toks, i as int, s, n as int);
                    }
                    cur.set(n, false);
                },
            }
        }
        cur[0]
    }

    /// Tests whether the pattern stands for the whole of `path`.
    pub fn matches(&self, path: &str) -> (r: bool)
        ensures
            r == glob_matches(self@, path@),
    {
        let chars = chars_of(path);
        self.matches_chars(chars.as_slice())
    }
}

/// Why a pattern cannot be compiled.
#[derive(Clone, Copy, Debug, PartialEq, Eq, Structural)]
pub enum PatternError {
    /// The `[` at this index has no `]` that closes it.
    UnclosedClass(usize),
    /// The set that opens at this index holds a range whose ends are in
    /// the wrong order, such as `z-a`.
    ReversedRange(usize),
}

/// What reading a pattern gives: its tokens, or the first fault.
pub type Parsed = Result<Seq<TokenView>, PatternError>;

/// How many `*` stand in a row from index `at` on.
pub open spec fn star_run(src: Seq<char>, at: int) -> nat
    decreases
            (if at < src.len() {
                src.len() - at
            } else {
                0
            }),
{
    if 0 <= at < src.len() && src[at] == '*' {
        1 + star_run(src, at + 1)
    } else {
        0
    }
}

/// How many characters stand from index `from` on before the next `]`,
/// or before the end where there is none.
pub open spec fn until_close(src: Seq<char>, from: int) -> nat
    decreases
            (if from < src.len() {
                src.len() - from
            } else {
                0
            }),
{
    if 0 <= from < src.len() && src[from] != ']' {
        1 + until_close(src, from + 1)
    } else {
        0
    }
}

/// The members that the characters from `from` up to `to` spell: `a-b`
/// is a range, any other character stands for itself.
pub open spec fn class_items(src: Seq<char>, from: int, to: int) -> Seq<ClassItemView>
    decreases
            (if from < to {
                to - from
            } else {
                0
            }),
{
    if from < 0 || from >= to {
        Seq::<ClassItemView>::empty()
    } else if from + 2 < to && src[from + 1] == '-' {
        seq![ClassItemView::Range(src[from] as int, src[from + 2] as int)] + class_items(
            src,
            from + 3,
            to,
        )
    } else {
        seq![ClassItemView::One(src[from] as int)] + class_items(src, from + 1, to)
    }
}

/// Whether the member is well formed: a range runs upwards.
pub open spec fn item_ordered(item: ClassItemView) -> bool {
    match item {
        ClassItemView::One(_) => true,
        ClassItemView::Range(lo, hi) => lo <= hi,
    }
}

/// Whether every range of the set runs upwards.
pub open spec fn ranges_ordered(items: Seq<ClassItemView>) -> bool {
    forall|i: int| 0 <= i < items.len() ==> item_ordered(#[trigger] items[i])
}

/// `t` in front of what the rest of the pattern gives.
pub open spec fn with_first(t: TokenView, rest: Parsed) -> Parsed {
    match rest {
        Ok(ts) => Ok(seq![t] + ts),
        Err(e) => Err(e),
    }
}

/// The tokens of the pattern from index `at` on, or its first fault.
///
/// A single `*` is a run within a component, two or more in a row cross
/// components. After `[`, a `!` negates the set, and a `]` that follows
/// at once is a member, not the end.
pub open spec fn parse_from(src: Seq<char>, at: int) -> Parsed
    decreases
            (if at < src.len() {
                src.len() - at
            } else {
                0
            }),
{
    if at < 0 || at >= src.len() {
        Ok(Seq::<TokenView>::empty())
    } else if src[at] == '*' {
        let more = star_run(src, at + 1);
        with_first(
            if more >= 1 {
                TokenView::AnyPath
            } else {
                TokenView::AnyRun
            },
            parse_from(src, at + 1 + more),
        )
    } else if src[at] == '?' {
        with_first(TokenView::AnyChar, parse_from(src, at + 1))
    } else if src[at] == '[' {
        let negated = at + 1 < src.len() && src[at + 1] == '!';
        let body = if negated {
            at + 2
        } else {
            at + 1
        };
        let close = body + 1 + until_close(src, body + 1);
        if close >= src.len() {
            Err(PatternError::UnclosedClass(at as usize))
        } else if !ranges_ordered(class_items(src, body, close)) {
            Err(PatternError::ReversedRange(at as usize))
        } else {
            with_first(
                TokenView::Class(negated, class_items(src, body, close)),
                parse_from(src, close + 1),
            )
        }
    } else {
        with_first(TokenView::Literal(src[at] as int), parse_from(src, at + 1))
    }
}

/// The tokens of a whole pattern, or its first fault.
pub open spec fn parse_pattern(src: Seq<char>) -> Parsed {
    parse_from(src, 0)
}

/// Whether the pattern can be compiled.
pub open spec fn well_formed(src: Seq<char>) -> bool {
    parse_pattern(src) is Ok
}

/// Whether `pattern`, once compiled, stands for the whole of `path`.
pub open spec fn pattern_matches(pattern: Seq<char>, path: Seq<char>) -> bool {
    match parse_pattern(pattern) {
        Ok(toks) => glob_matches(toks, path),
        Err(_) => false,
    }
}

/// `prefix` in front of what the rest of the pattern gives.
pub open spec fn after(prefix: Seq<TokenView>, rest: Parsed) -> Parsed {
    match rest {
        Ok(ts) => Ok(prefix + ts),
        Err(e) => Err(e),
    }
}

/// Counts the `*` that stand in a row from index `at` on.
pub fn count_stars(src: &[char], at: usize) -> (n: usize)
    requires
        at <= src.len(),
    ensures
        n == star_run(src@, at as int),
        at + n <= src.len(),
{
    let mut end: usize = at;
    while end < src.len() && src[end] == '*'
        invariant
            at <= end <= src.len(),
            star_run(src@, at as int) == (end - at) + star_run(src@, end as int),
        decreases src.len() - end,
    {
        end += 1;
    }
    end - at
}

/// Finds the next `]` from index `from` on; gives the length of `src`
/// where there is none.
pub fn find_close(src: &[char], from: usize) -> (at: usize)
    requires
        from <= src.len(),
    ensures
        at == from + until_close(src@, from as int),
        from <= at <= src.len(),
{
    let mut end: usize = from;
    while end < src.len() && src[end] != ']'
        invariant
            from <= end <= src.len(),
            until_close(src@, from as int) == (end - from) + until_close(src@, end as int),
        decreases src.len() - end,
    {
        end += 1;
    }
    end
}

/// Reads the members of a set that stand from `from` up to `to`. Gives
/// `None` where a range runs downwards.
pub fn read_class(src: &[char], from: usize, to: usize) -> (r: Option<Vec<ClassItem>>)
    requires
        from <= to <= src.len(),
    ensures
        match r {
            Some(items) => item_views(items@) == class_items(src@, from as int, to as int)
                && ranges_ordered(item_views(items@)),
            None => !ranges_ordered(class_items(src@, from as int, to as int)),
        },
{
    let mut items: Vec<ClassItem> = Vec::new();
    let mut ordered = true;
    let mut p: usize = from;
    let ghost all = class_items(src@, from as int, to as int);
    assert(item_views(items@) + all =~= all);
    while p < to
        invariant
            from <= p <= to <= src.len(),
            all == class_items(src@, from as int, to as int),
            all == item_views(items@) + class_items(src@, p as int, to as int),
            ordered == ranges_ordered(item_views(items@)),
        decreases to - p,
    {
        let ghost sofar = item_views(items@);
        let ghost rest = class_items(src@, p as int, to as int);
        let item: ClassItem;
        let step: usize;
        if to - p > 2 && src[p + 1] == '-' {
            let lo = code_point(src[p]);
            let hi = code_point(src[p + 2]);
            item = ClassItem::Range(lo, hi);
            if lo > hi {
                ordered = false;
            }
            step = 3;
        } else {
            item = ClassItem::One(code_point(src[p]));
            step = 1;
        }
        items.push(item);
        proof {
            let tail = class_items(src@, p + step, to as int);
            assert(rest == seq![item@] + tail);
            assert(item_views(items@) =~= sofar.push(item@));
            assert(sofar + rest =~= sofar.push(item@) + tail);
            lemma_ordered_push(sofar, item@);
        }
        p += step;
    }
    assert(item_views(items@) + Seq::<ClassItemView>::empty() =~= item_views(items@));
    if ordered {
        Some(items)
    } else {
        None
    }
}

/// A set with one more member is well formed exactly when the set and the
/// member are.
pub proof fn lemma_ordered_push(items: Seq<ClassItemView>, item: ClassItemView)
    ensures
        ranges_ordered(items.push(item)) == (ranges_ordered(items) && item_ordered(item)),
{
    let longer = items.push(item);
    if ranges_ordered(longer) {
        assert(item_ordered(longer[items.len() as int]));
        assert forall|i: int| 0 <= i < items.len() implies item_ordered(#[trigger] items[i]) by {
            assert(items[i] == longer[i]);
        }
    }
}

/// Putting a token behind the prefix or in front of the rest is the same.
pub proof fn lemma_after_push(prefix: Seq<TokenView>, t: TokenView, rest: Parsed)
    ensures
        after(prefix, with_first(t, rest)) == after(prefix.push(t), rest),
{
    match rest {
        Ok(ts) => {
            assert(prefix + (seq![t] + ts) =~= prefix.push(t) + ts);
        },
        Err(_) => {},
    }
}

impl Pattern {
    /// Compiles the pattern `source`.
    ///
    /// Gives the compiled pattern where `source` is well formed, and its
    /// first fault, from the left, where it is not.
    pub fn parse(source: &str) -> (r: Result<Pattern, PatternError>)
        ensures
            match r {
                Ok(p) => parse_pattern(source@) == Ok::<Seq<TokenView>, PatternError>(p@),
                Err(e) => parse_pattern(source@) == Err::<Seq<TokenView>, PatternError>(e),
            },
    {
        let chars = chars_of(source);
        Pattern::parse_chars(chars.as_slice())
    }

    /// Compiles the pattern spelled by `src`.
    pub fn parse_chars(src: &[char]) -> (r: Result<Pattern, PatternError>)
        ensures
            match r {
                Ok(p) => parse_pattern(src@) == Ok::<Seq<TokenView>, PatternError>(p@),
                Err(e) => parse_pattern(src@) == Err::<Seq<TokenView>, PatternError>(e),
            },
    {
        let n = src.len();
        let mut tokens: Vec<Token> = Vec::new();
        let mut at: usize = 0;
        let ghost whole = parse_pattern(src@);
        proof {
            match whole {
                Ok(ts) => {
                    assert(Seq::<TokenView>::empty() + ts =~= ts);
                },
                Err(_) => {},
            }
        }
        while at < n
            invariant
                at <= n,
                n == src.len(),
                whole == parse_pattern(src@),
                whole == after(views(tokens@), parse_from(src@, at as int)),
            decreases n - at,
        {
            let ghost prefix = views(tokens@);
            let c = src[at];
            let next: usize;
            let tok: Token;
            let ghost rest: Parsed;
            if c == '*' {
                let more = count_stars(src, at + 1);
                tok = if more >= 1 {
                    Token::AnyPath
                } else {
                    Token::AnyRun
                };
                next = at + 1 + more;
            } else if c == '?' {
                tok = Token::AnyChar;
                next = at + 1;
            } else if c == '[' {
                let negated = n - at > 1 && src[at + 1] == '!';
                let body: usize = if negated {
                    at + 2
                } else {
                    at + 1
                };
                if body >= n {
                    proof {
                        assert(until_close(src@, body + 1) == 0);
                    }
                    return Err(PatternError::UnclosedClass(at));
                }
                let close = find_close(src, body + 1);
                if close >= n {
                    return Err(PatternError::UnclosedClass(at));
                }
                match read_class(src, body, close) {
                    Some(items) => {
                        tok = Token::Class(negated, items);
                    },
                    None => {
                        return Err(PatternError::ReversedRange(at));
                    },
                }
                next = close + 1;
            } else {
                tok = Token::Literal(code_point(c));
                next = at + 1;
            }
            let ghost tv = tok@;
            proof {
                rest = parse_from(src@, next as int);
                assert(parse_from(src@, at as int) == with_first(tv, rest));
                lemma_after_push(prefix, tv, rest);
            }
            tokens.push(tok);
            assert(views(tokens@) =~= prefix.push(tv));
            at = next;
        }
        let p = Pattern { tokens };
        proof {
            assert(p@ + Seq::<TokenView>::empty() =~= p@);
        }
        Ok(p)
    }
}


/// The code point of `/`.
pub const SEPARATOR: u32 = 47;

/// Whether some token of the pattern can cross directories.
pub open spec fn has_any_path(toks: Seq<TokenView>) -> bool {
    exists|i: int| 0 <= i < toks.len() && (#[trigger] toks[i]) is AnyPath
}

/// How many of the tokens from index `i` on stand for `/`.
pub open spec fn separators_from(toks: Seq<TokenView>, i: int) -> nat
    decreases
            (if i < toks.len() {
                toks.len() - i
            } else {
                0
            }),
{
    if i < 0 || i >= toks.len() {
        0
    } else {
        separators_from(toks, i + 1) + if toks[i] == TokenView::Literal(47) {
            1nat
        } else {
            0nat
        }
    }
}

/// How many of the tokens stand for `/`.
pub open spec fn separators(toks: Seq<TokenView>) -> nat {
    separators_from(toks, 0)
}

impl Pattern {
    /// Tests whether some token of the pattern can cross directories.
    pub fn crosses_directories(&self) -> (r: bool)
        ensures
            r == has_any_path(self@),
    {
        let mut i: usize = 0;
        while i < self.tokens.len()
            invariant
                i <= self.tokens.len(),
                forall|k: int| 0 <= k < i ==> !((#[trigger] self@[k]) is AnyPath),
            decreases self.tokens.len() - i,
        {
            match &self.tokens[i] {
                Token::AnyPath => {
                    assert(self@[i as int] is AnyPath);
                    return true;
                },
                _ => {},
            }
            i += 1;
        }
        false
    }

    /// Counts the tokens of the pattern that stand for `/`.
    pub fn count_separators(&self) -> (n: usize)
        ensures
            n == separators(self@),
    {
        let mut n: usize = 0;
        let mut i: usize = self.tokens.len();
        while i > 0
            invariant
                i <= self.tokens.len(),
                n == separators_from(self@, i as int),
                n <= self.tokens.len() - i,
            decreases i,
        {
            i -= 1;
            match &self.tokens[i] {
                Token::Literal(c) => {
                    if *c == SEPARATOR {
                        n += 1;
                    }
                },
                _ => {},
            }
        }
        n
    }
}

/// Whether `c` opens a wildcard in a pattern.
pub open spec fn is_wild(c: char) -> bool {
    c == '*' || c == '?' || c == '['
}

/// How many characters stand at the start of the pattern before its
/// first wildcard.
pub open spec fn literal_len(p: Seq<char>) -> nat
    decreases p.len(),
{
    if p.len() == 0 || is_wild(p[0]) {
        0
    } else {
        1 + literal_len(p.skip(1))
    }
}

/// Whether the pattern holds no wildcard.
pub open spec fn is_literal(p: Seq<char>) -> bool {
    literal_len(p) == p.len()
}

/// Where the pattern does not cross directories, what it stands for has
/// as many `/` as the pattern has: no wildcard takes one.
pub proof fn lemma_match_separators(toks: Seq<TokenView>, i: int, s: Seq<char>, j: int)
    requires
        !has_any_path(toks),
        matches_from(toks, i, s, j),
    ensures
        count_of(s.skip(j), '/') == separators_from(toks, i),
    decreases toks.len() - i,
{
    if i == toks.len() {
        assert(s.skip(j) =~= Seq::<char>::empty());
    } else {
        let k = choose|k: int|
            j <= k <= s.len() && accepts(toks[i], #[trigger] s.subrange(j, k)) && matches_from(
                toks,
                i + 1,
                s,
                k,
            );
        let seg = s.subrange(j, k);
        lemma_match_separators(toks, i + 1, s, k);
        assert(s.skip(j) =~= seg + s.skip(k));
        lemma_count_concat(seg, s.skip(k), '/');
        assert(!(toks[i] is AnyPath));
        match toks[i] {
            TokenView::AnyRun => {
                crate::text::lemma_count_absent(seg, '/');
            },
            _ => {
                assert(seg.skip(1) =~= Seq::<char>::empty());
                assert(count_of(seg.skip(1), '/') == 0);
                assert(seg[0] == s[j]);
                assert(count_of(seg, '/') == if seg[0] == '/' {
                    1nat
                } else {
                    0nat
                });
            },
        }
    }
}

/// Where the pattern does not cross directories, it stands for nothing
/// below a directory that has as many `/` as the pattern already.
pub proof fn lemma_no_match_below(toks: Seq<TokenView>, dir: Seq<char>, rest: Seq<char>)
    requires
        !has_any_path(toks),
        count_of(dir, '/') >= separators(toks),
    ensures
        !glob_matches(toks, dir + seq!['/'] + rest),
{
    let path = dir + seq!['/'] + rest;
    if glob_matches(toks, path) {
        lemma_match_separators(toks, 0, path, 0);
        assert(path.skip(0) =~= path);
        lemma_count_concat(dir + seq!['/'], rest, '/');
        lemma_count_concat(dir, seq!['/'], '/');
        assert(seq!['/'].skip(1) =~= Seq::<char>::empty());
        assert(count_of(seq!['/'].skip(1), '/') == 0);
        assert(count_of(seq!['/'], '/') == 1);
    }
}

/// The tokens of a run of characters without a wildcard: one for each.
pub open spec fn literal_tokens(p: Seq<char>, from: int, to: int) -> Seq<TokenView> {
    Seq::new((to - from) as nat, |i: int| TokenView::Literal(p[from + i] as int))
}

/// The first wildcard of the pattern stands where `literal_len` says:
/// before it there is none.
pub proof fn lemma_literal_len(p: Seq<char>)
    ensures
        literal_len(p) <= p.len(),
        forall|i: int| 0 <= i < literal_len(p) ==> !is_wild(#[trigger] p[i]),
        literal_len(p) < p.len() ==> is_wild(p[literal_len(p) as int]),
    decreases p.len(),
{
    if p.len() == 0 || is_wild(p[0]) {
    } else {
        lemma_literal_len(p.skip(1));
        assert forall|i: int| 0 <= i < literal_len(p) implies !is_wild(#[trigger] p[i]) by {
            if i > 0 {
                assert(p.skip(1)[i - 1] == p[i]);
            }
        }
        if literal_len(p) < p.len() {
            assert(p.skip(1)[literal_len(p.skip(1)) as int] == p[literal_len(p) as int]);
        }
    }
}

/// Up to its first wildcard a pattern compiles to one token for each
/// character, whatever follows.
pub proof fn lemma_parse_literal_run(p: Seq<char>, at: int, end: int)
    requires
        0 <= at <= end <= p.len(),
        forall|i: int| at <= i < end ==> !is_wild(#[trigger] p[i]),
    ensures
        parse_from(p, at) == after(literal_tokens(p, at, end), parse_from(p, end)),
    decreases end - at,
{
    if at == end {
        match parse_from(p, end) {
            Ok(ts) => {
                assert(literal_tokens(p, at, end) + ts =~= ts);
            },
            Err(_) => {},
        }
    } else {
        assert(!is_wild(p[at]));
        lemma_parse_literal_run(p, at + 1, end);
        let first = TokenView::Literal(p[at] as int);
        let rest = parse_from(p, end);
        assert(parse_from(p, at) == with_first(first, parse_from(p, at + 1)));
        match rest {
            Ok(ts) => {
                assert(seq![first] + (literal_tokens(p, at + 1, end) + ts) =~= literal_tokens(
                    p,
                    at,
                    end,
                ) + ts);
            },
            Err(_) => {},
        }
    }
}

/// Tokens that each stand for one given character stand for exactly
/// those characters, one after the other, and then the rest goes on.
pub proof fn lemma_match_literal_run(
    toks: Seq<TokenView>,
    p: Seq<char>,
    n: int,
    s: Seq<char>,
    i: int,
)
    requires
        0 <= i <= n <= toks.len(),
        n <= p.len(),
        forall|k: int| i <= k < n ==> #[trigger] toks[k] == TokenView::Literal(p[k] as int),
        i <= s.len(),
    ensures
        matches_from(toks, i, s, i) <==> (n <= s.len() && s.subrange(i, n) == p.subrange(i, n)
            && matches_from(toks, n, s, n)),
    decreases n - i,
{
    if i == n {
        assert(s.subrange(i, n) =~= p.subrange(i, n));
    } else {
        lemma_step_single(toks, i, s, i);
        assert(toks[i] == TokenView::Literal(p[i] as int));
        if i < s.len() {
            lemma_match_literal_run(toks, p, n, s, i + 1);
            if n <= s.len() {
                if s[i] == p[i] && s.subrange(i + 1, n) == p.subrange(i + 1, n) {
                    assert(s.subrange(i, n) =~= seq![s[i]] + s.subrange(i + 1, n));
                    assert(p.subrange(i, n) =~= seq![p[i]] + p.subrange(i + 1, n));
                }
                if s.subrange(i, n) == p.subrange(i, n) {
                    assert(s.subrange(i, n)[0] == p.subrange(i, n)[0]);
                    assert(s.subrange(i + 1, n) =~= s.subrange(i, n).skip(1));
                    assert(p.subrange(i + 1, n) =~= p.subrange(i, n).skip(1));
                }
            }
        }
    }
}

/// A pattern without a wildcard is well formed and stands for itself,
/// letter for letter, and for nothing else.
pub proof fn lemma_literal_pattern(p: Seq<char>, s: Seq<char>)
    requires
        is_literal(p),
    ensures
        well_formed(p),
        pattern_matches(p, s) <==> s == p,
{
    lemma_literal_len(p);
    let n = p.len() as int;
    lemma_parse_literal_run(p, 0, n);
    let toks = literal_tokens(p, 0, n);
    assert(toks + Seq::<TokenView>::empty() =~= toks);
    assert(parse_pattern(p) == Ok::<Seq<TokenView>, PatternError>(toks));
    lemma_match_literal_run(toks, p, n, s, 0);
    if n <= s.len() {
        assert(p.subrange(0, n) =~= p);
        if s.len() == n {
            assert(s.subrange(0, n) =~= s);
        }
    }
}

/// Whatever a pattern stands for starts with what the pattern holds
/// before its first wildcard.
pub proof fn lemma_match_starts_literally(p: Seq<char>, s: Seq<char>)
    requires
        pattern_matches(p, s),
    ensures
        literal_len(p) <= s.len(),
        s.take(literal_len(p) as int) == p.take(literal_len(p) as int),
{
    lemma_literal_len(p);
    let w = literal_len(p) as int;
    lemma_parse_literal_run(p, 0, w);
    let toks = parse_pattern(p)->Ok_0;
    let rest = parse_from(p, w)->Ok_0;
    assert(toks == literal_tokens(p, 0, w) + rest);
    assert forall|k: int| 0 <= k < w implies #[trigger] toks[k] == TokenView::Literal(
        p[k] as int,
    ) by {
        assert(toks[k] == literal_tokens(p, 0, w)[k]);
    }
    lemma_match_literal_run(toks, p, w, s, 0);
    assert(s.take(w) =~= s.subrange(0, w));
    assert(p.take(w) =~= p.subrange(0, w));
}

} // verus!
