//! The rules that keep paths out of a run.
//!
//! A rule is a pattern, compiled once. A path is excluded when, brought
//! to normal form, it is a rule's pattern letter for letter, or the
//! pattern stands for it as a wildcard pattern.

use vstd::prelude::*;
use crate::glob::{parse_pattern, pattern_matches, well_formed, Pattern, PatternError, TokenView};
use crate::path::{
    lemma_normalize_current_dir,
    lemma_normalize_separators,
    is_separator,
    normalize,
    normalize_chars,
    same_but_separators,
};
use crate::text::{chars_of, same_chars, string_of};

verus! {

/// Whether a rule with this pattern covers a path in normal form.
pub open spec fn rule_covers(pattern: Seq<char>, path: Seq<char>) -> bool {
    pattern == path || pattern_matches(pattern, path)
}

/// Whether rules with these patterns exclude `path`.
pub open spec fn excludes(patterns: Seq<Seq<char>>, path: Seq<char>) -> bool {
    exists|i: int| 0 <= i < patterns.len() && rule_covers(#[trigger] patterns[i], normalize(path))
}

/// The normal forms of the given patterns, in order.
pub open spec fn normalized_all(raw: Seq<String>) -> Seq<Seq<char>> {
    Seq::new(raw.len(), |i: int| normalize(raw[i]@))
}

/// Whether `at` is the first of the patterns that cannot be compiled.
pub open spec fn is_first_fault(raw: Seq<String>, at: int) -> bool {
    &&& 0 <= at < raw.len()
    &&& !well_formed(normalize(raw[at]@))
    &&& forall|j: int| 0 <= j < at ==> well_formed(normalize(#[trigger] raw[j]@))
}

/// One exclusion rule: a pattern in normal form and its compiled matcher.
#[derive(Debug)]
pub struct ExclusionRule {
    pattern: Vec<char>,
    matcher: Pattern,
}

impl ExclusionRule {
    /// The rule's pattern, in normal form.
    pub closed spec fn pattern(&self) -> Seq<char> {
        self.pattern@
    }

    #[verifier::type_invariant]
    spec fn matcher_is_compiled(&self) -> bool {
        parse_pattern(self.pattern@) == Ok::<Seq<TokenView>, PatternError>(self.matcher@)
    }

    /// Compiles the rule for the pattern `raw`: brings it to normal form
    /// and compiles that. Fails with the pattern's first fault.
    pub fn compile(raw: &str) -> (r: Result<ExclusionRule, PatternError>)
        ensures
            match r {
                Ok(rule) => rule.pattern() == normalize(raw@) && well_formed(normalize(raw@)),
                Err(e) => parse_pattern(normalize(raw@)) == Err::<Seq<TokenView>, PatternError>(e),
            },
    {
        let chars = chars_of(raw);
        let pattern = normalize_chars(chars.as_slice());
        match Pattern::parse_chars(pattern.as_slice()) {
            Ok(matcher) => Ok(ExclusionRule { pattern, matcher }),
            Err(e) => Err(e),
        }
    }

    /// The rule's pattern as a string.
    pub fn pattern_text(&self) -> (s: String)
        ensures
            s@ == self.pattern(),
    {
        string_of(self.pattern.as_slice())
    }

    /// Tests whether the rule covers `path`, a path in normal form.
    pub fn covers(&self, path: &[char]) -> (r: bool)
        ensures
            r == rule_covers(self.pattern(), path@),
    {
        proof {
            use_type_invariant(self);
        }
        same_chars(self.pattern.as_slice(), path) || self.matcher.matches_chars(path)
    }
}

/// A pattern that could not be compiled, and why.
#[derive(Debug)]
pub struct InvalidPattern {
    /// Which of the patterns it is, counting from zero.
    pub index: usize,
    /// The pattern as it was given.
    pub pattern: String,
    /// Its first fault.
    pub error: PatternError,
}

/// The exclusion rules of a run.
#[derive(Debug)]
pub struct ExclusionMatcher {
    rules: Vec<ExclusionRule>,
}

impl View for ExclusionMatcher {
    type V = Seq<Seq<char>>;

    /// The patterns of the rules, in order.
    closed spec fn view(&self) -> Seq<Seq<char>> {
        Seq::new(self.rules@.len(), |i: int| self.rules@[i].pattern())
    }
}

impl ExclusionMatcher {
    /// Compiles one rule for each pattern.
    ///
    /// Succeeds exactly when every pattern, in normal form, is well
    /// formed. Otherwise no matcher is made, and the error names the
    /// first pattern that is not, with its fault.
    pub fn new(patterns: &Vec<String>) -> (r: Result<ExclusionMatcher, InvalidPattern>)
        ensures
            match r {
                Ok(m) => {
                    &&& m@ == normalized_all(patterns@)
                    &&& forall|i: int|
                        0 <= i < patterns.len() ==> well_formed(normalize(#[trigger] patterns[i]@))
                },
                Err(e) => {
                    &&& is_first_fault(patterns@, e.index as int)
                    &&& e.pattern@ == patterns[e.index as int]@
                    &&& parse_pattern(normalize(patterns[e.index as int]@)) == Err::<
                        Seq<TokenView>,
                        PatternError,
                    >(e.error)
                },
            },
    {
        let mut rules: Vec<ExclusionRule> = Vec::new();
        let mut i: usize = 0;
        while i < patterns.len()
            invariant
                i <= patterns.len(),
                rules@.len() == i,
                forall|j: int| 0 <= j < i ==> (#[trigger] rules@[j]).pattern() == normalize(patterns[j]@),
                forall|j: int| 0 <= j < i ==> well_formed(normalize(#[trigger] patterns[j]@)),
            decreases patterns.len() - i,
        {
            match ExclusionRule::compile(patterns[i].as_str()) {
                Ok(rule) => {
                    rules.push(rule);
                },
                Err(error) => {
                    return Err(InvalidPattern { index: i, pattern: patterns[i].clone(), error });
                },
            }
            i += 1;
        }
        let m = ExclusionMatcher { rules };
        assert(m@ =~= normalized_all(patterns@));
        Ok(m)
    }

    /// How many rules there are.
    pub fn len(&self) -> (n: usize)
        ensures
            n == self@.len(),
    {
        self.rules.len()
    }

    /// Tests whether `path`, given in normal form, is covered by a rule.
    pub fn covers(&self, path: &[char]) -> (r: bool)
        ensures
            r == (exists|i: int| 0 <= i < self@.len() && rule_covers(#[trigger] self@[i], path@)),
    {
        let mut i: usize = 0;
        while i < self.rules.len()
            invariant
                i <= self.rules.len(),
                forall|j: int| 0 <= j < i ==> !rule_covers(#[trigger] self@[j], path@),
            decreases self.rules.len() - i,
        {
            if self.rules[i].covers(path) {
                assert(rule_covers(self@[i as int], path@));
                return true;
            }
            i += 1;
        }
        false
    }

    /// Tests whether the path spelled by `path` is excluded.
    pub fn is_excluded_chars(&self, path: &[char]) -> (r: bool)
        ensures
            r == excludes(self@, path@),
    {
        let normal = normalize_chars(path);
        self.covers(normal.as_slice())
    }

    /// Tests whether `path` is excluded: whether, in normal form, it is
    /// some rule's pattern letter for letter, or some rule's pattern
    /// stands for it.
    pub fn is_excluded(&self, path: &str) -> (r: bool)
        ensures
            r == excludes(self@, path@),
    {
        let chars = chars_of(path);
        let normal = normalize_chars(chars.as_slice());
        self.covers(normal.as_slice())
    }
}

/// Whether a path is excluded depends on its normal form alone.
pub proof fn lemma_excluded_by_normal_form(patterns: Seq<Seq<char>>, p: Seq<char>, q: Seq<char>)
    requires
        normalize(p) == normalize(q),
    ensures
        excludes(patterns, p) == excludes(patterns, q),
{
}

/// Two paths that differ only in whether a separator is written `/` or
/// `\` are excluded alike.
pub proof fn lemma_excluded_any_separator(patterns: Seq<Seq<char>>, p: Seq<char>, q: Seq<char>)
    requires
        same_but_separators(p, q),
    ensures
        excludes(patterns, p) == excludes(patterns, q),
{
    lemma_normalize_separators(p, q);
}

/// A path and the same path with `./` or `.\` in front are excluded
/// alike.
pub proof fn lemma_excluded_current_dir(patterns: Seq<Seq<char>>, p: Seq<char>, sep: char)
    requires
        is_separator(sep),
    ensures
        excludes(patterns, seq!['.', sep] + p) == excludes(patterns, p),
{
    lemma_normalize_current_dir(p, sep);
}

/// A path that is a rule's pattern, letter for letter, is excluded.
pub proof fn lemma_literal_rule_excludes(patterns: Seq<Seq<char>>, at: int, p: Seq<char>)
    requires
        0 <= at < patterns.len(),
        patterns[at] == normalize(p),
    ensures
        excludes(patterns, p),
{
    assert(rule_covers(patterns[at], normalize(p)));
}

/// Without rules nothing is excluded.
pub proof fn lemma_no_rules_exclude_nothing(p: Seq<char>)
    ensures
        !excludes(Seq::<Seq<char>>::empty(), p),
{
}

} // verus!
