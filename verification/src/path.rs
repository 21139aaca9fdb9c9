//! Paths as text, brought to one form before they are compared.

use vstd::prelude::*;
use crate::text::{chars_of, string_of};

verus! {

/// Whether `c` separates the components of a path.
pub open spec fn is_separator(c: char) -> bool {
    c == '/' || c == '\\'
}

/// The path with every separator written as `/`.
pub open spec fn unify_separators(path: Seq<char>) -> Seq<char> {
    Seq::new(
        path.len(),
        |i: int|
            if path[i] == '\\' {
                '/'
            } else {
                path[i]
            },
    )
}

/// The path without the `./` it starts with, however many there are.
pub open spec fn strip_current_dir(path: Seq<char>) -> Seq<char>
    decreases path.len(),
{
    if path.len() >= 2 && path[0] == '.' && path[1] == '/' {
        strip_current_dir(path.skip(2))
    } else {
        path
    }
}

/// The form in which paths are compared and shown: separators written
/// as `/`, and no `./` in front.
pub open spec fn normalize(path: Seq<char>) -> Seq<char> {
    strip_current_dir(unify_separators(path))
}

/// Two paths that differ only in how their separators are written.
pub open spec fn same_but_separators(p: Seq<char>, q: Seq<char>) -> bool {
    &&& p.len() == q.len()
    &&& forall|i: int|
        0 <= i < p.len() ==> p[i] == q[i] || (is_separator(#[trigger] p[i]) && is_separator(q[i]))
}

/// Brings the characters of a path to normal form.
pub fn normalize_chars(path: &[char]) -> (out: Vec<char>)
    ensures
        out@ == normalize(path@),
{
    let n = path.len();
    let ghost unified = unify_separators(path@);
    let mut start: usize = 0;
    assert(unified.skip(0) =~= unified);
    while n - start >= 2 && path[start] == '.' && (path[start + 1] == '/' || path[start + 1]
        == '\\')
        invariant
            start <= n,
            n == path.len(),
            unified == unify_separators(path@),
            strip_current_dir(unified) == strip_current_dir(unified.skip(start as int)),
        decreases n - start,
    {
        proof {
            let rest = unified.skip(start as int);
            assert(rest[0] == '.');
            assert(rest[1] == '/');
            assert(rest.skip(2) =~= unified.skip(start + 2));
        }
        start += 2;
    }
    proof {
        let rest = unified.skip(start as int);
        if rest.len() >= 2 {
            assert(rest[0] == unified[start as int]);
            assert(rest[1] == unified[start + 1]);
        }
        assert(strip_current_dir(rest) == rest);
    }
    let mut out: Vec<char> = Vec::new();
    let mut i: usize = start;
    while i < n
        invariant
            start <= i <= n,
            n == path.len(),
            unified == unify_separators(path@),
            out@ =~= unified.subrange(start as int, i as int),
        decreases n - i,
    {
        let c = path[i];
        out.push(
            if c == '\\' {
                '/'
            } else {
                c
            },
        );
        i += 1;
    }
    assert(unified.subrange(start as int, n as int) =~= unified.skip(start as int));
    out
}

/// Brings a path to normal form.
pub fn normalize_path(path: &str) -> (out: String)
    ensures
        out@ == normalize(path@),
{
    let chars = chars_of(path);
    let normal = normalize_chars(chars.as_slice());
    string_of(normal.as_slice())
}

/// Paths that differ only in how their separators are written have the
/// same normal form.
pub proof fn lemma_normalize_separators(p: Seq<char>, q: Seq<char>)
    requires
        same_but_separators(p, q),
    ensures
        normalize(p) == normalize(q),
{
    assert(unify_separators(p) =~= unify_separators(q)) by {
        assert forall|i: int| 0 <= i < p.len() implies unify_separators(p)[i] == unify_separators(
            q,
        )[i] by {
            assert(p[i] == q[i] || (is_separator(p[i]) && is_separator(q[i])));
        }
    }
}

/// A `./` or `.\` in front does not change the normal form.
pub proof fn lemma_normalize_current_dir(p: Seq<char>, sep: char)
    requires
        is_separator(sep),
    ensures
        normalize(seq!['.', sep] + p) == normalize(p),
{
    let longer = unify_separators(seq!['.', sep] + p);
    assert(longer[0] == '.');
    assert(longer[1] == '/');
    assert(longer.skip(2) =~= unify_separators(p));
}

/// What has no `./` in front stays as it is.
pub proof fn lemma_strip_twice(p: Seq<char>)
    ensures
        strip_current_dir(strip_current_dir(p)) == strip_current_dir(p),
    decreases p.len(),
{
    if p.len() >= 2 && p[0] == '.' && p[1] == '/' {
        lemma_strip_twice(p.skip(2));
    }
}

/// What is stripped is an end of the path, so it holds no `\` where the
/// path held none.
pub proof fn lemma_strip_is_suffix(p: Seq<char>)
    ensures
        strip_current_dir(p).len() <= p.len(),
        strip_current_dir(p) == p.skip(p.len() - strip_current_dir(p).len()),
    decreases p.len(),
{
    if p.len() >= 2 && p[0] == '.' && p[1] == '/' {
        lemma_strip_is_suffix(p.skip(2));
        let rest = p.skip(2);
        let kept = strip_current_dir(rest);
        assert(rest.skip(rest.len() - kept.len()) =~= p.skip(p.len() - kept.len()));
    } else {
        assert(p.skip(0) =~= p);
    }
}

/// A normal form is its own normal form.
pub proof fn lemma_normalize_twice(p: Seq<char>)
    ensures
        normalize(normalize(p)) == normalize(p),
{
    let unified = unify_separators(p);
    let kept = strip_current_dir(unified);
    lemma_strip_is_suffix(unified);
    assert(unify_separators(kept) =~= kept) by {
        assert forall|i: int| 0 <= i < kept.len() implies kept[i] != '\\' by {
            assert(kept[i] == unified[unified.len() - kept.len() + i]);
        }
    }
    lemma_strip_twice(unified);
}

} // verus!
