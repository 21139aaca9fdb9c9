//! Conversions between strings and sequences of characters, and literal
//! substring replacement.

use vstd::prelude::*;

verus! {

/// `String::push` appends the given character to the end of the string.
pub assume_specification[ String::push ](s: &mut String, ch: char)
    ensures
        final(s)@ == old(s)@.push(ch),
;

/// The characters of `s`, in order.
pub fn chars_of(s: &str) -> (v: Vec<char>)
    ensures
        v@ == s@,
{
    let mut v: Vec<char> = Vec::new();
    for c in it: s.chars()
        invariant
            it.seq() == s@,
            v@ =~= s@.take(it.index()),
    {
        v.push(c);
    }
    v
}

/// The string made of the characters of `v`, in order.
pub fn string_of(v: &[char]) -> (s: String)
    ensures
        s@ == v@,
{
    let mut s = String::new();
    let mut i: usize = 0;
    while i < v.len()
        invariant
            i <= v.len(),
            s@ =~= v@.take(i as int),
        decreases v.len() - i,
    {
        s.push(v[i]);
        i += 1;
    }
    s
}

/// The strings as sequences of characters, in order.
pub open spec fn texts(strings: Seq<String>) -> Seq<Seq<char>> {
    Seq::new(strings.len(), |i: int| strings[i]@)
}

/// Whether `pat` occurs in `s` starting at index `at`.
pub open spec fn occurs_at(s: Seq<char>, at: int, pat: Seq<char>) -> bool {
    &&& 0 <= at
    &&& at + pat.len() <= s.len()
    &&& s.subrange(at, at + pat.len()) == pat
}

/// Whether `pat` occurs somewhere in `s`.
pub open spec fn contains_sub(s: Seq<char>, pat: Seq<char>) -> bool {
    exists|at: int| occurs_at(s, at, pat)
}

/// `s` with every occurrence of `pat` replaced by `with`, scanning from the
/// left and never looking inside a replacement. An empty `pat` replaces
/// nothing.
pub open spec fn replace_all(s: Seq<char>, pat: Seq<char>, with: Seq<char>) -> Seq<char>
    decreases s.len(),
{
    if s.len() == 0 || pat.len() == 0 {
        s
    } else if occurs_at(s, 0, pat) {
        with + replace_all(s.skip(pat.len() as int), pat, with)
    } else {
        seq![s[0]] + replace_all(s.skip(1), pat, with)
    }
}

/// Tests whether `pat` occurs in `s` at index `at`.
pub fn matches_at(s: &[char], at: usize, pat: &[char]) -> (r: bool)
    ensures
        r == occurs_at(s@, at as int, pat@),
{
    if at > s.len() || pat.len() > s.len() - at {
        return false;
    }
    let mut k: usize = 0;
    while k < pat.len()
        invariant
            k <= pat.len(),
            at + pat.len() <= s.len(),
            forall|j: int| 0 <= j < k ==> s@[at + j] == pat@[j],
        decreases pat.len() - k,
    {
        if s[at + k] != pat[k] {
            proof {
                let sub = s@.subrange(at as int, at + pat.len());
                assert(sub[k as int] == s@[at + k]);
            }
            return false;
        }
        k += 1;
    }
    assert(s@.subrange(at as int, at + pat.len()) =~= pat@);
    true
}

/// Tests whether `a` and `b` hold the same characters.
pub fn same_chars(a: &[char], b: &[char]) -> (r: bool)
    ensures
        r == (a@ == b@),
{
    if a.len() != b.len() {
        return false;
    }
    let r = matches_at(a, 0, b);
    assert(a@.subrange(0, a.len() as int) =~= a@);
    r
}

/// Tests whether `pat` occurs somewhere in `s`.
pub fn contains(s: &[char], pat: &[char]) -> (r: bool)
    ensures
        r == contains_sub(s@, pat@),
{
    let mut at: usize = 0;
    loop
        invariant
            at <= s.len(),
            forall|j: int| 0 <= j < at ==> !occurs_at(s@, j, pat@),
        decreases s.len() - at,
    {
        if matches_at(s, at, pat) {
            return true;
        }
        if at == s.len() {
            return false;
        }
        at += 1;
    }
}

/// Counts how often `c` stands in `s`.
pub fn count_char(s: &[char], c: char) -> (n: usize)
    ensures
        n == count_of(s@, c),
{
    let mut n: usize = 0;
    let mut i: usize = s.len();
    assert(s@.skip(s.len() as int) =~= Seq::<char>::empty());
    while i > 0
        invariant
            i <= s.len(),
            n == count_of(s@.skip(i as int), c),
            n <= s.len() - i,
        decreases i,
    {
        i -= 1;
        assert(s@.skip(i as int).skip(1) =~= s@.skip(i + 1));
        if s[i] == c {
            n += 1;
        }
    }
    assert(s@.skip(0) =~= s@);
    n
}

/// Appends every character of `more` to `out`.
pub fn push_all(out: &mut Vec<char>, more: &[char])
    ensures
        final(out)@ == old(out)@ + more@,
{
    let mut i: usize = 0;
    while i < more.len()
        invariant
            i <= more.len(),
            out@ =~= old(out)@ + more@.take(i as int),
        decreases more.len() - i,
    {
        out.push(more[i]);
        i += 1;
    }
    assert(more@.take(more.len() as int) =~= more@);
}

/// Replaces every occurrence of `pat` in `s` by `with`.
pub fn replace(s: &[char], pat: &[char], with: &[char]) -> (r: Vec<char>)
    ensures
        r@ == replace_all(s@, pat@, with@),
{
    let mut out: Vec<char> = Vec::new();
    let mut i: usize = 0;
    assert(s@.skip(0) =~= s@);
    assert(out@ + replace_all(s@, pat@, with@) =~= replace_all(s@, pat@, with@));
    while i < s.len()
        invariant
            i <= s.len(),
            replace_all(s@, pat@, with@) == out@ + replace_all(s@.skip(i as int), pat@, with@),
        decreases s.len() - i,
    {
        let ghost rest = s@.skip(i as int);
        if pat.len() > 0 && matches_at(s, i, pat) {
            assert(rest.subrange(0, pat.len() as int) =~= s@.subrange(
                i as int,
                i + pat.len(),
            ));
            assert(rest.skip(pat.len() as int) =~= s@.skip(i + pat.len()));
            let ghost before = out@;
            push_all(&mut out, with);
            assert((before + with@) + replace_all(s@.skip(i + pat.len()), pat@, with@) =~= before
                + (with@ + replace_all(s@.skip(i + pat.len()), pat@, with@)));
            i += pat.len();
        } else {
            proof {
                if pat.len() > 0 && occurs_at(rest, 0, pat@) {
                    assert(rest.subrange(0, pat.len() as int) =~= s@.subrange(
                        i as int,
                        i + pat.len(),
                    ));
                    assert(false);
                }
                assert(rest.skip(1) =~= s@.skip(i + 1));
                assert(rest[0] == s@[i as int]);
            }
            let ghost before = out@;
            out.push(s[i]);
            proof {
                let tail = replace_all(s@.skip(i + 1), pat@, with@);
                if pat.len() == 0 {
                    lemma_replace_nothing(rest, with@);
                    lemma_replace_nothing(s@.skip(i + 1), with@);
                    assert(rest =~= seq![s@[i as int]] + s@.skip(i + 1));
                }
                assert(before.push(s@[i as int]) + tail =~= before + (seq![s@[i as int]] + tail));
            }
            i += 1;
        }
    }
    assert(s@.skip(s.len() as int) =~= Seq::<char>::empty());
    assert(out@ + Seq::<char>::empty() =~= out@);
    out
}

/// With an empty pattern nothing is replaced.
pub proof fn lemma_replace_nothing(s: Seq<char>, with: Seq<char>)
    ensures
        replace_all(s, Seq::<char>::empty(), with) == s,
{
}

/// Where the pattern does not occur, nothing is replaced.
pub proof fn lemma_replace_absent(s: Seq<char>, pat: Seq<char>, with: Seq<char>)
    requires
        !contains_sub(s, pat),
    ensures
        replace_all(s, pat, with) == s,
    decreases s.len(),
{
    if s.len() == 0 || pat.len() == 0 {
    } else {
        assert(!occurs_at(s, 0, pat));
        assert forall|at: int| !occurs_at(s.skip(1), at, pat) by {
            if occurs_at(s.skip(1), at, pat) {
                assert(s.subrange(at + 1, at + 1 + pat.len()) =~= s.skip(1).subrange(
                    at,
                    at + pat.len(),
                ));
                assert(occurs_at(s, at + 1, pat));
            }
        }
        lemma_replace_absent(s.skip(1), pat, with);
        assert(seq![s[0]] + s.skip(1) =~= s);
    }
}

/// How often `c` stands in `s`.
pub open spec fn count_of(s: Seq<char>, c: char) -> nat
    decreases s.len(),
{
    if s.len() == 0 {
        0
    } else {
        count_of(s.skip(1), c) + if s[0] == c {
            1nat
        } else {
            0nat
        }
    }
}

/// Counting in a concatenation adds up.
pub proof fn lemma_count_concat(a: Seq<char>, b: Seq<char>, c: char)
    ensures
        count_of(a + b, c) == count_of(a, c) + count_of(b, c),
    decreases a.len(),
{
    if a.len() == 0 {
        assert(a + b =~= b);
    } else {
        assert((a + b)[0] == a[0]);
        assert((a + b).skip(1) =~= a.skip(1) + b);
        lemma_count_concat(a.skip(1), b, c);
    }
}

/// Where `c` is not in `s`, it is counted zero times.
pub proof fn lemma_count_absent(s: Seq<char>, c: char)
    requires
        forall|i: int| 0 <= i < s.len() ==> s[i] != c,
    ensures
        count_of(s, c) == 0,
    decreases s.len(),
{
    if s.len() > 0 {
        lemma_count_absent(s.skip(1), c);
    }
}

} // verus!
