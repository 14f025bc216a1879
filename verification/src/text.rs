//! Text as sequences of characters: conversion from and to strings, and
//! replacement of every occurrence of a pattern.

use vstd::prelude::*;
use vstd::std_specs::iter::IteratorSpec;

verus! {

/// `pat` stands in `s` at index `i`.
pub open spec fn occurs_at(s: Seq<char>, pat: Seq<char>, i: int) -> bool {
    &&& 0 <= i
    &&& i + pat.len() <= s.len()
    &&& s.subrange(i, i + pat.len()) == pat
}

/// `s` from index `i` on, with every occurrence of `pat` replaced by `with`.
///
/// Occurrences are taken from left to right and do not overlap. An empty
/// pattern occurs before every character and at the end.
pub open spec fn replaced_from(s: Seq<char>, pat: Seq<char>, with: Seq<char>, i: int) -> Seq<char>
    decreases s.len() - i,
{
    if i < 0 || i >= s.len() {
        if pat.len() == 0 {
            with
        } else {
            Seq::empty()
        }
    } else if pat.len() == 0 {
        with + seq![s[i]] + replaced_from(s, pat, with, i + 1)
    } else if occurs_at(s, pat, i) {
        with + replaced_from(s, pat, with, i + pat.len())
    } else {
        seq![s[i]] + replaced_from(s, pat, with, i + 1)
    }
}

/// `s` with every occurrence of `pat` replaced by `with`.
pub open spec fn replaced(s: Seq<char>, pat: Seq<char>, with: Seq<char>) -> Seq<char> {
    replaced_from(s, pat, with, 0)
}

/// The characters of a string, in order.
pub fn chars_of(s: &str) -> (out: Vec<char>)
    ensures
        out@ == s@,
{
    broadcast use vstd::string::group_string_axioms;

    let mut out: Vec<char> = Vec::new();
    let mut it = s.chars();
    loop
        invariant
            out@ + it.remaining() == s@,
            it.decrease() is Some,
        ensures
            out@ == s@,
        decreases it.decrease()->0,
    {
        let ghost before = it.remaining();
        match it.next() {
            Some(c) => {
                out.push(c);
                assert(out@ + it.remaining() =~= s@) by {
                    assert(before =~= seq![c] + before.drop_first());
                }
            },
            None => {
                assert(out@ =~= s@);
                break;
            },
        }
    }
    out
}

/// Appends every item of `src` to `dst`.
pub fn append_chars(dst: &mut Vec<char>, src: &[char])
    ensures
        final(dst)@ == old(dst)@ + src@,
{
    let mut k: usize = 0;
    while k < src.len()
        invariant
            k <= src.len(),
            dst@ == old(dst)@ + src@.subrange(0, k as int),
        decreases src.len() - k,
    {
        dst.push(src[k]);
        k += 1;
        assert(dst@ =~= old(dst)@ + src@.subrange(0, k as int));
    }
    assert(src@.subrange(0, k as int) =~= src@);
}

/// The string made of the characters `s`.
pub fn string_of(s: &[char]) -> (out: String)
    ensures
        out@ == s@,
{
    let mut out = String::new();
    let mut k: usize = 0;
    while k < s.len()
        invariant
            k <= s.len(),
            out@ == s@.subrange(0, k as int),
        decreases s.len() - k,
    {
        push_char(&mut out, s[k]);
        k += 1;
        assert(out@ =~= s@.subrange(0, k as int));
    }
    assert(s@.subrange(0, k as int) =~= s@);
    out
}

/// `String::push` of std: the character is added at the end of the string, and
/// nothing else changes.
#[verifier::external_body]
fn push_char(s: &mut String, c: char)
    ensures
        final(s)@ == old(s)@.push(c),
{
    s.push(c)
}

/// Whether `pat` stands in `s` at index `i`.
pub fn starts_at(s: &[char], pat: &[char], i: usize) -> (hit: bool)
    requires
        i <= s.len(),
    ensures
        hit == occurs_at(s@, pat@, i as int),
{
    if pat.len() > s.len() - i {
        return false;
    }
    let mut k: usize = 0;
    while k < pat.len()
        invariant
            k <= pat.len(),
            i + pat.len() <= s.len(),
            forall|j: int| 0 <= j < k ==> s@[i + j] == pat@[j],
        decreases pat.len() - k,
    {
        if s[i + k] != pat[k] {
            assert(s@.subrange(i as int, i + pat.len())[k as int] != pat@[k as int]);
            return false;
        }
        k += 1;
    }
    assert(s@.subrange(i as int, i + pat.len()) =~= pat@);
    true
}

/// `s` with every occurrence of `pat` replaced by `with`, occurrences taken
/// from left to right.
pub fn replace_all(s: &[char], pat: &[char], with: &[char]) -> (out: Vec<char>)
    ensures
        out@ == replaced(s@, pat@, with@),
{
    let mut out: Vec<char> = Vec::new();
    let mut i: usize = 0;
    while i < s.len()
        invariant
            i <= s.len(),
            out@ + replaced_from(s@, pat@, with@, i as int) == replaced(s@, pat@, with@),
        decreases s.len() - i,
    {
        let ghost rest = replaced_from(s@, pat@, with@, i as int);
        let ghost before = out@;
        if pat.len() == 0 {
            append_chars(&mut out, with);
            out.push(s[i]);
            i += 1;
            assert(out@ + replaced_from(s@, pat@, with@, i as int) =~= before + rest);
        } else if starts_at(s, pat, i) {
            append_chars(&mut out, with);
            i += pat.len();
            assert(out@ + replaced_from(s@, pat@, with@, i as int) =~= before + rest);
        } else {
            out.push(s[i]);
            i += 1;
            assert(out@ + replaced_from(s@, pat@, with@, i as int) =~= before + rest);
        }
    }
    if pat.len() == 0 {
        append_chars(&mut out, with);
    }
    assert(out@ =~= replaced(s@, pat@, with@));
    out
}

/// From index `i` on, a text without any occurrence of the pattern is
/// replaced by itself.
proof fn lemma_replaced_from_without_occurrence(
    s: Seq<char>,
    pat: Seq<char>,
    with: Seq<char>,
    i: int,
)
    requires
        pat.len() > 0,
        0 <= i <= s.len(),
        forall|j: int| i <= j ==> !occurs_at(s, pat, j),
    ensures
        replaced_from(s, pat, with, i) == s.subrange(i, s.len() as int),
    decreases s.len() - i,
{
    if i < s.len() {
        lemma_replaced_from_without_occurrence(s, pat, with, i + 1);
        assert(!occurs_at(s, pat, i));
        assert(seq![s[i]] + s.subrange(i + 1, s.len() as int) =~= s.subrange(i, s.len() as int));
    } else {
        assert(s.subrange(i, s.len() as int) =~= Seq::<char>::empty());
    }
}

/// Replacement from an index on looks only at the text from that index on.
proof fn lemma_replaced_from_suffix(
    s: Seq<char>,
    pat: Seq<char>,
    with: Seq<char>,
    off: int,
    k: int,
)
    requires
        pat.len() > 0,
        0 <= off <= s.len(),
        0 <= k,
    ensures
        replaced_from(s, pat, with, off + k) == replaced_from(
            s.subrange(off, s.len() as int),
            pat,
            with,
            k,
        ),
    decreases s.len() - off - k,
{
    let t = s.subrange(off, s.len() as int);
    if off + k < s.len() {
        if occurs_at(s, pat, off + k) {
            assert(t.subrange(k, k + pat.len()) =~= s.subrange(off + k, off + k + pat.len()));
            lemma_replaced_from_suffix(s, pat, with, off, k + pat.len());
        } else {
            if k + pat.len() <= t.len() {
                assert(t.subrange(k, k + pat.len()) =~= s.subrange(
                    off + k,
                    off + k + pat.len(),
                ));
            }
            lemma_replaced_from_suffix(s, pat, with, off, k + 1);
        }
    }
}

/// A text in which the pattern does not occur is left as it is.
pub proof fn lemma_replaced_without_occurrence(s: Seq<char>, pat: Seq<char>, with: Seq<char>)
    requires
        pat.len() > 0,
        forall|j: int| !occurs_at(s, pat, j),
    ensures
        replaced(s, pat, with) == s,
{
    lemma_replaced_from_without_occurrence(s, pat, with, 0);
    assert(s.subrange(0, s.len() as int) =~= s);
}

/// Up to and including the first occurrence of the pattern: the text before
/// it is kept, the occurrence becomes the replacement, and what follows is
/// replaced in the same way. With nothing before it, this is the replacement
/// of a leading pattern; with something before it, that of an occurrence
/// deeper in the text.
pub proof fn lemma_replaced_at_first_occurrence(
    before: Seq<char>,
    pat: Seq<char>,
    after: Seq<char>,
    with: Seq<char>,
)
    requires
        pat.len() > 0,
        forall|j: int| 0 <= j < before.len() ==> !occurs_at(before + pat + after, pat, j),
    ensures
        replaced(before + pat + after, pat, with) == before + with + replaced(after, pat, with),
{
    let s = before + pat + after;
    let n = before.len() as int;
    assert(s.subrange(n, n + pat.len()) =~= pat);
    assert(s.subrange(n + pat.len(), s.len() as int) =~= after);
    lemma_replaced_from_suffix(s, pat, with, n + pat.len(), 0);
    assert(replaced_from(s, pat, with, n) == with + replaced(after, pat, with));
    lemma_kept_before_first_occurrence(s, pat, with, n, 0);
    assert(s.subrange(0, n) =~= before);
    assert(before + (with + replaced(after, pat, with)) =~= before + with + replaced(
        after,
        pat,
        with,
    ));
}

/// Where the pattern does not occur at the indices from `i` up to `n`, the
/// characters at those indices are kept.
proof fn lemma_kept_before_first_occurrence(
    s: Seq<char>,
    pat: Seq<char>,
    with: Seq<char>,
    n: int,
    i: int,
)
    requires
        pat.len() > 0,
        0 <= i <= n <= s.len(),
        forall|j: int| 0 <= j < n ==> !occurs_at(s, pat, j),
    ensures
        replaced_from(s, pat, with, i) == s.subrange(i, n) + replaced_from(s, pat, with, n),
    decreases n - i,
{
    if i < n {
        lemma_kept_before_first_occurrence(s, pat, with, n, i + 1);
        assert(!occurs_at(s, pat, i));
        assert(seq![s[i]] + (s.subrange(i + 1, n) + replaced_from(s, pat, with, n))
            =~= s.subrange(i, n) + replaced_from(s, pat, with, n));
    } else {
        assert(s.subrange(i, n) + replaced_from(s, pat, with, n) =~= replaced_from(
            s,
            pat,
            with,
            n,
        ));
    }
}

} // verus!
