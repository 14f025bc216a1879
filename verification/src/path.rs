//! Paths as text: the file name, the extension, the parent directory, and the
//! rewriting of an input path into the path of its converted file.
//!
//! A path is read as text with `/` between its components. The last
//! component is everything after the last `/`; a path that ends in `/` has an
//! empty last component.

use vstd::prelude::*;
use crate::text::{
    append_chars, chars_of, lemma_replaced_at_first_occurrence, lemma_replaced_without_occurrence,
    occurs_at, replace_all, replaced, string_of,
};

verus! {

/// The index of the last `c` in `s`, or `-1` where `s` holds none.
pub open spec fn last_index_of(s: Seq<char>, c: char) -> int
    decreases s.len(),
{
    if s.len() == 0 {
        -1
    } else if s.last() == c {
        s.len() - 1
    } else {
        last_index_of(s.drop_last(), c)
    }
}

/// The extension that every converted file gets.
pub open spec fn target_extension() -> Seq<char> {
    seq!['m', 'p', '3']
}

/// The last component of `p`.
pub open spec fn name_of(p: Seq<char>) -> Seq<char> {
    p.subrange(last_index_of(p, '/') + 1, p.len() as int)
}

/// Where in `p` the extension starts: just after the last `.` of the last
/// component. There is none where that component has no `.`, where its only
/// `.` is its first character, or where it is `..`.
pub open spec fn extension_start(p: Seq<char>) -> Option<int> {
    let name = name_of(p);
    let dot = last_index_of(name, '.');
    if dot <= 0 || (name.len() == 2 && name[0] == '.') {
        None
    } else {
        Some(p.len() - name.len() + dot + 1)
    }
}

/// The extension of `p`, without its `.`.
pub open spec fn extension_of(p: Seq<char>) -> Option<Seq<char>> {
    match extension_start(p) {
        Some(e) => Some(p.subrange(e, p.len() as int)),
        None => None,
    }
}

/// `p` with its extension replaced by the target extension; `p` itself where
/// it has no extension.
pub open spec fn retargeted(p: Seq<char>) -> Seq<char> {
    match extension_start(p) {
        Some(e) => p.subrange(0, e) + target_extension(),
        None => p,
    }
}

/// The output path of the input file `file`: every occurrence of the text
/// `root_in` replaced by `root_out`, then the extension replaced by the
/// target extension.
pub open spec fn mapped_path(file: Seq<char>, root_in: Seq<char>, root_out: Seq<char>) -> Seq<
    char,
> {
    retargeted(replaced(file, root_in, root_out))
}

/// The directory that holds `p`: the text before the last `/`, or `/` where
/// that is the only one and stands first, or the empty path where `p` has no
/// `/`. The empty path and `/` have no parent.
pub open spec fn parent_of(p: Seq<char>) -> Option<Seq<char>> {
    let slash = last_index_of(p, '/');
    if p.len() == 0 || (p.len() == 1 && slash == 0) {
        None
    } else if slash < 0 {
        Some(Seq::empty())
    } else if slash == 0 {
        Some(seq!['/'])
    } else {
        Some(p.subrange(0, slash))
    }
}

/// What `last_index_of` gives is an index of `c`, and no `c` follows it.
pub proof fn lemma_last_index_of(s: Seq<char>, c: char)
    ensures
        -1 <= last_index_of(s, c) < s.len(),
        last_index_of(s, c) >= 0 ==> s[last_index_of(s, c)] == c,
        forall|j: int| last_index_of(s, c) < j < s.len() ==> s[j] != c,
    decreases s.len(),
{
    if s.len() > 0 && s.last() != c {
        lemma_last_index_of(s.drop_last(), c);
        assert forall|j: int| last_index_of(s, c) < j < s.len() implies s[j] != c by {
            if j < s.len() - 1 {
                assert(s.drop_last()[j] == s[j]);
            }
        }
    }
}

/// An index of `c` that no `c` follows is the one `last_index_of` gives.
pub proof fn lemma_last_index_of_unique(s: Seq<char>, c: char, k: int)
    requires
        -1 <= k < s.len(),
        k >= 0 ==> s[k] == c,
        forall|j: int| k < j < s.len() ==> s[j] != c,
    ensures
        last_index_of(s, c) == k,
{
    lemma_last_index_of(s, c);
}

/// The index of the last `c` in `s`.
pub fn find_last(s: &[char], c: char) -> (found: Option<usize>)
    ensures
        match found {
            Some(k) => k as int == last_index_of(s@, c) && k < s.len(),
            None => last_index_of(s@, c) == -1,
        },
{
    let mut k: usize = s.len();
    assert(s@.subrange(0, k as int) =~= s@);
    while k > 0
        invariant
            k <= s.len(),
            last_index_of(s@, c) == last_index_of(s@.subrange(0, k as int), c),
        decreases k,
    {
        if s[k - 1] == c {
            return Some(k - 1);
        }
        assert(s@.subrange(0, k as int).drop_last() =~= s@.subrange(0, k - 1));
        k -= 1;
    }
    None
}

/// The index at which the last component of `p` starts.
pub fn name_start(p: &[char]) -> (start: usize)
    ensures
        start as int == last_index_of(p@, '/') + 1,
        start <= p.len(),
{
    proof {
        lemma_last_index_of(p@, '/');
    }
    match find_last(p, '/') {
        Some(k) => k + 1,
        None => 0,
    }
}

/// The index at which the extension of `p` starts, if it has one.
pub fn find_extension(p: &[char]) -> (found: Option<usize>)
    ensures
        match found {
            Some(e) => extension_start(p@) == Some(e as int) && 0 < e <= p.len(),
            None => extension_start(p@) is None,
        },
{
    let start = name_start(p);
    let name = slice_from(p, start);
    proof {
        lemma_last_index_of(name@, '.');
    }
    match find_last(name, '.') {
        Some(dot) => {
            if dot == 0 || (name.len() == 2 && name[0] == '.') {
                None
            } else {
                Some(start + dot + 1)
            }
        },
        None => None,
    }
}

/// The part of `s` from index `from` on.
fn slice_from(s: &[char], from: usize) -> (out: &[char])
    requires
        from <= s.len(),
    ensures
        out@ == s@.subrange(from as int, s.len() as int),
{
    vstd::slice::slice_subrange(s, from, s.len())
}

/// The first `n` characters of `s`.
fn slice_to(s: &[char], n: usize) -> (out: &[char])
    requires
        n <= s.len(),
    ensures
        out@ == s@.subrange(0, n as int),
{
    vstd::slice::slice_subrange(s, 0, n)
}

/// `p` with its extension replaced by the target extension.
pub fn retarget(p: &[char]) -> (out: Vec<char>)
    ensures
        out@ == retargeted(p@),
{
    let mut out: Vec<char> = Vec::new();
    match find_extension(p) {
        Some(e) => {
            append_chars(&mut out, slice_to(p, e));
            out.push('m');
            out.push('p');
            out.push('3');
            assert(out@ =~= p@.subrange(0, e as int) + target_extension());
        },
        None => {
            append_chars(&mut out, p);
            assert(out@ =~= p@);
        },
    }
    out
}

/// The path of the converted file for the input file `file`.
///
/// The text `root_in` is replaced by `root_out` wherever it stands in `file`,
/// not only at its start; then the extension is replaced by `mp3`. A path
/// without an extension keeps its name.
pub fn output_path(file: &str, root_in: &str, root_out: &str) -> (out: String)
    ensures
        out@ == mapped_path(file@, root_in@, root_out@),
{
    let file = chars_of(file);
    let root_in = chars_of(root_in);
    let root_out = chars_of(root_out);
    let moved = replace_all(file.as_slice(), root_in.as_slice(), root_out.as_slice());
    let done = retarget(moved.as_slice());
    string_of(done.as_slice())
}

/// The extension of `path`, without its `.`, if it has one.
pub fn extension(path: &str) -> (out: Option<String>)
    ensures
        match out {
            Some(e) => extension_of(path@) == Some(e@),
            None => extension_of(path@) is None,
        },
{
    let p = chars_of(path);
    match find_extension(p.as_slice()) {
        Some(e) => Some(string_of(slice_from(p.as_slice(), e))),
        None => None,
    }
}

/// The last component of `path`: the name under which a task is reported.
pub fn file_name(path: &str) -> (out: String)
    ensures
        out@ == name_of(path@),
{
    let p = chars_of(path);
    let start = name_start(p.as_slice());
    string_of(slice_from(p.as_slice(), start))
}

/// The directory that has to exist before `path` can be written.
pub fn parent_dir(path: &str) -> (out: Option<String>)
    ensures
        match out {
            Some(d) => parent_of(path@) == Some(d@),
            None => parent_of(path@) is None,
        },
{
    let p = chars_of(path);
    match find_last(p.as_slice(), '/') {
        Some(slash) => {
            if slash == 0 {
                if p.len() == 1 {
                    None
                } else {
                    let mut root: Vec<char> = Vec::new();
                    root.push('/');
                    assert(root@ =~= seq!['/']);
                    Some(string_of(root.as_slice()))
                }
            } else {
                Some(string_of(slice_to(p.as_slice(), slash)))
            }
        },
        None => {
            if p.len() == 0 {
                None
            } else {
                let empty: Vec<char> = Vec::new();
                assert(empty@ =~= Seq::<char>::empty());
                Some(string_of(empty.as_slice()))
            }
        },
    }
}

/// A name with a stem gets the target extension in place of its own: the
/// path `stem`, a `.` and `ext` has the extension `ext` and is retargeted to
/// `stem`, a `.` and `mp3`, where `stem` does not end a component, `ext` is
/// one extension, and the name is not `..`.
pub proof fn lemma_extension_is_replaced(stem: Seq<char>, ext: Seq<char>)
    requires
        stem.len() > 0,
        stem.last() != '/',
        forall|j: int| 0 <= j < ext.len() ==> ext[j] != '.' && ext[j] != '/',
        !(ext.len() == 0 && name_of(stem) == seq!['.']),
    ensures
        extension_of(stem + seq!['.'] + ext) == Some(ext),
        retargeted(stem + seq!['.'] + ext) == stem + seq!['.'] + target_extension(),
{
    let p = stem + seq!['.'] + ext;
    let n = stem.len() as int;
    assert(p[n] == '.');
    assert forall|j: int| n < j < p.len() implies p[j] != '/' && p[j] != '.' by {
        assert(p[j] == ext[j - n - 1]);
    }
    lemma_last_index_of(stem, '/');
    let slash = last_index_of(stem, '/');
    assert(slash < n - 1);
    assert forall|j: int| slash < j < p.len() implies p[j] != '/' by {
        if j < n {
            assert(p[j] == stem[j]);
        }
    }
    if slash >= 0 {
        assert(p[slash] == stem[slash]);
    }
    lemma_last_index_of_unique(p, '/', slash);
    let name = name_of(p);
    let dot = n - (slash + 1);
    assert(name[dot] == '.');
    assert forall|j: int| dot < j < name.len() implies name[j] != '.' by {
        assert(name[j] == p[j + slash + 1]);
    }
    lemma_last_index_of_unique(name, '.', dot);
    if name.len() == 2 && name[0] == '.' {
        assert(name_of(stem) =~= seq!['.']) by {
            assert(name_of(stem)[0] == name[0]);
        }
    }
    assert(extension_start(p) == Some(n + 1));
    assert(p.subrange(n + 1, p.len() as int) =~= ext);
    assert(p.subrange(0, n + 1) + target_extension() =~= stem + seq!['.'] + target_extension());
}

/// A file under the input root lands under the output root with the target
/// extension: `root_in` followed by `rest`, a `.` and the extension `ext` is
/// mapped to `root_out` followed by `rest`, a `.` and `mp3`, where the text
/// `root_in` does not occur again behind the root, `rest` does not end a
/// component, `ext` is one extension, and the name is not `..`.
pub proof fn lemma_rooted_file_is_mapped_under_output_root(
    root_in: Seq<char>,
    root_out: Seq<char>,
    rest: Seq<char>,
    ext: Seq<char>,
)
    requires
        root_in.len() > 0,
        forall|j: int| !occurs_at(rest + seq!['.'] + ext, root_in, j),
        rest.len() > 0,
        rest.last() != '/',
        forall|j: int| 0 <= j < ext.len() ==> ext[j] != '.' && ext[j] != '/',
        !(ext.len() == 0 && name_of(root_out + rest) == seq!['.']),
    ensures
        mapped_path(root_in + rest + seq!['.'] + ext, root_in, root_out) == root_out + rest
            + seq!['.'] + target_extension(),
{
    let tail = rest + seq!['.'] + ext;
    let empty = Seq::<char>::empty();
    assert(empty + root_in + tail =~= root_in + rest + seq!['.'] + ext);
    lemma_replaced_at_first_occurrence(empty, root_in, tail, root_out);
    lemma_replaced_without_occurrence(tail, root_in, root_out);
    assert(empty + root_out + tail =~= root_out + rest + seq!['.'] + ext);
    lemma_extension_is_replaced(root_out + rest, ext);
}

/// The text of the input root is replaced wherever it stands, not only in
/// front: a file that holds `root_in` first and once more behind `between`
/// has both replaced, where `root_in` does not occur earlier behind the
/// root than that.
pub proof fn lemma_root_text_is_replaced_deeper_too(
    root_in: Seq<char>,
    root_out: Seq<char>,
    between: Seq<char>,
    after: Seq<char>,
)
    requires
        root_in.len() > 0,
        forall|j: int| 0 <= j < between.len() ==> !occurs_at(between + root_in + after, root_in, j),
    ensures
        replaced(root_in + (between + root_in + after), root_in, root_out) == root_out + (between
            + root_out + replaced(after, root_in, root_out)),
        mapped_path(root_in + (between + root_in + after), root_in, root_out) == retargeted(
            root_out + (between + root_out + replaced(after, root_in, root_out)),
        ),
{
    let empty = Seq::<char>::empty();
    let tail = between + root_in + after;
    assert(empty + root_in + tail =~= root_in + tail);
    lemma_replaced_at_first_occurrence(empty, root_in, tail, root_out);
    lemma_replaced_at_first_occurrence(between, root_in, after, root_out);
    assert(empty + root_out + replaced(tail, root_in, root_out) =~= root_out + (between + root_out
        + replaced(after, root_in, root_out)));
}

} // verus!
