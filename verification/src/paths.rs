//! Local paths, as text.
//!
//! Paths are strings with `/` between their components. A path may end in
//! separators or in `.` components; these do not count towards its final
//! component, and `..` is never a file name.

use crate::text::chars_of;
use vstd::prelude::*;

verus! {

/// The document name given to resources that look like directories.
pub open spec fn index_name() -> Seq<char> {
    "index.html"@
}

/// The extension that marks a download in progress.
pub open spec fn temp_extension() -> Seq<char> {
    "raybackdl"@
}

/// The length of `p` once trailing separators and trailing `.` components are
/// set aside.
pub open spec fn trimmed_len(p: Seq<char>) -> nat
    decreases p.len(),
{
    let n = p.len() as int;
    if n >= 1 && p[n - 1] == '/' {
        trimmed_len(p.take(n - 1))
    } else if n >= 2 && p[n - 1] == '.' && p[n - 2] == '/' {
        trimmed_len(p.take(n - 2))
    } else {
        p.len()
    }
}

/// Where the component that ends at `end` begins: just behind the nearest
/// separator before `end`, or at the start of the path.
pub open spec fn name_start(p: Seq<char>, end: int) -> int
    decreases end,
{
    if end <= 0 {
        0
    } else if p[end - 1] == '/' {
        end
    } else {
        name_start(p, end - 1)
    }
}

/// The final component of `p`, where it names a file: `None` for the empty
/// path, for a path of separators only, and where that component is `.` or
/// `..`.
pub open spec fn file_name(p: Seq<char>) -> Option<Seq<char>> {
    let end = trimmed_len(p) as int;
    let name = p.subrange(name_start(p, end), end);
    if end == 0 || name == seq!['.'] || name == seq!['.', '.'] {
        None
    } else {
        Some(name)
    }
}

/// The position of the last dot of `name` below `k`, the first character not
/// counted; zero where there is none.
pub open spec fn last_dot(name: Seq<char>, k: int) -> int
    decreases k,
{
    if k <= 1 {
        0
    } else if name[k - 1] == '.' {
        k - 1
    } else {
        last_dot(name, k - 1)
    }
}

/// A name has an extension when a dot stands anywhere but at its start.
pub open spec fn has_extension(name: Seq<char>) -> bool {
    last_dot(name, name.len() as int) > 0
}

/// Whether `p` has no final component that carries an extension.
pub open spec fn lacks_extension(p: Seq<char>) -> bool {
    match file_name(p) {
        None => true,
        Some(name) => !has_extension(name),
    }
}

/// `p` with the component `leaf` added behind it.
pub open spec fn pushed(p: Seq<char>, leaf: Seq<char>) -> Seq<char> {
    if p.len() == 0 || p.last() == '/' {
        p + leaf
    } else {
        p + seq!['/'] + leaf
    }
}

/// The local path for a resource whose URL path, past the query's, is `p`.
/// An empty path, a path that is a directory on disk and a path whose final
/// component has no extension are taken for directories and get the index
/// document's name; every other path stays as it is.
pub open spec fn sanitized(p: Seq<char>, is_dir: bool) -> Seq<char> {
    if is_dir || p.len() == 0 || lacks_extension(p) {
        pushed(p, index_name())
    } else {
        p
    }
}

/// The file a download is written to until it is complete: the whole of
/// `dest` with a dot and the temporary extension behind it. It lies beside
/// the destination, is never the destination, and is another file for every
/// other destination.
pub open spec fn temp_of(dest: Seq<char>) -> Seq<char> {
    dest + seq!['.'] + temp_extension()
}

/// Whether `p` ends in a dot and the temporary extension.
pub open spec fn is_temp_name(p: Seq<char>) -> bool {
    let marker = seq!['.'] + temp_extension();
    p.len() >= marker.len() && p.skip(p.len() - marker.len()) == marker
}

/// `rel` placed under `base`. One separator is put between the two unless
/// either already supplies it; an empty `base` adds nothing.
pub open spec fn joined(base: Seq<char>, rel: Seq<char>) -> Seq<char> {
    if base.len() == 0 {
        rel
    } else if base.last() == '/' || (rel.len() > 0 && rel[0] == '/') {
        base + rel
    } else {
        base + seq!['/'] + rel
    }
}

/// What is left of `path` behind its first `prefix.len()` characters, where
/// it has that many.
pub open spec fn beyond_prefix(path: Seq<char>, prefix: Seq<char>) -> Option<Seq<char>> {
    if prefix.len() <= path.len() {
        Some(path.skip(prefix.len() as int))
    } else {
        None
    }
}

/// The temporary file is never the destination: what is written before a
/// download is complete is written elsewhere.
pub proof fn lemma_temp_differs_from_destination(dest: Seq<char>)
    ensures
        temp_of(dest) != dest,
{
    assert(temp_of(dest).len() == dest.len() + 1 + temp_extension().len());
}

/// Different destinations have different temporary files: two downloads
/// never write to the same file.
pub proof fn lemma_temp_is_of_one_destination(a: Seq<char>, b: Seq<char>)
    requires
        a != b,
    ensures
        temp_of(a) != temp_of(b),
{
    if temp_of(a) == temp_of(b) {
        assert(temp_of(a).len() == a.len() + 1 + temp_extension().len());
        assert(temp_of(b).len() == b.len() + 1 + temp_extension().len());
        assert(a =~= temp_of(a).take(a.len() as int));
        assert(b =~= temp_of(b).take(b.len() as int));
    }
}

/// A temporary file carries the temporary extension: it is the destination
/// of no download but one whose own path ends in that extension.
pub proof fn lemma_temp_is_marked(dest: Seq<char>)
    ensures
        is_temp_name(temp_of(dest)),
{
    let marker = seq!['.'] + temp_extension();
    assert(temp_of(dest).len() == dest.len() + marker.len());
    assert(temp_of(dest).skip(dest.len() as int) =~= marker);
}

/// A component starts within the path and before its own end.
proof fn lemma_name_start_bounds(p: Seq<char>, end: int)
    requires
        0 <= end <= p.len(),
    ensures
        0 <= name_start(p, end) <= end,
        forall|i: int| name_start(p, end) <= i < end ==> p[i] != '/',
        name_start(p, end) > 0 ==> p[name_start(p, end) - 1] == '/',
    decreases end,
{
    if end > 0 && p[end - 1] != '/' {
        lemma_name_start_bounds(p, end - 1);
    }
}

/// The trimmed length stays within the path, and what it ends on is no
/// separator.
proof fn lemma_trimmed_len_bounds(p: Seq<char>)
    ensures
        trimmed_len(p) <= p.len(),
        trimmed_len(p) > 0 ==> p[trimmed_len(p) - 1] != '/',
    decreases p.len(),
{
    let n = p.len() as int;
    if n >= 1 && p[n - 1] == '/' {
        lemma_trimmed_len_bounds(p.take(n - 1));
    } else if n >= 2 && p[n - 1] == '.' && p[n - 2] == '/' {
        lemma_trimmed_len_bounds(p.take(n - 2));
    }
}

/// A file name is one component of its path: it is not empty, holds no
/// separator, and is neither `.` nor `..`.
pub proof fn lemma_file_name_is_a_component(p: Seq<char>)
    requires
        file_name(p) is Some,
    ensures
        file_name(p).unwrap().len() > 0,
        forall|i: int| 0 <= i < file_name(p).unwrap().len() ==> file_name(p).unwrap()[i] != '/',
        file_name(p).unwrap() != seq!['.'],
        file_name(p).unwrap() != seq!['.', '.'],
{
    lemma_trimmed_len_bounds(p);
    lemma_name_start_bounds(p, trimmed_len(p) as int);
}

/// The last dot, where there is one, is a dot past the first character, and
/// no dot follows it.
pub proof fn lemma_last_dot(name: Seq<char>, k: int)
    requires
        0 <= k <= name.len(),
    ensures
        0 <= last_dot(name, k) < k || (k == 0 && last_dot(name, k) == 0),
        last_dot(name, k) > 0 ==> name[last_dot(name, k)] == '.',
        forall|i: int| last_dot(name, k) < i < k && 0 < i ==> name[i] != '.',
    decreases k,
{
    if k > 1 && name[k - 1] != '.' {
        lemma_last_dot(name, k - 1);
    }
}

/// A name has an extension exactly when some character past its first is a
/// dot.
pub proof fn lemma_has_extension(name: Seq<char>)
    ensures
        has_extension(name) <==> exists|i: int| 0 < i < name.len() && name[i] == '.',
{
    lemma_last_dot(name, name.len() as int);
    if has_extension(name) {
        let d = last_dot(name, name.len() as int);
        assert(0 < d < name.len() && name[d] == '.');
    }
}

/// The end of the final component and its start.
fn name_span(cs: &Vec<char>) -> (r: (usize, usize))
    ensures
        r.1 == trimmed_len(cs@),
        r.0 == name_start(cs@, r.1 as int),
        r.0 <= r.1 <= cs.len(),
{
    let mut end = cs.len();
    assert(cs@.take(end as int) =~= cs@);
    loop
        invariant_except_break
            end <= cs.len(),
            trimmed_len(cs@) == trimmed_len(cs@.take(end as int)),
        ensures
            end <= cs.len(),
            trimmed_len(cs@) == end,
        decreases end,
    {
        if end >= 1 && cs[end - 1] == '/' {
            assert(cs@.take(end as int).take(end - 1) =~= cs@.take(end - 1));
            end -= 1;
        } else if end >= 2 && cs[end - 1] == '.' && cs[end - 2] == '/' {
            assert(cs@.take(end as int).take(end - 2) =~= cs@.take(end - 2));
            end -= 2;
        } else {
            break ;
        }
    }
    let mut start = end;
    while start > 0 && cs[start - 1] != '/'
        invariant
            start <= end <= cs.len(),
            name_start(cs@, end as int) == name_start(cs@, start as int),
        decreases start,
    {
        start -= 1;
    }
    (start, end)
}

/// The position in `cs` of the last dot of the component from `start` to
/// `end`, its first character not counted; `start` where there is none.
fn last_dot_in(cs: &Vec<char>, start: usize, end: usize) -> (d: usize)
    requires
        start <= end <= cs.len(),
    ensures
        d == start + last_dot(cs@.subrange(start as int, end as int), end - start),
        start <= d,
        d < end || d == start,
{
    let ghost name = cs@.subrange(start as int, end as int);
    let mut k = end;
    while k - start > 1
        invariant
            start <= k <= end <= cs.len(),
            name == cs@.subrange(start as int, end as int),
            last_dot(name, end - start) == last_dot(name, k - start),
        decreases k,
    {
        assert(name[k - 1 - start] == cs@[k - 1]);
        if cs[k - 1] == '.' {
            return k - 1;
        }
        k -= 1;
    }
    start
}

/// Whether the path spelled by `cs` lacks a final component with an
/// extension.
fn lacks_extension_in(cs: &Vec<char>) -> (r: bool)
    ensures
        r == lacks_extension(cs@),
{
    let (start, end) = name_span(cs);
    let ghost name = cs@.subrange(start as int, end as int);
    if end == 0 {
        return true;
    }
    if end - start == 1 && cs[start] == '.' {
        assert(name =~= seq!['.']);
        return true;
    }
    if end - start == 2 && cs[start] == '.' && cs[start + 1] == '.' {
        assert(name =~= seq!['.', '.']);
        return true;
    }
    assert(name != seq!['.']) by {
        if name == seq!['.'] {
            assert(name.len() == 1 && name[0] == '.');
        }
    }
    assert(name != seq!['.', '.']) by {
        if name == seq!['.', '.'] {
            assert(name.len() == 2 && name[0] == '.' && name[1] == '.');
        }
    }
    let d = last_dot_in(cs, start, end);
    d == start
}

/// Adds `leaf` to `path` as a further component.
fn push_component(path: String, cs: &Vec<char>, leaf: &str) -> (r: String)
    requires
        cs@ == path@,
    ensures
        r@ == pushed(path@, leaf@),
{
    let mut out = path;
    if cs.len() > 0 && cs[cs.len() - 1] != '/' {
        proof {
            reveal_strlit("/");
        }
        out.append("/");
        assert("/"@ =~= seq!['/']);
    }
    out.append(leaf);
    out
}

/// Maps the URL path of a resource, taken past the query's path, to the local
/// path it is stored under. `is_dir` tells whether `path` is a directory on
/// the local disk.
///
/// Resources that look like directories get the name of an index document,
/// so that the mirror can be browsed: see [`sanitized`].
pub fn sanitize_path(path: String, is_dir: bool) -> (r: String)
    ensures
        r@ == sanitized(path@, is_dir),
{
    let cs = chars_of(path.as_str());
    if is_dir || cs.len() == 0 || lacks_extension_in(&cs) {
        push_component(path, &cs, "index.html")
    } else {
        path
    }
}

/// The path a download is written to until it is complete.
pub fn temp_path(dest: &str) -> (r: String)
    ensures
        r@ == temp_of(dest@),
{
    let mut out = dest.to_owned();
    proof {
        reveal_strlit(".");
    }
    out.append(".");
    assert("."@ =~= seq!['.']);
    out.append("raybackdl");
    out
}

/// The path of a job's file: `rel_path` under `out_dir`.
pub fn destination(out_dir: &str, rel_path: &str) -> (r: String)
    ensures
        r@ == joined(out_dir@, rel_path@),
{
    let base = chars_of(out_dir);
    let rel = chars_of(rel_path);
    if base.len() == 0 {
        return rel_path.to_owned();
    }
    let mut out = out_dir.to_owned();
    if base[base.len() - 1] != '/' && !(rel.len() > 0 && rel[0] == '/') {
        proof {
            reveal_strlit("/");
        }
        out.append("/");
        assert("/"@ =~= seq!['/']);
    }
    out.append(rel_path);
    out
}

/// Strips the query's path from the path of a record that answers it. Only
/// the length of `prefix` is used: the index is trusted to have matched it.
/// `None` where `path` is shorter than `prefix`.
pub fn relative_path(path: &str, prefix: &str) -> (r: Option<String>)
    ensures
        match r {
            Some(s) => beyond_prefix(path@, prefix@) == Some(s@),
            None => beyond_prefix(path@, prefix@) is None,
        },
{
    let n = prefix.unicode_len();
    let m = path.unicode_len();
    if n <= m {
        Some(path.substring_char(n, m).to_owned())
    } else {
        None
    }
}

} // verus!
