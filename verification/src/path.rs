//! Paths as texts with `/` between their components.
//!
//! The rules are those of Unix file names: a path that starts with `/` is absolute,
//! repeated slashes count as one, and a component `.` counts only at the start of a
//! relative path.

use crate::text;
use crate::text::{chars_of, is_text, stands_at, string_of};
use vstd::prelude::*;
use vstd::slice::slice_subrange;
use vstd::slice::slice_to_vec;

verus! {

/// Where the run of characters other than `/` that is open at place `from` ends.
pub open spec fn piece_end(s: Seq<char>, from: int) -> int
    decreases s.len() - from,
{
    if from >= s.len() || s[from] == '/' {
        from
    } else {
        piece_end(s, from + 1)
    }
}

pub proof fn lemma_piece_end(s: Seq<char>, from: int)
    requires
        from <= s.len(),
    ensures
        from <= piece_end(s, from) <= s.len(),
        from < s.len() && s[from] != '/' ==> from < piece_end(s, from),
    decreases s.len() - from,
{
    if from < s.len() && s[from] != '/' {
        lemma_piece_end(s, from + 1);
    }
}

/// Where the components from place `from` on start and end.
pub open spec fn spans_from(s: Seq<char>, from: int) -> Seq<(int, int)>
    decreases s.len() - from,
    via spans_from_shrinks
{
    if from >= s.len() {
        Seq::empty()
    } else if s[from] == '/' {
        spans_from(s, from + 1)
    } else {
        let end = piece_end(s, from);
        if from > 0 && s.subrange(from, end) == "."@ {
            spans_from(s, end)
        } else {
            seq![(from, end)] + spans_from(s, end)
        }
    }
}

#[via_fn]
proof fn spans_from_shrinks(s: Seq<char>, from: int) {
    if from < s.len() {
        lemma_piece_end(s, from);
    }
}

/// Whether a path starts at the root.
pub open spec fn absolute(s: Seq<char>) -> bool {
    s.len() > 0 && s[0] == '/'
}

/// Where the components of a path start and end. The root is a component.
pub open spec fn spans(s: Seq<char>) -> Seq<(int, int)> {
    if absolute(s) {
        seq![(0int, 1int)] + spans_from(s, 1)
    } else {
        spans_from(s, 0)
    }
}

/// The components of a path: `/` for the root, then the names, `.` and `..`.
pub open spec fn components(s: Seq<char>) -> Seq<Seq<char>> {
    spans(s).map_values(|span: (int, int)| s.subrange(span.0, span.1))
}

/// Whether spans follow one another inside a text.
pub open spec fn spans_fit(spans: Seq<(int, int)>, from: int, len: int) -> bool {
    &&& forall|i: int| 0 <= i < spans.len() ==> from <= (#[trigger] spans[i]).0 < spans[i].1 <= len
    &&& forall|i: int, j: int|
        0 <= i < j < spans.len() ==> (#[trigger] spans[i]).1 <= (#[trigger] spans[j]).0
}

pub proof fn lemma_spans_from_fit(s: Seq<char>, from: int)
    requires
        0 <= from,
    ensures
        spans_fit(spans_from(s, from), from, s.len() as int),
    decreases s.len() - from,
{
    if from < s.len() {
        lemma_piece_end(s, from);
        if s[from] == '/' {
            lemma_spans_from_fit(s, from + 1);
        } else {
            lemma_spans_from_fit(s, piece_end(s, from));
        }
    }
}

/// The spans of a path follow one another inside it.
pub proof fn lemma_spans_fit(s: Seq<char>)
    ensures
        spans_fit(spans(s), 0, s.len() as int),
{
    if absolute(s) {
        lemma_spans_from_fit(s, 1);
    } else {
        lemma_spans_from_fit(s, 0);
    }
}

/// What a row of places stands for.
pub open spec fn as_spans(v: Seq<(usize, usize)>) -> Seq<(int, int)> {
    v.map_values(|p: (usize, usize)| (p.0 as int, p.1 as int))
}

/// Where the components of a path start and end.
fn find_spans(s: &[char]) -> (found: Vec<(usize, usize)>)
    ensures
        as_spans(found@) == spans(s@),
{
    let n: usize = s.len();
    let mut found: Vec<(usize, usize)> = Vec::new();
    let mut from: usize = 0;
    proof {
        reveal_strlit(".");
    }
    if n > 0 && s[0] == '/' {
        found.push((0, 1));
        from = 1;
    }
    assert(as_spans(found@) + spans_from(s@, from as int) =~= spans(s@));
    while from < n
        invariant
            from <= n == s@.len(),
            as_spans(found@) + spans_from(s@, from as int) == spans(s@),
        decreases n - from,
    {
        if s[from] == '/' {
            from = from + 1;
        } else {
            let mut end: usize = from;
            while end < n && s[end] != '/'
                invariant
                    from <= end <= n == s@.len(),
                    piece_end(s@, end as int) == piece_end(s@, from as int),
                decreases n - end,
            {
                end = end + 1;
            }
            proof {
                lemma_piece_end(s@, from as int);
            }
            let ghost before = as_spans(found@);
            if from > 0 && is_text(slice_subrange(s, from, end), ".") {
            } else {
                found.push((from, end));
                assert(as_spans(found@) =~= before.push((from as int, end as int)));
            }
            assert(as_spans(found@) + spans_from(s@, end as int) =~= before + spans_from(
                s@,
                from as int,
            ));
            from = end;
        }
    }
    assert(spans_from(s@, from as int) =~= Seq::empty());
    assert(as_spans(found@) =~= spans(s@));
    found
}

/// The components of a path.
pub fn components_of(s: &[char]) -> (parts: Vec<Vec<char>>)
    ensures
        text::views(parts@) == components(s@),
{
    let found = find_spans(s);
    let ghost all = spans(s@);
    let mut parts: Vec<Vec<char>> = Vec::new();
    let mut i: usize = 0;
    proof {
        lemma_spans_fit(s@);
    }
    assert(text::views(parts@) =~= components(s@).take(0));
    while i < found.len()
        invariant
            i <= found@.len(),
            as_spans(found@) == all,
            all == spans(s@),
            spans_fit(all, 0, s@.len() as int),
            text::views(parts@) == components(s@).take(i as int),
        decreases found@.len() - i,
    {
        assert(all[i as int] == (found@[i as int].0 as int, found@[i as int].1 as int));
        let part = slice_to_vec(slice_subrange(s, found[i].0, found[i].1));
        assert(components(s@)[i as int] == part@);
        let ghost before = text::views(parts@);
        parts.push(part);
        assert(text::views(parts@) =~= before.push(part@));
        assert(components(s@).take(i + 1) =~= before.push(part@));
        i = i + 1;
    }
    assert(components(s@).take(i as int) =~= components(s@));
    parts
}

/// A path without its last component; nothing if it has none or is the root.
pub open spec fn parent(s: Seq<char>) -> Option<Seq<char>> {
    let all = spans(s);
    if all.len() == 0 || components(s).last() == "/"@ {
        None
    } else {
        Some(cut(s, all.len() - 1))
    }
}

/// A path up to the end of its first `n` components.
pub open spec fn cut(s: Seq<char>, n: int) -> Seq<char> {
    if n <= 0 {
        Seq::empty()
    } else {
        s.take(spans(s)[n - 1].1)
    }
}

/// The first `n` components of a path.
fn cut_path(s: &[char], n: usize) -> (front: Vec<char>)
    requires
        n <= spans(s@).len(),
    ensures
        front@ == cut(s@, n as int),
{
    if n == 0 {
        return Vec::new();
    }
    let found = find_spans(s);
    proof {
        lemma_spans_fit(s@);
        assert(spans(s@)[n - 1] == (found@[n - 1].0 as int, found@[n - 1].1 as int));
    }
    slice_to_vec(slice_subrange(s, 0, found[n - 1].1))
}

/// A path without its last component.
pub fn parent_of(s: &[char]) -> (up: Option<Vec<char>>)
    ensures
        text::view_of(up) == parent(s@),
{
    let parts = components_of(s);
    let n: usize = parts.len();
    assert(n == components(s@).len());
    if n == 0 {
        return None;
    }
    assert(components(s@).last() == parts@[n - 1]@);
    if is_text(parts[n - 1].as_slice(), "/") {
        return None;
    }
    Some(cut_path(s, n - 1))
}

/// How many components two paths have in common from the start.
pub open spec fn shared_len(a: Seq<Seq<char>>, b: Seq<Seq<char>>) -> int
    decreases a.len(),
{
    if a.len() == 0 || b.len() == 0 || a[0] != b[0] {
        0
    } else {
        1 + shared_len(a.drop_first(), b.drop_first())
    }
}

/// Whether two rows of characters are the same.
pub fn same_chars(a: &[char], b: &[char]) -> (yes: bool)
    ensures
        yes == (a@ == b@),
{
    if a.len() != b.len() {
        return false;
    }
    let yes = stands_at(a, 0, b);
    assert(a@.subrange(0, a@.len() as int) =~= a@);
    yes
}

/// How many components two paths have in common from the start.
fn count_shared(a: &Vec<Vec<char>>, b: &Vec<Vec<char>>) -> (n: usize)
    ensures
        n == shared_len(text::views(a@), text::views(b@)),
        n <= a@.len(),
        n <= b@.len(),
{
    let ghost x = text::views(a@);
    let ghost y = text::views(b@);
    let mut n: usize = 0;
    assert(x.skip(0) =~= x);
    assert(y.skip(0) =~= y);
    while n < a.len() && n < b.len() && same_chars(a[n].as_slice(), b[n].as_slice())
        invariant
            n <= a@.len(),
            n <= b@.len(),
            x == text::views(a@),
            y == text::views(b@),
            shared_len(x, y) == n + shared_len(x.skip(n as int), y.skip(n as int)),
        decreases a@.len() - n,
    {
        assert(x.skip(n as int).drop_first() =~= x.skip(n + 1));
        assert(y.skip(n as int).drop_first() =~= y.skip(n + 1));
        n = n + 1;
    }
    n
}

/// The parents of those paths that have one.
pub open spec fn parents(files: Seq<Seq<char>>) -> Seq<Seq<char>>
    decreases files.len(),
{
    if files.len() == 0 {
        Seq::empty()
    } else {
        match parent(files.last()) {
            Some(up) => parents(files.drop_last()).push(up),
            None => parents(files.drop_last()),
        }
    }
}

/// How many components all the paths have in common with the first one.
pub open spec fn shared_by_all(paths: Seq<Seq<char>>) -> int
    decreases paths.len(),
{
    if paths.len() <= 1 {
        components(paths[0]).len() as int
    } else {
        let n = shared_len(components(paths[0]), components(paths.last()));
        let m = shared_by_all(paths.drop_last());
        if n < m {
            n
        } else {
            m
        }
    }
}

/// The directory that all the files are in, as the first one writes it.
pub open spec fn common_root(files: Seq<Seq<char>>) -> Seq<char> {
    let dirs = parents(files);
    if dirs.len() == 0 {
        Seq::empty()
    } else {
        cut(dirs[0], shared_by_all(dirs))
    }
}

/// The parents of those paths that have one.
pub fn parents_of(files: &[String]) -> (dirs: Vec<String>)
    ensures
        text::views(dirs@) == parents(text::views(files@)),
{
    let ghost all = text::views(files@);
    let mut dirs: Vec<String> = Vec::new();
    let mut i: usize = 0;
    assert(text::views(dirs@) =~= parents(all.take(0)));
    while i < files.len()
        invariant
            i <= files@.len(),
            all == text::views(files@),
            text::views(dirs@) == parents(all.take(i as int)),
        decreases files@.len() - i,
    {
        assert(all.take(i + 1).drop_last() =~= all.take(i as int));
        assert(all.take(i + 1).last() == files@[i as int]@);
        let file = chars_of(files[i].as_str());
        if let Some(dir) = parent_of(file.as_slice()) {
            let ghost before = text::views(dirs@);
            dirs.push(string_of(dir.as_slice()));
            assert(text::views(dirs@) =~= before.push(dir@));
        }
        i = i + 1;
    }
    assert(all.take(i as int) =~= all);
    dirs
}

/// The directory that all the files are in.
pub fn common_file_root(files: &[String]) -> (root: String)
    ensures
        root@ == common_root(text::views(files@)),
{
    let dirs = parents_of(files);
    let ghost all = text::views(dirs@);
    if dirs.len() == 0 {
        return String::new();
    }
    let dir = chars_of(dirs[0].as_str());
    let first = components_of(dir.as_slice());
    let mut shared: usize = first.len();
    let mut i: usize = 1;
    assert(all[0] == dirs@[0]@);
    assert(all.take(1)[0] == all[0]);
    while i < dirs.len()
        invariant
            1 <= i <= dirs@.len(),
            all == text::views(dirs@),
            text::views(first@) == components(all[0]),
            shared == shared_by_all(all.take(i as int)),
            shared <= first@.len(),
        decreases dirs@.len() - i,
    {
        assert(all.take(i + 1).drop_last() =~= all.take(i as int));
        assert(all.take(i + 1).last() == dirs@[i as int]@);
        assert(all.take(i + 1)[0] == all[0]);
        let n: usize = count_shared(
            &first,
            &components_of(chars_of(dirs[i].as_str()).as_slice()),
        );
        if n < shared {
            shared = n;
        }
        i = i + 1;
    }
    assert(all.take(i as int) =~= all);
    assert(first@.len() == components(all[0]).len());
    string_of(cut_path(dir.as_slice(), shared).as_slice())
}

/// Whether the components of `base` are the first ones of `s`.
pub open spec fn under(s: Seq<char>, base: Seq<char>) -> bool {
    shared_len(components(s), components(base)) == components(base).len()
}

/// `s` from its component number `n` on.
pub open spec fn cut_front(s: Seq<char>, n: int) -> Seq<char> {
    let all = spans(s);
    if n >= all.len() {
        Seq::empty()
    } else {
        s.subrange(all[n].0, all.last().1)
    }
}

/// Every backslash becomes a slash.
pub open spec fn with_slashes(s: Seq<char>) -> Seq<char> {
    s.map_values(
        |c: char|
            if c == '\\' {
                '/'
            } else {
                c
            },
    )
}

/// Every backslash becomes a slash.
pub fn path_to_slash(s: &[char]) -> (t: Vec<char>)
    ensures
        t@ == with_slashes(s@),
{
    let mut t: Vec<char> = Vec::new();
    let mut i: usize = 0;
    while i < s.len()
        invariant
            i <= s@.len(),
            t@ == with_slashes(s@).take(i as int),
        decreases s@.len() - i,
    {
        t.push(
            if s[i] == '\\' {
                '/'
            } else {
                s[i]
            },
        );
        assert(t@ =~= with_slashes(s@).take(i + 1));
        i = i + 1;
    }
    assert(t@ =~= with_slashes(s@));
    t
}

/// A file as seen from a directory that it is in; else its whole path.
pub open spec fn relative_to(file: Seq<char>, root: Seq<char>) -> Seq<char> {
    with_slashes(
        if under(file, root) {
            cut_front(file, components(root).len() as int)
        } else {
            file
        },
    )
}

/// A file as seen from a directory that it is in.
pub fn relative_schema_path(file: &str, root: &str) -> (relative: String)
    ensures
        relative@ == relative_to(file@, root@),
{
    let chars = chars_of(file);
    let parts = components_of(chars.as_slice());
    let base = components_of(chars_of(root).as_slice());
    let n: usize = count_shared(&parts, &base);
    assert(base@.len() == components(root@).len());
    assert(parts@.len() == components(file@).len());
    let inside: Vec<char> = if n == base.len() {
        let found = find_spans(chars.as_slice());
        assert(found@.len() == as_spans(found@).len());
        if n >= found.len() {
            Vec::new()
        } else {
            proof {
                lemma_spans_fit(chars@);
                let all = spans(chars@);
                assert(all[n as int] == (found@[n as int].0 as int, found@[n as int].1 as int));
                assert(all.last() == (
                    found@[found@.len() - 1].0 as int,
                    found@[found@.len() - 1].1 as int,
                ));
            }
            slice_to_vec(
                slice_subrange(chars.as_slice(), found[n].0, found[found.len() - 1].1),
            )
        }
    } else {
        chars
    };
    string_of(path_to_slash(inside.as_slice()).as_slice())
}

/// A path that starts in the directory `a`, unless it is absolute.
pub open spec fn within(a: Seq<char>, b: Seq<char>) -> Seq<char> {
    if absolute(b) {
        b
    } else if a.len() > 0 && a.last() != '/' {
        a.push('/') + b
    } else {
        a + b
    }
}

/// A path that starts in the directory `a`, unless it is absolute.
pub fn join_path(a: &[char], b: &[char]) -> (path: Vec<char>)
    ensures
        path@ == within(a@, b@),
{
    let n: usize = a.len();
    if b.len() > 0 && b[0] == '/' {
        return slice_to_vec(b);
    }
    let mut path = slice_to_vec(a);
    if n > 0 && a[n - 1] != '/' {
        path.push('/');
    }
    let mut rest = slice_to_vec(b);
    path.append(&mut rest);
    path
}

/// The path that the components make up, one inside the other.
pub open spec fn render(parts: Seq<Seq<char>>) -> Seq<char>
    decreases parts.len(),
{
    if parts.len() == 0 {
        Seq::empty()
    } else {
        within(render(parts.drop_last()), parts.last())
    }
}

/// Whether a path names a schema file: something and `.capnp`.
pub open spec fn is_schema(s: Seq<char>) -> bool {
    components(s).len() > 0 && ends_as_schema(components(s).last())
}

/// Whether a file name is something and `.capnp`.
pub open spec fn ends_as_schema(name: Seq<char>) -> bool {
    let stem = name.len() - ".capnp"@.len();
    stem > 0 && name.skip(stem) == ".capnp"@
}

/// Whether a path names a schema file.
pub fn is_schema_file(s: &[char]) -> (yes: bool)
    ensures
        yes == is_schema(s@),
{
    let parts = components_of(s);
    let n: usize = parts.len();
    assert(n == components(s@).len());
    if n == 0 {
        return false;
    }
    let name = &parts[n - 1];
    assert(components(s@).last() == name@);
    proof {
        reveal_strlit(".capnp");
    }
    let m: usize = name.len();
    m > 6 && is_text(slice_subrange(name.as_slice(), m - 6, m), ".capnp")
}

/// Where the last dot of a name stands; before its start, if it has none.
pub open spec fn last_dot(name: Seq<char>) -> int
    decreases name.len(),
{
    if name.len() == 0 || name.last() == '.' {
        name.len() - 1
    } else {
        last_dot(name.drop_last())
    }
}

/// How much of a file name stands before its extension. A dot at its start begins none.
pub open spec fn stem_len(name: Seq<char>) -> int {
    if last_dot(name) > 0 {
        last_dot(name)
    } else {
        name.len() as int
    }
}

/// A path with another extension in place of the one that its file name may have. A path
/// that names no file stays as it is.
pub open spec fn extended(s: Seq<char>, extension: Seq<char>) -> Seq<char> {
    let parts = components(s);
    if parts.len() == 0 || parts.last() == "/"@ || parts.last() == "."@ || parts.last() == ".."@ {
        s
    } else {
        s.take(spans(s).last().0 + stem_len(parts.last())) + "."@ + extension
    }
}

/// How much of a file name stands before its extension.
fn find_stem(name: &[char]) -> (n: usize)
    ensures
        n == stem_len(name@),
        n <= name@.len(),
{
    let m: usize = name.len();
    let mut i: usize = m;
    assert(name@.take(m as int) =~= name@);
    while i > 0 && name[i - 1] != '.'
        invariant
            i <= m == name@.len(),
            last_dot(name@.take(i as int)) == last_dot(name@),
        decreases i,
    {
        assert(name@.take(i as int).drop_last() =~= name@.take(i - 1));
        i = i - 1;
    }
    if i > 1 {
        i - 1
    } else {
        m
    }
}

/// A path with another extension.
pub fn with_extension(path: &str, extension: &str) -> (changed: String)
    ensures
        changed@ == extended(path@, extension@),
{
    let chars = chars_of(path);
    let s = chars.as_slice();
    let parts = components_of(s);
    let n: usize = parts.len();
    assert(n == components(s@).len());
    if n == 0 {
        return path.to_owned();
    }
    let name = parts[n - 1].as_slice();
    assert(components(s@).last() == name@);
    if is_text(name, "/") || is_text(name, ".") || is_text(name, "..") {
        return path.to_owned();
    }
    let found = find_spans(s);
    proof {
        lemma_spans_fit(s@);
        assert(spans(s@)[n - 1] == (found@[n - 1].0 as int, found@[n - 1].1 as int));
        assert(components(s@)[n - 1].len() == found@[n - 1].1 - found@[n - 1].0);
    }
    let end: usize = found[n - 1].0 + find_stem(name);
    let mut changed = string_of(slice_subrange(s, 0, end));
    changed.append(".");
    changed.append(extension);
    assert(s@.subrange(0, end as int) =~= s@.take(end as int));
    changed
}

/// The pieces between slashes that count as components: all but the empty ones and
/// those that are `.`, except for a `.` at the start.
pub open spec fn counted(pieces: Seq<Seq<char>>, first: bool) -> Seq<Seq<char>>
    decreases pieces.len(),
{
    if pieces.len() == 0 {
        Seq::empty()
    } else if pieces[0].len() == 0 || (pieces[0] == "."@ && !first) {
        counted(pieces.drop_first(), false)
    } else {
        seq![pieces[0]] + counted(pieces.drop_first(), false)
    }
}

spec fn cut_out(s: Seq<char>, spans: Seq<(int, int)>) -> Seq<Seq<char>> {
    spans.map_values(|span: (int, int)| s.subrange(span.0, span.1))
}

/// The piece that is open at a place reaches to the next slash.
proof fn lemma_piece_is_found(s: Seq<char>, from: int)
    requires
        0 <= from <= s.len(),
    ensures
        from <= piece_end(s, from) <= s.len(),
        text::find(s.skip(from), '/') == if piece_end(s, from) < s.len() {
            Some(piece_end(s, from) - from)
        } else {
            None
        },
        piece_end(s, from) < s.len() ==> s[piece_end(s, from)] == '/',
    decreases s.len() - from,
{
    lemma_piece_end(s, from);
    if from < s.len() && s[from] != '/' {
        lemma_piece_is_found(s, from + 1);
        assert(s.skip(from).drop_first() =~= s.skip(from + 1));
    }
}

proof fn lemma_counted_from(s: Seq<char>, from: int)
    requires
        0 <= from <= s.len(),
    ensures
        cut_out(s, spans_from(s, from)) == counted(text::split(s.skip(from), '/'), from == 0),
    decreases s.len() - from,
{
    let rest = s.skip(from);
    let pieces = text::split(rest, '/');
    lemma_piece_is_found(s, from);
    if from == s.len() {
        assert(pieces =~= seq![rest]);
        assert(counted(pieces.drop_first(), false) =~= Seq::empty());
        assert(cut_out(s, spans_from(s, from)) =~= counted(pieces, from == 0));
    } else if s[from] == '/' {
        lemma_counted_from(s, from + 1);
        assert(rest.skip(1) =~= s.skip(from + 1));
        assert(pieces =~= seq![rest.take(0)] + text::split(s.skip(from + 1), '/'));
        assert(pieces.drop_first() =~= text::split(s.skip(from + 1), '/'));
    } else {
        let end = piece_end(s, from);
        lemma_piece_end(s, from);
        let piece = s.subrange(from, end);
        if end < s.len() {
            lemma_counted_from(s, end + 1);
            assert(rest.take(end - from) =~= piece);
            assert(rest.skip(end - from + 1) =~= s.skip(end + 1));
            assert(pieces =~= seq![piece] + text::split(s.skip(end + 1), '/'));
            assert(pieces.drop_first() =~= text::split(s.skip(end + 1), '/'));
            assert(spans_from(s, end) == spans_from(s, end + 1));
        } else {
            assert(rest =~= piece);
            assert(pieces =~= seq![piece]);
            assert(counted(pieces.drop_first(), false) =~= Seq::empty());
            assert(spans_from(s, end) =~= Seq::empty());
        }
        let later = spans_from(s, end);
        assert(cut_out(s, seq![(from, end)] + later) =~= seq![piece] + cut_out(s, later));
    }
}

/// The components of a path are the root, if it is absolute, and the pieces between its
/// slashes that count.
pub proof fn law_components_are_pieces(s: Seq<char>)
    ensures
        absolute(s) ==> components(s) == seq!["/"@] + counted(
            text::split(s, '/').drop_first(),
            false,
        ),
        !absolute(s) ==> components(s) == counted(text::split(s, '/'), true),
        absolute(s) <==> text::split(s, '/').len() > 1 && text::split(s, '/')[0].len() == 0,
{
    assert(s.skip(0) =~= s);
    lemma_piece_is_found(s, 0);
    assert(components(s) == cut_out(s, spans(s)));
    if absolute(s) {
        lemma_counted_from(s, 1);
        reveal_strlit("/");
        assert(s.subrange(0, 1) =~= "/"@);
        assert(text::split(s, '/').drop_first() =~= text::split(s.skip(1), '/'));
        assert(components(s) =~= seq!["/"@] + cut_out(s, spans_from(s, 1)));
        assert(text::split(s.skip(1), '/').len() > 0);
    } else {
        lemma_counted_from(s, 0);
    }
}

/// Whether parts can be the components of a path: the root and `.` stand at the start
/// only, and the others have a character and no slash.
pub open spec fn proper(parts: Seq<Seq<char>>) -> bool {
    forall|i: int|
        0 <= i < parts.len() ==> {
            &&& (#[trigger] parts[i]).len() > 0
            &&& parts[i] == "/"@ || !parts[i].contains('/')
            &&& parts[i] == "/"@ || parts[i] == "."@ ==> i == 0
        }
}

proof fn lemma_split_plain(s: Seq<char>)
    ensures
        forall|i: int|
            0 <= i < text::split(s, '/').len() ==> !(#[trigger] text::split(s, '/')[i]).contains(
                '/',
            ),
    decreases s.len(),
{
    let pieces = text::split(s, '/');
    text::lemma_position(s, text::is_char('/'));
    match text::find(s, '/') {
        None => {},
        Some(at) => {
            lemma_split_plain(s.skip(at + 1));
            assert forall|i: int| 0 <= i < pieces.len() implies !(#[trigger] pieces[i]).contains(
                '/',
            ) by {
                if i > 0 {
                    assert(pieces[i] == text::split(s.skip(at + 1), '/')[i - 1]);
                }
            }
        },
    }
}

proof fn lemma_counted_proper(pieces: Seq<Seq<char>>, first: bool)
    requires
        forall|i: int| 0 <= i < pieces.len() ==> !(#[trigger] pieces[i]).contains('/'),
    ensures
        proper(counted(pieces, first)),
        forall|i: int|
            0 <= i < counted(pieces, first).len() ==> (#[trigger] counted(pieces, first)[i])
                != "/"@ && (first || counted(pieces, first)[i] != "."@),
    decreases pieces.len(),
{
    reveal_strlit("/");
    if pieces.len() > 0 {
        let rest = counted(pieces.drop_first(), false);
        lemma_counted_proper(pieces.drop_first(), false);
        let all = counted(pieces, first);
        assert("/"@[0] == '/');
        assert("/"@.contains('/'));
        assert forall|i: int| 0 <= i < all.len() implies {
            &&& (#[trigger] all[i]).len() > 0
            &&& all[i] != "/"@
            &&& !all[i].contains('/')
            &&& all[i] == "."@ ==> i == 0 && first
        } by {
            if all.len() == rest.len() {
                assert(all[i] == rest[i]);
                assert(rest[i] != "."@);
            } else if i > 0 {
                assert(all[i] == rest[i - 1]);
                assert(rest[i - 1] != "."@);
            }
        }
    }
}

/// The components of a path can be components of a path.
pub proof fn lemma_components_proper(s: Seq<char>)
    ensures
        proper(components(s)),
        absolute(s) <==> components(s).len() > 0 && components(s)[0] == "/"@,
{
    law_components_are_pieces(s);
    lemma_split_plain(s);
    let pieces = text::split(s, '/');
    if absolute(s) {
        let rest = counted(pieces.drop_first(), false);
        lemma_counted_proper(pieces.drop_first(), false);
        reveal_strlit("/");
        assert forall|i: int| 0 <= i < components(s).len() implies {
            &&& (#[trigger] components(s)[i]).len() > 0
            &&& components(s)[i] == "/"@ || !components(s)[i].contains('/')
            &&& components(s)[i] == "/"@ || components(s)[i] == "."@ ==> i == 0
        } by {
            if i > 0 {
                assert(components(s)[i] == rest[i - 1]);
                assert(rest[i - 1] != "."@);
            }
        }
    } else {
        lemma_counted_proper(pieces, true);
    }
}

/// The pieces of two texts with a slash between them.
pub proof fn lemma_split_joined(a: Seq<char>, b: Seq<char>)
    ensures
        text::split(a.push('/') + b, '/') == text::split(a, '/') + text::split(b, '/'),
    decreases a.len(),
{
    let both = a.push('/') + b;
    text::lemma_position(a, text::is_char('/'));
    match text::find(a, '/') {
        None => {
            assert(both[a.len() as int] == '/');
            text::lemma_position_is(both, text::is_char('/'), a.len() as int);
            assert(both.take(a.len() as int) =~= a);
            assert(both.skip(a.len() as int + 1) =~= b);
        },
        Some(at) => {
            text::lemma_position_is(both, text::is_char('/'), at);
            lemma_split_joined(a.skip(at + 1), b);
            assert(both.take(at) =~= a.take(at));
            assert(both.skip(at + 1) =~= a.skip(at + 1).push('/') + b);
            assert(text::split(both, '/') =~= text::split(a, '/') + text::split(b, '/'));
        },
    }
}

/// A text without a slash is a single piece.
pub proof fn lemma_split_single(s: Seq<char>)
    requires
        !s.contains('/'),
    ensures
        text::split(s, '/') == seq![s],
{
    text::lemma_position(s, text::is_char('/'));
    if let Some(at) = text::find(s, '/') {
        assert(s[at] == '/');
    }
}

proof fn lemma_counted_push(pieces: Seq<Seq<char>>, first: bool, part: Seq<char>)
    requires
        pieces.len() > 0 || !first,
        part.len() > 0,
        part != "."@,
    ensures
        counted(pieces.push(part), first) == counted(pieces, first).push(part),
    decreases pieces.len(),
{
    let longer = pieces.push(part);
    if pieces.len() > 0 {
        lemma_counted_push(pieces.drop_first(), false, part);
        assert(longer.drop_first() =~= pieces.drop_first().push(part));
        assert(longer[0] == pieces[0]);
        assert(counted(longer, first) =~= counted(pieces, first).push(part));
    } else {
        assert(longer.drop_first() =~= pieces);
        assert(counted(pieces, false) =~= Seq::empty());
        assert(counted(longer, first) =~= seq![part]);
    }
}

/// One more name at the end of a path is one more component.
proof fn lemma_one_component_more(a: Seq<char>, part: Seq<char>)
    requires
        a.len() > 0,
        a == "/"@ || a.last() != '/',
        part.len() > 0,
        !part.contains('/'),
        part != "."@,
    ensures
        components(within(a, part)) == components(a).push(part),
        absolute(within(a, part)) == absolute(a),
{
    reveal_strlit("/");
    assert(part[0] != '/');
    let both = within(a, part);
    assert(both[0] == a[0]);
    law_components_are_pieces(a);
    law_components_are_pieces(both);
    lemma_split_single(part);
    if a == "/"@ {
        let nothing = Seq::<char>::empty();
        assert(both =~= nothing.push('/') + part);
        lemma_split_joined(nothing, part);
        lemma_split_single(nothing);
        assert(text::split(both, '/').drop_first() =~= seq![part]);
        assert(a =~= nothing.push('/') + nothing);
        lemma_split_joined(nothing, nothing);
        assert(text::split(a, '/').drop_first() =~= seq![nothing]);
        reveal_with_fuel(counted, 3);
        assert(seq![part].drop_first() =~= Seq::empty());
        assert(seq![nothing].drop_first() =~= Seq::empty());
        assert(components(both) =~= components(a).push(part));
    } else {
        lemma_split_joined(a, part);
        let pieces = text::split(a, '/');
        assert(text::split(both, '/') =~= pieces.push(part));
        if absolute(a) {
            lemma_counted_push(pieces.drop_first(), false, part);
            assert(pieces.push(part).drop_first() =~= pieces.drop_first().push(part));
            assert(components(both) =~= components(a).push(part));
        } else {
            lemma_counted_push(pieces, true, part);
        }
    }
}

/// A path made up of parts has those parts as its components, and no slash at its end
/// but that of the root.
pub proof fn law_render_keeps_components(parts: Seq<Seq<char>>)
    requires
        proper(parts),
    ensures
        components(render(parts)) == parts,
        parts.len() > 0 ==> render(parts).len() > 0 && (render(parts) == "/"@ || render(
            parts,
        ).last() != '/'),
        absolute(render(parts)) <==> parts.len() > 0 && parts[0] == "/"@,
    decreases parts.len(),
{
    reveal_strlit("/");
    reveal_strlit(".");
    let s = render(parts);
    if parts.len() == 0 {
        assert(components(s) =~= parts);
    } else {
        let part = parts.last();
        let before = parts.drop_last();
        assert(parts[parts.len() - 1] == part);
        assert forall|i: int| 0 <= i < before.len() implies before[i] == #[trigger] parts[i] by {}
        if parts.len() == 1 {
            assert(render(before) =~= Seq::empty());
            assert(s =~= part);
            law_components_are_pieces(s);
            let nothing = Seq::<char>::empty();
            if part == "/"@ {
                assert(s =~= nothing.push('/') + nothing);
                lemma_split_joined(nothing, nothing);
                lemma_split_single(nothing);
                assert(text::split(s, '/').drop_first() =~= seq![nothing]);
                reveal_with_fuel(counted, 3);
                assert(seq![nothing].drop_first() =~= Seq::empty());
            } else {
                assert(s[0] != '/');
                lemma_split_single(s);
                reveal_with_fuel(counted, 3);
                assert(seq![s].drop_first() =~= Seq::empty());
                assert(part.contains(part[part.len() - 1]));
            }
            assert(components(s) =~= parts);
        } else {
            law_render_keeps_components(before);
            lemma_one_component_more(render(before), part);
            assert(parts =~= before.push(part));
            assert(part.contains(part[part.len() - 1]));
            assert(s.last() == part.last());
        }
    }
}

pub proof fn lemma_counted_add(a: Seq<Seq<char>>, b: Seq<Seq<char>>, first: bool)
    requires
        a.len() > 0 || !first,
    ensures
        counted(a + b, first) == counted(a, first) + counted(b, false),
    decreases a.len(),
{
    if a.len() > 0 {
        lemma_counted_add(a.drop_first(), b, false);
        assert((a + b).drop_first() =~= a.drop_first() + b);
        assert((a + b)[0] == a[0]);
        assert(counted(a + b, first) =~= counted(a, first) + counted(b, false));
    } else {
        assert(a + b =~= b);
        assert(counted(a, first) + counted(b, false) =~= counted(b, false));
    }
}

/// A path that is moved into a directory lies under it, unless it is absolute: then it
/// stays as it is.
pub proof fn law_moved_path_lies_within(dir: Seq<char>, s: Seq<char>)
    ensures
        absolute(s) ==> within(dir, s) == s,
        !absolute(s) && dir.len() > 0 ==> components(dir).is_prefix_of(components(within(dir, s)))
            && components(within(dir, s)).skip(components(dir).len() as int) == counted(
            text::split(s, '/'),
            false,
        ),
{
    if !absolute(s) && dir.len() > 0 {
        let both = within(dir, s);
        let a = if dir.last() == '/' {
            dir.drop_last()
        } else {
            dir
        };
        assert(both =~= a.push('/') + s);
        assert(both[0] == dir[0]);
        lemma_split_joined(a, s);
        law_components_are_pieces(both);
        law_components_are_pieces(dir);
        let pieces = text::split(a, '/');
        let more = text::split(s, '/');
        let nothing = Seq::<char>::empty();
        lemma_split_single(nothing);
        assert(counted(seq![nothing].drop_first(), false) =~= Seq::empty());
        assert(counted(seq![nothing], false) =~= Seq::empty());
        if dir.last() == '/' {
            assert(dir =~= a.push('/') + nothing);
            lemma_split_joined(a, nothing);
        }
        if absolute(dir) {
            let rest = pieces.drop_first();
            lemma_counted_add(rest, more, false);
            lemma_counted_add(rest, seq![nothing], false);
            assert((pieces + more).drop_first() =~= rest + more);
            assert((pieces + seq![nothing]).drop_first() =~= rest + seq![nothing]);
            assert(counted(rest, false) + Seq::<Seq<char>>::empty() =~= counted(rest, false));
            assert(components(both) =~= components(dir) + counted(more, false));
        } else {
            lemma_counted_add(pieces, more, true);
            lemma_counted_add(pieces, seq![nothing], true);
            assert(counted(pieces, true) + Seq::<Seq<char>>::empty() =~= counted(pieces, true));
            assert(components(both) =~= components(dir) + counted(more, false));
        }
        assert(components(both).take(components(dir).len() as int) =~= components(dir));
        assert(components(both).skip(components(dir).len() as int) =~= counted(more, false));
    }
}

/// The spans that end inside the first `e` characters.
spec fn within_first(spans: Seq<(int, int)>, e: int) -> Seq<(int, int)>
    decreases spans.len(),
{
    if spans.len() == 0 || spans[0].1 > e {
        Seq::empty()
    } else {
        seq![spans[0]] + within_first(spans.drop_first(), e)
    }
}

/// The components of the front of a path, where the front ends between two components.
proof fn lemma_spans_of_front(s: Seq<char>, from: int, e: int)
    requires
        0 <= from,
        0 <= e <= s.len(),
        e < s.len() ==> s[e] == '/',
    ensures
        spans_from(s.take(e), from) == within_first(spans_from(s, from), e),
    decreases s.len() - from,
{
    let front = s.take(e);
    if from >= e {
        lemma_spans_from_fit(s, from);
        assert(spans_from(front, from) =~= Seq::empty());
        assert(within_first(spans_from(s, from), e) =~= Seq::empty());
    } else if s[from] == '/' {
        lemma_spans_of_front(s, from + 1, e);
    } else {
        let end = piece_end(s, from);
        lemma_piece_end(s, from);
        lemma_piece_end_of_front(s, from, e);
        lemma_spans_of_front(s, end, e);
        assert(front.subrange(from, end) =~= s.subrange(from, end));
        let later = spans_from(s, end);
        if !(from > 0 && s.subrange(from, end) == "."@) {
            assert((seq![(from, end)] + later).drop_first() =~= later);
        }
    }
}

proof fn lemma_piece_end_of_front(s: Seq<char>, from: int, e: int)
    requires
        0 <= from <= e <= s.len(),
        e < s.len() ==> s[e] == '/',
    ensures
        piece_end(s.take(e), from) == piece_end(s, from),
        piece_end(s, from) <= e,
    decreases e - from,
{
    if from < e && s[from] != '/' {
        lemma_piece_end_of_front(s, from + 1, e);
    }
}

/// Behind a component comes a slash or nothing.
proof fn lemma_span_end(s: Seq<char>, from: int, i: int)
    requires
        0 <= from,
        0 <= i < spans_from(s, from).len(),
    ensures
        spans_from(s, from)[i].1 < s.len() ==> s[spans_from(s, from)[i].1] == '/',
    decreases s.len() - from,
{
    if from < s.len() {
        lemma_piece_end(s, from);
        if s[from] == '/' {
            lemma_span_end(s, from + 1, i);
        } else {
            let end = piece_end(s, from);
            lemma_piece_is_found(s, from);
            if spans_from(s, from).len() == spans_from(s, end).len() {
                lemma_span_end(s, end, i);
            } else if i > 0 {
                lemma_span_end(s, end, i - 1);
            }
        }
    }
}

proof fn lemma_within_first(spans: Seq<(int, int)>, from: int, len: int, n: int)
    requires
        spans_fit(spans, from, len),
        0 < n <= spans.len(),
    ensures
        within_first(spans, spans[n - 1].1) == spans.take(n),
    decreases spans.len(),
{
    let e = spans[n - 1].1;
    let rest = spans.drop_first();
    assert forall|i: int| 0 <= i < rest.len() implies rest[i] == #[trigger] spans[i + 1] by {}
    assert(spans_fit(rest, from, len)) by {
        assert forall|i: int| 0 <= i < rest.len() implies from <= (#[trigger] rest[i]).0 < rest[i].1
            <= len by {
            assert(from <= spans[i + 1].0);
        }
        assert forall|i: int, j: int| 0 <= i < j < rest.len() implies (#[trigger] rest[i]).1 <= (
        #[trigger] rest[j]).0 by {
            assert(spans[i + 1].1 <= spans[j + 1].0);
        }
    }
    if n > 1 {
        assert(spans[0].1 <= spans[n - 1].0);
        assert(rest[n - 2] == spans[n - 1]);
        lemma_within_first(rest, from, len, n - 1);
        assert(spans.take(n) =~= seq![spans[0]] + rest.take(n - 1));
    } else {
        if rest.len() > 0 {
            assert(spans[0].1 <= spans[1].0);
        }
        assert(within_first(rest, e) =~= Seq::empty());
        assert(spans.take(1) =~= seq![spans[0]]);
    }
}

/// The front of a path that ends with its component number `n` has its first `n`
/// components.
pub proof fn law_cut_takes_components(s: Seq<char>, n: int)
    requires
        0 <= n <= components(s).len(),
    ensures
        components(cut(s, n)) == components(s).take(n),
{
    let all = spans(s);
    let front = cut(s, n);
    lemma_spans_fit(s);
    if n == 0 {
        assert(components(front) =~= components(s).take(0));
    } else {
        let e = all[n - 1].1;
        assert(0 < e <= s.len());
        if absolute(s) {
            let later = spans_from(s, 1);
            lemma_spans_from_fit(s, 1);
            assert(front[0] == '/');
            if n == 1 {
                assert(spans_from(front, 1) =~= Seq::empty());
                assert(spans(front) =~= all.take(1));
            } else {
                assert(all[n - 1] == later[n - 2]);
                lemma_span_end(s, 1, n - 2);
                lemma_spans_of_front(s, 1, e);
                lemma_within_first(later, 1, s.len() as int, n - 1);
                assert(spans(front) =~= all.take(n));
            }
        } else {
            lemma_spans_from_fit(s, 0);
            lemma_span_end(s, 0, n - 1);
            lemma_spans_of_front(s, 0, e);
            lemma_within_first(all, 0, s.len() as int, n);
            assert(front[0] == s[0]);
            assert(spans(front) =~= all.take(n));
        }
        assert forall|i: int| 0 <= i < n implies components(front)[i] == components(s)[i] by {
            assert(spans(front)[i] == all[i]);
            if i < n - 1 {
                assert(all[i].1 <= all[n - 1].0);
            }
            assert(0 <= all[i].0 < all[i].1 <= e);
            assert(front.subrange(all[i].0, all[i].1) =~= s.subrange(all[i].0, all[i].1));
        }
        assert(components(front) =~= components(s).take(n));
    }
}

proof fn lemma_shared(a: Seq<Seq<char>>, b: Seq<Seq<char>>, n: int)
    requires
        0 <= n <= shared_len(a, b),
    ensures
        shared_len(a, b) <= a.len(),
        shared_len(a, b) <= b.len(),
        a.take(n) == b.take(n),
    decreases a.len(),
{
    if a.len() > 0 && b.len() > 0 && a[0] == b[0] {
        let m = if n > 0 {
            n - 1
        } else {
            0
        };
        lemma_shared_nonnegative(a.drop_first(), b.drop_first());
        lemma_shared(a.drop_first(), b.drop_first(), m);
        if n > 0 {
            assert(a.take(n) =~= seq![a[0]] + a.drop_first().take(m));
            assert(b.take(n) =~= seq![b[0]] + b.drop_first().take(m));
        } else {
            assert(a.take(0) =~= b.take(0));
        }
    } else {
        assert(a.take(0) =~= b.take(0));
    }
}

pub proof fn lemma_shared_by_all(dirs: Seq<Seq<char>>)
    requires
        dirs.len() > 0,
    ensures
        0 <= shared_by_all(dirs) <= components(dirs[0]).len(),
        forall|i: int|
            0 <= i < dirs.len() ==> components(#[trigger] dirs[i]).len() >= shared_by_all(dirs)
                && components(dirs[i]).take(shared_by_all(dirs)) == components(dirs[0]).take(
                shared_by_all(dirs),
            ),
    decreases dirs.len(),
{
    let k = shared_by_all(dirs);
    let first = components(dirs[0]);
    if dirs.len() > 1 {
        let shorter = dirs.drop_last();
        lemma_shared_by_all(shorter);
        let m = shared_by_all(shorter);
        assert(shorter[0] == dirs[0]);
        lemma_shared_nonnegative(first, components(dirs.last()));
        lemma_shared(first, components(dirs.last()), k);
        assert forall|i: int| 0 <= i < dirs.len() implies components(#[trigger] dirs[i]).len() >= k
            && components(dirs[i]).take(k) == first.take(k) by {
            if i < shorter.len() {
                assert(shorter[i] == dirs[i]);
                assert(components(dirs[i]).take(m) == first.take(m));
                assert(components(dirs[i]).take(m).take(k) =~= components(dirs[i]).take(k));
                assert(first.take(m).take(k) =~= first.take(k));
            }
        }
    }
}

pub proof fn lemma_shared_nonnegative(a: Seq<Seq<char>>, b: Seq<Seq<char>>)
    ensures
        0 <= shared_len(a, b),
    decreases a.len(),
{
    if a.len() > 0 && b.len() > 0 && a[0] == b[0] {
        lemma_shared_nonnegative(a.drop_first(), b.drop_first());
    }
}

proof fn lemma_parents(files: Seq<Seq<char>>)
    ensures
        forall|i: int|
            0 <= i < files.len() && parent(#[trigger] files[i]) is Some ==> parents(files).contains(
                parent(files[i])->0,
            ),
    decreases files.len(),
{
    if files.len() > 0 {
        let shorter = files.drop_last();
        lemma_parents(shorter);
        let all = parents(files);
        let before = parents(shorter);
        assert forall|i: int|
            0 <= i < files.len() && parent(#[trigger] files[i]) is Some implies all.contains(
            parent(files[i])->0,
        ) by {
            if i < shorter.len() {
                assert(parent(shorter[i]) is Some);
                let k = choose|k: int| 0 <= k < before.len() && before[k] == parent(files[i])->0;
                assert(all[k] == before[k]);
            } else {
                assert(all.last() == parent(files[i])->0);
            }
        }
    }
}

/// All files that have a directory lie under their common root.
pub proof fn law_files_lie_under_common_root(files: Seq<Seq<char>>, i: int)
    requires
        0 <= i < files.len(),
        parent(files[i]) is Some,
    ensures
        components(common_root(files)).is_prefix_of(components(files[i])),
{
    let dirs = parents(files);
    let dir = parent(files[i])->0;
    let file = components(files[i]);
    lemma_parents(files);
    let j = choose|j: int| 0 <= j < dirs.len() && dirs[j] == dir;
    lemma_shared_by_all(dirs);
    let k = shared_by_all(dirs);
    law_cut_takes_components(dirs[0], k);
    law_cut_takes_components(files[i], file.len() - 1);
    assert(components(dirs[j]).take(k) == components(dirs[0]).take(k));
    assert(components(dir) == file.take(file.len() - 1));
    assert(components(dir).take(k) =~= file.take(k));
}

/// What comes from a component on are the components from there on.
proof fn lemma_spans_from_there(s: Seq<char>, from: int, i: int)
    requires
        0 <= from,
        0 <= i < spans_from(s, from).len(),
    ensures
        ({
            let (start, end) = spans_from(s, from)[i];
            &&& from <= start < s.len()
            &&& s[start] != '/'
            &&& end == piece_end(s, start)
            &&& start > 0 ==> s.subrange(start, end) != "."@
            &&& spans_from(s, start) == spans_from(s, from).skip(i)
        }),
    decreases s.len() - from,
{
    let all = spans_from(s, from);
    lemma_piece_end(s, from);
    if s[from] == '/' {
        lemma_spans_from_there(s, from + 1, i);
    } else {
        let end = piece_end(s, from);
        let later = spans_from(s, end);
        if from > 0 && s.subrange(from, end) == "."@ {
            lemma_spans_from_there(s, end, i);
        } else if i == 0 {
            assert(all.skip(0) =~= all);
        } else {
            assert(all[i] == later[i - 1]);
            lemma_spans_from_there(s, end, i - 1);
            assert(all.skip(i) =~= later.skip(i - 1));
        }
    }
}

proof fn lemma_piece_end_of_back(s: Seq<char>, o: int, from: int)
    requires
        0 <= o <= s.len(),
        0 <= from <= s.len() - o,
    ensures
        piece_end(s.skip(o), from) + o == piece_end(s, from + o),
    decreases s.len() - o - from,
{
    if from < s.len() - o && s[from + o] != '/' {
        lemma_piece_end_of_back(s, o, from + 1);
    }
}

/// The components of the back of a path.
proof fn lemma_back(s: Seq<char>, o: int, from: int)
    requires
        0 <= o <= s.len(),
        0 <= from,
        from == 0 && 0 < o < s.len() ==> s.subrange(o, piece_end(s, o)) != "."@,
    ensures
        cut_out(s.skip(o), spans_from(s.skip(o), from)) == cut_out(s, spans_from(s, from + o)),
    decreases s.len() - from,
{
    let back = s.skip(o);
    if from + o >= s.len() {
        assert(cut_out(back, spans_from(back, from)) =~= Seq::empty());
        assert(cut_out(s, spans_from(s, from + o)) =~= Seq::empty());
    } else if s[from + o] == '/' {
        lemma_back(s, o, from + 1);
    } else {
        let end = piece_end(back, from);
        lemma_piece_end(back, from);
        lemma_piece_end_of_back(s, o, from);
        lemma_back(s, o, end);
        assert(back.subrange(from, end) =~= s.subrange(from + o, end + o));
        let later = spans_from(back, end);
        let later_s = spans_from(s, end + o);
        assert(cut_out(back, seq![(from, end)] + later) =~= seq![back.subrange(from, end)]
            + cut_out(back, later));
        assert(cut_out(s, seq![(from + o, end + o)] + later_s) =~= seq![
            s.subrange(from + o, end + o),
        ] + cut_out(s, later_s));
    }
}

/// A path from its component number `n` on has the components from there on.
pub proof fn law_cut_front_leaves_components(s: Seq<char>, n: int)
    requires
        0 <= n <= components(s).len(),
    ensures
        components(cut_front(s, n)) == components(s).skip(n),
{
    let all = spans(s);
    if n == all.len() {
        assert(components(cut_front(s, n)) =~= components(s).skip(n));
    } else {
        let front = cut(s, all.len() as int);
        lemma_spans_fit(s);
        law_cut_takes_components(s, all.len() as int);
        assert(components(s).take(all.len() as int) =~= components(s));
        lemma_cut_keeps_spans(s);
        let (o, e) = all[n];
        let back = cut_front(s, n);
        assert(0 <= o < e <= all.last().1) by {
            if n < all.len() - 1 {
                assert(all[n].1 <= all[all.len() - 1].0);
            }
        }
        assert(back =~= front.skip(o));
        assert(components(front) == cut_out(front, spans(front)));
        if n == 0 {
            if !absolute(s) {
                lemma_first_span(s);
            }
            assert(back =~= front);
            assert(components(s).skip(0) =~= components(s));
        } else if absolute(s) {
            let later = spans_from(front, 1);
            assert(all[n] == later[n - 1]);
            lemma_spans_from_there(front, 1, n - 1);
            lemma_back(front, o, 0);
            assert(components(back) =~= components(front).skip(n));
        } else {
            lemma_spans_from_there(front, 0, n);
            lemma_spans_from_fit(front, 0);
            assert(all[0].1 <= all[n].0);
            lemma_back(front, o, 0);
            assert(components(back) =~= components(front).skip(n));
        }
    }
}

/// A relative path that is not empty starts with a component.
proof fn lemma_first_span(s: Seq<char>)
    requires
        !absolute(s),
        spans(s).len() > 0,
    ensures
        spans(s)[0].0 == 0,
{
}

/// What follows the last component of a path does not count.
proof fn lemma_cut_keeps_spans(s: Seq<char>)
    requires
        spans(s).len() > 0,
    ensures
        spans(cut(s, spans(s).len() as int)) == spans(s),
        absolute(cut(s, spans(s).len() as int)) == absolute(s),
{
    let all = spans(s);
    let n = all.len() as int;
    let front = cut(s, n);
    lemma_spans_fit(s);
    let e = all[n - 1].1;
    assert(front[0] == s[0]);
    if absolute(s) {
        let later = spans_from(s, 1);
        lemma_spans_from_fit(s, 1);
        if n == 1 {
            assert(spans_from(front, 1) =~= Seq::empty());
            assert(later =~= Seq::empty());
        } else {
            assert(all[n - 1] == later[n - 2]);
            lemma_span_end(s, 1, n - 2);
            lemma_spans_of_front(s, 1, e);
            lemma_within_first(later, 1, s.len() as int, n - 1);
            assert(later.take(n - 1) =~= later);
        }
    } else {
        lemma_spans_from_fit(s, 0);
        lemma_span_end(s, 0, n - 1);
        lemma_spans_of_front(s, 0, e);
        lemma_within_first(all, 0, s.len() as int, n);
        assert(all.take(n) =~= all);
    }
}

/// A file that lies under a directory, and has no backslash in its path, is the directory
/// followed by its relative path, component by component.
pub proof fn law_relative_path_is_the_rest(file: Seq<char>, root: Seq<char>)
    requires
        under(file, root),
        !file.contains('\\'),
    ensures
        components(file) == components(root) + components(relative_to(file, root)),
{
    let a = components(file);
    let b = components(root);
    let n = b.len() as int;
    lemma_shared(a, b, n);
    law_cut_front_leaves_components(file, n);
    let back = cut_front(file, n);
    assert forall|i: int| 0 <= i < back.len() implies back[i] != '\\' by {
        lemma_spans_fit(file);
        let o = spans(file)[n].0;
        assert(back[i] == file[i + o]);
    }
    assert(with_slashes(back) =~= back);
    assert(b.take(n) =~= b);
    assert(a =~= a.take(n) + a.skip(n));
}

} // verus!
