//! Paths: their components, where they lie, and what they are called.

use crate::git;
use crate::glob;
use crate::laws::selecting;
use crate::listing;
use crate::order;
use crate::path;
use crate::text;
use vstd::prelude::*;

verus! {

/// Whether something between two slashes counts as a component.
pub open spec fn counts() -> spec_fn(Seq<char>) -> bool {
    |piece: Seq<char>| piece.len() > 0 && piece != "."@
}

/// The components of a path: the root if it starts with a slash, what stands in front of the
/// first slash, and what stands behind a slash, unless it is empty or a single dot.
pub open spec fn parts_of(s: Seq<char>) -> Seq<Seq<char>> {
    let pieces = text::split(s, '/');
    let first = if s.len() > 0 && s[0] == '/' {
        seq!["/"@]
    } else if pieces[0].len() > 0 {
        seq![pieces[0]]
    } else {
        Seq::empty()
    };
    first + pieces.drop_first().filter(counts())
}

proof fn lemma_counted(pieces: Seq<Seq<char>>)
    ensures
        path::counted(pieces, false) == pieces.filter(counts()),
    decreases pieces.len(),
{
    if pieces.len() == 0 {
        reveal(Seq::filter);
        assert(pieces.filter(counts()) =~= Seq::empty());
    } else {
        let first = seq![pieces[0]];
        let rest = pieces.drop_first();
        lemma_counted(rest);
        assert(pieces =~= first + rest);
        Seq::filter_distributes_over_add(first, rest, counts());
        assert(first.filter(counts()) =~= if counts()(pieces[0]) {
            first
        } else {
            Seq::empty()
        }) by {
            reveal(Seq::filter);
            assert(first.drop_last() =~= Seq::empty());
            assert(first.drop_last().filter(counts()) =~= Seq::empty());
        }
        assert(Seq::<Seq<char>>::empty() + rest.filter(counts()) =~= rest.filter(counts()));
    }
}

/// A path has the components that stand between its slashes.
pub proof fn law_components(s: Seq<char>)
    ensures
        path::components(s) == parts_of(s),
        path::absolute(s) <==> s.len() > 0 && s[0] == '/',
{
    path::law_components_are_pieces(s);
    let pieces = text::split(s, '/');
    lemma_counted(pieces.drop_first());
    if path::absolute(s) {
    } else if pieces[0].len() == 0 {
        assert(path::components(s) =~= parts_of(s));
    } else {
        assert(path::components(s) =~= parts_of(s));
    }
}

/// Whether a path ends with its last component, if it has one.
pub open spec fn ends_clean(s: Seq<char>) -> bool {
    path::components(s).len() > 0 ==> path::components(s).last().is_suffix_of(s)
}

proof fn lemma_cut(s: Seq<char>, n: int)
    requires
        0 <= n <= path::components(s).len(),
    ensures
        path::cut(s, n).is_prefix_of(s),
        path::components(path::cut(s, n)) == path::components(s).take(n),
        ends_clean(path::cut(s, n)),
{
    let front = path::cut(s, n);
    path::law_cut_takes_components(s, n);
    path::lemma_spans_fit(s);
    if n > 0 {
        let span = path::spans(s)[n - 1];
        assert(0 <= span.0 < span.1 <= s.len());
        let last = path::components(s)[n - 1];
        assert(path::components(front).last() == last);
        assert(last == s.subrange(span.0, span.1));
        assert(front == s.take(span.1));
        assert(front.skip(span.0) =~= last);
        assert(last.is_suffix_of(front));
    } else {
        assert(path::components(front).len() == 0);
    }
}

/// The directory of a path is its front without the last component. The root has none, and
/// what has no component has none.
pub proof fn law_parent(s: Seq<char>)
    ensures
        path::parent(s) is None <==> path::components(s).len() == 0 || path::components(s).last()
            == "/"@,
        path::parent(s) matches Some(up) ==> up.is_prefix_of(s) && path::components(up)
            == path::components(s).drop_last() && ends_clean(up),
{
    if path::parent(s) is Some {
        lemma_cut(s, path::components(s).len() - 1);
    }
}

/// The directory of one file, if it has one.
pub open spec fn parent_if_any() -> spec_fn(Seq<char>) -> Seq<Seq<char>> {
    |file: Seq<char>|
        match path::parent(file) {
            Some(up) => seq![up],
            None => Seq::empty(),
        }
}

/// The directories of files are theirs, one after the other.
pub proof fn law_parents(files: Seq<Seq<char>>)
    ensures
        path::parents(files) == files.map_values(parent_if_any()).flatten(),
    decreases files.len(),
{
    let all = files.map_values(parent_if_any());
    if files.len() > 0 {
        let shorter = files.drop_last();
        law_parents(shorter);
        assert(all =~= shorter.map_values(parent_if_any()).push(parent_if_any()(files.last())));
        shorter.map_values(parent_if_any()).lemma_flatten_push(parent_if_any()(files.last()));
        assert(path::parents(files) =~= path::parents(shorter) + parent_if_any()(files.last()));
    }
}

proof fn lemma_shared_at_least(a: Seq<Seq<char>>, b: Seq<Seq<char>>, front: Seq<Seq<char>>)
    requires
        front.is_prefix_of(a),
        front.is_prefix_of(b),
    ensures
        path::shared_len(a, b) >= front.len(),
    decreases a.len(),
{
    path::lemma_shared_nonnegative(a, b);
    if front.len() > 0 {
        assert(front[0] == a.take(front.len() as int)[0]);
        assert(front[0] == b.take(front.len() as int)[0]);
        let rest = front.drop_first();
        assert(rest =~= a.drop_first().take(rest.len() as int)) by {
            assert(front =~= a.take(front.len() as int));
        }
        assert(rest =~= b.drop_first().take(rest.len() as int)) by {
            assert(front =~= b.take(front.len() as int));
        }
        lemma_shared_at_least(a.drop_first(), b.drop_first(), rest);
    }
}

proof fn lemma_shared_by_all_at_least(dirs: Seq<Seq<char>>, front: Seq<Seq<char>>)
    requires
        dirs.len() > 0,
        forall|i: int|
            0 <= i < dirs.len() ==> front.is_prefix_of(path::components(#[trigger] dirs[i])),
    ensures
        path::shared_by_all(dirs) >= front.len(),
    decreases dirs.len(),
{
    assert(front.is_prefix_of(path::components(dirs[0])));
    if dirs.len() > 1 {
        let shorter = dirs.drop_last();
        assert forall|i: int| 0 <= i < shorter.len() implies front.is_prefix_of(
            path::components(#[trigger] shorter[i]),
        ) by {
            assert(shorter[i] == dirs[i]);
        }
        lemma_shared_by_all_at_least(shorter, front);
        assert(front.is_prefix_of(path::components(dirs[dirs.len() - 1])));
        lemma_shared_at_least(
            path::components(dirs[0]),
            path::components(dirs.last()),
            front,
        );
    }
}

/// The common root of files is the longest directory that holds all of them: each directory
/// that holds all of them holds it too. It is written as in the first file.
pub proof fn law_common_root_is_the_longest(files: Seq<Seq<char>>, front: Seq<Seq<char>>)
    ensures
        path::parents(files).len() == 0 ==> path::common_root(files).len() == 0,
        path::parents(files).len() > 0 ==> {
            let root = path::common_root(files);
            let dirs = path::parents(files);
            &&& root.is_prefix_of(dirs[0])
            &&& ends_clean(root)
            &&& forall|i: int|
                0 <= i < dirs.len() ==> path::components(root).is_prefix_of(
                    path::components(#[trigger] dirs[i]),
                )
            &&& (forall|i: int|
                0 <= i < dirs.len() ==> front.is_prefix_of(path::components(#[trigger] dirs[i])))
                ==> front.is_prefix_of(path::components(root))
        },
{
    let dirs = path::parents(files);
    if dirs.len() > 0 {
        let root = path::common_root(files);
        let k = path::shared_by_all(dirs);
        path::lemma_shared_by_all(dirs);
        lemma_cut(dirs[0], k);
        let parts = path::components(root);
        assert forall|i: int| 0 <= i < dirs.len() implies parts.is_prefix_of(
            path::components(#[trigger] dirs[i]),
        ) by {
            assert(path::components(dirs[i]).take(k) == path::components(dirs[0]).take(k));
        }
        if forall|i: int|
            0 <= i < dirs.len() ==> front.is_prefix_of(path::components(#[trigger] dirs[i])) {
            lemma_shared_by_all_at_least(dirs, front);
            let n = front.len() as int;
            assert(front.is_prefix_of(path::components(dirs[0])));
            assert(front =~= path::components(dirs[0]).take(n));
            assert(front =~= parts.take(n));
        }
    }
}

proof fn lemma_shared_whole(a: Seq<Seq<char>>, b: Seq<Seq<char>>)
    ensures
        path::shared_len(a, b) == b.len() <==> b.is_prefix_of(a),
    decreases a.len(),
{
    if b.len() == 0 {
        assert(b =~= a.take(0));
    } else if a.len() > 0 && a[0] == b[0] {
        let x = a.drop_first();
        let y = b.drop_first();
        lemma_shared_whole(x, y);
        if y.is_prefix_of(x) {
            assert(y =~= x.take(y.len() as int));
            assert(b =~= seq![b[0]] + y);
            assert(a.take(b.len() as int) =~= seq![a[0]] + x.take(y.len() as int));
        }
        if b.is_prefix_of(a) {
            assert(b =~= a.take(b.len() as int));
            assert(y =~= x.take(y.len() as int));
        }
    } else if b.is_prefix_of(a) {
        assert(b[0] == a.take(b.len() as int)[0]);
    }
}

/// A file lies under a directory exactly if its components start with those of the directory.
pub proof fn law_under(file: Seq<char>, root: Seq<char>)
    ensures
        path::under(file, root) <==> path::components(root).is_prefix_of(path::components(file)),
{
    lemma_shared_whole(path::components(file), path::components(root));
}

/// Shown with slashes, a text has slashes in place of backslashes.
pub proof fn law_with_slashes(s: Seq<char>)
    ensures
        path::with_slashes(s).len() == s.len(),
        forall|i: int|
            0 <= i < s.len() ==> #[trigger] path::with_slashes(s)[i] == if s[i] == '\\' {
                '/'
            } else {
                s[i]
            },
{
}

/// The name of a file under a root is what is left of it from the component behind the root
/// to its last one; a file elsewhere is shown as it is.
pub proof fn law_relative_names(file: Seq<char>, root: Seq<char>)
    ensures
        !path::components(root).is_prefix_of(path::components(file)) ==> path::relative_to(
            file,
            root,
        ) == path::with_slashes(file),
        path::components(root).is_prefix_of(path::components(file)) ==> {
            let n = path::components(root).len() as int;
            let rest = path::cut_front(file, n);
            &&& path::relative_to(file, root) == path::with_slashes(rest)
            &&& path::components(rest) == path::components(file).skip(n)
            &&& n < path::components(file).len() ==> path::components(file)[n].is_prefix_of(rest)
                && path::components(file).last().is_suffix_of(rest) && exists|i: int, j: int|
                0 <= i < j <= file.len() && rest == #[trigger] file.subrange(i, j)
            &&& n >= path::components(file).len() ==> rest.len() == 0
        },
{
    law_under(file, root);
    if path::components(root).is_prefix_of(path::components(file)) {
        let n = path::components(root).len() as int;
        let all = path::spans(file);
        let rest = path::cut_front(file, n);
        path::law_cut_front_leaves_components(file, n);
        path::lemma_spans_fit(file);
        if n < all.len() {
            let first = all[n];
            let last = all[all.len() - 1];
            assert(first.0 < first.1);
            assert(last.0 < last.1 <= file.len());
            if n < all.len() - 1 {
                assert(first.1 <= last.0);
            }
            assert(rest == file.subrange(first.0, last.1));
            assert(path::components(file)[n] =~= rest.take(first.1 - first.0));
            assert(path::components(file).last() =~= rest.skip(last.0 - first.0));
        }
    }
}

/// A path put into a directory stands behind it with one slash between, and behind nothing as
/// it is. An absolute path stays as it is.
pub proof fn law_within(dir: Seq<char>, s: Seq<char>)
    ensures
        path::absolute(s) ==> path::within(dir, s) == s,
        !path::absolute(s) && dir.len() == 0 ==> path::within(dir, s) == s,
        !path::absolute(s) && dir.len() > 0 && dir.last() == '/' ==> path::within(dir, s) == dir
            + s,
        !path::absolute(s) && dir.len() > 0 && dir.last() != '/' ==> path::within(dir, s) == dir
            + seq!['/'] + s,
{
    assert(dir.push('/') + s =~= dir + seq!['/'] + s);
    if dir.len() == 0 {
        assert(dir + s =~= s);
    }
}

/// A schema file is one whose name is something with `.capnp` behind it.
pub proof fn law_schema_files(s: Seq<char>)
    ensures
        path::is_schema(s) <==> path::components(s).len() > 0 && exists|stem: Seq<char>|
            stem.len() > 0 && path::components(s).last() == #[trigger] (stem + ".capnp"@),
{
    reveal_strlit(".capnp");
    if path::is_schema(s) {
        let name = path::components(s).last();
        let stem = name.take(name.len() - ".capnp"@.len());
        assert(name =~= stem + ".capnp"@);
    }
    if path::components(s).len() > 0 && exists|stem: Seq<char>|
        stem.len() > 0 && path::components(s).last() == #[trigger] (stem + ".capnp"@) {
        let stem = choose|stem: Seq<char>|
            stem.len() > 0 && path::components(s).last() == #[trigger] (stem + ".capnp"@);
        let name = path::components(s).last();
        assert(name.skip(stem.len() as int) =~= ".capnp"@);
    }
}

proof fn lemma_last_span(front: Seq<char>, name: Seq<char>, from: int)
    requires
        front.len() == 0 || front.last() == '/',
        name.len() > 0,
        !name.contains('/'),
        name != "."@,
        0 <= from <= front.len(),
    ensures
        ({
            let s = front + name;
            let found = path::spans_from(s, from);
            found.len() > 0 && found.last() == (front.len() as int, s.len() as int)
        }),
    decreases front.len() - from,
{
    let s = front + name;
    let n = front.len() as int;
    if from == n {
        assert(name[0] != '/') by {
            assert(name.contains(name[0]));
        }
        assert(s[n] == name[0]);
        lemma_end(front, name, n);
        assert(s.subrange(n, s.len() as int) =~= name);
        assert(path::spans_from(s, s.len() as int) =~= Seq::empty());
        assert(path::spans_from(s, n) =~= seq![(n, s.len() as int)]);
    } else if s[from] == '/' {
        lemma_last_span(front, name, from + 1);
    } else {
        let end = path::piece_end(s, from);
        path::lemma_piece_end(s, from);
        lemma_end_in_front(front, name, from);
        lemma_last_span(front, name, end);
        let later = path::spans_from(s, end);
        assert((seq![(from, end)] + later).last() == later.last());
    }
}

proof fn lemma_end(front: Seq<char>, name: Seq<char>, from: int)
    requires
        !name.contains('/'),
        front.len() <= from <= front.len() + name.len(),
    ensures
        path::piece_end(front + name, from) == front.len() + name.len(),
    decreases front.len() + name.len() - from,
{
    let s = front + name;
    if from < s.len() {
        assert(s[from] == name[from - front.len()]);
        assert(name.contains(s[from]));
        lemma_end(front, name, from + 1);
    }
}

proof fn lemma_end_in_front(front: Seq<char>, name: Seq<char>, from: int)
    requires
        front.len() > 0,
        front.last() == '/',
        0 <= from < front.len(),
    ensures
        path::piece_end(front + name, from) < front.len(),
    decreases front.len() - from,
{
    let s = front + name;
    assert(s[from] == front[from]);
    if s[from] != '/' {
        assert(from < front.len() - 1);
        lemma_end_in_front(front, name, from + 1);
    }
}

proof fn lemma_name(front: Seq<char>, name: Seq<char>)
    requires
        front.len() == 0 || front.last() == '/',
        name.len() > 0,
        !name.contains('/'),
        name != "."@,
    ensures
        path::spans(front + name).len() > 0,
        path::spans(front + name).last() == (front.len() as int, (front + name).len() as int),
        path::components(front + name).last() == name,
{
    let s = front + name;
    if path::absolute(s) {
        if front.len() == 0 {
            assert(name.contains(s[0]));
        }
        lemma_last_span(front, name, 1);
        let later = path::spans_from(s, 1);
        assert((seq![(0int, 1int)] + later).last() == later.last());
    } else {
        lemma_last_span(front, name, 0);
    }
    assert(s.subrange(front.len() as int, s.len() as int) =~= name);
}

proof fn lemma_last_dot(stem: Seq<char>, ending: Seq<char>)
    requires
        !ending.contains('.'),
    ensures
        path::last_dot(stem + seq!['.'] + ending) == stem.len(),
    decreases ending.len(),
{
    let name = stem + seq!['.'] + ending;
    if ending.len() == 0 {
        assert(name.last() == '.');
    } else {
        let shorter = ending.drop_last();
        assert(ending.contains(ending[ending.len() - 1]));
        assert(name.last() == ending.last());
        assert forall|i: int| 0 <= i < shorter.len() implies shorter[i] != '.' by {
            assert(ending.contains(ending[i]));
        }
        lemma_last_dot(stem, shorter);
        assert(name.drop_last() =~= stem + seq!['.'] + shorter);
    }
}

proof fn lemma_no_later_dot(name: Seq<char>)
    requires
        forall|i: int| 0 < i < name.len() ==> #[trigger] name[i] != '.',
    ensures
        path::last_dot(name) <= 0,
    decreases name.len(),
{
    reveal_with_fuel(path::last_dot, 2);
    if name.len() > 1 {
        assert(name[name.len() - 1] != '.');
        assert forall|i: int| 0 < i < name.drop_last().len() implies #[trigger] name.drop_last()[i]
            != '.' by {
            assert(name[i] != '.');
        }
        lemma_no_later_dot(name.drop_last());
    }
}

/// A new extension takes the place of what follows the last dot in the name of a file, or is
/// put behind a name without a dot. A dot at the start of a name starts no extension.
pub proof fn law_extension(
    front: Seq<char>,
    stem: Seq<char>,
    ending: Seq<char>,
    extension: Seq<char>,
)
    requires
        front.len() == 0 || front.last() == '/',
        stem.len() > 0,
        !stem.contains('/'),
        !ending.contains('/'),
        !ending.contains('.'),
    ensures
        stem != "."@ && (forall|i: int| 0 < i < stem.len() ==> #[trigger] stem[i] != '.')
            ==> path::extended(front + stem, extension) == front + stem + seq!['.'] + extension,
        stem + seq!['.'] + ending != ".."@ ==> path::extended(
            front + (stem + seq!['.'] + ending),
            extension,
        ) == front + stem + seq!['.'] + extension,
{
    reveal_strlit(".");
    reveal_strlit("..");
    reveal_strlit("/");
    assert("."@ =~= seq!['.']);
    assert("/"@[0] == '/');
    if stem != "."@ && (forall|i: int| 0 < i < stem.len() ==> #[trigger] stem[i] != '.') {
        lemma_name(front, stem);
        lemma_no_later_dot(stem);
        if stem == "/"@ {
            assert(stem.contains(stem[0]));
        }
        if stem == ".."@ {
            assert(stem[1] == '.');
        }
        assert((front + stem).take((front.len() + stem.len()) as int) =~= front + stem);
    }
    let name = stem + seq!['.'] + ending;
    if name != ".."@ {
        assert(!name.contains('/')) by {
            if name.contains('/') {
                let i = choose|i: int| 0 <= i < name.len() && name[i] == '/';
                if i < stem.len() {
                    assert(stem.contains(stem[i]));
                } else if i > stem.len() {
                    assert(ending.contains(ending[i - stem.len() - 1]));
                }
            }
        }
        assert(name.len() > 1);
        lemma_name(front, name);
        lemma_last_dot(stem, ending);
        assert((front + name).take((front.len() + stem.len()) as int) =~= front + stem);
    }
}

/// What has no name gets no extension.
pub proof fn law_no_extension(s: Seq<char>, extension: Seq<char>)
    requires
        path::components(s).len() == 0 || path::components(s).last() == "/"@ || path::components(
            s,
        ).last() == "."@ || path::components(s).last() == ".."@,
    ensures
        path::extended(s, extension) == s,
{
}

proof fn lemma_rendered(names: Seq<Seq<char>>)
    requires
        forall|i: int|
            0 <= i < names.len() ==> (#[trigger] names[i]).len() > 0 && !names[i].contains('/'),
    ensures
        path::render(names) == text::join(names, "/"@),
        names.len() > 0 ==> path::render(names).len() > 0 && path::render(names).last() != '/',
    decreases names.len(),
{
    reveal_strlit("/");
    if names.len() > 0 {
        let before = names.drop_last();
        let last = names.last();
        assert(names[names.len() - 1] == last);
        assert(last.contains(last[0]) && last.contains(last[last.len() - 1]));
        assert forall|i: int| 0 <= i < before.len() implies (#[trigger] before[i]).len() > 0
            && !before[i].contains('/') by {
            assert(before[i] == names[i]);
        }
        lemma_rendered(before);
        if names.len() == 1 {
            assert(path::render(before) =~= Seq::empty());
            assert(path::render(names) =~= last);
            assert(names[0] == last);
        } else {
            assert(path::render(names) =~= path::render(before) + "/"@ + last);
        }
    }
}

/// What git calls a path: its components but the dots, with a slash between each two, or a
/// dot if there are none. A path that is absolute or goes up has no name in git.
pub proof fn law_git_names(s: Seq<char>)
    ensures
        git::relative(s) is None <==> path::absolute(s) || path::components(s).contains(".."@),
        git::relative(s) matches Some(name) ==> {
            let names = path::components(s).filter(|part: Seq<char>| part != "."@);
            name == if names.len() == 0 {
                "."@
            } else {
                text::join(names, "/"@)
            }
        },
{
    let parts = path::components(s);
    if git::relative(s) is Some {
        let names = order::picked(parts, git::moves());
        selecting::lemma_picked_filters(parts, git::moves());
        assert(git::moves() =~= (|part: Seq<char>| part != "."@));
        path::lemma_components_proper(s);
        order::lemma_picked(parts, git::moves());
        reveal_strlit("/");
        assert forall|i: int| 0 <= i < names.len() implies (#[trigger] names[i]).len() > 0
            && !names[i].contains('/') by {
            assert(names.contains(names[i]));
            let j = choose|j: int| 0 <= j < parts.len() && parts[j] == names[i];
            assert(parts[j].len() > 0);
            if parts[j] == "/"@ {
                assert(parts[0] == "/"@);
            }
        }
        lemma_rendered(names);
    }
}

/// The name of one path in git, if it has one.
pub open spec fn git_name_if_any() -> spec_fn(Seq<char>) -> Seq<Seq<char>> {
    |s: Seq<char>|
        match git::relative(s) {
            Some(name) => seq![name],
            None => Seq::empty(),
        }
}

/// The names of paths in git are theirs, one after the other.
pub proof fn law_all_git_names(paths: Seq<Seq<char>>)
    ensures
        git::relative_all(paths) == paths.map_values(git_name_if_any()).flatten(),
    decreases paths.len(),
{
    let all = paths.map_values(git_name_if_any());
    if paths.len() > 0 {
        let shorter = paths.drop_last();
        law_all_git_names(shorter);
        assert(all =~= shorter.map_values(git_name_if_any()).push(git_name_if_any()(paths.last())));
        shorter.map_values(git_name_if_any()).lemma_flatten_push(git_name_if_any()(paths.last()));
        assert(git::relative_all(paths) =~= git::relative_all(shorter) + git_name_if_any()(
            paths.last(),
        ));
    }
}

/// What is taken out of a repository are the names in git of the places where the sources are
/// looked for, and of the import paths, all of them and no others.
pub proof fn law_what_is_archived(
    sources: Seq<Seq<char>>,
    import_paths: Seq<Seq<char>>,
    name: Seq<char>,
)
    ensures
        git::archived(sources, import_paths).contains(name) <==> {
            ||| exists|k: int|
                0 <= k < sources.len() && git::relative(glob::root_of(#[trigger] sources[k]))
                    == Some(name)
            ||| exists|k: int|
                0 <= k < import_paths.len() && git::relative(#[trigger] import_paths[k]) == Some(
                    name,
                )
        },
{
    let roots = git::roots_of(sources);
    let all = roots + import_paths;
    let names = git::relative_all(all);
    let found = git::archived(sources, import_paths);
    git::law_archived_paths_stay_inside(sources, import_paths);
    git::lemma_relative_all(all);
    listing::law_distinct_paths(names);
    if found.contains(name) {
        let i = choose|i: int| 0 <= i < found.len() && found[i] == name;
        assert(names.contains(listing::distinct(names)[i]));
        let j = choose|j: int| 0 <= j < names.len() && names[j] == name;
        let k = choose|k: int|
            0 <= k < all.len() && git::relative(#[trigger] all[k]) == Some(names[j]);
        if k < roots.len() {
            assert(all[k] == glob::root_of(sources[k]));
        } else {
            assert(all[k] == import_paths[k - roots.len()]);
        }
    }
    if exists|k: int|
        0 <= k < sources.len() && git::relative(glob::root_of(#[trigger] sources[k])) == Some(
            name,
        ) {
        let k = choose|k: int|
            0 <= k < sources.len() && git::relative(glob::root_of(#[trigger] sources[k])) == Some(
                name,
            );
        assert(all[k] == glob::root_of(sources[k]));
        assert(git::relative((git::roots_of(sources) + import_paths)[k]) is Some);
    }
    if exists|k: int|
        0 <= k < import_paths.len() && git::relative(#[trigger] import_paths[k]) == Some(name) {
        let k = choose|k: int|
            0 <= k < import_paths.len() && git::relative(#[trigger] import_paths[k]) == Some(name);
        let n = roots.len() + k;
        assert(all[n] == import_paths[k]);
        assert(git::relative((git::roots_of(sources) + import_paths)[n]) is Some);
    }
}

proof fn lemma_plain_front(parts: Seq<Seq<char>>)
    ensures
        glob::plain_front(parts).is_prefix_of(parts),
        forall|i: int|
            0 <= i < glob::plain_front(parts).len() ==> !glob::has_operator(#[trigger] parts[i]),
        glob::plain_front(parts).len() < parts.len() ==> glob::has_operator(
            parts[glob::plain_front(parts).len() as int],
        ),
    decreases parts.len(),
{
    glob::lemma_plain_front(parts);
    if parts.len() > 0 && !glob::has_operator(parts[0]) {
        let rest = parts.drop_first();
        lemma_plain_front(rest);
        assert forall|i: int| 0 <= i < glob::plain_front(parts).len() implies !glob::has_operator(
            #[trigger] parts[i],
        ) by {
            if i > 0 {
                assert(parts[i] == rest[i - 1]);
            }
        }
    }
}

/// A pattern is looked for in the directory that its components name up to the first with an
/// operator, and in the current directory if that is the first. What is no pattern is looked
/// for as it is.
pub proof fn law_where_patterns_are_looked_for(source: Seq<char>)
    ensures
        !glob::has_operator(source) ==> glob::root_of(source) == source,
        glob::has_operator(source) ==> {
            let parts = path::components(source);
            let n = glob::plain_front(parts).len() as int;
            let root = glob::root_of(source);
            &&& 0 <= n <= parts.len()
            &&& forall|i: int| 0 <= i < n ==> !glob::has_operator(#[trigger] parts[i])
            &&& n < parts.len() ==> glob::has_operator(parts[n])
            &&& n == 0 ==> root == "."@
            &&& n > 0 ==> path::components(root) == parts.take(n) && (root == "/"@ || root.last()
                != '/')
        },
{
    let parts = path::components(source);
    lemma_plain_front(parts);
    if glob::has_operator(source) {
        let front = glob::plain_front(parts);
        let n = front.len() as int;
        assert(front =~= parts.take(n));
        path::lemma_components_proper(source);
        assert(path::proper(front)) by {
            assert forall|i: int| 0 <= i < front.len() implies {
                &&& (#[trigger] front[i]).len() > 0
                &&& front[i] == "/"@ || !front[i].contains('/')
                &&& front[i] == "/"@ || front[i] == "."@ ==> i == 0
            } by {
                assert(front[i] == parts[i]);
            }
        }
        path::law_render_keeps_components(front);
    }
}

/// A pattern selects what fits it, seen with slashes, and without `./` at its start if the
/// pattern is looked for in the current directory.
pub proof fn law_what_patterns_see(pattern: Seq<char>, file: Seq<char>)
    ensures
        glob::plain_front(path::components(pattern)).len() > 0 ==> (glob::selects(pattern, file)
            <==> glob::fits(pattern, path::with_slashes(file))),
        glob::plain_front(path::components(pattern)).len() == 0 ==> {
            &&& glob::selects(pattern, "./"@ + file) <==> glob::fits(
                pattern,
                path::with_slashes(file),
            )
            &&& !(file.len() >= 2 && file[0] == '.' && (file[1] == '/' || file[1] == '\\')) ==> (
            glob::selects(pattern, file) <==> glob::fits(pattern, path::with_slashes(file)))
        },
{
    reveal_strlit("./");
    let dotted = "./"@ + file;
    let shown = path::with_slashes(dotted);
    assert(shown[0] == '.' && shown[1] == '/');
    assert(shown.take(2) =~= "./"@);
    assert(shown.skip(2) =~= path::with_slashes(file));
    let plain = path::with_slashes(file);
    if text::starts_with(plain, "./"@) {
        assert(plain.take(2)[0] == '.' && plain.take(2)[1] == '/');
        assert(plain[0] == '.' && plain[1] == '/');
    }
}

} // verus!
