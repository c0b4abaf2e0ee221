//! What has to be taken out of a git repository, and how.

use crate::glob;
use crate::glob::materialization_root;
use crate::listing;
use crate::listing::sort_paths;
use crate::order;
use crate::path;
use crate::path::{components_of, join_path};
use crate::text;
use crate::text::{chars_of, is_text, string_of};
use vstd::prelude::*;

verus! {

/// Whether a component is more than a `.`.
pub open spec fn moves() -> spec_fn(Seq<char>) -> bool {
    |part: Seq<char>| part != "."@
}

/// A path as git names it inside a repository: without `.` components, and `.` for the
/// repository itself. Absolute paths and those with a `..` have no such name.
pub open spec fn relative(s: Seq<char>) -> Option<Seq<char>> {
    let parts = path::components(s);
    let names = order::picked(parts, moves());
    if path::absolute(s) || parts.contains(".."@) {
        None
    } else if names.len() == 0 {
        Some("."@)
    } else {
        Some(path::render(names))
    }
}

/// A path as git names it inside a repository.
pub fn git_relative_path(s: &[char]) -> (name: Option<Vec<char>>)
    ensures
        text::view_of(name) == relative(s@),
{
    if s.len() > 0 && s[0] == '/' {
        return None;
    }
    let parts = components_of(s);
    let ghost all = path::components(s@);
    let mut name: Vec<char> = Vec::new();
    let mut named: bool = false;
    let mut i: usize = 0;
    assert(parts@.len() == all.len());
    assert(name@ =~= path::render(order::picked(all.take(0), moves())));
    while i < parts.len()
        invariant
            i <= parts@.len() == all.len(),
            text::views(parts@) == all,
            all == path::components(s@),
            !path::absolute(s@),
            forall|j: int| 0 <= j < i ==> all[j] != ".."@,
            named == (order::picked(all.take(i as int), moves()).len() > 0),
            name@ == path::render(order::picked(all.take(i as int), moves())),
        decreases parts@.len() - i,
    {
        let part = parts[i].as_slice();
        proof {
            assert(all[i as int] == part@);
            order::lemma_picked_step(all, i as int, moves());
        }
        if is_text(part, "..") {
            assert(all.contains(".."@));
            return None;
        }
        if !is_text(part, ".") {
            name = join_path(name.as_slice(), part);
            named = true;
            proof {
                let before = order::picked(all.take(i as int), moves());
                assert(before.push(part@).drop_last() =~= before);
            }
        }
        i = i + 1;
    }
    assert(all.take(i as int) =~= all);
    if named {
        Some(name)
    } else {
        Some(chars_of("."))
    }
}

/// The names that git has for paths.
pub open spec fn relative_all(paths: Seq<Seq<char>>) -> Seq<Seq<char>>
    decreases paths.len(),
{
    if paths.len() == 0 {
        Seq::empty()
    } else {
        match relative(paths.last()) {
            Some(name) => relative_all(paths.drop_last()).push(name),
            None => relative_all(paths.drop_last()),
        }
    }
}

/// Where sources are looked for.
pub open spec fn roots_of(sources: Seq<Seq<char>>) -> Seq<Seq<char>> {
    sources.map_values(|source: Seq<char>| glob::root_of(source))
}

/// What has to be taken out of a repository for sources and import paths, in order and
/// each path once.
pub open spec fn archived(sources: Seq<Seq<char>>, import_paths: Seq<Seq<char>>) -> Seq<Seq<char>> {
    listing::distinct(relative_all(roots_of(sources) + import_paths))
}

/// Appends the name that git has for a path.
fn push_relative(names: &mut Vec<String>, path: &str)
    ensures
        forall|paths: Seq<Seq<char>>|
            text::views(old(names)@) == #[trigger] relative_all(paths) ==> text::views(
                final(names)@,
            ) == relative_all(paths.push(path@)),
{
    let ghost before = text::views(names@);
    assert(forall|paths: Seq<Seq<char>>| (#[trigger] paths.push(path@)).drop_last() =~= paths);
    if let Some(name) = git_relative_path(chars_of(path).as_slice()) {
        names.push(string_of(name.as_slice()));
        assert(text::views(names@) =~= before.push(name@));
    }
}

/// What has to be taken out of a repository for sources and import paths.
pub fn archive_roots(paths: &[String], import_paths: &[String]) -> (roots: Vec<String>)
    ensures
        text::views(roots@) == archived(text::views(paths@), text::views(import_paths@)),
{
    let ghost first = roots_of(text::views(paths@));
    let ghost second = text::views(import_paths@);
    let mut names: Vec<String> = Vec::new();
    let mut i: usize = 0;
    assert(text::views(names@) =~= relative_all(first.take(0)));
    while i < paths.len()
        invariant
            i <= paths@.len(),
            first == roots_of(text::views(paths@)),
            text::views(names@) == relative_all(first.take(i as int)),
        decreases paths@.len() - i,
    {
        let root = materialization_root(paths[i].as_str());
        assert(first[i as int] == root@);
        assert(first.take(i + 1) =~= first.take(i as int).push(root@));
        push_relative(&mut names, root.as_str());
        i = i + 1;
    }
    let mut k: usize = 0;
    assert(first.take(i as int) =~= first + second.take(0));
    while k < import_paths.len()
        invariant
            k <= import_paths@.len(),
            second == text::views(import_paths@),
            text::views(names@) == relative_all(first + second.take(k as int)),
        decreases import_paths@.len() - k,
    {
        assert(first + second.take(k + 1) =~= (first + second.take(k as int)).push(
            import_paths@[k as int]@,
        ));
        push_relative(&mut names, import_paths[k].as_str());
        k = k + 1;
    }
    assert(second.take(k as int) =~= second);
    let (roots, _) = sort_paths(names.as_slice());
    roots
}

proof fn lemma_names(s: Seq<char>)
    requires
        relative(s) is Some,
    ensures
        path::proper(order::picked(path::components(s), moves())),
        !order::picked(path::components(s), moves()).contains(".."@),
        !order::picked(path::components(s), moves()).contains("."@),
        !order::picked(path::components(s), moves()).contains("/"@),
{
    let parts = path::components(s);
    let names = order::picked(parts, moves());
    path::lemma_components_proper(s);
    order::lemma_picked(parts, moves());
    assert forall|i: int| 0 <= i < names.len() implies {
        &&& (#[trigger] names[i]).len() > 0
        &&& names[i] != "/"@ && names[i] != "."@ && names[i] != ".."@
        &&& !names[i].contains('/')
    } by {
        assert(names.contains(names[i]));
        let j = choose|j: int| 0 <= j < parts.len() && parts[j] == names[i];
        assert(moves()(names[i]));
        assert(parts[j].len() > 0);
        assert(parts.contains(names[i]));
    }
    if names.contains("."@) {
        assert(moves()("."@));
    }
    if names.contains("/"@) {
        let j = choose|j: int| 0 <= j < names.len() && names[j] == "/"@;
        assert(names[j] != "/"@);
    }
}

/// Nothing is dropped where `p` holds for everything.
proof fn lemma_all_picked(items: Seq<Seq<char>>)
    requires
        !items.contains("."@),
    ensures
        order::picked(items, moves()) == items,
    decreases items.len(),
{
    if items.len() > 0 {
        let shorter = items.drop_last();
        assert(items[items.len() - 1] == items.last());
        assert(moves()(items.last()));
        if shorter.contains("."@) {
            let i = choose|i: int| 0 <= i < shorter.len() && shorter[i] == "."@;
            assert(items[i] == "."@);
        }
        lemma_all_picked(shorter);
        assert(shorter.push(items.last()) =~= items);
    } else {
        assert(order::picked(items, moves()) =~= items);
    }
}

/// The name that git has for a path stays inside the repository and is its own name.
pub proof fn law_git_names_stay_inside(s: Seq<char>)
    requires
        relative(s) is Some,
    ensures
        !path::absolute(relative(s)->0),
        !path::components(relative(s)->0).contains(".."@),
        relative(relative(s)->0) == relative(s),
{
    let names = order::picked(path::components(s), moves());
    let name = relative(s)->0;
    lemma_names(s);
    reveal_strlit(".");
    reveal_strlit("..");
    reveal_strlit("/");
    if names.len() == 0 {
        let parts = seq!["."@];
        assert(path::proper(parts)) by {
            assert(!"."@.contains('/'));
        }
        path::law_render_keeps_components(parts);
        assert(parts.drop_last() =~= Seq::empty());
        assert(path::render(parts.drop_last()) =~= Seq::empty());
        assert(path::render(parts) =~= "."@);
        assert(path::components(name) == parts);
        assert(!parts.contains(".."@));
        assert(!moves()("."@));
        order::lemma_picked(parts, moves());
        let again = order::picked(parts, moves());
        if again.len() > 0 {
            assert(again.contains(again[0]));
            assert(parts.contains(again[0]));
        }
    } else {
        path::law_render_keeps_components(names);
        assert(names.contains(names[0]));
        lemma_all_picked(names);
    }
}

pub proof fn lemma_relative_all(paths: Seq<Seq<char>>)
    ensures
        forall|i: int|
            0 <= i < relative_all(paths).len() ==> exists|k: int|
                0 <= k < paths.len() && relative(#[trigger] paths[k]) == Some(
                    #[trigger] relative_all(paths)[i],
                ),
        forall|k: int|
            0 <= k < paths.len() && relative(#[trigger] paths[k]) is Some ==> relative_all(
                paths,
            ).contains(relative(paths[k])->0),
    decreases paths.len(),
{
    if paths.len() > 0 {
        let shorter = paths.drop_last();
        lemma_relative_all(shorter);
        let all = relative_all(paths);
        let before = relative_all(shorter);
        assert forall|k: int|
            0 <= k < paths.len() && relative(#[trigger] paths[k]) is Some implies all.contains(
            relative(paths[k])->0,
        ) by {
            if k < shorter.len() {
                assert(relative(shorter[k]) is Some);
                let i = choose|i: int| 0 <= i < before.len() && before[i] == relative(paths[k])->0;
                assert(all[i] == before[i]);
            } else {
                assert(all.last() == relative(paths[k])->0);
            }
        }
        assert forall|i: int| 0 <= i < all.len() implies exists|k: int|
            0 <= k < paths.len() && relative(#[trigger] paths[k]) == Some(#[trigger] all[i]) by {
            if i < before.len() {
                assert(all[i] == before[i]);
                let k = choose|k: int|
                    0 <= k < shorter.len() && relative(#[trigger] shorter[k]) == Some(before[i]);
                assert(relative(paths[k]) == Some(all[i]));
            } else {
                assert(relative(paths[paths.len() - 1]) == Some(all[i]));
            }
        }
    }
}

/// What is taken out of a repository: paths inside it that are their own git names, in
/// strictly ascending order, and among them the one of every root or import path that
/// has a git name.
pub proof fn law_archived_paths_stay_inside(sources: Seq<Seq<char>>, import_paths: Seq<Seq<char>>)
    ensures
        forall|i: int|
            0 <= i < archived(sources, import_paths).len() ==> {
                &&& relative(#[trigger] archived(sources, import_paths)[i]) == Some(
                    archived(sources, import_paths)[i],
                )
                &&& !path::absolute(archived(sources, import_paths)[i])
                &&& !path::components(archived(sources, import_paths)[i]).contains(".."@)
            },
        order::in_order(
            archived(sources, import_paths).map_values(|s: Seq<char>| path::components(s)),
            listing::path_order(),
        ),
        forall|k: int|
            0 <= k < sources.len() + import_paths.len() && relative(
                #[trigger] (roots_of(sources) + import_paths)[k],
            ) is Some ==> archived(sources, import_paths).contains(
                relative((roots_of(sources) + import_paths)[k])->0,
            ),
{
    let wanted = roots_of(sources) + import_paths;
    let names = relative_all(wanted);
    let roots = archived(sources, import_paths);
    listing::law_distinct_paths(names);
    lemma_relative_all(wanted);
    assert forall|i: int| 0 <= i < roots.len() implies {
        &&& relative(#[trigger] roots[i]) == Some(roots[i])
        &&& !path::absolute(roots[i])
        &&& !path::components(roots[i]).contains(".."@)
    } by {
        assert(names.contains(listing::distinct(names)[i]));
        let j = choose|j: int| 0 <= j < names.len() && names[j] == roots[i];
        let k = choose|k: int|
            0 <= k < wanted.len() && relative(#[trigger] wanted[k]) == Some(names[j]);
        law_git_names_stay_inside(wanted[k]);
    }
    let f = |s: Seq<char>| path::components(s);
    assert forall|k: int|
        0 <= k < sources.len() + import_paths.len() && relative(
            #[trigger] wanted[k],
        ) is Some implies roots.contains(relative(wanted[k])->0) by {
        let name = relative(wanted[k])->0;
        law_git_names_stay_inside(wanted[k]);
        let i = choose|i: int| 0 <= i < names.len() && names[i] == name;
        assert(names.map_values(f)[i] == path::components(name));
        assert(listing::keys(names).contains(path::components(name)));
        assert(roots.map_values(f).to_set().contains(path::components(name)));
        let j = choose|j: int|
            0 <= j < roots.map_values(f).len() && roots.map_values(f)[j] == path::components(name);
        assert(relative(roots[j]) == Some(roots[j]));
        assert(roots[j] == name);
    }
}

} // verus!
