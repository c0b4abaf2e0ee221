//! Paths that are moved into a directory: what stays the same whatever the directory is.

use crate::glob;
use crate::listing;
use crate::mode;
use crate::order;
use crate::path;
use crate::text;
use vstd::prelude::*;

verus! {

/// What a path adds to the components of the directory that it is moved into.
pub open spec fn parts_in(s: Seq<char>) -> Seq<Seq<char>> {
    path::counted(text::split(s, '/'), false)
}

/// A path that is moved into a directory has the components of the directory, and its own.
pub proof fn lemma_parts_in(dir: Seq<char>, s: Seq<char>)
    requires
        dir.len() > 0,
        !path::absolute(s),
    ensures
        path::components(path::within(dir, s)) == path::components(dir) + parts_in(s),
{
    path::law_moved_path_lies_within(dir, s);
    let all = path::components(path::within(dir, s));
    let n = path::components(dir).len() as int;
    assert(all =~= all.take(n) + all.skip(n));
}

/// A directory as it stands in front of what is moved into it.
pub open spec fn front_of(dir: Seq<char>) -> Seq<char> {
    path::within(dir, Seq::empty())
}

/// What is moved into a directory stands behind the directory.
pub proof fn lemma_front(dir: Seq<char>, s: Seq<char>)
    requires
        dir.len() > 0,
        !path::absolute(s),
    ensures
        path::within(dir, s) == front_of(dir) + s,
        front_of(dir).len() > 0,
        front_of(dir).last() == '/',
        front_of(dir)[0] == dir[0],
        path::components(front_of(dir)) == path::components(dir),
{
    let nothing = Seq::<char>::empty();
    assert(path::within(dir, s) =~= front_of(dir) + s);
    lemma_parts_in(dir, nothing);
    path::lemma_split_single(nothing);
    reveal_with_fuel(path::counted, 2);
    assert(seq![nothing].drop_first() =~= Seq::empty());
    assert(path::components(dir) + parts_in(nothing) =~= path::components(dir));
}

proof fn lemma_piece_end_behind(a: Seq<char>, b: Seq<char>, s: Seq<char>, k: int)
    requires
        0 <= k <= s.len(),
    ensures
        path::piece_end(a + s, a.len() + k) - a.len() == path::piece_end(b + s, b.len() + k)
            - b.len(),
        k <= path::piece_end(a + s, a.len() + k) - a.len() <= s.len(),
        k < s.len() && s[k] != '/' ==> k < path::piece_end(a + s, a.len() + k) - a.len(),
    decreases s.len() - k,
{
    if k < s.len() {
        assert((a + s)[a.len() + k] == s[k]);
        assert((b + s)[b.len() + k] == s[k]);
        if s[k] != '/' {
            lemma_piece_end_behind(a, b, s, k + 1);
        }
    }
}

/// What stands behind a directory has its components at the same places, whatever the
/// directory is.
proof fn lemma_spans_behind(a: Seq<char>, b: Seq<char>, s: Seq<char>, k: int)
    requires
        0 <= k,
        a.len() > 0,
        b.len() > 0,
    ensures
        ({
            let x = path::spans_from(a + s, a.len() + k);
            let y = path::spans_from(b + s, b.len() + k);
            &&& x.len() == y.len()
            &&& forall|i: int|
                0 <= i < x.len() ==> (#[trigger] x[i]).0 - a.len() == y[i].0 - b.len() && x[i].1
                    - a.len() == y[i].1 - b.len()
        }),
    decreases s.len() - k,
{
    if k < s.len() {
        assert((a + s)[a.len() + k] == s[k]);
        assert((b + s)[b.len() + k] == s[k]);
        if s[k] == '/' {
            lemma_spans_behind(a, b, s, k + 1);
        } else {
            lemma_piece_end_behind(a, b, s, k);
            let end = path::piece_end(a + s, a.len() + k) - a.len();
            lemma_spans_behind(a, b, s, end);
            assert((a + s).subrange(a.len() + k, a.len() + end) =~= (b + s).subrange(
                b.len() + k,
                b.len() + end,
            ));
        }
    }
}

proof fn lemma_piece_end_in_front(a: Seq<char>, s: Seq<char>, from: int)
    requires
        0 <= from < a.len(),
        a.last() == '/',
    ensures
        path::piece_end(a + s, from) == path::piece_end(a, from),
        from <= path::piece_end(a, from) < a.len(),
        a[from] != '/' ==> from < path::piece_end(a, from),
    decreases a.len() - from,
{
    if a[from] != '/' {
        lemma_piece_end_in_front(a, s, from + 1);
    }
}

/// The components of a directory and of what stands behind it.
proof fn lemma_spans_joined(a: Seq<char>, s: Seq<char>, from: int)
    requires
        0 <= from <= a.len(),
        a.len() > 0,
        a.last() == '/',
    ensures
        path::spans_from(a + s, from) == path::spans_from(a, from) + path::spans_from(
            a + s,
            a.len() as int,
        ),
    decreases a.len() - from,
{
    let behind = path::spans_from(a + s, a.len() as int);
    if from == a.len() {
        assert(path::spans_from(a, from) + behind =~= behind);
    } else if a[from] == '/' {
        lemma_spans_joined(a, s, from + 1);
    } else {
        lemma_piece_end_in_front(a, s, from);
        let end = path::piece_end(a, from);
        lemma_spans_joined(a, s, end);
        assert((a + s).subrange(from, end) =~= a.subrange(from, end));
        assert(path::spans_from(a + s, from) =~= path::spans_from(a, from) + behind);
    }
}

proof fn lemma_spans_in(dir: Seq<char>, s: Seq<char>)
    requires
        dir.len() > 0,
        !path::absolute(s),
    ensures
        path::spans(path::within(dir, s)) == path::spans(front_of(dir)) + path::spans_from(
            front_of(dir) + s,
            front_of(dir).len() as int,
        ),
        path::spans(front_of(dir)).len() == path::components(dir).len(),
        path::spans_from(front_of(dir) + s, front_of(dir).len() as int).len() == parts_in(s).len(),
{
    lemma_front(dir, s);
    lemma_parts_in(dir, s);
    let a = front_of(dir);
    assert((a + s)[0] == a[0]);
    if path::absolute(a) {
        lemma_spans_joined(a, s, 1);
    } else {
        lemma_spans_joined(a, s, 0);
    }
    assert(path::spans(a + s) =~= path::spans(a) + path::spans_from(a + s, a.len() as int));
    assert(path::components(a + s).len() == path::spans(a + s).len());
}

/// From a component of its own on, a path that is moved into a directory reads the same as
/// if it were moved to the root.
pub proof fn lemma_rest_in(dir: Seq<char>, s: Seq<char>, k: int)
    requires
        dir.len() > 0,
        !path::absolute(s),
        0 <= k < parts_in(s).len(),
    ensures
        path::cut_front(path::within(dir, s), path::components(dir).len() + k) == path::cut_front(
            path::within("/"@, s),
            1 + k,
        ),
{
    reveal_strlit("/");
    let root = "/"@;
    lemma_spans_in(dir, s);
    lemma_spans_in(root, s);
    lemma_front(dir, s);
    lemma_front(root, s);
    let a = front_of(dir);
    let b = front_of(root);
    assert(b =~= root);
    lemma_spans_behind(a, b, s, 0);
    assert(path::spans_from(root, 1) =~= Seq::empty());
    assert(path::spans(root).len() == 1);
    assert(path::components(root).len() == 1);
    let x = path::spans_from(a + s, a.len() as int);
    let y = path::spans_from(b + s, b.len() as int);
    let n = path::components(dir).len() as int;
    let all = path::spans(a + s);
    let other = path::spans(b + s);
    assert(all[n + k] == x[k]);
    assert(other[1 + k] == y[k]);
    assert(all.last() == x[x.len() - 1]);
    assert(other.last() == y[y.len() - 1]);
    path::lemma_spans_fit(a + s);
    path::lemma_spans_fit(b + s);
    assert(x[k].0 - a.len() == y[k].0 - b.len());
    assert(x[x.len() - 1].1 - a.len() == y[y.len() - 1].1 - b.len());
    assert(x[k].0 <= x[x.len() - 1].1) by {
        if k < x.len() - 1 {
            assert(all[n + k].1 <= all[n + x.len() - 1].0);
        }
    }
    lemma_spans_start(a, s);
    let from = x[k].0;
    let to = x[x.len() - 1].1;
    assert(from >= a.len());
    assert((a + s).subrange(from, to) =~= (b + s).subrange(y[k].0, y[y.len() - 1].1));
}

/// What stands behind a directory has its components there.
proof fn lemma_spans_start(a: Seq<char>, s: Seq<char>)
    ensures
        forall|i: int|
            0 <= i < path::spans_from(a + s, a.len() as int).len() ==> a.len() <= (
            #[trigger] path::spans_from(a + s, a.len() as int)[i]).0,
{
    path::lemma_spans_from_fit(a + s, a.len() as int);
}

/// Whether none of the paths is absolute.
pub open spec fn all_relative(paths: Seq<Seq<char>>) -> bool {
    forall|i: int| 0 <= i < paths.len() ==> !path::absolute(#[trigger] paths[i])
}

/// What each of the paths adds to the components of a directory.
pub open spec fn keys_in(paths: Seq<Seq<char>>) -> Set<Seq<Seq<char>>> {
    paths.map_values(|s: Seq<char>| parts_in(s)).to_set()
}

/// What the paths add to the components of a directory, each once and in order.
pub open spec fn sorted_in(paths: Seq<Seq<char>>) -> Seq<Seq<Seq<char>>> {
    order::ascending(keys_in(paths), listing::path_order())
}

/// The paths that add the given components, in the order in which they stand.
pub open spec fn with_parts_in(paths: Seq<Seq<char>>, parts: Seq<Seq<char>>) -> Seq<Seq<char>>
    decreases paths.len(),
{
    if paths.len() == 0 {
        Seq::empty()
    } else if parts_in(paths.last()) == parts {
        with_parts_in(paths.drop_last(), parts).push(paths.last())
    } else {
        with_parts_in(paths.drop_last(), parts)
    }
}

/// The paths in order, each once, as they are listed wherever they are moved.
pub open spec fn distinct_in(paths: Seq<Seq<char>>) -> Seq<Seq<char>> {
    sorted_in(paths).map_values(|parts: Seq<Seq<char>>| with_parts_in(paths, parts)[0])
}

/// All but the first of those that are the same wherever they are moved.
pub open spec fn repeats_of_in(paths: Seq<Seq<char>>) -> spec_fn(Seq<Seq<char>>) -> Seq<
    Seq<char>,
> {
    |parts: Seq<Seq<char>>| with_parts_in(paths, parts).drop_first()
}

/// The paths that are repeated, as they are listed wherever they are moved.
pub open spec fn repeats_in(paths: Seq<Seq<char>>) -> Seq<Seq<char>> {
    order::gather(sorted_in(paths), repeats_of_in(paths))
}

/// A common front does not change the order of paths.
proof fn lemma_same_front(
    front: Seq<Seq<char>>,
    a: Seq<Seq<char>>,
    b: Seq<Seq<char>>,
)
    ensures
        listing::parts_less(front + a, front + b) == listing::parts_less(a, b),
        front + a == front + b <==> a == b,
    decreases front.len(),
{
    assert((front + a).skip(front.len() as int) =~= a);
    assert((front + b).skip(front.len() as int) =~= b);
    if front.len() == 0 {
        assert(front + a =~= a);
        assert(front + b =~= b);
    } else {
        lemma_same_front(front.drop_first(), a, b);
        assert((front + a).drop_first() =~= front.drop_first() + a);
        assert((front + b).drop_first() =~= front.drop_first() + b);
    }
}

proof fn lemma_with_parts_in(dir: Seq<char>, paths: Seq<Seq<char>>, parts: Seq<Seq<char>>)
    requires
        dir.len() > 0,
        all_relative(paths),
    ensures
        listing::with_parts(mode::all_within(dir, paths), path::components(dir) + parts)
            == mode::all_within(dir, with_parts_in(paths, parts)),
    decreases paths.len(),
{
    let moved = mode::all_within(dir, paths);
    if paths.len() > 0 {
        let shorter = paths.drop_last();
        assert(!path::absolute(paths[paths.len() - 1]));
        assert forall|i: int| 0 <= i < shorter.len() implies !path::absolute(
            #[trigger] shorter[i],
        ) by {
            assert(shorter[i] == paths[i]);
        }
        lemma_with_parts_in(dir, shorter, parts);
        lemma_parts_in(dir, paths.last());
        lemma_same_front(path::components(dir), parts_in(paths.last()), parts);
        assert(moved.drop_last() =~= mode::all_within(dir, shorter));
    }
    assert(listing::with_parts(moved, path::components(dir) + parts) =~= mode::all_within(
        dir,
        with_parts_in(paths, parts),
    ));
}

/// Each of the listed components is added by some path.
proof fn lemma_with_parts_found(paths: Seq<Seq<char>>, parts: Seq<Seq<char>>)
    ensures
        keys_in(paths).contains(parts) ==> with_parts_in(paths, parts).len() > 0,
        forall|i: int|
            0 <= i < with_parts_in(paths, parts).len() ==> parts_in(
                #[trigger] with_parts_in(paths, parts)[i],
            ) == parts && paths.contains(with_parts_in(paths, parts)[i]),
    decreases paths.len(),
{
    if paths.len() > 0 {
        let shorter = paths.drop_last();
        let f = |s: Seq<char>| parts_in(s);
        lemma_with_parts_found(shorter, parts);
        assert(paths.map_values(f) =~= shorter.map_values(f).push(parts_in(paths.last())));
        order::lemma_set_push(shorter.map_values(f), parts_in(paths.last()));
        let before = with_parts_in(shorter, parts);
        let found = with_parts_in(paths, parts);
        assert forall|i: int| 0 <= i < found.len() implies parts_in(#[trigger] found[i]) == parts
            && paths.contains(found[i]) by {
            if i < before.len() {
                assert(found[i] == before[i]);
                let j = choose|j: int| 0 <= j < shorter.len() && shorter[j] == before[i];
                assert(paths[j] == found[i]);
            } else {
                assert(paths[paths.len() - 1] == found[i]);
            }
        }
    }
}

/// The sorted components of paths that are moved into a directory.
proof fn lemma_sorted_in(dir: Seq<char>, paths: Seq<Seq<char>>)
    requires
        dir.len() > 0,
        all_relative(paths),
    ensures
        listing::sorted_keys(mode::all_within(dir, paths)) == sorted_in(paths).map_values(
            |parts: Seq<Seq<char>>| path::components(dir) + parts,
        ),
        sorted_in(paths).to_set() == keys_in(paths),
{
    let front = path::components(dir);
    let put = |parts: Seq<Seq<char>>| front + parts;
    let f = |s: Seq<char>| parts_in(s);
    let g = |s: Seq<char>| path::components(s);
    let moved = mode::all_within(dir, paths);
    let sorted = sorted_in(paths);
    let rows = sorted.map_values(put);
    let less = listing::path_order();
    listing::lemma_path_order_total();
    order::lemma_ascending(keys_in(paths), less);
    assert forall|i: int, j: int| 0 <= i < j < rows.len() implies less(
        #[trigger] rows[i],
        #[trigger] rows[j],
    ) by {
        assert(less(sorted[i], sorted[j]));
        lemma_same_front(front, sorted[i], sorted[j]);
    }
    assert forall|k: Seq<Seq<char>>| #[trigger] rows.to_set().contains(k) == listing::keys(
        moved,
    ).contains(k) by {
        if rows.contains(k) {
            let i = choose|i: int| 0 <= i < rows.len() && rows[i] == k;
            assert(sorted.to_set().contains(sorted[i]));
            let j = choose|j: int| 0 <= j < paths.len() && paths.map_values(f)[j] == sorted[i];
            lemma_parts_in(dir, paths[j]);
            assert(moved.map_values(g)[j] == k);
        }
        if listing::keys(moved).contains(k) {
            let j = choose|j: int| 0 <= j < moved.len() && moved.map_values(g)[j] == k;
            lemma_parts_in(dir, paths[j]);
            assert(paths.map_values(f)[j] == parts_in(paths[j]));
            assert(keys_in(paths).contains(parts_in(paths[j])));
            assert(sorted.to_set().contains(parts_in(paths[j])));
            let i = choose|i: int| 0 <= i < sorted.len() && sorted[i] == parts_in(paths[j]);
            assert(rows[i] == k);
        }
    }
    assert(rows.to_set() =~= listing::keys(moved));
    order::lemma_ascending_is(rows, listing::keys(moved), less);
}

/// Paths are listed in the same order wherever they are moved.
pub proof fn lemma_distinct_in(dir: Seq<char>, paths: Seq<Seq<char>>)
    requires
        dir.len() > 0,
        all_relative(paths),
    ensures
        listing::distinct(mode::all_within(dir, paths)) == mode::all_within(
            dir,
            distinct_in(paths),
        ),
        forall|i: int|
            0 <= i < distinct_in(paths).len() ==> paths.contains(#[trigger] distinct_in(paths)[i]),
        keys_in(distinct_in(paths)) == keys_in(paths),
{
    let front = path::components(dir);
    let sorted = sorted_in(paths);
    let moved = mode::all_within(dir, paths);
    let list = distinct_in(paths);
    let f = |s: Seq<char>| parts_in(s);
    lemma_sorted_in(dir, paths);
    assert forall|i: int| 0 <= i < sorted.len() implies {
        &&& paths.contains(#[trigger] list[i])
        &&& parts_in(list[i]) == sorted[i]
        &&& listing::distinct(moved)[i] == path::within(dir, list[i])
    } by {
        assert(sorted.to_set().contains(sorted[i]));
        lemma_with_parts_found(paths, sorted[i]);
        lemma_with_parts_in(dir, paths, sorted[i]);
        assert(with_parts_in(paths, sorted[i])[0] == list[i]);
        assert(listing::sorted_keys(moved)[i] == front + sorted[i]);
    }
    assert(listing::distinct(moved) =~= mode::all_within(dir, list));
    assert(list.map_values(f) =~= sorted);
}

/// The same paths are repeated wherever they are moved.
pub proof fn lemma_repeats_in(dir: Seq<char>, paths: Seq<Seq<char>>)
    requires
        dir.len() > 0,
        all_relative(paths),
    ensures
        listing::repeats(mode::all_within(dir, paths)) == mode::all_within(
            dir,
            repeats_in(paths),
        ),
        forall|i: int|
            0 <= i < repeats_in(paths).len() ==> paths.contains(#[trigger] repeats_in(paths)[i]),
{
    let sorted = sorted_in(paths);
    lemma_sorted_in(dir, paths);
    assert forall|i: int| 0 <= i < sorted.len() implies keys_in(paths).contains(
        #[trigger] sorted[i],
    ) by {
        assert(sorted.to_set().contains(sorted[i]));
    }
    lemma_gather_in(dir, paths, sorted);
}

proof fn lemma_gather_in(dir: Seq<char>, paths: Seq<Seq<char>>, rows: Seq<Seq<Seq<char>>>)
    requires
        dir.len() > 0,
        all_relative(paths),
        forall|i: int| 0 <= i < rows.len() ==> keys_in(paths).contains(#[trigger] rows[i]),
    ensures
        order::gather(
            rows.map_values(|parts: Seq<Seq<char>>| path::components(dir) + parts),
            listing::repeats_of(mode::all_within(dir, paths)),
        ) == mode::all_within(dir, order::gather(rows, repeats_of_in(paths))),
        forall|i: int|
            0 <= i < order::gather(rows, repeats_of_in(paths)).len() ==> paths.contains(
                #[trigger] order::gather(rows, repeats_of_in(paths))[i],
            ),
    decreases rows.len(),
{
    let put = |parts: Seq<Seq<char>>| path::components(dir) + parts;
    let f = listing::repeats_of(mode::all_within(dir, paths));
    let found = order::gather(rows, repeats_of_in(paths));
    if rows.len() > 0 {
        let shorter = rows.drop_last();
        let last = rows.last();
        assert forall|i: int| 0 <= i < shorter.len() implies keys_in(paths).contains(
            #[trigger] shorter[i],
        ) by {
            assert(shorter[i] == rows[i]);
        }
        assert(keys_in(paths).contains(rows[rows.len() - 1]));
        lemma_gather_in(dir, paths, shorter);
        lemma_with_parts_in(dir, paths, last);
        lemma_with_parts_found(paths, last);
        assert(rows.map_values(put).drop_last() =~= shorter.map_values(put));
        assert(rows.map_values(put).last() == put(last));
        let more = with_parts_in(paths, last);
        assert(f(put(last)) =~= mode::all_within(dir, more).drop_first());
        assert(mode::all_within(dir, more).drop_first() =~= mode::all_within(
            dir,
            more.drop_first(),
        ));
        let before = order::gather(shorter, repeats_of_in(paths));
        assert forall|i: int| 0 <= i < found.len() implies paths.contains(#[trigger] found[i]) by {
            if i < before.len() {
                assert(found[i] == before[i]);
            } else {
                assert(found[i] == more.drop_first()[i - before.len()]);
                assert(found[i] == more[i - before.len() + 1]);
            }
        }
    }
    assert(order::gather(rows.map_values(put), f) =~= mode::all_within(dir, found));
}

/// Whether a path names something inside the directory that it is moved into.
pub open spec fn named(s: Seq<char>) -> bool {
    !path::absolute(s) && parts_in(s).len() > 0
}

/// Whether each of the paths names something.
pub open spec fn all_named(paths: Seq<Seq<char>>) -> bool {
    forall|i: int| 0 <= i < paths.len() ==> named(#[trigger] paths[i])
}

/// How many directories inside the one that they are moved into all the paths lie in.
pub open spec fn shared_in(paths: Seq<Seq<char>>) -> int
    decreases paths.len(),
{
    if paths.len() <= 1 {
        parts_in(paths[0]).len() - 1
    } else {
        let n = path::shared_len(
            parts_in(paths[0]).drop_last(),
            parts_in(paths.last()).drop_last(),
        );
        let m = shared_in(paths.drop_last());
        if n < m {
            n
        } else {
            m
        }
    }
}

/// A path that is moved into a directory, as seen from `k` directories further in.
pub open spec fn name_in(s: Seq<char>, k: int) -> Seq<char> {
    path::with_slashes(path::cut_front(path::within("/"@, s), 1 + k))
}

proof fn lemma_some_part(dir: Seq<char>)
    requires
        dir.len() > 0,
    ensures
        path::components(dir).len() > 0,
{
    assert(path::spans(dir).len() > 0);
}

/// What is named inside a directory has a parent there.
proof fn lemma_parent_in(dir: Seq<char>, s: Seq<char>)
    requires
        dir.len() > 0,
        named(s),
    ensures
        path::parent(path::within(dir, s)) matches Some(up) && path::components(up)
            == path::components(dir) + parts_in(s).drop_last(),
{
    let file = path::within(dir, s);
    let all = path::components(file);
    lemma_parts_in(dir, s);
    lemma_some_part(dir);
    path::lemma_components_proper(file);
    assert(all.last() == all[all.len() - 1]);
    assert(all.last() != "/"@);
    path::law_cut_takes_components(file, all.len() - 1);
    assert(all.take(all.len() - 1) =~= path::components(dir) + parts_in(s).drop_last());
    assert(path::spans(file).len() == all.len());
}

proof fn lemma_parents_in(dir: Seq<char>, paths: Seq<Seq<char>>)
    requires
        dir.len() > 0,
        all_named(paths),
    ensures
        ({
            let dirs = path::parents(mode::all_within(dir, paths));
            &&& dirs.len() == paths.len()
            &&& forall|i: int|
                0 <= i < paths.len() ==> path::components(#[trigger] dirs[i]) == path::components(
                    dir,
                ) + parts_in(paths[i]).drop_last()
        }),
    decreases paths.len(),
{
    let files = mode::all_within(dir, paths);
    if paths.len() > 0 {
        let shorter = paths.drop_last();
        assert forall|i: int| 0 <= i < shorter.len() implies named(#[trigger] shorter[i]) by {
            assert(shorter[i] == paths[i]);
        }
        assert(named(paths[paths.len() - 1]));
        lemma_parents_in(dir, shorter);
        lemma_parent_in(dir, paths.last());
        assert(files.drop_last() =~= mode::all_within(dir, shorter));
        let dirs = path::parents(files);
        let before = path::parents(files.drop_last());
        assert forall|i: int| 0 <= i < paths.len() implies path::components(#[trigger] dirs[i])
            == path::components(dir) + parts_in(paths[i]).drop_last() by {
            if i < shorter.len() {
                assert(dirs[i] == before[i]);
                assert(shorter[i] == paths[i]);
            }
        }
    }
}

proof fn lemma_shared_behind(front: Seq<Seq<char>>, a: Seq<Seq<char>>, b: Seq<Seq<char>>)
    ensures
        path::shared_len(front + a, front + b) == front.len() + path::shared_len(a, b),
    decreases front.len(),
{
    if front.len() == 0 {
        assert(front + a =~= a);
        assert(front + b =~= b);
    } else {
        lemma_shared_behind(front.drop_first(), a, b);
        assert((front + a).drop_first() =~= front.drop_first() + a);
        assert((front + b).drop_first() =~= front.drop_first() + b);
    }
}

proof fn lemma_shared_in(front: Seq<Seq<char>>, dirs: Seq<Seq<char>>, paths: Seq<Seq<char>>)
    requires
        paths.len() > 0,
        dirs.len() == paths.len(),
        all_named(paths),
        forall|i: int|
            0 <= i < paths.len() ==> path::components(#[trigger] dirs[i]) == front + parts_in(
                paths[i],
            ).drop_last(),
    ensures
        path::shared_by_all(dirs) == front.len() + shared_in(paths),
    decreases paths.len(),
{
    assert(path::components(dirs[0]) == front + parts_in(paths[0]).drop_last());
    assert(named(paths[0]));
    if paths.len() > 1 {
        let fewer = dirs.drop_last();
        let shorter = paths.drop_last();
        assert forall|i: int| 0 <= i < shorter.len() implies named(#[trigger] shorter[i]) by {
            assert(shorter[i] == paths[i]);
        }
        assert forall|i: int| 0 <= i < shorter.len() implies path::components(#[trigger] fewer[i])
            == front + parts_in(shorter[i]).drop_last() by {
            assert(fewer[i] == dirs[i]);
        }
        lemma_shared_in(front, fewer, shorter);
        assert(path::components(dirs[dirs.len() - 1]) == front + parts_in(
            paths[paths.len() - 1],
        ).drop_last());
        lemma_shared_behind(
            front,
            parts_in(paths[0]).drop_last(),
            parts_in(paths.last()).drop_last(),
        );
    }
}

proof fn lemma_prefix_is_shared(a: Seq<Seq<char>>, b: Seq<Seq<char>>)
    requires
        b.is_prefix_of(a),
    ensures
        path::shared_len(a, b) == b.len(),
    decreases b.len(),
{
    if b.len() > 0 {
        assert(a[0] == b[0]);
        assert(b.drop_first() =~= a.drop_first().take(b.len() - 1));
        lemma_prefix_is_shared(a.drop_first(), b.drop_first());
    }
}

/// A file among others is seen from their common root in the same way, wherever they are
/// moved.
pub proof fn lemma_name_in(dir: Seq<char>, paths: Seq<Seq<char>>, i: int, s: Seq<char>)
    requires
        dir.len() > 0,
        all_named(paths),
        0 <= i < paths.len(),
        !path::absolute(s),
        parts_in(s) == parts_in(paths[i]),
    ensures
        path::relative_to(path::within(dir, s), path::common_root(mode::all_within(dir, paths)))
            == name_in(s, shared_in(paths)),
{
    let front = path::components(dir);
    let files = mode::all_within(dir, paths);
    let dirs = path::parents(files);
    let root = path::common_root(files);
    lemma_parents_in(dir, paths);
    lemma_shared_in(front, dirs, paths);
    path::lemma_shared_by_all(dirs);
    let k = path::shared_by_all(dirs);
    path::law_cut_takes_components(dirs[0], k);
    assert(path::components(root).len() == k);
    assert(named(paths[i]));
    lemma_parent_in(dir, paths[i]);
    path::law_files_lie_under_common_root(files, i);
    lemma_parts_in(dir, s);
    lemma_parts_in(dir, paths[i]);
    lemma_prefix_is_shared(path::components(path::within(dir, s)), path::components(root));
    assert(path::components(dirs[i]).len() >= k);
    lemma_shared_nonnegative(paths);
    lemma_rest_in(dir, s, shared_in(paths));
}

proof fn lemma_shared_nonnegative(paths: Seq<Seq<char>>)
    requires
        paths.len() > 0,
        all_named(paths),
    ensures
        0 <= shared_in(paths),
    decreases paths.len(),
{
    assert(named(paths[0]));
    if paths.len() > 1 {
        let shorter = paths.drop_last();
        assert forall|i: int| 0 <= i < shorter.len() implies named(#[trigger] shorter[i]) by {
            assert(shorter[i] == paths[i]);
        }
        lemma_shared_nonnegative(shorter);
        path::lemma_shared_nonnegative(
            parts_in(paths[0]).drop_last(),
            parts_in(paths.last()).drop_last(),
        );
    }
}

/// A directory without its closing slash.
spec fn bare(dir: Seq<char>) -> Seq<char> {
    front_of(dir).drop_last()
}

/// The pieces of a path that is moved into a directory.
proof fn lemma_pieces_in(dir: Seq<char>, s: Seq<char>)
    requires
        dir.len() > 0,
    ensures
        text::split(front_of(dir) + s, '/') == text::split(bare(dir), '/') + text::split(s, '/'),
{
    assert(front_of(dir) =~= bare(dir).push('/'));
    path::lemma_split_joined(bare(dir), s);
}

proof fn lemma_plain_dir(dir: Seq<char>)
    requires
        dir.len() > 0,
        !glob::has_operator(dir),
    ensures
        forall|i: int|
            0 <= i < text::split(bare(dir), '/').len() ==> !glob::has_operator(
                #[trigger] text::split(bare(dir), '/')[i],
            ),
{
    let a = bare(dir);
    assert forall|c: char| a.contains(c) && c != '/' implies dir.contains(c) by {
        let i = choose|i: int| 0 <= i < a.len() && a[i] == c;
        assert(dir[i] == c);
    }
    glob::lemma_pieces_plain(a);
}

/// A character other than a slash is in some piece, and a piece has only characters of the
/// text.
proof fn lemma_piece_with(s: Seq<char>, c: char)
    requires
        c != '/',
    ensures
        s.contains(c) <==> exists|i: int|
            0 <= i < text::split(s, '/').len() && (#[trigger] text::split(s, '/')[i]).contains(c),
    decreases s.len(),
{
    let pieces = text::split(s, '/');
    text::lemma_position(s, text::is_char('/'));
    match text::find(s, '/') {
        None => {
            assert(pieces[0] == s);
        },
        Some(at) => {
            let rest = s.skip(at + 1);
            let later = text::split(rest, '/');
            lemma_piece_with(rest, c);
            assert(pieces[0] == s.take(at));
            assert forall|i: int| 0 <= i < later.len() implies #[trigger] later[i] == pieces[i
                + 1] by {}
            if s.contains(c) {
                let j = choose|j: int| 0 <= j < s.len() && s[j] == c;
                if j < at {
                    assert(s.take(at)[j] == c);
                    assert(pieces[0].contains(c));
                } else {
                    assert(rest[j - at - 1] == c);
                    let i = choose|i: int| 0 <= i < later.len() && (#[trigger] later[i]).contains(c);
                    assert(pieces[i + 1].contains(c));
                }
            }
            if exists|i: int| 0 <= i < pieces.len() && (#[trigger] pieces[i]).contains(c) {
                let i = choose|i: int| 0 <= i < pieces.len() && (#[trigger] pieces[i]).contains(c);
                if i == 0 {
                    let j = choose|j: int| 0 <= j < at && s.take(at)[j] == c;
                    assert(s[j] == c);
                } else {
                    assert(later[i - 1].contains(c));
                    let j = choose|j: int| 0 <= j < rest.len() && rest[j] == c;
                    assert(s[j + at + 1] == c);
                }
            }
        },
    }
}

proof fn lemma_no_backslash(s: Seq<char>)
    ensures
        !path::with_slashes(s).contains('\\'),
        !s.contains('\\') ==> path::with_slashes(s) == s,
{
    if !s.contains('\\') {
        assert forall|i: int| 0 <= i < s.len() implies s[i] != '\\' by {
            assert(s.contains(s[i]));
        }
        assert(path::with_slashes(s) =~= s);
    }
}

/// A pattern in a directory without operators sees the whole path of a file, and has the
/// directory in its plain front.
pub proof fn lemma_seen_in(dir: Seq<char>, pattern: Seq<char>, file: Seq<char>)
    requires
        dir.len() > 0,
        !glob::has_operator(dir),
        !path::absolute(pattern),
    ensures
        glob::seen_by(path::within(dir, pattern), file) == path::with_slashes(file),
        glob::plain_front(path::components(path::within(dir, pattern))) == path::components(dir)
            + glob::plain_front(parts_in(pattern)),
        glob::has_operator(path::within(dir, pattern)) == glob::has_operator(pattern),
{
    lemma_parts_in(dir, pattern);
    lemma_front(dir, pattern);
    lemma_some_part(dir);
    let parts = path::components(dir);
    path::lemma_spans_fit(dir);
    assert forall|i: int| 0 <= i < parts.len() implies !glob::has_operator(#[trigger] parts[i]) by {
        let span = path::spans(dir)[i];
        assert(parts[i] == dir.subrange(span.0, span.1));
        assert forall|c: char| parts[i].contains(c) implies dir.contains(c) by {
            let j = choose|j: int| 0 <= j < parts[i].len() && parts[i][j] == c;
            assert(dir[j + span.0] == c);
        }
    }
    lemma_plain_front_behind(parts, parts_in(pattern));
    let both = front_of(dir) + pattern;
    assert forall|c: char| c != '/' implies both.contains(c) == (dir.contains(c)
        || pattern.contains(c)) by {
        if both.contains(c) {
            let j = choose|j: int| 0 <= j < both.len() && both[j] == c;
            if j < front_of(dir).len() {
                assert(j < dir.len() && dir[j] == c);
            } else {
                assert(pattern[j - front_of(dir).len()] == c);
            }
        }
        if dir.contains(c) {
            let j = choose|j: int| 0 <= j < dir.len() && dir[j] == c;
            assert(both[j] == c);
        }
        if pattern.contains(c) {
            let j = choose|j: int| 0 <= j < pattern.len() && pattern[j] == c;
            assert(both[j + front_of(dir).len()] == c);
        }
    }
}

proof fn lemma_plain_front_behind(plain: Seq<Seq<char>>, parts: Seq<Seq<char>>)
    requires
        forall|i: int| 0 <= i < plain.len() ==> !glob::has_operator(#[trigger] plain[i]),
    ensures
        glob::plain_front(plain + parts) == plain + glob::plain_front(parts),
    decreases plain.len(),
{
    if plain.len() == 0 {
        assert(plain + parts =~= parts);
        assert(plain + glob::plain_front(parts) =~= glob::plain_front(parts));
    } else {
        let rest = plain.drop_first();
        assert forall|i: int| 0 <= i < rest.len() implies !glob::has_operator(
            #[trigger] rest[i],
        ) by {
            assert(rest[i] == plain[i + 1]);
        }
        lemma_plain_front_behind(rest, parts);
        assert((plain + parts).drop_first() =~= rest + parts);
        assert(glob::plain_front(plain + parts) =~= plain + glob::plain_front(parts));
    }
}

/// A pattern that is moved into a directory selects something only if the directory has no
/// backslash in its name, and then what starts with the pieces of the directory.
proof fn lemma_selects_behind(dir: Seq<char>, pattern: Seq<char>, file: Seq<char>)
    requires
        dir.len() > 0,
        !glob::has_operator(dir),
        !path::absolute(pattern),
    ensures
        ({
            let plain = text::split(bare(dir), '/');
            let pieces = text::split(path::with_slashes(file), '/');
            glob::selects(path::within(dir, pattern), file) <==> plain.is_prefix_of(pieces)
                && glob::pieces_match(
                text::split(pattern, '/'),
                pieces.skip(plain.len() as int),
            )
        }),
        glob::selects(path::within(dir, pattern), file) ==> !front_of(dir).contains('\\'),
{
    let plain = text::split(bare(dir), '/');
    let pieces = text::split(path::with_slashes(file), '/');
    lemma_seen_in(dir, pattern, file);
    lemma_front(dir, pattern);
    lemma_pieces_in(dir, pattern);
    lemma_plain_dir(dir);
    glob::lemma_plain_start(plain, text::split(pattern, '/'), pieces);
    if plain.is_prefix_of(pieces) && front_of(dir).contains('\\') {
        let a = bare(dir);
        let j = choose|j: int| 0 <= j < front_of(dir).len() && front_of(dir)[j] == '\\';
        assert(a[j] == '\\');
        lemma_piece_with(a, '\\');
        let i = choose|i: int| 0 <= i < plain.len() && (#[trigger] plain[i]).contains('\\');
        assert(pieces[i] == plain[i]);
        lemma_piece_with(path::with_slashes(file), '\\');
        lemma_no_backslash(file);
    }
}

/// What a pattern selects inside a directory does not depend on the directory.
pub proof fn lemma_selects_in(dir: Seq<char>, pattern: Seq<char>, s: Seq<char>)
    requires
        dir.len() > 0,
        !glob::has_operator(dir),
        !path::absolute(pattern),
        !path::absolute(s),
    ensures
        glob::selects(path::within(dir, pattern), path::within(dir, s)) <==> !front_of(
            dir,
        ).contains('\\') && glob::fits(pattern, path::with_slashes(s)),
{
    let file = path::within(dir, s);
    lemma_front(dir, s);
    lemma_selects_behind(dir, pattern, file);
    if !front_of(dir).contains('\\') {
        lemma_no_backslash(front_of(dir));
        assert(path::with_slashes(file) =~= front_of(dir) + path::with_slashes(s));
        lemma_pieces_in(dir, path::with_slashes(s));
        let plain = text::split(bare(dir), '/');
        let pieces = text::split(path::with_slashes(file), '/');
        assert(plain =~= pieces.take(plain.len() as int));
        assert(pieces.skip(plain.len() as int) =~= text::split(path::with_slashes(s), '/'));
    }
}

/// Where a source is looked for inside the directory that it is moved into.
pub open spec fn place_in(source: Seq<char>) -> Seq<char> {
    if glob::has_operator(source) {
        path::render(glob::plain_front(parts_in(source)))
    } else {
        source
    }
}

/// The pieces of a path that is made up of parts.
proof fn lemma_rendered_pieces(parts: Seq<Seq<char>>)
    requires
        path::proper(parts),
        parts.len() > 0,
        parts != seq!["/"@],
    ensures
        text::split(path::render(parts), '/') == if parts[0] == "/"@ {
            seq![Seq::<char>::empty()] + parts.drop_first()
        } else {
            parts
        },
    decreases parts.len(),
{
    reveal_strlit("/");
    let nothing = Seq::<char>::empty();
    let before = parts.drop_last();
    let last = parts.last();
    assert(parts[parts.len() - 1] == last);
    assert forall|i: int| 0 <= i < before.len() implies before[i] == #[trigger] parts[i] by {}
    if parts.len() == 1 {
        assert(path::render(before) =~= nothing);
        if last == "/"@ {
            assert(parts =~= seq!["/"@]);
        }
        assert(last.contains(last[0]));
        assert(path::render(parts) =~= last);
        path::lemma_split_single(last);
        assert(parts =~= seq![last]);
    } else {
        assert(last != "/"@);
        assert(last.contains(last[0]));
        path::lemma_split_single(last);
        path::law_render_keeps_components(before);
        let up = path::render(before);
        if before == seq!["/"@] {
            assert(path::render(before.drop_last()) =~= nothing);
            assert(up =~= "/"@);
            assert(path::render(parts) =~= nothing.push('/') + last);
            path::lemma_split_joined(nothing, last);
            path::lemma_split_single(nothing);
            assert(parts.drop_first() =~= seq![last]);
        } else {
            lemma_rendered_pieces(before);
            if up == "/"@ {
                assert(text::split(up, '/')[0].len() == 0) by {
                    path::law_components_are_pieces(up);
                }
                assert(path::components("/"@) =~= seq!["/"@]) by {
                    assert(path::spans_from("/"@, 1) =~= Seq::empty());
                    assert("/"@.subrange(0, 1) =~= "/"@);
                }
                assert(before == seq!["/"@]);
            }
            assert(path::render(parts) == up.push('/') + last);
            path::lemma_split_joined(up, last);
            if parts[0] == "/"@ {
                assert(parts.drop_first() =~= before.drop_first().push(last));
                assert(text::split(path::render(parts), '/') =~= seq![nothing]
                    + parts.drop_first());
            } else {
                assert(parts =~= before.push(last));
            }
        }
    }
}

/// Pieces that all count are the components.
proof fn lemma_all_count(pieces: Seq<Seq<char>>, first: bool)
    requires
        forall|i: int|
            0 <= i < pieces.len() ==> (#[trigger] pieces[i]).len() > 0 && (pieces[i] == "."@ ==> i
                == 0 && first),
    ensures
        path::counted(pieces, first) == pieces,
    decreases pieces.len(),
{
    if pieces.len() > 0 {
        let rest = pieces.drop_first();
        assert forall|i: int| 0 <= i < rest.len() implies (#[trigger] rest[i]).len() > 0 && rest[i]
            != "."@ by {
            assert(rest[i] == pieces[i + 1]);
        }
        lemma_all_count(rest, false);
        assert(pieces[0].len() > 0);
        assert(path::counted(pieces, first) =~= pieces);
    } else {
        assert(path::counted(pieces, first) =~= pieces);
    }
}

/// A path made up of parts has the characters of its parts.
proof fn lemma_rendered_char(parts: Seq<Seq<char>>, c: char)
    requires
        c != '/',
        path::render(parts).contains(c),
    ensures
        exists|i: int| 0 <= i < parts.len() && (#[trigger] parts[i]).contains(c),
    decreases parts.len(),
{
    if parts.len() > 0 {
        let before = parts.drop_last();
        let last = parts.last();
        let s = path::render(parts);
        let up = path::render(before);
        let j = choose|j: int| 0 <= j < s.len() && s[j] == c;
        if last.contains(c) {
            assert(parts[parts.len() - 1].contains(c));
        } else {
            assert(up.contains(c)) by {
                if path::absolute(last) {
                    assert(last[j] == c);
                } else if j < up.len() {
                    assert(up[j] == c);
                } else {
                    assert(last[j - (s.len() - last.len())] == c);
                }
            }
            lemma_rendered_char(before, c);
            let i = choose|i: int| 0 <= i < before.len() && (#[trigger] before[i]).contains(c);
            assert(parts[i].contains(c));
        }
    }
}

/// The front of a proper row of parts is proper.
proof fn lemma_proper_front(parts: Seq<Seq<char>>, front: Seq<Seq<char>>)
    requires
        path::proper(parts),
        front.is_prefix_of(parts),
    ensures
        path::proper(front),
{
    assert forall|i: int| 0 <= i < front.len() implies front[i] == #[trigger] parts[i] by {}
}

/// A base that its own pattern selects has no backslash in it.
proof fn lemma_base_is_plain(pattern: Seq<char>)
    requires
        glob::plain_front(path::components(pattern)).len() > 0,
        glob::fits(pattern, path::with_slashes(glob::base(pattern))),
    ensures
        path::with_slashes(glob::base(pattern)) == glob::base(pattern),
{
    let front = glob::plain_front(path::components(pattern));
    let base = glob::base(pattern);
    let seen = path::with_slashes(base);
    path::lemma_components_proper(pattern);
    glob::lemma_plain_front(path::components(pattern));
    lemma_proper_front(path::components(pattern), front);
    path::law_render_keeps_components(front);
    glob::law_base_holds_what_fits(pattern, seen);
    lemma_no_backslash(base);
    if base.contains('\\') {
        lemma_rendered_char(front, '\\');
        let i = choose|i: int| 0 <= i < front.len() && (#[trigger] front[i]).contains('\\');
        let parts = path::components(seen);
        assert(parts[i] == front[i]);
        path::lemma_spans_fit(seen);
        let span = path::spans(seen)[i];
        assert(parts[i] == seen.subrange(span.0, span.1));
        let j = choose|j: int| 0 <= j < parts[i].len() && parts[i][j] == '\\';
        assert(seen[j + span.0] == '\\');
    }
}

/// A file at the base of a pattern that selects it lies inside the directory that the
/// pattern is moved into.
pub proof fn lemma_base_in(dir: Seq<char>, pattern: Seq<char>)
    requires
        dir.len() > 0,
        !glob::has_operator(dir),
        !path::absolute(pattern),
        glob::plain_front(parts_in(pattern)).len() > 0,
        glob::selects(path::within(dir, pattern), glob::base(path::within(dir, pattern))),
    ensures
        glob::base(path::within(dir, pattern)) == path::within(
            dir,
            path::render(glob::plain_front(parts_in(pattern))),
        ),
{
    reveal_strlit("/");
    let whole = path::within(dir, pattern);
    let base = glob::base(whole);
    let parts = glob::plain_front(path::components(whole));
    let inner = glob::plain_front(parts_in(pattern));
    let front = path::components(dir);
    let plain = text::split(bare(dir), '/');
    lemma_seen_in(dir, pattern, base);
    lemma_some_part(dir);
    lemma_selects_behind(dir, pattern, base);
    lemma_base_is_plain(whole);
    path::lemma_components_proper(whole);
    glob::lemma_plain_front(path::components(whole));
    lemma_proper_front(path::components(whole), parts);
    path::law_render_keeps_components(parts);
    assert(parts == front + inner);
    assert forall|i: int| 0 <= i < inner.len() implies #[trigger] inner[i] == parts[front.len()
        + i] by {}
    assert(path::proper(inner)) by {
        assert forall|i: int| 0 <= i < inner.len() implies {
            &&& (#[trigger] inner[i]).len() > 0
            &&& inner[i] != "/"@
            &&& inner[i] != "."@
            &&& !inner[i].contains('/')
        } by {
            assert(parts[front.len() + i].len() > 0);
        }
    }
    assert(inner[0] == parts[front.len() as int]);
    assert(parts.len() >= 2);
    lemma_rendered_pieces(parts);
    assert(inner != seq!["/"@]) by {
        assert(inner[0] != "/"@);
    }
    lemma_rendered_pieces(inner);
    let pieces = text::split(base, '/');
    assert(parts[0] == front[0]);
    lemma_front_counts(dir, plain, pieces);
    assert(pieces.skip(plain.len() as int) =~= inner);
    path::law_render_keeps_components(inner);
    let place = path::render(inner);
    lemma_pieces_in(dir, place);
    assert(pieces =~= plain + inner);
    glob::lemma_split_once(base, front_of(dir) + place);
    lemma_front(dir, place);
}

/// A directory whose pieces all count has as many pieces as components.
proof fn lemma_front_counts(dir: Seq<char>, plain: Seq<Seq<char>>, pieces: Seq<Seq<char>>)
    requires
        dir.len() > 0,
        plain == text::split(bare(dir), '/'),
        plain.is_prefix_of(pieces),
        forall|i: int| 0 < i < pieces.len() ==> (#[trigger] pieces[i]).len() > 0 && pieces[i]
            != "."@,
    ensures
        plain.len() == path::components(dir).len(),
{
    let nothing = Seq::<char>::empty();
    let head = front_of(dir);
    lemma_front(dir, nothing);
    lemma_pieces_in(dir, nothing);
    assert(head + nothing =~= head);
    path::lemma_split_single(nothing);
    assert(text::split(head, '/') =~= plain + seq![nothing]);
    path::law_components_are_pieces(head);
    assert forall|i: int| 0 < i < plain.len() implies (#[trigger] plain[i]).len() > 0 && plain[i]
        != "."@ by {
        assert(plain[i] == pieces[i]);
    }
    reveal_with_fuel(path::counted, 2);
    assert(seq![nothing].drop_first() =~= Seq::empty());
    assert(path::counted(seq![nothing], false) =~= Seq::empty());
    if path::absolute(head) {
        let rest = plain.drop_first();
        assert((plain + seq![nothing]).drop_first() =~= rest + seq![nothing]);
        path::lemma_counted_add(rest, seq![nothing], false);
        assert forall|i: int| 0 <= i < rest.len() implies (#[trigger] rest[i]).len() > 0 && rest[i]
            != "."@ by {
            assert(rest[i] == plain[i + 1]);
        }
        lemma_all_count(rest, false);
    } else {
        path::lemma_counted_add(plain, seq![nothing], true);
        assert((plain + seq![nothing])[0] == plain[0]);
        lemma_all_count(plain, true);
    }
}

/// Where a source is looked for is part of the way that the source goes.
pub proof fn lemma_place_in(source: Seq<char>)
    requires
        !path::absolute(source),
        named(place_in(source)),
    ensures
        parts_in(place_in(source)).is_prefix_of(parts_in(source)),
        glob::has_operator(source) ==> glob::plain_front(parts_in(source)).len() > 0,
{
    let all = parts_in(source);
    if glob::has_operator(source) {
        reveal_strlit("/");
        let inner = glob::plain_front(all);
        let nothing = Seq::<char>::empty();
        glob::lemma_plain_front(all);
        lemma_parts_in("/"@, source);
        path::lemma_components_proper(path::within("/"@, source));
        let whole = path::components(path::within("/"@, source));
        lemma_some_part("/"@);
        let n = path::components("/"@).len();
        assert forall|i: int| 0 <= i < inner.len() implies {
            &&& (#[trigger] inner[i]).len() > 0
            &&& inner[i] != "/"@
            &&& inner[i] != "."@
            &&& !inner[i].contains('/')
        } by {
            assert(inner[i] == whole[n + i]);
        }
        if inner.len() == 0 {
            assert(path::render(inner) =~= nothing);
            path::lemma_split_single(nothing);
            reveal_with_fuel(path::counted, 2);
            assert(seq![nothing].drop_first() =~= Seq::empty());
            assert(parts_in(nothing) =~= Seq::empty());
        } else {
            assert(inner[0] != "/"@);
            assert(inner != seq!["/"@]);
            lemma_rendered_pieces(inner);
            lemma_all_count(inner, false);
        }
    } else {
        assert(all =~= all.take(all.len() as int));
    }
}

} // verus!
