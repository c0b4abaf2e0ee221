//! Lists of paths in the order of their components, with the repeated ones set apart.
//!
//! Two paths are the same if their components are, however they are written.

use crate::order;
use crate::order::chars_before;
use crate::path;
use crate::path::{components_of, same_chars};
use crate::text;
use crate::text::{chars_of, is_text};
use vstd::prelude::*;

verus! {

/// Where a kind of component stands in the order: the root, `.`, `..`, then names.
pub open spec fn rank(part: Seq<char>) -> int {
    if part == "/"@ {
        0
    } else if part == "."@ {
        1
    } else if part == ".."@ {
        2
    } else {
        3
    }
}

/// Whether one component comes before another.
pub open spec fn part_less(a: Seq<char>, b: Seq<char>) -> bool {
    rank(a) < rank(b) || (rank(a) == rank(b) && order::text_less(a, b))
}

/// The order of paths: by the first component in which they differ, and a path before
/// those that go on from it.
pub open spec fn parts_less(a: Seq<Seq<char>>, b: Seq<Seq<char>>) -> bool
    decreases a.len(),
{
    if b.len() == 0 {
        false
    } else if a.len() == 0 {
        true
    } else if a[0] != b[0] {
        part_less(a[0], b[0])
    } else {
        parts_less(a.drop_first(), b.drop_first())
    }
}

/// The order of paths as a relation to list a set by.
pub open spec fn path_order() -> spec_fn(Seq<Seq<char>>, Seq<Seq<char>>) -> bool {
    |a: Seq<Seq<char>>, b: Seq<Seq<char>>| parts_less(a, b)
}

proof fn lemma_part_less_total(a: Seq<char>, b: Seq<char>)
    ensures
        part_less(a, b) ==> a != b && !part_less(b, a),
        !part_less(a, b) && !part_less(b, a) ==> a == b,
{
    order::lemma_text_less_total(a, b);
}

proof fn lemma_part_less_transitive(a: Seq<char>, b: Seq<char>, c: Seq<char>)
    requires
        part_less(a, b),
        part_less(b, c),
    ensures
        part_less(a, c),
{
    if rank(a) == rank(b) && rank(b) == rank(c) {
        order::lemma_text_less_transitive(a, b, c);
    }
}

/// The order of paths is one of two ways or equality, never two of them.
pub proof fn lemma_parts_less_total(a: Seq<Seq<char>>, b: Seq<Seq<char>>)
    ensures
        parts_less(a, b) ==> a != b && !parts_less(b, a),
        !parts_less(a, b) && !parts_less(b, a) ==> a == b,
    decreases a.len(),
{
    if a.len() > 0 && b.len() > 0 {
        lemma_part_less_total(a[0], b[0]);
        lemma_parts_less_total(a.drop_first(), b.drop_first());
        if a[0] == b[0] && a.drop_first() == b.drop_first() {
            assert(a =~= seq![a[0]] + a.drop_first());
            assert(b =~= seq![b[0]] + b.drop_first());
        }
    } else if a.len() == 0 && b.len() == 0 {
        assert(a =~= b);
    }
}

/// The order of paths is transitive.
pub proof fn lemma_parts_less_transitive(
    a: Seq<Seq<char>>,
    b: Seq<Seq<char>>,
    c: Seq<Seq<char>>,
)
    requires
        parts_less(a, b),
        parts_less(b, c),
    ensures
        parts_less(a, c),
    decreases a.len(),
{
    if a.len() > 0 {
        if a[0] == b[0] && b[0] == c[0] {
            lemma_parts_less_transitive(a.drop_first(), b.drop_first(), c.drop_first());
        } else if a[0] != b[0] && b[0] != c[0] {
            lemma_part_less_transitive(a[0], b[0], c[0]);
            lemma_part_less_total(a[0], c[0]);
        }
    }
}

/// The order of paths is total.
pub proof fn lemma_path_order_total()
    ensures
        order::total(path_order()),
{
    assert forall|a: Seq<Seq<char>>, b: Seq<Seq<char>>| #[trigger]
        path_order()(a, b) implies !path_order()(b, a) by {
        lemma_parts_less_total(a, b);
    }
    assert forall|a: Seq<Seq<char>>, b: Seq<Seq<char>>| a != b implies #[trigger] path_order()(a, b)
        || path_order()(b, a) by {
        lemma_parts_less_total(a, b);
    }
    assert forall|a: Seq<Seq<char>>, b: Seq<Seq<char>>, c: Seq<Seq<char>>| #[trigger]
        path_order()(a, b) && #[trigger] path_order()(b, c) implies path_order()(a, c) by {
        lemma_parts_less_transitive(a, b, c);
    }
}

fn rank_of(part: &[char]) -> (r: u8)
    ensures
        r == rank(part@),
{
    if is_text(part, "/") {
        0
    } else if is_text(part, ".") {
        1
    } else if is_text(part, "..") {
        2
    } else {
        3
    }
}

/// Whether the components `a` come before `b` in the order of paths.
fn parts_before(a: &Vec<Vec<char>>, b: &Vec<Vec<char>>) -> (yes: bool)
    ensures
        yes == parts_less(text::views(a@), text::views(b@)),
{
    let ghost x = text::views(a@);
    let ghost y = text::views(b@);
    let mut i: usize = 0;
    assert(x.skip(0) =~= x);
    assert(y.skip(0) =~= y);
    while i < a.len() && i < b.len()
        invariant
            i <= a@.len(),
            i <= b@.len(),
            x == text::views(a@),
            y == text::views(b@),
            parts_less(x.skip(i as int), y.skip(i as int)) == parts_less(x, y),
        decreases a@.len() - i,
    {
        assert(x.skip(i as int).drop_first() =~= x.skip(i + 1));
        assert(y.skip(i as int).drop_first() =~= y.skip(i + 1));
        let p = a[i].as_slice();
        let q = b[i].as_slice();
        if !same_chars(p, q) {
            let m: u8 = rank_of(p);
            let n: u8 = rank_of(q);
            return m < n || (m == n && chars_before(p, q));
        }
        i = i + 1;
    }
    i < b.len()
}

/// The components of each of the paths.
pub open spec fn keys(paths: Seq<Seq<char>>) -> Set<Seq<Seq<char>>> {
    paths.map_values(|s: Seq<char>| path::components(s)).to_set()
}

/// The paths with the given components, in the order in which they stand.
pub open spec fn with_parts(paths: Seq<Seq<char>>, parts: Seq<Seq<char>>) -> Seq<Seq<char>>
    decreases paths.len(),
{
    if paths.len() == 0 {
        Seq::empty()
    } else if path::components(paths.last()) == parts {
        with_parts(paths.drop_last(), parts).push(paths.last())
    } else {
        with_parts(paths.drop_last(), parts)
    }
}

/// The components of the paths, each once and in order.
pub open spec fn sorted_keys(paths: Seq<Seq<char>>) -> Seq<Seq<Seq<char>>> {
    order::ascending(keys(paths), path_order())
}

/// The paths in order, each once and as it is written first.
pub open spec fn distinct(paths: Seq<Seq<char>>) -> Seq<Seq<char>> {
    sorted_keys(paths).map_values(|parts: Seq<Seq<char>>| with_parts(paths, parts)[0])
}

/// All but the first of those that are the same.
pub open spec fn repeats_of(paths: Seq<Seq<char>>) -> spec_fn(Seq<Seq<char>>) -> Seq<Seq<char>> {
    |parts: Seq<Seq<char>>| with_parts(paths, parts).drop_first()
}

/// The paths in order that were there already when they came.
pub open spec fn repeats(paths: Seq<Seq<char>>) -> Seq<Seq<char>> {
    order::gather(sorted_keys(paths), repeats_of(paths))
}

/// Paths that are the same, with their components.
struct Group {
    parts: Vec<Vec<char>>,
    paths: Vec<String>,
}

spec fn head() -> spec_fn(Group) -> Seq<Seq<char>> {
    |g: Group| text::views(g.parts@)
}

/// Whether the groups hold the paths, in order.
spec fn grouped(groups: Seq<Group>, paths: Seq<Seq<char>>) -> bool {
    &&& order::in_order(groups.map_values(head()), path_order())
    &&& groups.map_values(head()).to_set() == keys(paths)
    &&& forall|i: int|
        #![trigger groups[i]]
        0 <= i < groups.len() ==> groups[i].paths@.len() > 0 && text::views(groups[i].paths@)
            == with_parts(paths, head()(groups[i]))
}

proof fn lemma_one_more(paths: Seq<Seq<char>>, s: Seq<char>)
    ensures
        keys(paths.push(s)) == keys(paths).insert(path::components(s)),
        forall|parts: Seq<Seq<char>>|
            #![trigger with_parts(paths.push(s), parts)]
            with_parts(paths.push(s), parts) == if parts == path::components(s) {
                with_parts(paths, parts).push(s)
            } else {
                with_parts(paths, parts)
            },
{
    let f = |s: Seq<char>| path::components(s);
    assert(paths.push(s).map_values(f) =~= paths.map_values(f).push(path::components(s)));
    order::lemma_set_push(paths.map_values(f), path::components(s));
    assert(paths.push(s).drop_last() =~= paths);
}

/// No path has components that are not among the keys.
proof fn lemma_no_such_path(paths: Seq<Seq<char>>, parts: Seq<Seq<char>>)
    requires
        !keys(paths).contains(parts),
    ensures
        with_parts(paths, parts) == Seq::<Seq<char>>::empty(),
    decreases paths.len(),
{
    if paths.len() > 0 {
        let shorter = paths.drop_last();
        assert(shorter.push(paths.last()) =~= paths);
        lemma_one_more(shorter, paths.last());
        lemma_no_such_path(shorter, parts);
    }
}

/// Puts a path into its group.
fn place(groups: &mut Vec<Group>, file: String, Ghost(paths): Ghost<Seq<Seq<char>>>)
    requires
        grouped(old(groups)@, paths),
    ensures
        grouped(final(groups)@, paths.push(file@)),
{
    let chars = chars_of(file.as_str());
    let parts = components_of(chars.as_slice());
    let ghost key = path::components(file@);
    let ghost was = groups@;
    let ghost heads = was.map_values(head());
    let mut i: usize = 0;
    while i < groups.len() && parts_before(&groups[i].parts, &parts)
        invariant
            i <= groups@.len(),
            groups@ == was,
            heads == was.map_values(head()),
            text::views(parts@) == key,
            forall|j: int| 0 <= j < i ==> parts_less(#[trigger] heads[j], key),
        decreases groups@.len() - i,
    {
        assert(heads[i as int] == text::views(groups@[i as int].parts@));
        i = i + 1;
    }
    proof {
        lemma_one_more(paths, file@);
    }
    if i < groups.len() {
        assert(heads[i as int] == text::views(groups@[i as int].parts@));
    }
    if i < groups.len() && !parts_before(&parts, &groups[i].parts) {
        proof {
            lemma_parts_less_total(heads[i as int], key);
        }
        let mut group = groups.remove(i);
        let ghost was_in = group.paths@;
        group.paths.push(file);
        assert(text::views(group.paths@) =~= text::views(was_in).push(file@));
        groups.insert(i, group);
        let ghost now = groups@;
        assert(now =~= was.update(i as int, group));
        assert(now.map_values(head()) =~= heads);
        proof {
            assert(heads[i as int] == key);
            assert(heads.to_set().contains(key));
            assert(keys(paths).insert(key) =~= keys(paths));
            assert forall|j: int| 0 <= j < now.len() implies (#[trigger] now[j]).paths@.len() > 0
                && text::views(now[j].paths@) == with_parts(
                paths.push(file@),
                head()(now[j]),
            ) by {
                assert(was[j].paths@.len() > 0);
                if j != i {
                    if i < j {
                        assert(path_order()(heads[i as int], heads[j]));
                    } else {
                        assert(path_order()(heads[j], heads[i as int]));
                    }
                    lemma_parts_less_total(heads[j], key);
                    lemma_parts_less_total(key, heads[j]);
                    assert(head()(now[j]) == heads[j]);
                }
            }
        }
    } else {
        let mut paths_here: Vec<String> = Vec::new();
        paths_here.push(file);
        assert(text::views(paths_here@) =~= seq![file@]);
        let group = Group { parts, paths: paths_here };
        groups.insert(i, group);
        let ghost now = groups@;
        assert(now =~= was.insert(i as int, group));
        let ghost heads_now = now.map_values(head());
        assert(heads_now =~= heads.insert(i as int, key));
        proof {
            assert forall|a: int, b: int| 0 <= a < b < heads_now.len() implies path_order()(
                #[trigger] heads_now[a],
                #[trigger] heads_now[b],
            ) by {
                let a1 = if a < i {
                    a
                } else {
                    a - 1
                };
                let b1 = if b < i {
                    b
                } else {
                    b - 1
                };
                if a != i && b != i {
                    assert(path_order()(heads[a1], heads[b1]));
                } else if a == i {
                    if b1 > i {
                        assert(path_order()(heads[i as int], heads[b1]));
                        lemma_parts_less_transitive(key, heads[i as int], heads[b1]);
                    }
                } else {
                    assert(parts_less(heads[a], key));
                }
            }
            assert forall|k: Seq<Seq<char>>|
                heads_now.to_set().contains(k) == keys(paths).insert(key).contains(k) by {
                if heads.contains(k) {
                    let j = choose|j: int| 0 <= j < heads.len() && heads[j] == k;
                    if j < i {
                        assert(heads_now[j] == k);
                    } else {
                        assert(heads_now[j + 1] == k);
                    }
                }
                assert(heads_now[i as int] == key);
                if heads_now.contains(k) && k != key {
                    let j = choose|j: int| 0 <= j < heads_now.len() && heads_now[j] == k;
                    if j < i {
                        assert(heads[j] == k);
                    } else {
                        assert(heads[j - 1] == k);
                    }
                }
                assert(heads.to_set().contains(k) == keys(paths).contains(k));
            }
            assert(heads_now.to_set() =~= keys(paths).insert(key));
            lemma_fresh(heads, i as int, key);
            assert(!keys(paths).contains(key));
            lemma_no_such_path(paths, key);
            assert forall|j: int| 0 <= j < now.len() implies (#[trigger] now[j]).paths@.len() > 0
                && text::views(now[j].paths@) == with_parts(
                paths.push(file@),
                head()(now[j]),
            ) by {
                assert(head()(now[j]) == heads_now[j]);
                if j == i {
                    assert(with_parts(paths.push(file@), key) =~= seq![file@]);
                } else {
                    let j1 = if j < i {
                        j
                    } else {
                        j - 1
                    };
                    assert(was[j1].paths@.len() > 0);
                    assert(head()(now[j]) == heads[j1]);
                    assert(heads.contains(heads[j1]));
                    assert(heads[j1] != key);
                }
            }
        }
    }
}

/// A key between two neighbours is not listed yet.
proof fn lemma_fresh(heads: Seq<Seq<Seq<char>>>, i: int, key: Seq<Seq<char>>)
    requires
        order::in_order(heads, path_order()),
        0 <= i <= heads.len(),
        forall|j: int| 0 <= j < i ==> parts_less(#[trigger] heads[j], key),
        i < heads.len() ==> parts_less(key, heads[i]),
    ensures
        !heads.to_set().contains(key),
{
    if heads.contains(key) {
        let j = choose|j: int| 0 <= j < heads.len() && heads[j] == key;
        lemma_parts_less_total(heads[j], key);
        if j > i {
            assert(path_order()(heads[i], heads[j]));
            lemma_parts_less_transitive(key, heads[i], heads[j]);
        }
    }
}

/// Sorts paths, each once, and sets the repeated ones apart.
pub fn sort_paths(paths: &[String]) -> (sorted: (Vec<String>, Vec<String>))
    ensures
        text::views(sorted.0@) == distinct(text::views(paths@)),
        text::views(sorted.1@) == repeats(text::views(paths@)),
{
    let ghost all = text::views(paths@);
    let mut groups: Vec<Group> = Vec::new();
    let mut i: usize = 0;
    proof {
        assert(groups@.map_values(head()).to_set() =~= keys(all.take(0)));
    }
    while i < paths.len()
        invariant
            i <= paths@.len(),
            all == text::views(paths@),
            grouped(groups@, all.take(i as int)),
        decreases paths@.len() - i,
    {
        let file = paths[i].clone();
        assert(all.take(i + 1) =~= all.take(i as int).push(file@));
        place(&mut groups, file, Ghost(all.take(i as int)));
        i = i + 1;
    }
    assert(all.take(i as int) =~= all);
    let ghost heads = groups@.map_values(head());
    proof {
        lemma_path_order_total();
        order::lemma_ascending_is(heads, keys(all), path_order());
    }
    let mut firsts: Vec<String> = Vec::new();
    let mut rest: Vec<String> = Vec::new();
    let mut k: usize = 0;
    assert(text::views(firsts@) =~= distinct(all).take(0));
    assert(text::views(rest@) =~= order::gather(heads.take(0), repeats_of(all)));
    while k < groups.len()
        invariant
            k <= groups@.len(),
            grouped(groups@, all),
            heads == groups@.map_values(head()),
            heads == sorted_keys(all),
            text::views(firsts@) == distinct(all).take(k as int),
            text::views(rest@) == order::gather(heads.take(k as int), repeats_of(all)),
        decreases groups@.len() - k,
    {
        let group = &groups[k];
        let ghost same = with_parts(all, heads[k as int]);
        assert(same == text::views(group.paths@));
        let ghost before = text::views(firsts@);
        firsts.push(group.paths[0].clone());
        assert(text::views(firsts@) =~= before.push(same[0]));
        assert(distinct(all).take(k + 1) =~= before.push(same[0]));
        let ghost before_rest = text::views(rest@);
        let mut j: usize = 1;
        assert(same.subrange(1, 1) =~= Seq::empty());
        while j < group.paths.len()
            invariant
                1 <= j <= group.paths@.len(),
                same == text::views(group.paths@),
                text::views(rest@) == before_rest + same.subrange(1, j as int),
            decreases group.paths@.len() - j,
        {
            let ghost was = text::views(rest@);
            rest.push(group.paths[j].clone());
            assert(text::views(rest@) =~= was.push(same[j as int]));
            assert(same.subrange(1, j + 1) =~= same.subrange(1, j as int).push(same[j as int]));
            j = j + 1;
        }
        proof {
            assert(same.subrange(1, j as int) =~= same.drop_first());
            order::lemma_gather_step(heads, k as int, repeats_of(all));
        }
        k = k + 1;
    }
    assert(distinct(all).take(k as int) =~= distinct(all));
    assert(heads.take(k as int) =~= heads);
    (firsts, rest)
}

/// Whether two of the paths have the given components.
pub open spec fn twice(paths: Seq<Seq<char>>, parts: Seq<Seq<char>>) -> bool {
    exists|i: int, j: int|
        0 <= i < j < paths.len() && path::components(#[trigger] paths[i]) == parts
            && path::components(#[trigger] paths[j]) == parts
}

proof fn lemma_with_parts(paths: Seq<Seq<char>>, parts: Seq<Seq<char>>)
    ensures
        keys(paths).contains(parts) <==> with_parts(paths, parts).len() > 0,
        twice(paths, parts) <==> with_parts(paths, parts).len() > 1,
        forall|i: int|
            0 <= i < with_parts(paths, parts).len() ==> path::components(
                #[trigger] with_parts(paths, parts)[i],
            ) == parts && paths.contains(with_parts(paths, parts)[i]),
    decreases paths.len(),
{
    let found = with_parts(paths, parts);
    if paths.len() > 0 {
        let shorter = paths.drop_last();
        let last = paths.last();
        let before = with_parts(shorter, parts);
        assert(shorter.push(last) =~= paths);
        lemma_one_more(shorter, last);
        lemma_with_parts(shorter, parts);
        assert forall|i: int| 0 <= i < shorter.len() implies shorter[i] == #[trigger] paths[i] by {}
        assert forall|i: int| 0 <= i < found.len() implies path::components(#[trigger] found[i])
            == parts && paths.contains(found[i]) by {
            if i < before.len() {
                assert(before[i] == found[i]);
                let j = choose|j: int| 0 <= j < shorter.len() && shorter[j] == found[i];
                assert(paths[j] == found[i]);
            } else {
                assert(paths[paths.len() - 1] == last);
            }
        }
        if found.len() > 1 {
            if before.len() > 1 {
                let (i, j) = choose|i: int, j: int|
                    0 <= i < j < shorter.len() && path::components(#[trigger] shorter[i]) == parts
                        && path::components(#[trigger] shorter[j]) == parts;
                assert(path::components(paths[i]) == parts && path::components(paths[j]) == parts);
            } else {
                assert(shorter.contains(before[0]));
                let i = choose|i: int| 0 <= i < shorter.len() && shorter[i] == before[0];
                assert(path::components(paths[i]) == parts);
                assert(path::components(paths[paths.len() - 1]) == parts);
            }
        }
        if twice(paths, parts) {
            let (i, j) = choose|i: int, j: int|
                0 <= i < j < paths.len() && path::components(#[trigger] paths[i]) == parts
                    && path::components(#[trigger] paths[j]) == parts;
            if j < shorter.len() {
                assert(path::components(shorter[i]) == parts && path::components(shorter[j])
                    == parts);
            } else {
                let f = |s: Seq<char>| path::components(s);
                assert(shorter.map_values(f)[i] == parts);
                assert(keys(shorter).contains(parts));
            }
        }
    }
}

/// What stands in the list of distinct paths: paths that were given, in strictly
/// ascending order, and for each given path one that is the same.
pub proof fn law_distinct_paths(paths: Seq<Seq<char>>)
    ensures
        order::in_order(
            distinct(paths).map_values(|s: Seq<char>| path::components(s)),
            path_order(),
        ),
        forall|i: int|
            0 <= i < distinct(paths).len() ==> paths.contains(#[trigger] distinct(paths)[i]),
        keys(distinct(paths)) == keys(paths),
{
    let f = |s: Seq<char>| path::components(s);
    let heads = sorted_keys(paths);
    lemma_path_order_total();
    order::lemma_ascending(keys(paths), path_order());
    assert forall|i: int| 0 <= i < heads.len() implies paths.contains(#[trigger] distinct(paths)[i])
        && path::components(distinct(paths)[i]) == heads[i] by {
        assert(heads.to_set().contains(heads[i]));
        lemma_with_parts(paths, heads[i]);
        assert(with_parts(paths, heads[i])[0] == distinct(paths)[i]);
    }
    assert(distinct(paths).map_values(f) =~= heads);
}

/// Nothing is set apart as repeated exactly if no two of the paths are the same.
pub proof fn law_repeats_are_duplicates(paths: Seq<Seq<char>>)
    ensures
        repeats(paths).len() == 0 <==> paths.map_values(
            |s: Seq<char>| path::components(s),
        ).no_duplicates(),
{
    let f = |s: Seq<char>| path::components(s);
    let all = paths.map_values(f);
    let heads = sorted_keys(paths);
    lemma_path_order_total();
    order::lemma_ascending(keys(paths), path_order());
    order::lemma_gather_empty(heads, repeats_of(paths));
    if repeats(paths).len() == 0 {
        assert forall|i: int, j: int| 0 <= i < all.len() && 0 <= j < all.len() && i
            != j implies all[i] != all[j] by {
            if all[i] == all[j] {
                let (a, b) = if i < j {
                    (i, j)
                } else {
                    (j, i)
                };
                assert(path::components(paths[a]) == all[i] && path::components(paths[b])
                    == all[i]);
                lemma_with_parts(paths, all[i]);
                assert(heads.to_set().contains(all[i]));
                let k = choose|k: int| 0 <= k < heads.len() && heads[k] == all[i];
                assert(repeats_of(paths)(heads[k]).len() == 0);
            }
        }
    } else if all.no_duplicates() {
        assert forall|k: int| 0 <= k < heads.len() implies repeats_of(paths)(
            #[trigger] heads[k],
        ).len() == 0 by {
            lemma_with_parts(paths, heads[k]);
            assert(heads.to_set().contains(heads[k]));
            if twice(paths, heads[k]) {
                let (i, j) = choose|i: int, j: int|
                    0 <= i < j < paths.len() && path::components(#[trigger] paths[i]) == heads[k]
                        && path::components(#[trigger] paths[j]) == heads[k];
                assert(all[i] == all[j]);
            }
        }
    }
}

/// The components of each of the paths, in the order in which they stand.
pub open spec fn all_parts(paths: Seq<Seq<char>>) -> Seq<Seq<Seq<char>>> {
    paths.map_values(|s: Seq<char>| path::components(s))
}

/// Whether paths that are the same are also written the same.
pub open spec fn spelled_once(paths: Seq<Seq<char>>) -> bool {
    forall|s: Seq<char>, t: Seq<char>|
        #![trigger paths.contains(s), paths.contains(t)]
        paths.contains(s) && paths.contains(t) && path::components(s) == path::components(t) ==> s
            == t
}

spec fn if_parts(parts: Seq<Seq<char>>) -> spec_fn(Seq<char>) -> Seq<Seq<char>> {
    |s: Seq<char>|
        if path::components(s) == parts {
            seq![s]
        } else {
            Seq::empty()
        }
}

proof fn lemma_with_parts_gathered(paths: Seq<Seq<char>>, parts: Seq<Seq<char>>)
    ensures
        with_parts(paths, parts) == order::gather(paths, if_parts(parts)),
    decreases paths.len(),
{
    if paths.len() > 0 {
        lemma_with_parts_gathered(paths.drop_last(), parts);
        assert(with_parts(paths, parts) =~= order::gather(paths, if_parts(parts)));
    }
}

/// In another order, as many paths have the given components.
proof fn lemma_with_parts_reordered(
    a: Seq<Seq<char>>,
    b: Seq<Seq<char>>,
    parts: Seq<Seq<char>>,
)
    requires
        a.to_multiset() == b.to_multiset(),
    ensures
        with_parts(a, parts).len() == with_parts(b, parts).len(),
        spelled_once(a) ==> with_parts(a, parts) == with_parts(b, parts),
{
    broadcast use vstd::seq_lib::group_to_multiset_ensures;

    lemma_with_parts_gathered(a, parts);
    lemma_with_parts_gathered(b, parts);
    order::lemma_gather_reordered(a, b, if_parts(parts));
    let x = with_parts(a, parts);
    let y = with_parts(b, parts);
    assert(x.len() == x.to_multiset().len());
    assert(y.len() == y.to_multiset().len());
    if spelled_once(a) {
        lemma_with_parts(a, parts);
        lemma_with_parts(b, parts);
        assert forall|i: int| 0 <= i < x.len() implies x[i] == y[i] by {
            assert(a.contains(x[i]));
            assert(b.contains(y[i]));
            assert(b.to_multiset().count(y[i]) > 0);
            assert(a.to_multiset().count(y[i]) > 0);
            assert(a.contains(y[i]));
            assert(path::components(x[i]) == parts && path::components(y[i]) == parts);
        }
        assert(x =~= y);
    }
}

/// The order in which paths come does not change which are listed and which are repeated;
/// and it does not change how they are written, if those that are the same are written the
/// same.
pub proof fn law_order_does_not_matter(a: Seq<Seq<char>>, b: Seq<Seq<char>>)
    requires
        a.to_multiset() == b.to_multiset(),
    ensures
        all_parts(distinct(a)) == all_parts(distinct(b)),
        all_parts(repeats(a)) == all_parts(repeats(b)),
        spelled_once(a) ==> distinct(a) == distinct(b) && repeats(a) == repeats(b),
{
    let c = |s: Seq<char>| path::components(s);
    assert forall|parts: Seq<Seq<char>>| keys(a).contains(parts) == keys(b).contains(parts) by {
        lemma_with_parts(a, parts);
        lemma_with_parts(b, parts);
        lemma_with_parts_reordered(a, b, parts);
    }
    assert(keys(a) =~= keys(b));
    let heads = sorted_keys(a);
    lemma_path_order_total();
    order::lemma_ascending(keys(a), path_order());
    assert forall|i: int| 0 <= i < heads.len() implies {
        let x = with_parts(a, #[trigger] heads[i]);
        let y = with_parts(b, heads[i]);
        &&& x.len() > 0
        &&& x.len() == y.len()
        &&& x.map_values(c) == y.map_values(c)
        &&& spelled_once(a) ==> x == y
    } by {
        let parts = heads[i];
        assert(heads.to_set().contains(parts));
        lemma_with_parts(a, parts);
        lemma_with_parts(b, parts);
        lemma_with_parts_reordered(a, b, parts);
        assert(with_parts(a, parts).map_values(c) =~= with_parts(b, parts).map_values(c)) by {
            assert forall|j: int| 0 <= j < with_parts(a, parts).len() implies c(
                #[trigger] with_parts(a, parts)[j],
            ) == c(with_parts(b, parts)[j]) by {
                assert(path::components(with_parts(a, parts)[j]) == parts);
                assert(path::components(with_parts(b, parts)[j]) == parts);
            }
        }
    }
    assert forall|i: int| 0 <= i < heads.len() implies path::components(
        #[trigger] distinct(a)[i],
    ) == path::components(distinct(b)[i]) by {
        let x = with_parts(a, heads[i]);
        let y = with_parts(b, heads[i]);
        assert(x.map_values(c)[0] == y.map_values(c)[0]);
    }
    assert(all_parts(distinct(a)) =~= all_parts(distinct(b)));
    let f = repeats_of(a);
    let g = repeats_of(b);
    assert forall|i: int| 0 <= i < heads.len() implies f(#[trigger] heads[i]).map_values(c) == g(
        heads[i],
    ).map_values(c) by {
        let x = with_parts(a, heads[i]);
        let y = with_parts(b, heads[i]);
        assert(x.drop_first().map_values(c) =~= x.map_values(c).drop_first());
        assert(y.drop_first().map_values(c) =~= y.map_values(c).drop_first());
    }
    order::lemma_gather_alike(heads, f, g, c);
    if spelled_once(a) {
        let same = |s: Seq<char>| s;
        assert(distinct(a) =~= distinct(b));
        assert forall|i: int| 0 <= i < heads.len() implies f(#[trigger] heads[i]).map_values(same)
            == g(heads[i]).map_values(same) by {
            assert(with_parts(a, heads[i]) == with_parts(b, heads[i]));
        }
        order::lemma_gather_alike(heads, f, g, same);
        assert(repeats(a).map_values(same) =~= repeats(a));
        assert(repeats(b).map_values(same) =~= repeats(b));
    }
}

} // verus!
