//! Lists of paths in order, without what occurs twice.

use crate::laws::orders;
use crate::listing;
use crate::order;
use crate::path;
use vstd::prelude::*;

verus! {

/// Where a component is placed by its kind: the root, the current directory, the directory
/// above, and names.
pub open spec fn kind_of(part: Seq<char>) -> int {
    if part == "/"@ {
        0
    } else if part == "."@ {
        1
    } else if part == ".."@ {
        2
    } else {
        3
    }
}

/// Whether a component comes before another: by its kind, and names as texts.
pub open spec fn part_earlier(a: Seq<char>, b: Seq<char>) -> bool {
    kind_of(a) < kind_of(b) || (kind_of(a) == 3 && kind_of(b) == 3 && orders::earlier(a, b))
}

/// Whether a path comes before another: where they part, it has ended or has the earlier
/// component.
pub open spec fn path_earlier(a: Seq<Seq<char>>, b: Seq<Seq<char>>) -> bool {
    exists|i: int|
        0 <= i <= a.len() && i < b.len() && a.take(i) == #[trigger] b.take(i) && (i == a.len()
            || part_earlier(a[i], b[i]))
}

proof fn lemma_part(a: Seq<char>, b: Seq<char>)
    requires
        a != b,
    ensures
        listing::part_less(a, b) <==> part_earlier(a, b),
{
    orders::law_text_order(a, b);
}

/// Paths are put in order component by component.
pub proof fn law_path_order(a: Seq<Seq<char>>, b: Seq<Seq<char>>)
    ensures
        listing::parts_less(a, b) <==> path_earlier(a, b),
    decreases a.len(),
{
    if b.len() == 0 {
    } else if a.len() == 0 {
        assert(a.take(0) =~= b.take(0));
        assert(path_earlier(a, b));
    } else if a[0] != b[0] {
        assert(a.take(0) =~= b.take(0));
        lemma_part(a[0], b[0]);
        if path_earlier(a, b) {
            let i = choose|i: int|
                0 <= i <= a.len() && i < b.len() && a.take(i) == #[trigger] b.take(i) && (i
                    == a.len() || part_earlier(a[i], b[i]));
            if i > 0 {
                assert(a.take(i)[0] == b.take(i)[0]);
            }
        }
    } else {
        let x = a.drop_first();
        let y = b.drop_first();
        law_path_order(x, y);
        if path_earlier(x, y) {
            let i = choose|i: int|
                0 <= i <= x.len() && i < y.len() && x.take(i) == #[trigger] y.take(i) && (i
                    == x.len() || part_earlier(x[i], y[i]));
            assert(a.take(i + 1) =~= seq![a[0]] + x.take(i));
            assert(b.take(i + 1) =~= seq![b[0]] + y.take(i));
            assert(b[i + 1] == y[i]);
            assert(i < x.len() ==> a[i + 1] == x[i]);
            assert(path_earlier(a, b));
        }
        if path_earlier(a, b) {
            let i = choose|i: int|
                0 <= i <= a.len() && i < b.len() && a.take(i) == #[trigger] b.take(i) && (i
                    == a.len() || part_earlier(a[i], b[i]));
            if i == 0 {
                lemma_same_part(a[0]);
            }
            assert(x.take(i - 1) =~= a.take(i).drop_first());
            assert(y.take(i - 1) =~= b.take(i).drop_first());
            assert(path_earlier(x, y));
        }
    }
}

proof fn lemma_same_part(a: Seq<char>)
    ensures
        !part_earlier(a, a),
{
    orders::law_text_order(a, a);
    order::lemma_text_less_total(a, a);
}

/// Whether a path is the same as another, though it may be written in another way.
pub open spec fn same_as(parts: Seq<Seq<char>>) -> spec_fn(Seq<char>) -> bool {
    |s: Seq<char>| path::components(s) == parts
}

proof fn lemma_with_parts(paths: Seq<Seq<char>>, parts: Seq<Seq<char>>)
    ensures
        listing::with_parts(paths, parts) == paths.filter(same_as(parts)),
    decreases paths.len(),
{
    reveal(Seq::filter);
    if paths.len() > 0 {
        lemma_with_parts(paths.drop_last(), parts);
    }
}

/// Of paths that are the same the first stays, and the distinct ones stand in order.
pub proof fn law_first_of_each_stays(paths: Seq<Seq<char>>, i: int)
    requires
        0 <= i < listing::distinct(paths).len(),
    ensures
        ({
            let kept = listing::distinct(paths)[i];
            let same = paths.filter(same_as(path::components(kept)));
            &&& same.len() > 0
            &&& kept == same[0]
            &&& forall|j: int|
                i < j < listing::distinct(paths).len() ==> path_earlier(
                    path::components(kept),
                    path::components(#[trigger] listing::distinct(paths)[j]),
                )
        }),
{
    let kept = listing::distinct(paths)[i];
    let heads = listing::sorted_keys(paths);
    let f = |s: Seq<char>| path::components(s);
    listing::law_distinct_paths(paths);
    let shown = listing::distinct(paths).map_values(f);
    listing::lemma_path_order_total();
    order::lemma_ascending(listing::keys(paths), listing::path_order());
    assert(heads.to_set().contains(heads[i]));
    lemma_with_parts(paths, heads[i]);
    let all = paths.map_values(f);
    assert(all.to_set().contains(heads[i]));
    let k = choose|k: int| 0 <= k < all.len() && all[k] == heads[i];
    assert(same_as(heads[i])(paths[k]));
    paths.lemma_filter_contains(same_as(heads[i]), k);
    let same = paths.filter(same_as(heads[i]));
    assert(same.contains(paths[k]));
    assert(same.len() > 0);
    paths.lemma_filter_pred(same_as(heads[i]), 0);
    assert(path::components(kept) == heads[i]);
    assert forall|j: int| i < j < listing::distinct(paths).len() implies path_earlier(
        path::components(kept),
        path::components(#[trigger] listing::distinct(paths)[j]),
    ) by {
        assert(listing::path_order()(shown[i], shown[j]));
        law_path_order(shown[i], shown[j]);
    }
}

proof fn lemma_filter_none(items: Seq<Seq<char>>, p: spec_fn(Seq<char>) -> bool)
    requires
        forall|i: int| 0 <= i < items.len() ==> !p(#[trigger] items[i]),
    ensures
        items.filter(p) == Seq::<Seq<char>>::empty(),
    decreases items.len(),
{
    reveal(Seq::filter);
    if items.len() > 0 {
        assert(!p(items[items.len() - 1]));
        assert forall|i: int| 0 <= i < items.drop_last().len() implies !p(
            #[trigger] items.drop_last()[i],
        ) by {
            assert(!p(items[i]));
        }
        lemma_filter_none(items.drop_last(), p);
    }
}

proof fn lemma_filter_all(items: Seq<Seq<char>>, p: spec_fn(Seq<char>) -> bool)
    requires
        forall|i: int| 0 <= i < items.len() ==> p(#[trigger] items[i]),
    ensures
        items.filter(p) == items,
    decreases items.len(),
{
    reveal(Seq::filter);
    if items.len() > 0 {
        assert(p(items[items.len() - 1]));
        assert forall|i: int| 0 <= i < items.drop_last().len() implies p(
            #[trigger] items.drop_last()[i],
        ) by {
            assert(p(items[i]));
        }
        lemma_filter_all(items.drop_last(), p);
        assert(items.drop_last().push(items.last()) =~= items);
    } else {
        assert(items.filter(p) =~= items);
    }
}

proof fn lemma_repeats(
    paths: Seq<Seq<char>>,
    heads: Seq<Seq<Seq<char>>>,
    parts: Seq<Seq<char>>,
)
    requires
        heads.no_duplicates(),
        forall|i: int|
            0 <= i < heads.len() ==> paths.filter(same_as(#[trigger] heads[i])).len() > 0,
    ensures
        order::gather(heads, listing::repeats_of(paths)).filter(same_as(parts)) == if heads.contains(
            parts,
        ) {
            paths.filter(same_as(parts)).drop_first()
        } else {
            Seq::empty()
        },
    decreases heads.len(),
{
    let f = listing::repeats_of(paths);
    if heads.len() == 0 {
        reveal(Seq::filter);
        assert(order::gather(heads, f).filter(same_as(parts)) =~= Seq::empty());
    } else {
        let shorter = heads.drop_last();
        let last = heads.last();
        assert(heads[heads.len() - 1] == last);
        assert forall|i: int, j: int|
            0 <= i < shorter.len() && 0 <= j < shorter.len() && i != j implies shorter[i]
            != shorter[j] by {
            assert(heads[i] != heads[j]);
        }
        assert forall|i: int| 0 <= i < shorter.len() implies paths.filter(
            same_as(#[trigger] shorter[i]),
        ).len() > 0 by {
            assert(shorter[i] == heads[i]);
        }
        lemma_repeats(paths, shorter, parts);
        Seq::filter_distributes_over_add(order::gather(shorter, f), f(last), same_as(parts));
        lemma_with_parts(paths, last);
        let same = paths.filter(same_as(last));
        let more = f(last);
        assert(more == same.drop_first());
        assert forall|i: int| 0 <= i < more.len() implies path::components(#[trigger] more[i])
            == last by {
            paths.lemma_filter_pred(same_as(last), i + 1);
            assert(more[i] == same[i + 1]);
        }
        if last == parts {
            if shorter.contains(parts) {
                let i = choose|i: int| 0 <= i < shorter.len() && shorter[i] == parts;
                assert(heads[i] == heads[heads.len() - 1]);
            }
            lemma_filter_all(more, same_as(parts));
            assert(Seq::<Seq<char>>::empty() + more =~= more);
        } else {
            lemma_filter_none(more, same_as(parts));
            let before = order::gather(shorter, f).filter(same_as(parts));
            assert(before + Seq::<Seq<char>>::empty() =~= before);
            if heads.contains(parts) {
                let i = choose|i: int| 0 <= i < heads.len() && heads[i] == parts;
                assert(shorter[i] == parts);
            }
            if shorter.contains(parts) {
                let i = choose|i: int| 0 <= i < shorter.len() && shorter[i] == parts;
                assert(heads[i] == parts);
            }
        }
    }
}

/// Of paths that are the same all but the first are repeats, in the order in which they were
/// given.
pub proof fn law_all_but_the_first_are_repeats(paths: Seq<Seq<char>>, parts: Seq<Seq<char>>)
    ensures
        ({
            let same = paths.filter(same_as(parts));
            listing::repeats(paths).filter(same_as(parts)) == if same.len() == 0 {
                Seq::empty()
            } else {
                same.drop_first()
            }
        }),
{
    let heads = listing::sorted_keys(paths);
    let same = paths.filter(same_as(parts));
    let f = |s: Seq<char>| path::components(s);
    let all = paths.map_values(f);
    listing::lemma_path_order_total();
    order::lemma_ascending(listing::keys(paths), listing::path_order());
    order::lemma_in_order_distinct(heads, listing::path_order());
    assert forall|i: int| 0 <= i < heads.len() implies paths.filter(
        same_as(#[trigger] heads[i]),
    ).len() > 0 by {
        assert(heads.to_set().contains(heads[i]));
        assert(all.to_set().contains(heads[i]));
        let k = choose|k: int| 0 <= k < all.len() && all[k] == heads[i];
        paths.lemma_filter_contains(same_as(heads[i]), k);
        assert(paths.filter(same_as(heads[i])).contains(paths[k]));
    }
    lemma_repeats(paths, heads, parts);
    assert(heads.contains(parts) <==> heads.to_set().contains(parts));
    if heads.contains(parts) {
        assert(all.to_set().contains(parts));
        let k = choose|k: int| 0 <= k < all.len() && all[k] == parts;
        paths.lemma_filter_contains(same_as(parts), k);
        assert(same.contains(paths[k]));
    }
    if same.len() > 0 && !heads.contains(parts) {
        paths.lemma_filter_pred(same_as(parts), 0);
        lemma_filtered_is_there(paths, same_as(parts), 0);
        let k = choose|k: int| 0 <= k < paths.len() && paths[k] == same[0];
        assert(all[k] == parts);
        assert(all.to_set().contains(parts));
    }
}

proof fn lemma_repeats_in_order(paths: Seq<Seq<char>>, heads: Seq<Seq<Seq<char>>>)
    requires
        order::in_order(heads, listing::path_order()),
        forall|i: int|
            0 <= i < heads.len() ==> paths.filter(same_as(#[trigger] heads[i])).len() > 0,
    ensures
        ({
            let all = order::gather(heads, listing::repeats_of(paths));
            &&& forall|i: int|
                0 <= i < all.len() ==> heads.contains(path::components(#[trigger] all[i]))
            &&& forall|i: int, j: int|
                0 <= i < j < all.len() ==> path::components(#[trigger] all[i]) == path::components(
                    #[trigger] all[j],
                ) || listing::parts_less(path::components(all[i]), path::components(all[j]))
        }),
    decreases heads.len(),
{
    let f = listing::repeats_of(paths);
    if heads.len() > 0 {
        let shorter = heads.drop_last();
        let last = heads.last();
        assert(heads[heads.len() - 1] == last);
        assert forall|i: int, j: int| 0 <= i < j < shorter.len() implies listing::path_order()(
            #[trigger] shorter[i],
            #[trigger] shorter[j],
        ) by {
            assert(listing::path_order()(heads[i], heads[j]));
        }
        assert forall|i: int| 0 <= i < shorter.len() implies paths.filter(
            same_as(#[trigger] shorter[i]),
        ).len() > 0 by {
            assert(shorter[i] == heads[i]);
        }
        lemma_repeats_in_order(paths, shorter);
        lemma_with_parts(paths, last);
        let before = order::gather(shorter, f);
        let more = f(last);
        let all = before + more;
        let same = paths.filter(same_as(last));
        assert forall|i: int| 0 <= i < more.len() implies path::components(#[trigger] more[i])
            == last by {
            paths.lemma_filter_pred(same_as(last), i + 1);
            assert(more[i] == same[i + 1]);
        }
        assert forall|i: int| 0 <= i < all.len() implies heads.contains(
            path::components(#[trigger] all[i]),
        ) by {
            if i < before.len() {
                assert(all[i] == before[i]);
                let k = choose|k: int|
                    0 <= k < shorter.len() && shorter[k] == path::components(before[i]);
                assert(heads[k] == path::components(all[i]));
            } else {
                assert(all[i] == more[i - before.len()]);
            }
        }
        assert forall|i: int, j: int| 0 <= i < j < all.len() implies path::components(
            #[trigger] all[i],
        ) == path::components(#[trigger] all[j]) || listing::parts_less(
            path::components(all[i]),
            path::components(all[j]),
        ) by {
            if j < before.len() {
                assert(all[i] == before[i] && all[j] == before[j]);
            } else {
                assert(all[j] == more[j - before.len()]);
                if i < before.len() {
                    assert(all[i] == before[i]);
                    let k = choose|k: int|
                        0 <= k < shorter.len() && shorter[k] == path::components(before[i]);
                    assert(heads[k] == shorter[k]);
                    assert(listing::path_order()(heads[k], heads[heads.len() - 1]));
                } else {
                    assert(all[i] == more[i - before.len()]);
                }
            }
        }
    }
}

/// Repeats stand in the order of the paths.
pub proof fn law_repeats_stand_in_order(paths: Seq<Seq<char>>, i: int, j: int)
    requires
        0 <= i < j < listing::repeats(paths).len(),
    ensures
        ({
            let a = path::components(listing::repeats(paths)[i]);
            let b = path::components(listing::repeats(paths)[j]);
            a == b || path_earlier(a, b)
        }),
{
    let heads = listing::sorted_keys(paths);
    let f = |s: Seq<char>| path::components(s);
    let all = paths.map_values(f);
    listing::lemma_path_order_total();
    order::lemma_ascending(listing::keys(paths), listing::path_order());
    assert forall|k: int| 0 <= k < heads.len() implies paths.filter(
        same_as(#[trigger] heads[k]),
    ).len() > 0 by {
        assert(heads.to_set().contains(heads[k]));
        assert(all.to_set().contains(heads[k]));
        let n = choose|n: int| 0 <= n < all.len() && all[n] == heads[k];
        paths.lemma_filter_contains(same_as(heads[k]), n);
        assert(paths.filter(same_as(heads[k])).contains(paths[n]));
    }
    lemma_repeats_in_order(paths, heads);
    law_path_order(
        path::components(listing::repeats(paths)[i]),
        path::components(listing::repeats(paths)[j]),
    );
}

proof fn lemma_filtered_is_there(items: Seq<Seq<char>>, p: spec_fn(Seq<char>) -> bool, i: int)
    requires
        0 <= i < items.filter(p).len(),
    ensures
        items.contains(items.filter(p)[i]),
    decreases items.len(),
{
    reveal(Seq::filter);
    if items.len() > 0 {
        let shorter = items.drop_last();
        if i < shorter.filter(p).len() {
            lemma_filtered_is_there(shorter, p, i);
            let k = choose|k: int| 0 <= k < shorter.len() && shorter[k] == shorter.filter(p)[i];
            assert(items[k] == items.filter(p)[i]);
        } else {
            assert(items[items.len() - 1] == items.filter(p)[i]);
        }
    }
}

} // verus!
