//! Orders on texts and numbers, and what it means to list a set in order.

use crate::text::chars_of;
use vstd::prelude::*;

verus! {

/// Whether every item stands before those that follow it.
pub open spec fn in_order<K>(items: Seq<K>, less: spec_fn(K, K) -> bool) -> bool {
    forall|i: int, j: int| 0 <= i < j < items.len() ==> less(#[trigger] items[i], #[trigger] items[j])
}

/// The items of a set, the least first.
pub open spec fn ascending<K>(items: Set<K>, less: spec_fn(K, K) -> bool) -> Seq<K> {
    choose|q: Seq<K>| in_order(q, less) && #[trigger] q.to_set() == items
}

/// Whether `less` never holds both ways round, so that no item is less than itself.
pub open spec fn one_way<K>(less: spec_fn(K, K) -> bool) -> bool {
    forall|a: K, b: K| #[trigger] less(a, b) ==> !less(b, a)
}

/// Two listings of the same items in the same order are the same.
pub proof fn lemma_one_listing<K>(a: Seq<K>, b: Seq<K>, less: spec_fn(K, K) -> bool)
    requires
        one_way(less),
        in_order(a, less),
        in_order(b, less),
        a.to_set() == b.to_set(),
    ensures
        a == b,
    decreases a.len(),
{
    if a.len() == 0 {
        if b.len() > 0 {
            assert(b.to_set().contains(b[0]));
            assert(a.contains(b[0]));
        }
        assert(a =~= b);
    } else {
        assert(a.to_set().contains(a.last()));
        assert(b.contains(a.last()));
        let i = choose|i: int| 0 <= i < b.len() && b[i] == a.last();
        assert(b.to_set().contains(b.last()));
        assert(a.contains(b.last()));
        let j = choose|j: int| 0 <= j < a.len() && a[j] == b.last();
        if i < b.len() - 1 {
            assert(less(b[i], b[b.len() - 1]));
            if j < a.len() - 1 {
                assert(less(a[j], a[a.len() - 1]));
            }
            assert(false);
        }
        let a1 = a.drop_last();
        let b1 = b.drop_last();
        assert forall|k: K| a1.contains(k) == b1.contains(k) by {
            if a1.contains(k) {
                let x = choose|x: int| 0 <= x < a1.len() && a1[x] == k;
                assert(a[x] == k);
                assert(less(a[x], a[a.len() - 1]));
                assert(a.to_set().contains(k));
                assert(b.contains(k));
                let y = choose|y: int| 0 <= y < b.len() && b[y] == k;
                assert(y < b.len() - 1);
                assert(b1[y] == k);
            }
            if b1.contains(k) {
                let y = choose|y: int| 0 <= y < b1.len() && b1[y] == k;
                assert(b[y] == k);
                assert(less(b[y], b[b.len() - 1]));
                assert(b.to_set().contains(k));
                assert(a.contains(k));
                let x = choose|x: int| 0 <= x < a.len() && a[x] == k;
                assert(x < a.len() - 1);
                assert(a1[x] == k);
            }
        }
        assert(a1.to_set() =~= b1.to_set());
        lemma_one_listing(a1, b1, less);
        assert(a =~= a1.push(a.last()));
        assert(b =~= b1.push(b.last()));
    }
}

/// No item stands twice in a listing in order.
pub proof fn lemma_in_order_distinct<K>(q: Seq<K>, less: spec_fn(K, K) -> bool)
    requires
        one_way(less),
        in_order(q, less),
    ensures
        q.no_duplicates(),
{
    assert forall|i: int, j: int| 0 <= i < q.len() && 0 <= j < q.len() && i != j implies q[i]
        != q[j] by {
        if i < j {
            assert(less(q[i], q[j]));
        } else {
            assert(less(q[j], q[i]));
        }
    }
}

/// A listing in order is the one that `ascending` gives.
pub proof fn lemma_ascending_is<K>(q: Seq<K>, items: Set<K>, less: spec_fn(K, K) -> bool)
    requires
        one_way(less),
        in_order(q, less),
        q.to_set() == items,
    ensures
        ascending(items, less) == q,
{
    lemma_one_listing(ascending(items, less), q, less);
}

/// Whether `less` decides between any two items and goes on from one to the next.
pub open spec fn total<K>(less: spec_fn(K, K) -> bool) -> bool {
    &&& one_way(less)
    &&& forall|a: K, b: K| a != b ==> #[trigger] less(a, b) || less(b, a)
    &&& forall|a: K, b: K, c: K| #[trigger] less(a, b) && #[trigger] less(b, c) ==> less(a, c)
}

/// Where an item belongs in a listing.
proof fn lemma_belongs<K>(q: Seq<K>, item: K, less: spec_fn(K, K) -> bool) -> (at: int)
    requires
        total(less),
        in_order(q, less),
        !q.contains(item),
    ensures
        0 <= at <= q.len(),
        forall|i: int| 0 <= i < at ==> less(#[trigger] q[i], item),
        forall|i: int| at <= i < q.len() ==> less(item, #[trigger] q[i]),
    decreases q.len(),
{
    if q.len() == 0 {
        return 0;
    }
    let shorter = q.drop_last();
    let last = q.last();
    assert(q.contains(last));
    if less(last, item) {
        assert forall|i: int| 0 <= i < q.len() implies less(#[trigger] q[i], item) by {
            if i < q.len() - 1 {
                assert(less(q[i], q[q.len() - 1]));
            }
        }
        q.len() as int
    } else {
        assert forall|i: int| 0 <= i < shorter.len() implies shorter[i] == #[trigger] q[i] by {}
        if shorter.contains(item) {
            let i = choose|i: int| 0 <= i < shorter.len() && shorter[i] == item;
            assert(q[i] == item);
        }
        let at = lemma_belongs(shorter, item, less);
        assert(less(item, last) || less(last, item));
        assert forall|i: int| at <= i < q.len() implies less(item, #[trigger] q[i]) by {
            if i < shorter.len() {
                assert(less(item, shorter[i]));
            }
        }
        assert forall|i: int| 0 <= i < at implies less(#[trigger] q[i], item) by {
            assert(less(shorter[i], item));
        }
        at
    }
}

/// Every finite set can be listed in order.
proof fn lemma_some_listing<K>(items: Set<K>, less: spec_fn(K, K) -> bool) -> (q: Seq<K>)
    requires
        items.finite(),
        total(less),
    ensures
        in_order(q, less),
        q.to_set() == items,
    decreases items.len(),
{
    if items.len() == 0 {
        let q = Seq::<K>::empty();
        assert(q.to_set() =~= items);
        return q;
    }
    let item = items.choose();
    let rest = lemma_some_listing(items.remove(item), less);
    if rest.contains(item) {
        assert(rest.to_set().contains(item));
    }
    let at = lemma_belongs(rest, item, less);
    let q = rest.insert(at, item);
    assert forall|i: int, j: int| 0 <= i < j < q.len() implies less(
        #[trigger] q[i],
        #[trigger] q[j],
    ) by {
        if j < at {
            assert(less(rest[i], rest[j]));
        } else if j == at {
            assert(less(rest[i], item));
        } else if i < at {
            assert(less(rest[i], rest[j - 1]));
        } else if i == at {
            assert(less(item, rest[j - 1]));
        } else {
            assert(less(rest[i - 1], rest[j - 1]));
        }
    }
    assert forall|k: K| #[trigger] q.to_set().contains(k) == items.contains(k) by {
        assert(rest.to_set().contains(k) == items.remove(item).contains(k));
        if rest.contains(k) {
            let i = choose|i: int| 0 <= i < rest.len() && rest[i] == k;
            assert(q[if i < at {
                i
            } else {
                i + 1
            }] == k);
        }
        if k == item {
            assert(q[at] == k);
        }
        if q.contains(k) && k != item {
            let i = choose|i: int| 0 <= i < q.len() && q[i] == k;
            assert(rest[if i < at {
                i
            } else {
                i - 1
            }] == k);
        }
    }
    assert(q.to_set() =~= items);
    q
}

/// The listing of a finite set is in order and holds the items of the set.
pub proof fn lemma_ascending<K>(items: Set<K>, less: spec_fn(K, K) -> bool)
    requires
        items.finite(),
        total(less),
    ensures
        in_order(ascending(items, less), less),
        ascending(items, less).to_set() == items,
{
    let q = lemma_some_listing(items, less);
    assert(in_order(q, less) && q.to_set() == items);
}

/// A pushed item is one more item of the set.
pub proof fn lemma_set_push<K>(q: Seq<K>, item: K)
    ensures
        q.push(item).to_set() == q.to_set().insert(item),
{
    let longer = q.push(item);
    assert forall|k: K| #[trigger] longer.to_set().contains(k) == q.to_set().insert(item).contains(
        k,
    ) by {
        if q.contains(k) {
            let j = choose|j: int| 0 <= j < q.len() && q[j] == k;
            assert(longer[j] == k);
        }
        if k == item {
            assert(longer[q.len() as int] == k);
        }
        if longer.contains(k) && k != item {
            let j = choose|j: int| 0 <= j < longer.len() && longer[j] == k;
            assert(q[j] == k);
        }
    }
    assert(longer.to_set() =~= q.to_set().insert(item));
}

/// What `f` gives for each key, one after the other.
pub open spec fn gather<K, R>(keys: Seq<K>, f: spec_fn(K) -> Seq<R>) -> Seq<R>
    decreases keys.len(),
{
    if keys.len() == 0 {
        Seq::empty()
    } else {
        gather(keys.drop_last(), f) + f(keys.last())
    }
}

/// One more key adds what `f` gives for it.
pub proof fn lemma_gather_step<K, R>(keys: Seq<K>, i: int, f: spec_fn(K) -> Seq<R>)
    requires
        0 <= i < keys.len(),
    ensures
        gather(keys.take(i + 1), f) == gather(keys.take(i), f) + f(keys[i]),
{
    assert(keys.take(i + 1).drop_last() =~= keys.take(i));
}

/// Nothing is gathered exactly where `f` gives nothing for any key.
pub proof fn lemma_gather_empty<K, R>(keys: Seq<K>, f: spec_fn(K) -> Seq<R>)
    ensures
        gather(keys, f).len() == 0 <==> forall|i: int|
            0 <= i < keys.len() ==> f(#[trigger] keys[i]).len() == 0,
    decreases keys.len(),
{
    if keys.len() > 0 {
        let shorter = keys.drop_last();
        lemma_gather_empty(shorter, f);
        assert forall|i: int| 0 <= i < shorter.len() implies shorter[i] == #[trigger] keys[i] by {}
        if gather(keys, f).len() == 0 {
            assert forall|i: int| 0 <= i < keys.len() implies f(#[trigger] keys[i]).len() == 0 by {
                if i < shorter.len() {
                    assert(f(shorter[i]).len() == 0);
                }
            }
        } else if forall|i: int| 0 <= i < keys.len() ==> f(#[trigger] keys[i]).len() == 0 {
            assert forall|i: int| 0 <= i < shorter.len() implies f(
                #[trigger] shorter[i],
            ).len() == 0 by {
                assert(f(keys[i]).len() == 0);
            }
            assert(f(keys[keys.len() - 1]).len() == 0);
        }
    }
}

/// What is gathered from two rows of keys one after the other.
pub proof fn lemma_gather_add<K, R>(a: Seq<K>, b: Seq<K>, f: spec_fn(K) -> Seq<R>)
    ensures
        gather(a + b, f) == gather(a, f) + gather(b, f),
    decreases b.len(),
{
    if b.len() == 0 {
        assert(a + b =~= a);
        assert(gather(a, f) + gather(b, f) =~= gather(a, f));
    } else {
        lemma_gather_add(a, b.drop_last(), f);
        assert((a + b).drop_last() =~= a + b.drop_last());
        assert(gather(a + b, f) =~= gather(a, f) + gather(b, f));
    }
}

/// The same items in another order give the same items, in some order.
pub proof fn lemma_gather_reordered<K, R>(a: Seq<K>, b: Seq<K>, f: spec_fn(K) -> Seq<R>)
    requires
        a.to_multiset() == b.to_multiset(),
    ensures
        gather(a, f).to_multiset() == gather(b, f).to_multiset(),
    decreases a.len(),
{
    broadcast use vstd::seq_lib::group_to_multiset_ensures;

    assert(a.len() == a.to_multiset().len());
    assert(b.len() == b.to_multiset().len());
    if a.len() == 0 {
        assert(gather(a, f) =~= gather(b, f));
    } else {
        let shorter = a.drop_last();
        let item = a.last();
        assert(shorter.push(item) =~= a);
        assert(a[a.len() - 1] == item);
        assert(a.to_multiset().count(item) > 0);
        assert(b.contains(item));
        let i = choose|i: int| 0 <= i < b.len() && b[i] == item;
        let rest = b.remove(i);
        assert(rest.to_multiset() == b.to_multiset().remove(item));
        assert(shorter.to_multiset() =~= a.to_multiset().remove(item));
        lemma_gather_reordered(shorter, rest, f);
        let front = b.take(i);
        let back = b.skip(i + 1);
        assert(b =~= front.push(item) + back);
        assert(rest =~= front + back);
        lemma_gather_add(front.push(item), back, f);
        lemma_gather_add(front, back, f);
        assert(front.push(item).drop_last() =~= front);
        let x = gather(front, f);
        let y = f(item);
        let z = gather(back, f);
        vstd::seq_lib::lemma_multiset_commutative(x, y);
        vstd::seq_lib::lemma_multiset_commutative(x + y, z);
        vstd::seq_lib::lemma_multiset_commutative(x, z);
        vstd::seq_lib::lemma_multiset_commutative(gather(shorter, f), y);
        assert(gather(a, f).to_multiset() =~= gather(b, f).to_multiset());
    }
}

/// What is gathered is the same where `f` and `g` give the same for each key, as far as
/// `c` tells.
pub proof fn lemma_gather_alike<K, R, T>(
    keys: Seq<K>,
    f: spec_fn(K) -> Seq<R>,
    g: spec_fn(K) -> Seq<R>,
    c: spec_fn(R) -> T,
)
    requires
        forall|i: int|
            0 <= i < keys.len() ==> f(#[trigger] keys[i]).map_values(c) == g(keys[i]).map_values(c),
    ensures
        gather(keys, f).map_values(c) == gather(keys, g).map_values(c),
    decreases keys.len(),
{
    if keys.len() > 0 {
        let shorter = keys.drop_last();
        assert forall|i: int| 0 <= i < shorter.len() implies f(#[trigger] shorter[i]).map_values(c)
            == g(shorter[i]).map_values(c) by {
            assert(shorter[i] == keys[i]);
        }
        lemma_gather_alike(shorter, f, g, c);
        let k = keys.last();
        assert(keys[keys.len() - 1] == k);
        assert((gather(shorter, f) + f(k)).map_values(c) =~= gather(shorter, f).map_values(c) + f(
            k,
        ).map_values(c));
        assert((gather(shorter, g) + g(k)).map_values(c) =~= gather(shorter, g).map_values(c) + g(
            k,
        ).map_values(c));
    }
}

/// The items for which `p` holds, in the order in which they stand.
pub open spec fn picked<K>(items: Seq<K>, p: spec_fn(K) -> bool) -> Seq<K>
    decreases items.len(),
{
    if items.len() == 0 {
        Seq::empty()
    } else if p(items.last()) {
        picked(items.drop_last(), p).push(items.last())
    } else {
        picked(items.drop_last(), p)
    }
}

/// One more item is picked if `p` holds for it.
pub proof fn lemma_picked_step<K>(items: Seq<K>, i: int, p: spec_fn(K) -> bool)
    requires
        0 <= i < items.len(),
    ensures
        picked(items.take(i + 1), p) == if p(items[i]) {
            picked(items.take(i), p).push(items[i])
        } else {
            picked(items.take(i), p)
        },
{
    assert(items.take(i + 1).drop_last() =~= items.take(i));
}

/// The picked items are those of the sequence for which `p` holds.
pub proof fn lemma_picked<K>(items: Seq<K>, p: spec_fn(K) -> bool)
    ensures
        forall|item: K| #[trigger] picked(items, p).contains(item) <==> items.contains(item) && p(
            item,
        ),
    decreases items.len(),
{
    if items.len() > 0 {
        let shorter = items.drop_last();
        let last = items.last();
        lemma_picked(shorter, p);
        assert forall|item: K| #[trigger] picked(items, p).contains(item) <==> items.contains(item)
            && p(item) by {
            assert(shorter.push(last) =~= items);
            lemma_set_push(shorter, last);
            assert(items.to_set().contains(item) == shorter.to_set().insert(last).contains(item));
            lemma_set_push(picked(shorter, p), last);
            assert(picked(items, p).to_set().contains(item) == picked(items, p).contains(item));
            assert(picked(shorter, p).to_set().contains(item) == picked(shorter, p).contains(
                item,
            ));
        }
    }
}

/// The order of `u32`.
pub open spec fn number_order() -> spec_fn(u32, u32) -> bool {
    |a: u32, b: u32| a < b
}

/// A set of ordinals, the lowest first.
pub open spec fn ordinals(items: Set<u32>) -> Seq<u32> {
    ascending(items, number_order())
}

/// The order of strings: by the first character in which they differ, and a text
/// before those that go on from it.
pub open spec fn text_less(a: Seq<char>, b: Seq<char>) -> bool
    decreases a.len(),
{
    if b.len() == 0 {
        false
    } else if a.len() == 0 {
        true
    } else if a[0] != b[0] {
        a[0] < b[0]
    } else {
        text_less(a.drop_first(), b.drop_first())
    }
}

/// The order of strings as a relation to list a set by.
pub open spec fn text_order() -> spec_fn(Seq<char>, Seq<char>) -> bool {
    |a: Seq<char>, b: Seq<char>| text_less(a, b)
}

/// A set of texts in the order of strings.
pub open spec fn names(items: Set<Seq<char>>) -> Seq<Seq<char>> {
    ascending(items, text_order())
}

/// The order of strings is one of two ways or equality, never two of them.
pub proof fn lemma_text_less_total(a: Seq<char>, b: Seq<char>)
    ensures
        text_less(a, b) ==> a != b && !text_less(b, a),
        !text_less(a, b) && !text_less(b, a) ==> a == b,
    decreases a.len(),
{
    if a.len() > 0 && b.len() > 0 {
        lemma_text_less_total(a.drop_first(), b.drop_first());
        if a[0] == b[0] && a.drop_first() == b.drop_first() {
            assert(a =~= seq![a[0]] + a.drop_first());
            assert(b =~= seq![b[0]] + b.drop_first());
        }
    } else if a.len() == 0 && b.len() == 0 {
        assert(a =~= b);
    }
}

/// The order of strings is transitive.
pub proof fn lemma_text_less_transitive(a: Seq<char>, b: Seq<char>, c: Seq<char>)
    requires
        text_less(a, b),
        text_less(b, c),
    ensures
        text_less(a, c),
    decreases a.len(),
{
    if a.len() > 0 && a[0] == b[0] && b[0] == c[0] {
        lemma_text_less_transitive(a.drop_first(), b.drop_first(), c.drop_first());
    }
}

/// The orders of numbers and of strings are total.
pub proof fn lemma_orders_total()
    ensures
        total(number_order()),
        total(text_order()),
{
    assert forall|a: Seq<char>, b: Seq<char>| #[trigger]
        text_order()(a, b) implies !text_order()(b, a) by {
        lemma_text_less_total(a, b);
    }
    assert forall|a: Seq<char>, b: Seq<char>| a != b implies #[trigger] text_order()(a, b)
        || text_order()(b, a) by {
        lemma_text_less_total(a, b);
    }
    assert forall|a: Seq<char>, b: Seq<char>, c: Seq<char>| #[trigger]
        text_order()(a, b) && #[trigger] text_order()(b, c) implies text_order()(a, c) by {
        lemma_text_less_transitive(a, b, c);
    }
}

/// Whether the text `a` comes before `b`.
pub fn comes_before(a: &str, b: &str) -> (yes: bool)
    ensures
        yes == text_less(a@, b@),
{
    let x = chars_of(a);
    let y = chars_of(b);
    chars_before(x.as_slice(), y.as_slice())
}

/// Whether the characters `x` come before `y` in the order of strings.
pub fn chars_before(x: &[char], y: &[char]) -> (yes: bool)
    ensures
        yes == text_less(x@, y@),
{
    let mut i: usize = 0;
    assert(x@.skip(0) == x@);
    assert(y@.skip(0) == y@);
    while i < x.len() && i < y.len()
        invariant
            i <= x@.len(),
            i <= y@.len(),
            text_less(x@.skip(i as int), y@.skip(i as int)) == text_less(x@, y@),
        decreases x@.len() - i,
    {
        assert(x@.skip(i as int).drop_first() =~= x@.skip(i + 1));
        assert(y@.skip(i as int).drop_first() =~= y@.skip(i + 1));
        if x[i] != y[i] {
            return x[i] < y[i];
        }
        i = i + 1;
    }
    i < y.len()
}

} // verus!
