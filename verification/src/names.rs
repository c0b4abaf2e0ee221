//! A map from names to values that lists its entries in the order of the names.

use crate::order;
use crate::order::comes_before;
use crate::text::same_text;
use vstd::prelude::*;

verus! {

/// Values kept under distinct names.
///
/// The entries stand in the order of their names, so that walking through them
/// gives that order.
#[derive(Debug, PartialEq, Eq)]
pub struct NameMap<V> {
    entries: Vec<(String, V)>,
}

impl<V> NameMap<V> {
    /// The names in the order in which the entries stand.
    closed spec fn listed(self) -> Seq<Seq<char>> {
        self.entries@.map_values(|e: (String, V)| e.0@)
    }

    #[verifier::type_invariant]
    spec fn sorted(self) -> bool {
        order::in_order(self.listed(), order::text_order())
    }

    /// Where the entry of a name stands.
    spec fn place(self, name: Seq<char>) -> int {
        choose|i: int| 0 <= i < self.entries@.len() && self.entries@[i].0@ == name
    }
}

impl<V> View for NameMap<V> {
    type V = Map<Seq<char>, V>;

    /// The value that each name is mapped to.
    closed spec fn view(&self) -> Map<Seq<char>, V> {
        Map::new(
            |name: Seq<char>| self.listed().contains(name),
            |name: Seq<char>| self.entries@[self.place(name)].1,
        )
    }
}

impl<V> NameMap<V> {
    proof fn lemma_entry(self, i: int)
        requires
            self.sorted(),
            0 <= i < self.entries@.len(),
        ensures
            self@.contains_key(self.entries@[i].0@),
            self@[self.entries@[i].0@] == self.entries@[i].1,
    {
        let name = self.entries@[i].0@;
        assert(self.listed()[i] == name);
        let j = self.place(name);
        assert(self.listed()[j] == name);
        order::lemma_orders_total();
        if i < j {
            assert(order::text_order()(self.listed()[i], self.listed()[j]));
        } else if j < i {
            assert(order::text_order()(self.listed()[j], self.listed()[i]));
        }
    }

    proof fn lemma_listed(self)
        requires
            self.sorted(),
        ensures
            self.listed() == order::names(self@.dom()),
            self@.dom().finite(),
            self@.dom() == self.listed().to_set(),
    {
        order::lemma_orders_total();
        assert(self.listed().to_set() =~= self@.dom());
        order::lemma_ascending_is(self.listed(), self@.dom(), order::text_order());
        vstd::seq_lib::seq_to_set_is_finite(self.listed());
    }

    /// There are only finitely many names.
    pub proof fn lemma_finite(self)
        ensures
            self@.dom().finite(),
    {
        assert(self.listed().to_set() =~= self@.dom());
        vstd::seq_lib::seq_to_set_is_finite(self.listed());
    }

    /// A map without entries.
    pub fn new() -> (map: NameMap<V>)
        ensures
            map@ == Map::<Seq<char>, V>::empty(),
    {
        let map = NameMap { entries: Vec::new() };
        assert(map@ =~= Map::<Seq<char>, V>::empty());
        map
    }

    /// How many names there are.
    pub fn len(&self) -> (n: usize)
        ensures
            n == self@.dom().len(),
            n == order::names(self@.dom()).len(),
            self@.dom().finite(),
    {
        proof {
            use_type_invariant(self);
            self.lemma_listed();
            order::lemma_orders_total();
            order::lemma_in_order_distinct(self.listed(), order::text_order());
            self.listed().unique_seq_to_set();
        }
        self.entries.len()
    }

    /// The entry at a place in the order of the names.
    pub fn entry(&self, i: usize) -> (entry: (&String, &V))
        requires
            i < order::names(self@.dom()).len(),
        ensures
            entry.0@ == order::names(self@.dom())[i as int],
            self@.contains_key(entry.0@),
            *entry.1 == self@[entry.0@],
    {
        proof {
            use_type_invariant(self);
            self.lemma_listed();
            self.lemma_entry(i as int);
        }
        (&self.entries[i].0, &self.entries[i].1)
    }

    /// All entries in the order of the names.
    pub fn into_entries(self) -> (entries: Vec<(String, V)>)
        ensures
            entries@.map_values(|e: (String, V)| e.0@) == order::names(self@.dom()),
            self@.dom().finite(),
            forall|i: int|
                0 <= i < entries@.len() ==> self@.contains_key((#[trigger] entries@[i]).0@)
                    && self@[entries@[i].0@] == entries@[i].1,
            forall|name: Seq<char>| #[trigger]
                self@.contains_key(name) ==> order::names(self@.dom()).contains(name),
    {
        proof {
            use_type_invariant(&self);
            self.lemma_listed();
            assert forall|i: int| 0 <= i < self.entries@.len() implies self@.contains_key(
                (#[trigger] self.entries@[i]).0@,
            ) && self@[self.entries@[i].0@] == self.entries@[i].1 by {
                self.lemma_entry(i);
            }
        }
        self.entries
    }

    /// How many entries have a name before the given one.
    fn lower_bound(&self, name: &str) -> (n: usize)
        requires
            self.sorted(),
        ensures
            n <= self.entries@.len(),
            forall|i: int| 0 <= i < n ==> order::text_less(#[trigger] self.listed()[i], name@),
            forall|i: int|
                n <= i < self.entries@.len() ==> !order::text_less(
                    #[trigger] self.listed()[i],
                    name@,
                ),
    {
        let mut n: usize = 0;
        while n < self.entries.len() && comes_before(self.entries[n].0.as_str(), name)
            invariant
                n <= self.entries@.len(),
                forall|i: int| 0 <= i < n ==> order::text_less(#[trigger] self.listed()[i], name@),
            decreases self.entries@.len() - n,
        {
            n = n + 1;
        }
        proof {
            assert forall|i: int| n <= i < self.entries@.len() implies !order::text_less(
                #[trigger] self.listed()[i],
                name@,
            ) by {
                assert(!order::text_less(self.listed()[n as int], name@));
                if order::text_less(self.listed()[i], name@) {
                    assert(order::text_order()(self.listed()[n as int], self.listed()[i]));
                    order::lemma_text_less_transitive(self.listed()[n as int], self.listed()[i], name@);
                }
            }
        }
        n
    }

    /// The value under a name.
    pub fn get(&self, name: &str) -> (value: Option<&V>)
        ensures
            match value {
                Some(v) => self@.contains_key(name@) && *v == self@[name@],
                None => !self@.contains_key(name@),
            },
    {
        proof {
            use_type_invariant(self);
        }
        let n: usize = self.lower_bound(name);
        if n < self.entries.len() && same_text(self.entries[n].0.as_str(), name) {
            proof {
                self.lemma_entry(n as int);
            }
            Some(&self.entries[n].1)
        } else {
            proof {
                if self@.contains_key(name@) {
                    let j = choose|j: int| 0 <= j < self.listed().len() && self.listed()[j] == name@;
                    order::lemma_text_less_total(name@, name@);
                    assert(n < j);
                    assert(order::text_order()(self.listed()[n as int], self.listed()[j]));
                    assert(false);
                }
            }
            None
        }
    }

    /// Whether there is a value under a name.
    pub fn contains_key(&self, name: &str) -> (yes: bool)
        ensures
            yes == self@.contains_key(name@),
    {
        self.get(name).is_some()
    }

    /// Puts a value under a name, in place of the one that may be there.
    pub fn insert(&mut self, name: String, value: V)
        ensures
            final(self)@ == old(self)@.insert(name@, value),
    {
        proof {
            use_type_invariant(&*self);
        }
        let ghost before = *self;
        let n: usize = self.lower_bound(name.as_str());
        let there: bool = n < self.entries.len() && same_text(self.entries[n].0.as_str(), name.as_str());
        let mut entries: Vec<(String, V)> = Vec::new();
        std::mem::swap(&mut entries, &mut self.entries);
        let ghost e = (name, value);
        if there {
            entries[n] = (name, value);
        } else {
            entries.insert(n, (name, value));
        }
        proof {
            let after = NameMap { entries };
            before.lemma_insert(after, n as int, e, there);
        }
        self.entries = entries;
    }

    /// Takes the value out that is kept under a name.
    pub fn remove(&mut self, name: &str) -> (value: Option<V>)
        ensures
            match value {
                Some(v) => old(self)@.contains_key(name@) && v == old(self)@[name@],
                None => !old(self)@.contains_key(name@),
            },
            final(self)@ == old(self)@.remove(name@),
    {
        proof {
            use_type_invariant(&*self);
        }
        let ghost before = *self;
        if self.get(name).is_none() {
            assert(before@ =~= before@.remove(name@));
            return None;
        }
        let n: usize = self.lower_bound(name);
        proof {
            let j = choose|j: int| 0 <= j < self.listed().len() && self.listed()[j] == name@;
            order::lemma_text_less_total(name@, name@);
            if n < j {
                assert(order::text_order()(self.listed()[n as int], self.listed()[j]));
            }
            assert(n == j);
            before.lemma_entry(n as int);
        }
        let mut entries: Vec<(String, V)> = Vec::new();
        std::mem::swap(&mut entries, &mut self.entries);
        let entry = entries.remove(n);
        proof {
            let after = NameMap { entries };
            before.lemma_remove(after, n as int);
        }
        self.entries = entries;
        Some(entry.1)
    }

    proof fn lemma_remove(self, after: NameMap<V>, n: int)
        requires
            self.sorted(),
            0 <= n < self.entries@.len(),
            after.entries@ == self.entries@.remove(n),
        ensures
            after.sorted(),
            after@ == self@.remove(self.entries@[n].0@),
    {
        let old_list = self.listed();
        let new_list = after.listed();
        let name = old_list[n];
        assert(new_list =~= old_list.remove(n));
        assert forall|i: int, j: int| 0 <= i < j < new_list.len() implies order::text_order()(
            #[trigger] new_list[i],
            #[trigger] new_list[j],
        ) by {
            assert(order::text_order()(
                old_list[if i < n { i } else { i + 1 }],
                old_list[if j < n { j } else { j + 1 }],
            ));
        }
        order::lemma_orders_total();
        order::lemma_in_order_distinct(old_list, order::text_order());
        assert forall|k: Seq<char>| #[trigger]
            after@.contains_key(k) == self@.remove(name).contains_key(k) by {
            if old_list.contains(k) && k != name {
                let i = choose|i: int| 0 <= i < old_list.len() && old_list[i] == k;
                assert(new_list[if i < n { i } else { i - 1 }] == k);
            }
            if new_list.contains(k) {
                let i = choose|i: int| 0 <= i < new_list.len() && new_list[i] == k;
                assert(old_list[if i < n { i } else { i + 1 }] == k);
            }
        }
        assert forall|k: Seq<char>| #[trigger] after@.contains_key(k) implies after@[k] == self@[k] by {
            let i = choose|i: int| 0 <= i < new_list.len() && new_list[i] == k;
            after.lemma_entry(i);
            self.lemma_entry(if i < n { i } else { i + 1 });
        }
        assert(after@ =~= self@.remove(name));
    }

    proof fn lemma_insert(self, after: NameMap<V>, n: int, e: (String, V), there: bool)
        requires
            self.sorted(),
            0 <= n <= self.entries@.len(),
            forall|i: int| 0 <= i < n ==> order::text_less(#[trigger] self.listed()[i], e.0@),
            forall|i: int|
                n <= i < self.entries@.len() ==> !order::text_less(
                    #[trigger] self.listed()[i],
                    e.0@,
                ),
            there == (n < self.entries@.len() && self.entries@[n].0@ == e.0@),
            after.entries@ == (if there {
                self.entries@.update(n, e)
            } else {
                self.entries@.insert(n, e)
            }),
        ensures
            after.sorted(),
            after@ == self@.insert(e.0@, e.1),
    {
        let name = e.0@;
        let value = e.1;
        let old_list = self.listed();
        let new_list = after.listed();
        if there {
            assert(new_list =~= old_list);
        } else {
            assert(new_list =~= old_list.insert(n, name));
            assert forall|i: int, j: int| 0 <= i < j < new_list.len() implies order::text_order()(
                #[trigger] new_list[i],
                #[trigger] new_list[j],
            ) by {
                if j < n {
                    assert(order::text_order()(old_list[i], old_list[j]));
                } else if j == n {
                    assert(order::text_less(old_list[i], name));
                } else if i < n {
                    assert(order::text_order()(old_list[i], old_list[j - 1]));
                } else if i == n {
                    assert(!order::text_less(old_list[j - 1], name));
                    order::lemma_text_less_total(old_list[j - 1], name);
                    if old_list[j - 1] == name {
                        if n < j - 1 {
                            assert(order::text_order()(old_list[n], old_list[j - 1]));
                            assert(!order::text_less(old_list[n], name));
                        }
                        assert(false);
                    }
                } else {
                    assert(order::text_order()(old_list[i - 1], old_list[j - 1]));
                }
            }
        }
        assert(after.sorted());
        assert(new_list[n] == name);
        assert forall|k: Seq<char>| #[trigger]
            after@.contains_key(k) == self@.insert(name, value).contains_key(k) by {
            if old_list.contains(k) {
                let i = choose|i: int| 0 <= i < old_list.len() && old_list[i] == k;
                if there || i < n {
                    assert(new_list[i] == k);
                } else {
                    assert(new_list[i + 1] == k);
                }
            }
            if new_list.contains(k) && k != name {
                let i = choose|i: int| 0 <= i < new_list.len() && new_list[i] == k;
                if there || i < n {
                    assert(old_list[i] == k);
                } else {
                    assert(old_list[i - 1] == k);
                }
            }
        }
        assert forall|k: Seq<char>| #[trigger] after@.contains_key(k) implies after@[k]
            == self@.insert(name, value)[k] by {
            let i = choose|i: int| 0 <= i < new_list.len() && new_list[i] == k;
            after.lemma_entry(i);
            if i != n {
                order::lemma_orders_total();
                if i < n {
                    assert(order::text_order()(new_list[i], new_list[n]));
                } else {
                    assert(order::text_order()(new_list[n], new_list[i]));
                }
                self.lemma_entry(if there || i < n { i } else { i - 1 });
            }
        }
        assert(after@ =~= self@.insert(name, value));
    }
}

impl<V: Clone> Clone for NameMap<V> {
    fn clone(&self) -> (map: NameMap<V>)
        ensures
            map@.dom() == self@.dom(),
            forall|name: Seq<char>| #[trigger]
                self@.contains_key(name) ==> cloned::<V>(self@[name], map@[name]),
    {
        proof {
            use_type_invariant(self);
        }
        let mut entries: Vec<(String, V)> = Vec::new();
        let mut i: usize = 0;
        while i < self.entries.len()
            invariant
                i <= self.entries@.len(),
                entries@.len() == i,
                forall|j: int|
                    0 <= j < i ==> (#[trigger] entries@[j]).0 == self.entries@[j].0 && cloned::<V>(
                        self.entries@[j].1,
                        entries@[j].1,
                    ),
            decreases self.entries@.len() - i,
        {
            entries.push((self.entries[i].0.clone(), self.entries[i].1.clone()));
            i = i + 1;
        }
        let ghost g = NameMap { entries };
        proof {
            assert(g.listed() =~= self.listed());
            assert(g@.dom() =~= self@.dom());
            assert forall|name: Seq<char>| #[trigger] self@.contains_key(name) implies cloned::<V>(
                self@[name],
                g@[name],
            ) by {
                let j = choose|j: int| 0 <= j < self.listed().len() && self.listed()[j] == name;
                self.lemma_entry(j);
                g.lemma_entry(j);
            }
        }
        NameMap { entries }
    }
}

impl<V> Default for NameMap<V> {
    fn default() -> (map: NameMap<V>)
        ensures
            map@ == Map::<Seq<char>, V>::empty(),
    {
        NameMap::new()
    }
}

} // verus!
