//! The order in which things are listed.

use crate::compare;
use crate::lint;
use crate::order;
use crate::schema::{LintView, NodeKind, SchemaSetView};
use vstd::prelude::*;

verus! {

pub proof fn lemma_gather_flattens<K, R>(keys: Seq<K>, f: spec_fn(K) -> Seq<R>)
    ensures
        order::gather(keys, f) == keys.map_values(f).flatten(),
    decreases keys.len(),
{
    let all = keys.map_values(f);
    if keys.len() > 0 {
        let shorter = keys.drop_last();
        lemma_gather_flattens(shorter, f);
        assert(all =~= shorter.map_values(f).push(f(keys.last())));
        shorter.map_values(f).lemma_flatten_push(f(keys.last()));
    }
}

/// Whether a text comes before another: where they part, it has ended or has the smaller
/// character.
pub open spec fn earlier(a: Seq<char>, b: Seq<char>) -> bool {
    exists|i: int|
        0 <= i <= a.len() && i < b.len() && a.take(i) == #[trigger] b.take(i) && (i == a.len()
            || (a[i] as int) < (b[i] as int))
}

/// Names are put in order as texts.
pub proof fn law_text_order(a: Seq<char>, b: Seq<char>)
    ensures
        order::text_less(a, b) <==> earlier(a, b),
    decreases a.len(),
{
    if b.len() == 0 {
    } else if a.len() == 0 {
        assert(a.take(0) =~= b.take(0));
        assert(earlier(a, b));
    } else if a[0] != b[0] {
        assert(a.take(0) =~= b.take(0));
        if earlier(a, b) {
            let i = choose|i: int|
                0 <= i <= a.len() && i < b.len() && a.take(i) == #[trigger] b.take(i) && (i
                    == a.len() || (a[i] as int) < (b[i] as int));
            if i > 0 {
                assert(a.take(i)[0] == b.take(i)[0]);
            }
        }
    } else {
        let x = a.drop_first();
        let y = b.drop_first();
        law_text_order(x, y);
        if earlier(x, y) {
            let i = choose|i: int|
                0 <= i <= x.len() && i < y.len() && x.take(i) == #[trigger] y.take(i) && (i
                    == x.len() || (x[i] as int) < (y[i] as int));
            assert(a.take(i + 1) =~= seq![a[0]] + x.take(i));
            assert(b.take(i + 1) =~= seq![b[0]] + y.take(i));
            assert(earlier(a, b));
        }
        if earlier(a, b) {
            let i = choose|i: int|
                0 <= i <= a.len() && i < b.len() && a.take(i) == #[trigger] b.take(i) && (i
                    == a.len() || (a[i] as int) < (b[i] as int));
            assert(i > 0);
            assert(x.take(i - 1) =~= a.take(i).drop_first());
            assert(y.take(i - 1) =~= b.take(i).drop_first());
            assert(earlier(x, y));
        }
    }
}

/// Names are listed as texts in ascending order, and each once.
pub proof fn law_names_are_listed_in_order(items: Set<Seq<char>>)
    requires
        items.finite(),
    ensures
        order::names(items).to_set() == items,
        forall|i: int, j: int|
            0 <= i < j < order::names(items).len() ==> earlier(
                #[trigger] order::names(items)[i],
                #[trigger] order::names(items)[j],
            ),
{
    let listed = order::names(items);
    order::lemma_orders_total();
    order::lemma_ascending(items, order::text_order());
    assert forall|i: int, j: int| 0 <= i < j < listed.len() implies earlier(
        #[trigger] listed[i],
        #[trigger] listed[j],
    ) by {
        assert(order::text_order()(listed[i], listed[j]));
        law_text_order(listed[i], listed[j]);
    }
}

/// Ordinals are listed as numbers in ascending order, and each once.
pub proof fn law_ordinals_are_listed_in_order(items: Set<u32>)
    requires
        items.finite(),
    ensures
        order::ordinals(items).to_set() == items,
        forall|i: int, j: int|
            0 <= i < j < order::ordinals(items).len() ==> (#[trigger] order::ordinals(items)[i] as int)
                < (#[trigger] order::ordinals(items)[j] as int),
{
    let listed = order::ordinals(items);
    order::lemma_orders_total();
    order::lemma_ascending(items, order::number_order());
    assert forall|i: int, j: int| 0 <= i < j < listed.len() implies (#[trigger] listed[i] as int) < (
    #[trigger] listed[j] as int) by {
        assert(order::number_order()(listed[i], listed[j]));
    }
}

/// Violations are reported node by node in the order of the names, and in each node that has
/// kept its kind member by member in the order of the ordinals.
pub proof fn law_violations_come_in_order(
    before: SchemaSetView,
    after: SchemaSetView,
    name: Seq<char>,
)
    ensures
        compare::comparison(before, after).violations == order::names(
            before.nodes.dom(),
        ).map_values(compare::node_violations(before.nodes, after.nodes)).flatten(),
        ({
            let old_node = before.nodes[name];
            let new_node = after.nodes[name];
            after.nodes.contains_key(name) && old_node.kind == new_node.kind
                ==> compare::node_violations(before.nodes, after.nodes)(name) == match old_node.kind {
                NodeKind::Struct => order::ordinals(old_node.fields.dom()).map_values(
                    compare::field_violations(name, old_node.fields, new_node.fields),
                ).flatten(),
                NodeKind::Enum => order::ordinals(old_node.enum_values.dom()).map_values(
                    compare::enum_violations(name, old_node.enum_values, new_node.enum_values),
                ).flatten(),
                NodeKind::Interface => order::ordinals(old_node.methods.dom()).map_values(
                    compare::method_violations(name, old_node.methods, new_node.methods),
                ).flatten(),
            }
        }),
{
    let a = before.nodes[name];
    let b = after.nodes[name];
    lemma_gather_flattens(
        order::names(before.nodes.dom()),
        compare::node_violations(before.nodes, after.nodes),
    );
    lemma_gather_flattens(
        order::ordinals(a.fields.dom()),
        compare::field_violations(name, a.fields, b.fields),
    );
    lemma_gather_flattens(
        order::ordinals(a.enum_values.dom()),
        compare::enum_violations(name, a.enum_values, b.enum_values),
    );
    lemma_gather_flattens(
        order::ordinals(a.methods.dom()),
        compare::method_violations(name, a.methods, b.methods),
    );
}

/// All remarks, by what they are about.
pub open spec fn in_turn(before: SchemaSetView, after: SchemaSetView) -> Seq<Seq<LintView>> {
    seq![
        before.lints,
        after.lints,
        before.files.map_values(lint::missing_id("before"@)).flatten(),
        order::names(lint::ids(before.files)).map_values(
            lint::shared_id("before"@, before.files),
        ).flatten(),
        after.files.map_values(lint::missing_id("after"@)).flatten(),
        order::names(lint::ids(after.files)).map_values(
            lint::shared_id("after"@, after.files),
        ).flatten(),
        after.files.map_values(lint::changed_id(before.files)).flatten(),
        order::names(lint::ids(before.files)).map_values(
            lint::moved_id(before.files, after.files),
        ).flatten(),
        before.files.map_values(lint::removed_file(after.files)).flatten(),
        order::names(before.node_paths.dom()).map_values(
            lint::moved_node(before.node_paths, after.node_paths),
        ).flatten(),
        order::names(after.nodes.dom()).map_values(lint::node_pointers(after.nodes)).flatten(),
        order::names(before.nodes.dom()).map_values(
            compare::node_changes(before.nodes, after.nodes),
        ).flatten(),
    ]
}

/// Remarks come in this order: those that were made when the sides were read; on each side
/// files without an id, and ids of several files; files whose id changed; ids that moved;
/// files that are gone; nodes that moved; uses of `AnyPointer`; and members with other names
/// or default values.
pub proof fn law_remarks_come_in_order(before: SchemaSetView, after: SchemaSetView)
    ensures
        compare::comparison(before, after).lints == in_turn(before, after).flatten(),
{
    lemma_gather_flattens(before.files, lint::missing_id("before"@));
    lemma_gather_flattens(
        order::names(lint::ids(before.files)),
        lint::shared_id("before"@, before.files),
    );
    lemma_gather_flattens(after.files, lint::missing_id("after"@));
    lemma_gather_flattens(
        order::names(lint::ids(after.files)),
        lint::shared_id("after"@, after.files),
    );
    lemma_gather_flattens(after.files, lint::changed_id(before.files));
    lemma_gather_flattens(
        order::names(lint::ids(before.files)),
        lint::moved_id(before.files, after.files),
    );
    lemma_gather_flattens(before.files, lint::removed_file(after.files));
    lemma_gather_flattens(
        order::names(before.node_paths.dom()),
        lint::moved_node(before.node_paths, after.node_paths),
    );
    lemma_gather_flattens(order::names(after.nodes.dom()), lint::node_pointers(after.nodes));
    lemma_gather_flattens(
        order::names(before.nodes.dom()),
        compare::node_changes(before.nodes, after.nodes),
    );
    let parts = in_turn(before, after);
    lemma_joined(parts);
}

proof fn lemma_joined(parts: Seq<Seq<LintView>>)
    requires
        parts.len() == 12,
    ensures
        parts.flatten() == parts[0] + parts[1] + (parts[2] + parts[3]) + (parts[4] + parts[5])
            + parts[6] + parts[7] + parts[8] + parts[9] + parts[10] + parts[11],
{
    lemma_front(parts, 0);
    lemma_front(parts, 1);
    lemma_front(parts, 2);
    lemma_front(parts, 3);
    lemma_front(parts, 4);
    lemma_front(parts, 5);
    lemma_front(parts, 6);
    lemma_front(parts, 7);
    lemma_front(parts, 8);
    lemma_front(parts, 9);
    lemma_front(parts, 10);
    lemma_front(parts, 11);
    assert(parts.take(12) =~= parts);
    assert(parts.take(0).flatten() =~= Seq::empty());
    let two = parts[0] + parts[1];
    assert(parts.take(2).flatten() =~= two);
    assert(parts.take(4).flatten() =~= two + (parts[2] + parts[3]));
    assert(parts.take(6).flatten() =~= two + (parts[2] + parts[3]) + (parts[4] + parts[5]));
}

proof fn lemma_front(parts: Seq<Seq<LintView>>, i: int)
    requires
        0 <= i < parts.len(),
    ensures
        parts.take(i + 1).flatten() == parts.take(i).flatten() + parts[i],
{
    assert(parts.take(i + 1) =~= parts.take(i).push(parts[i]));
    parts.take(i).lemma_flatten_push(parts[i]);
}

} // verus!
