//! When schemas are compatible: what the comparison of two schema sets comes to.

use crate::compare;
use crate::lint;
use crate::order;
use crate::schema::{
    LintSeverity, LintView, NodeKind, NodeView, SchemaFileView, SchemaSet, SchemaSetView,
};
use vstd::prelude::*;

verus! {

/// Whether a node has only finitely many members, as every node that was read has.
pub open spec fn finite_node(node: NodeView) -> bool {
    &&& node.fields.dom().finite()
    &&& node.enum_values.dom().finite()
    &&& node.methods.dom().finite()
}

/// Whether a set has only finitely many nodes and members, as every set that was read
/// has.
pub open spec fn finite_set(set: SchemaSetView) -> bool {
    &&& set.nodes.dom().finite()
    &&& set.node_paths.dom().finite()
    &&& forall|name: Seq<char>| #[trigger]
        set.nodes.contains_key(name) ==> finite_node(set.nodes[name])
}

/// Every set has only finitely many nodes and members.
pub proof fn law_sets_are_finite(set: SchemaSet)
    ensures
        finite_set(set@),
{
    set.snapshot.nodes.lemma_finite();
    set.node_paths.lemma_finite();
    assert(set@.nodes.dom() =~= set.snapshot.nodes@.dom());
    assert(set@.node_paths.dom() =~= set.node_paths@.dom());
    assert forall|name: Seq<char>| #[trigger] set@.nodes.contains_key(name) implies finite_node(
        set@.nodes[name],
    ) by {
        let node = set.snapshot.nodes@[name];
        assert(set@.nodes[name] == node@);
        assert(node@.fields.dom() =~= node.fields@.dom());
        assert(node@.enum_values.dom() =~= node.enum_values@.dom());
        assert(node@.methods.dom() =~= node.methods@.dom());
    }
}

/// Whether a node still does what it did: its kind is the same, and each of its ordinals
/// is there with the same type or signature. Names do not count, and more ordinals may
/// be there.
pub open spec fn keeps(before: NodeView, after: NodeView) -> bool {
    &&& before.kind == after.kind
    &&& match before.kind {
        NodeKind::Struct => forall|ordinal: u32| #[trigger]
            before.fields.contains_key(ordinal) ==> after.fields.contains_key(ordinal)
                && compare::same_type(before.fields[ordinal], after.fields[ordinal]),
        NodeKind::Enum => forall|ordinal: u32| #[trigger]
            before.enum_values.contains_key(ordinal) ==> after.enum_values.contains_key(ordinal),
        NodeKind::Interface => forall|ordinal: u32| #[trigger]
            before.methods.contains_key(ordinal) ==> after.methods.contains_key(ordinal)
                && compare::same_signature(before.methods[ordinal], after.methods[ordinal]),
    }
}

/// Whether the members of a node that does what it did also have the names and default
/// values that they had.
pub open spec fn looks_the_same(before: NodeView, after: NodeView) -> bool {
    match before.kind {
        NodeKind::Struct => forall|ordinal: u32| #[trigger]
            before.fields.contains_key(ordinal) ==> before.fields[ordinal].name
                == after.fields[ordinal].name && compare::normal_default(
                before.fields[ordinal].default,
            ) == compare::normal_default(after.fields[ordinal].default),
        NodeKind::Enum => forall|ordinal: u32| #[trigger]
            before.enum_values.contains_key(ordinal) ==> before.enum_values[ordinal]
                == after.enum_values[ordinal],
        NodeKind::Interface => forall|ordinal: u32| #[trigger]
            before.methods.contains_key(ordinal) ==> before.methods[ordinal].name
                == after.methods[ordinal].name,
    }
}

/// Whether all nodes are still there and do what they did.
pub open spec fn all_kept(
    before: Map<Seq<char>, NodeView>,
    after: Map<Seq<char>, NodeView>,
) -> bool {
    forall|name: Seq<char>| #[trigger]
        before.contains_key(name) ==> after.contains_key(name) && keeps(before[name], after[name])
}

/// Gathering over a set gives nothing exactly if nothing is there for any of its items.
proof fn lemma_nothing_gathered<K, R>(
    items: Set<K>,
    less: spec_fn(K, K) -> bool,
    f: spec_fn(K) -> Seq<R>,
)
    requires
        items.finite(),
        order::total(less),
    ensures
        order::gather(order::ascending(items, less), f).len() == 0 <==> forall|k: K| #[trigger]
            items.contains(k) ==> f(k).len() == 0,
{
    let keys = order::ascending(items, less);
    order::lemma_ascending(items, less);
    order::lemma_gather_empty(keys, f);
    if order::gather(keys, f).len() == 0 {
        assert forall|k: K| #[trigger] items.contains(k) implies f(k).len() == 0 by {
            assert(keys.to_set().contains(k));
            let i = choose|i: int| 0 <= i < keys.len() && keys[i] == k;
            assert(f(keys[i]).len() == 0);
        }
    } else if forall|k: K| #[trigger] items.contains(k) ==> f(k).len() == 0 {
        assert forall|i: int| 0 <= i < keys.len() implies f(#[trigger] keys[i]).len() == 0 by {
            assert(keys.to_set().contains(keys[i]));
            assert(items.contains(keys[i]));
        }
    }
}

proof fn lemma_member_violations(name: Seq<char>, before: NodeView, after: NodeView)
    requires
        finite_node(before),
        before.kind == after.kind,
    ensures
        compare::member_violations(name, before, after).len() == 0 <==> keeps(before, after),
{
    order::lemma_orders_total();
    let less = order::number_order();
    match before.kind {
        NodeKind::Struct => {
            let f = compare::field_violations(name, before.fields, after.fields);
            lemma_nothing_gathered(before.fields.dom(), less, f);
            if keeps(before, after) {
                assert forall|k: u32| #[trigger] before.fields.dom().contains(k) implies f(k).len()
                    == 0 by {
                    assert(before.fields.contains_key(k));
                }
            } else {
                let k = choose|k: u32| #[trigger]
                    before.fields.contains_key(k) && !(after.fields.contains_key(k)
                        && compare::same_type(before.fields[k], after.fields[k]));
                assert(before.fields.dom().contains(k));
                assert(f(k).len() == 1);
            }
        },
        NodeKind::Enum => {
            let f = compare::enum_violations(name, before.enum_values, after.enum_values);
            lemma_nothing_gathered(before.enum_values.dom(), less, f);
            if keeps(before, after) {
                assert forall|k: u32| #[trigger] before.enum_values.dom().contains(k) implies f(
                    k,
                ).len() == 0 by {
                    assert(before.enum_values.contains_key(k));
                }
            } else {
                let k = choose|k: u32| #[trigger]
                    before.enum_values.contains_key(k) && !after.enum_values.contains_key(k);
                assert(before.enum_values.dom().contains(k));
                assert(f(k).len() == 1);
            }
        },
        NodeKind::Interface => {
            let f = compare::method_violations(name, before.methods, after.methods);
            lemma_nothing_gathered(before.methods.dom(), less, f);
            if keeps(before, after) {
                assert forall|k: u32| #[trigger] before.methods.dom().contains(k) implies f(k).len()
                    == 0 by {
                    assert(before.methods.contains_key(k));
                }
            } else {
                let k = choose|k: u32| #[trigger]
                    before.methods.contains_key(k) && !(after.methods.contains_key(k)
                        && compare::same_signature(before.methods[k], after.methods[k]));
                assert(before.methods.dom().contains(k));
                assert(f(k).len() == 1);
            }
        },
    }
}

/// Nothing breaks exactly if every earlier node is still there with its kind, and every
/// earlier ordinal with its type or signature. What is added and what is only renamed
/// breaks nothing.
pub proof fn law_nothing_breaks_iff_all_is_kept(before: SchemaSetView, after: SchemaSetView)
    requires
        finite_set(before),
    ensures
        compare::comparison(before, after).violations.len() == 0 <==> all_kept(
            before.nodes,
            after.nodes,
        ),
{
    let f = compare::node_violations(before.nodes, after.nodes);
    order::lemma_orders_total();
    lemma_nothing_gathered(before.nodes.dom(), order::text_order(), f);
    assert forall|name: Seq<char>| #[trigger]
        before.nodes.contains_key(name) implies (f(name).len() == 0 <==> after.nodes.contains_key(
        name,
    ) && keeps(before.nodes[name], after.nodes[name])) by {
        if after.nodes.contains_key(name) && before.nodes[name].kind == after.nodes[name].kind {
            lemma_member_violations(name, before.nodes[name], after.nodes[name]);
        }
    }
    if all_kept(before.nodes, after.nodes) {
        assert forall|name: Seq<char>| #[trigger] before.nodes.dom().contains(name) implies f(
            name,
        ).len() == 0 by {
            assert(before.nodes.contains_key(name));
        }
    } else {
        let name = choose|name: Seq<char>| #[trigger]
            before.nodes.contains_key(name) && !(after.nodes.contains_key(name) && keeps(
                before.nodes[name],
                after.nodes[name],
            ));
        assert(before.nodes.dom().contains(name));
        assert(f(name).len() != 0);
    }
}

/// Changes that break nothing break nothing together.
pub proof fn law_unbroken_changes_add_up(
    first: SchemaSetView,
    second: SchemaSetView,
    third: SchemaSetView,
)
    requires
        finite_set(first),
        finite_set(second),
        compare::comparison(first, second).violations.len() == 0,
        compare::comparison(second, third).violations.len() == 0,
    ensures
        compare::comparison(first, third).violations.len() == 0,
{
    law_nothing_breaks_iff_all_is_kept(first, second);
    law_nothing_breaks_iff_all_is_kept(second, third);
    law_nothing_breaks_iff_all_is_kept(first, third);
    assert forall|name: Seq<char>| #[trigger]
        first.nodes.contains_key(name) implies third.nodes.contains_key(name) && keeps(
        first.nodes[name],
        third.nodes[name],
    ) by {
        let a = first.nodes[name];
        let b = second.nodes[name];
        let c = third.nodes[name];
        assert(second.nodes.contains_key(name));
        assert(keeps(a, b) && keeps(b, c));
        match a.kind {
            NodeKind::Struct => {
                assert forall|k: u32| #[trigger]
                    a.fields.contains_key(k) implies c.fields.contains_key(k)
                    && compare::same_type(a.fields[k], c.fields[k]) by {
                    assert(b.fields.contains_key(k));
                }
            },
            NodeKind::Enum => {
                assert forall|k: u32| #[trigger]
                    a.enum_values.contains_key(k) implies c.enum_values.contains_key(k) by {
                    assert(b.enum_values.contains_key(k));
                }
            },
            NodeKind::Interface => {
                assert forall|k: u32| #[trigger]
                    a.methods.contains_key(k) implies c.methods.contains_key(k)
                    && compare::same_signature(a.methods[k], c.methods[k]) by {
                    assert(b.methods.contains_key(k));
                }
            },
        }
    }
}

/// Whether none of the remarks is an error.
pub open spec fn no_errors(lints: Seq<LintView>) -> bool {
    forall|i: int| 0 <= i < lints.len() ==> (#[trigger] lints[i]).severity != LintSeverity::Error
}

/// Whether all of the remarks are errors.
spec fn only_errors(lints: Seq<LintView>) -> bool {
    forall|i: int| 0 <= i < lints.len() ==> (#[trigger] lints[i]).severity == LintSeverity::Error
}

proof fn lemma_no_errors_add(a: Seq<LintView>, b: Seq<LintView>)
    ensures
        no_errors(a + b) <==> no_errors(a) && no_errors(b),
        only_errors(a) && only_errors(b) ==> only_errors(a + b),
        only_errors(a) ==> (no_errors(a) <==> a.len() == 0),
        only_errors(b) ==> (no_errors(b) <==> b.len() == 0),
{
    let c = a + b;
    assert forall|i: int| 0 <= i < a.len() implies c[i] == #[trigger] a[i] by {}
    assert forall|i: int| 0 <= i < b.len() implies c[a.len() + i] == #[trigger] b[i] by {}
    if no_errors(c) {
        assert forall|i: int| 0 <= i < a.len() implies (#[trigger] a[i]).severity
            != LintSeverity::Error by {
            assert(c[i].severity != LintSeverity::Error);
        }
        assert forall|i: int| 0 <= i < b.len() implies (#[trigger] b[i]).severity
            != LintSeverity::Error by {
            assert(c[a.len() + i].severity != LintSeverity::Error);
        }
    }
    assert(a.len() > 0 ==> a[0] == a[0]);
    assert(b.len() > 0 ==> b[0] == b[0]);
}

/// What only errors are gathered from are only errors.
proof fn lemma_only_errors<K>(keys: Seq<K>, f: spec_fn(K) -> Seq<LintView>)
    requires
        forall|i: int| 0 <= i < keys.len() ==> only_errors(f(#[trigger] keys[i])),
    ensures
        only_errors(order::gather(keys, f)),
    decreases keys.len(),
{
    if keys.len() > 0 {
        let shorter = keys.drop_last();
        assert forall|i: int| 0 <= i < shorter.len() implies only_errors(
            f(#[trigger] shorter[i]),
        ) by {
            assert(only_errors(f(keys[i])));
        }
        lemma_only_errors(shorter, f);
        assert(only_errors(f(keys[keys.len() - 1])));
        lemma_no_errors_add(order::gather(shorter, f), f(keys.last()));
    }
}

/// Whether every file has an id, and no two of them the same.
pub open spec fn ids_fine(files: Seq<SchemaFileView>) -> bool {
    &&& forall|i: int| 0 <= i < files.len() ==> (#[trigger] files[i]).file_id is Some
    &&& forall|id: Seq<char>| #[trigger]
        lint::has_id(files, id) ==> lint::paths_with_id(files, id).len() < 2
}

/// Whether the files of a set stay: none is gone, and none has another id at its path or
/// another path with its id.
pub open spec fn files_stay(before: Seq<SchemaFileView>, after: Seq<SchemaFileView>) -> bool {
    &&& forall|i: int| 0 <= i < before.len() ==> lint::still_there(#[trigger] before[i], after)
    &&& forall|i: int|
        0 <= i < after.len() ==> {
            let earlier = lint::last_with_path(before, (#[trigger] after[i]).relative_path);
            earlier is Some && earlier->0.file_id is Some && after[i].file_id is Some
                ==> earlier->0.file_id == after[i].file_id
        }
    &&& forall|id: Seq<char>| #[trigger]
        lint::has_id(before, id) ==> {
            let earlier = lint::last_with_id(before, id);
            let later = lint::last_with_id(after, id);
            earlier is Some && later is Some ==> earlier->0.relative_path == later->0.relative_path
        }
}

/// Whether the nodes of a set stay in the files that they are in.
pub open spec fn nodes_stay(
    before: Map<Seq<char>, Seq<char>>,
    after: Map<Seq<char>, Seq<char>>,
) -> bool {
    forall|name: Seq<char>| #[trigger]
        before.contains_key(name) && after.contains_key(name) ==> before[name] == after[name]
}

/// Whether the nodes that are kept also look the same.
pub open spec fn all_look_the_same(
    before: Map<Seq<char>, NodeView>,
    after: Map<Seq<char>, NodeView>,
) -> bool {
    forall|name: Seq<char>| #[trigger]
        before.contains_key(name) ==> looks_the_same(before[name], after[name])
}

proof fn lemma_ids_finite(files: Seq<SchemaFileView>)
    ensures
        lint::ids(files).finite(),
{
    let all = files.map_values(|file: SchemaFileView| file.file_id.unwrap());
    vstd::seq_lib::seq_to_set_is_finite(all);
    assert forall|id: Seq<char>| lint::ids(files).contains(id) implies all.to_set().contains(
        id,
    ) by {
        let i = choose|i: int| 0 <= i < files.len() && (#[trigger] files[i]).file_id == Some(id);
        assert(all[i] == id);
    }
    vstd::set_lib::lemma_set_subset_finite(all.to_set(), lint::ids(files));
}

proof fn lemma_file_ids(side: Seq<char>, files: Seq<SchemaFileView>)
    ensures
        no_errors(lint::file_id_lints(side, files)) <==> ids_fine(files),
{
    let f = lint::missing_id(side);
    let g = lint::shared_id(side, files);
    let a = order::gather(files, f);
    let b = order::gather(order::names(lint::ids(files)), g);
    order::lemma_orders_total();
    lemma_ids_finite(files);
    lemma_only_errors(files, f);
    lemma_only_errors(order::names(lint::ids(files)), g);
    lemma_no_errors_add(a, b);
    order::lemma_gather_empty(files, f);
    lemma_nothing_gathered(lint::ids(files), order::text_order(), g);
    if no_errors(a + b) {
        assert forall|i: int| 0 <= i < files.len() implies (#[trigger] files[i]).file_id is Some by {
            assert(f(files[i]).len() == 0);
        }
        assert forall|id: Seq<char>| #[trigger] lint::has_id(files, id) implies lint::paths_with_id(
            files,
            id,
        ).len() < 2 by {
            assert(lint::ids(files).contains(id));
        }
    }
    if ids_fine(files) {
        assert forall|id: Seq<char>| #[trigger] lint::ids(files).contains(id) implies g(id).len()
            == 0 by {
            assert(lint::has_id(files, id));
        }
    }
}

proof fn lemma_files_stay(before: Seq<SchemaFileView>, after: Seq<SchemaFileView>)
    ensures
        no_errors(
            order::gather(after, lint::changed_id(before)) + order::gather(
                order::names(lint::ids(before)),
                lint::moved_id(before, after),
            ) + order::gather(before, lint::removed_file(after)),
        ) <==> files_stay(before, after),
{
    let f = lint::changed_id(before);
    let g = lint::moved_id(before, after);
    let h = lint::removed_file(after);
    let a = order::gather(after, f);
    let b = order::gather(order::names(lint::ids(before)), g);
    let c = order::gather(before, h);
    order::lemma_orders_total();
    lemma_ids_finite(before);
    lemma_only_errors(after, f);
    lemma_only_errors(order::names(lint::ids(before)), g);
    lemma_only_errors(before, h);
    lemma_no_errors_add(a, b);
    lemma_no_errors_add(a + b, c);
    order::lemma_gather_empty(after, f);
    order::lemma_gather_empty(before, h);
    lemma_nothing_gathered(lint::ids(before), order::text_order(), g);
    if no_errors(a + b + c) {
        assert forall|i: int| 0 <= i < after.len() implies {
            let earlier = lint::last_with_path(before, (#[trigger] after[i]).relative_path);
            earlier is Some && earlier->0.file_id is Some && after[i].file_id is Some
                ==> earlier->0.file_id == after[i].file_id
        } by {
            assert(f(after[i]).len() == 0);
        }
        assert forall|i: int| 0 <= i < before.len() implies lint::still_there(
            #[trigger] before[i],
            after,
        ) by {
            assert(h(before[i]).len() == 0);
        }
        assert forall|id: Seq<char>| #[trigger] lint::has_id(before, id) implies {
            let earlier = lint::last_with_id(before, id);
            let later = lint::last_with_id(after, id);
            earlier is Some && later is Some ==> earlier->0.relative_path == later->0.relative_path
        } by {
            assert(lint::ids(before).contains(id));
            assert(g(id).len() == 0);
        }
    }
    if files_stay(before, after) {
        assert forall|id: Seq<char>| #[trigger] lint::ids(before).contains(id) implies g(id).len()
            == 0 by {
            assert(lint::has_id(before, id));
        }
        assert forall|i: int| 0 <= i < after.len() implies f(#[trigger] after[i]).len() == 0 by {}
        assert forall|i: int| 0 <= i < before.len() implies h(#[trigger] before[i]).len() == 0 by {}
    }
}

proof fn lemma_nodes_stay(before: Map<Seq<char>, Seq<char>>, after: Map<Seq<char>, Seq<char>>)
    requires
        before.dom().finite(),
    ensures
        no_errors(
            order::gather(order::names(before.dom()), lint::moved_node(before, after)),
        ) <==> nodes_stay(before, after),
{
    let f = lint::moved_node(before, after);
    let a = order::gather(order::names(before.dom()), f);
    order::lemma_orders_total();
    lemma_only_errors(order::names(before.dom()), f);
    lemma_no_errors_add(a, a);
    lemma_nothing_gathered(before.dom(), order::text_order(), f);
    if no_errors(a) {
        assert forall|name: Seq<char>| #[trigger]
            before.contains_key(name) && after.contains_key(name) implies before[name]
            == after[name] by {
            assert(before.dom().contains(name));
            assert(f(name).len() == 0);
        }
    }
    if nodes_stay(before, after) {
        assert forall|name: Seq<char>| #[trigger] before.dom().contains(name) implies f(name).len()
            == 0 by {
            assert(before.contains_key(name));
        }
    }
}

proof fn lemma_member_changes(name: Seq<char>, before: NodeView, after: NodeView)
    requires
        finite_node(before),
    ensures
        only_errors(compare::member_changes(name, before, after)),
        keeps(before, after) ==> (compare::member_changes(name, before, after).len() == 0
            <==> looks_the_same(before, after)),
{
    order::lemma_orders_total();
    let less = order::number_order();
    match before.kind {
        NodeKind::Struct => {
            let keys = order::ordinals(before.fields.dom());
            let f = compare::field_renames(name, before.fields, after.fields);
            let g = compare::default_changes(name, before.fields, after.fields);
            lemma_only_errors(keys, f);
            lemma_only_errors(keys, g);
            lemma_no_errors_add(order::gather(keys, f), order::gather(keys, g));
            lemma_nothing_gathered(before.fields.dom(), less, f);
            lemma_nothing_gathered(before.fields.dom(), less, g);
            if keeps(before, after) {
                assert forall|k: u32| #[trigger] before.fields.contains_key(k) implies (f(k).len()
                    == 0 && g(k).len() == 0 <==> before.fields[k].name == after.fields[k].name
                    && compare::normal_default(before.fields[k].default)
                    == compare::normal_default(after.fields[k].default)) by {}
                if compare::member_changes(name, before, after).len() == 0 {
                    assert forall|k: u32| #[trigger]
                        before.fields.contains_key(k) implies before.fields[k].name
                        == after.fields[k].name && compare::normal_default(before.fields[k].default)
                        == compare::normal_default(after.fields[k].default) by {
                        assert(before.fields.dom().contains(k));
                        assert(f(k).len() == 0 && g(k).len() == 0);
                    }
                } else if looks_the_same(before, after) {
                    assert forall|k: u32| #[trigger] before.fields.dom().contains(k) implies f(
                        k,
                    ).len() == 0 by {
                        assert(before.fields.contains_key(k));
                    }
                    assert forall|k: u32| #[trigger] before.fields.dom().contains(k) implies g(
                        k,
                    ).len() == 0 by {
                        assert(before.fields.contains_key(k));
                    }
                }
            }
        },
        NodeKind::Enum => {
            let keys = order::ordinals(before.enum_values.dom());
            let f = compare::enum_renames(name, before.enum_values, after.enum_values);
            lemma_only_errors(keys, f);
            lemma_nothing_gathered(before.enum_values.dom(), less, f);
            if keeps(before, after) {
                if compare::member_changes(name, before, after).len() == 0 {
                    assert forall|k: u32| #[trigger]
                        before.enum_values.contains_key(k) implies before.enum_values[k]
                        == after.enum_values[k] by {
                        assert(before.enum_values.dom().contains(k));
                        assert(f(k).len() == 0);
                    }
                } else if looks_the_same(before, after) {
                    assert forall|k: u32| #[trigger] before.enum_values.dom().contains(k) implies f(
                        k,
                    ).len() == 0 by {
                        assert(before.enum_values.contains_key(k));
                    }
                }
            }
        },
        NodeKind::Interface => {
            let keys = order::ordinals(before.methods.dom());
            let f = compare::method_renames(name, before.methods, after.methods);
            lemma_only_errors(keys, f);
            lemma_nothing_gathered(before.methods.dom(), less, f);
            if keeps(before, after) {
                if compare::member_changes(name, before, after).len() == 0 {
                    assert forall|k: u32| #[trigger]
                        before.methods.contains_key(k) implies before.methods[k].name
                        == after.methods[k].name by {
                        assert(before.methods.dom().contains(k));
                        assert(f(k).len() == 0);
                    }
                } else if looks_the_same(before, after) {
                    assert forall|k: u32| #[trigger] before.methods.dom().contains(k) implies f(
                        k,
                    ).len() == 0 by {
                        assert(before.methods.contains_key(k));
                    }
                }
            }
        },
    }
}

proof fn lemma_node_changes(before: SchemaSetView, after: SchemaSetView)
    requires
        finite_set(before),
    ensures
        all_kept(before.nodes, after.nodes) ==> (no_errors(
            order::gather(
                order::names(before.nodes.dom()),
                compare::node_changes(before.nodes, after.nodes),
            ),
        ) <==> all_look_the_same(before.nodes, after.nodes)),
{
    let f = compare::node_changes(before.nodes, after.nodes);
    let keys = order::names(before.nodes.dom());
    let a = order::gather(keys, f);
    order::lemma_orders_total();
    order::lemma_ascending(before.nodes.dom(), order::text_order());
    lemma_nothing_gathered(before.nodes.dom(), order::text_order(), f);
    assert forall|name: Seq<char>| #[trigger] before.nodes.contains_key(name) implies only_errors(
        f(name),
    ) && (after.nodes.contains_key(name) && keeps(before.nodes[name], after.nodes[name]) ==> (f(
        name,
    ).len() == 0 <==> looks_the_same(before.nodes[name], after.nodes[name]))) by {
        lemma_member_changes(name, before.nodes[name], after.nodes[name]);
    }
    assert forall|i: int| 0 <= i < keys.len() implies only_errors(f(#[trigger] keys[i])) by {
        assert(keys.to_set().contains(keys[i]));
        assert(before.nodes.contains_key(keys[i]));
    }
    lemma_only_errors(keys, f);
    lemma_no_errors_add(a, a);
    if all_kept(before.nodes, after.nodes) {
        if no_errors(a) {
            assert forall|name: Seq<char>| #[trigger]
                before.nodes.contains_key(name) implies looks_the_same(
                before.nodes[name],
                after.nodes[name],
            ) by {
                assert(before.nodes.dom().contains(name));
                assert(f(name).len() == 0);
            }
        } else if all_look_the_same(before.nodes, after.nodes) {
            assert forall|name: Seq<char>| #[trigger] before.nodes.dom().contains(name) implies f(
                name,
            ).len() == 0 by {
                assert(before.nodes.contains_key(name));
            }
        }
    }
}

proof fn lemma_no_errors_gathered<K>(keys: Seq<K>, f: spec_fn(K) -> Seq<LintView>)
    requires
        forall|k: K| no_errors(#[trigger] f(k)),
    ensures
        no_errors(order::gather(keys, f)),
    decreases keys.len(),
{
    if keys.len() > 0 {
        lemma_no_errors_gathered(keys.drop_last(), f);
        assert(no_errors(f(keys.last())));
        lemma_no_errors_add(order::gather(keys.drop_last(), f), f(keys.last()));
    }
}

/// The use of `AnyPointer` is only worth knowing: no remark on it is an error.
pub proof fn law_any_pointer_is_no_error(nodes: Map<Seq<char>, NodeView>)
    ensures
        no_errors(lint::any_pointer_lints(nodes)),
{
    assert forall|name: Seq<char>| no_errors(#[trigger] lint::node_pointers(nodes)(name)) by {
        let node = nodes[name];
        let f = lint::field_pointers(name, node);
        let g = lint::method_pointers(name, node);
        lemma_no_errors_gathered(order::ordinals(node.fields.dom()), f);
        assert forall|k: u32| no_errors(#[trigger] g(k)) by {
            let method = node.methods[k];
            lemma_no_errors_add(
                lint::side_pointer_lints(
                    name,
                    k,
                    method,
                    lint::params_of(method.signature),
                    "method parameter uses AnyPointer"@,
                ),
                lint::side_pointer_lints(
                    name,
                    k,
                    method,
                    lint::results_of(method.signature),
                    "method result uses AnyPointer"@,
                ),
            );
        }
        lemma_no_errors_gathered(order::ordinals(node.methods.dom()), g);
    }
    lemma_no_errors_gathered(order::names(nodes.dom()), lint::node_pointers(nodes));
}

/// Two sets are compatible exactly if reading found no error on either side, every file
/// has an id of its own, files and nodes stay where they are, every node does what it
/// did, and its members have the names and default values that they had.
pub proof fn law_compatible_iff(before: SchemaSetView, after: SchemaSetView)
    requires
        finite_set(before),
    ensures
        compare::comparison(before, after).compatible() <==> {
            &&& no_errors(before.lints)
            &&& no_errors(after.lints)
            &&& ids_fine(before.files)
            &&& ids_fine(after.files)
            &&& files_stay(before.files, after.files)
            &&& nodes_stay(before.node_paths, after.node_paths)
            &&& all_kept(before.nodes, after.nodes)
            &&& all_look_the_same(before.nodes, after.nodes)
        },
{
    let report = compare::comparison(before, after);
    let a = before.lints;
    let b = after.lints;
    let c = lint::file_id_lints("before"@, before.files);
    let d = lint::file_id_lints("after"@, after.files);
    let e = order::gather(after.files, lint::changed_id(before.files));
    let f = order::gather(
        order::names(lint::ids(before.files)),
        lint::moved_id(before.files, after.files),
    );
    let g = order::gather(before.files, lint::removed_file(after.files));
    let h = order::gather(
        order::names(before.node_paths.dom()),
        lint::moved_node(before.node_paths, after.node_paths),
    );
    let i = lint::any_pointer_lints(after.nodes);
    let j = order::gather(
        order::names(before.nodes.dom()),
        compare::node_changes(before.nodes, after.nodes),
    );
    law_nothing_breaks_iff_all_is_kept(before, after);
    lemma_file_ids("before"@, before.files);
    lemma_file_ids("after"@, after.files);
    lemma_files_stay(before.files, after.files);
    lemma_nodes_stay(before.node_paths, after.node_paths);
    law_any_pointer_is_no_error(after.nodes);
    lemma_node_changes(before, after);
    lemma_no_errors_add(a, b);
    lemma_no_errors_add(a + b, c);
    lemma_no_errors_add(a + b + c, d);
    lemma_no_errors_add(a + b + c + d, e);
    lemma_no_errors_add(a + b + c + d + e, f);
    lemma_no_errors_add(a + b + c + d + e + f, g);
    lemma_no_errors_add(e, f);
    lemma_no_errors_add(e + f, g);
    lemma_no_errors_add(a + b + c + d + e + f + g, h);
    lemma_no_errors_add(a + b + c + d + e + f + g + h, i);
    lemma_no_errors_add(a + b + c + d + e + f + g + h + i, j);
    assert(report.lints == a + b + c + d + e + f + g + h + i + j);
    assert(report.has_error_lints() <==> !no_errors(report.lints));
}

/// A set is compatible with itself if reading found no error, every file has an id of its
/// own, and no two files have the same relative path.
pub proof fn law_set_is_compatible_with_itself(set: SchemaSetView)
    requires
        finite_set(set),
        no_errors(set.lints),
        ids_fine(set.files),
        set.files.map_values(|file: SchemaFileView| file.relative_path).no_duplicates(),
    ensures
        compare::comparison(set, set).compatible(),
{
    let files = set.files;
    let paths = files.map_values(|file: SchemaFileView| file.relative_path);
    law_compatible_iff(set, set);
    assert forall|i: int| 0 <= i < files.len() implies {
        let earlier = lint::last_with_path(files, (#[trigger] files[i]).relative_path);
        earlier is Some ==> earlier->0 == files[i]
    } by {
        lemma_last_with_path(files, files[i].relative_path);
        if let Some(earlier) = lint::last_with_path(files, files[i].relative_path) {
            let k = choose|k: int| 0 <= k < files.len() && #[trigger] files[k] == earlier;
            assert(paths[k] == paths[i]);
        }
    }
    assert forall|i: int| 0 <= i < files.len() implies lint::still_there(
        #[trigger] files[i],
        files,
    ) by {
        assert(files[i].relative_path == files[i].relative_path);
    }
}

proof fn lemma_last_with_path(files: Seq<SchemaFileView>, path: Seq<char>)
    ensures
        lint::last_with_path(files, path) matches Some(file) ==> file.relative_path == path
            && exists|k: int| 0 <= k < files.len() && #[trigger] files[k] == file,
    decreases files.len(),
{
    if files.len() > 0 {
        let shorter = files.drop_last();
        lemma_last_with_path(shorter, path);
        if files.last().relative_path == path {
            assert(files[files.len() - 1] == files.last());
        } else if let Some(file) = lint::last_with_path(shorter, path) {
            let k = choose|k: int| 0 <= k < shorter.len() && #[trigger] shorter[k] == file;
            assert(files[k] == file);
        }
    }
}

} // verus!
