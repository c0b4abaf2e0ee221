//! What a comparison reports.

use crate::compare;
use crate::compatibility;
use crate::laws::words;
use crate::order;
use crate::schema;
use crate::schema::{FieldView, MethodView, NodeKind, NodeView, SchemaSetView, ViolationView};
use crate::text;
use vstd::prelude::*;

verus! {

/// The word for a kind of node.
pub open spec fn kind_word(kind: NodeKind) -> Seq<char> {
    match kind {
        NodeKind::Struct => "Struct"@,
        NodeKind::Enum => "Enum"@,
        NodeKind::Interface => "Interface"@,
    }
}

/// A member of a node: its name, what stands between, and its ordinal in brackets.
pub open spec fn place(node: Seq<char>, between: Seq<char>, ordinal: u32) -> Seq<char> {
    node + between + text::decimal(ordinal as nat) + "]"@
}

/// Whether a violation is what is to be said of a field that was at an ordinal.
pub open spec fn field_breaks(
    name: Seq<char>,
    ordinal: u32,
    before: FieldView,
    after: Option<FieldView>,
    v: ViolationView,
) -> bool {
    &&& v.path == place(name, ".field["@, ordinal)
    &&& v.before == Some(before.name + ": "@ + before.ty)
    &&& match after {
        None => v.reason == "field was removed"@ && v.after is None,
        Some(later) => {
            &&& words::solid(before.ty) != words::solid(later.ty)
            &&& v.reason == "field type changed"@
            &&& v.after == Some(later.name + ": "@ + later.ty)
        },
    }
}

/// Whether a violation is what is to be said of an enum value that was at an ordinal.
pub open spec fn value_breaks(
    name: Seq<char>,
    ordinal: u32,
    before: Seq<char>,
    after: Option<Seq<char>>,
    v: ViolationView,
) -> bool {
    &&& v.path == place(name, ".enum["@, ordinal)
    &&& v.before == Some(before)
    &&& after is None
    &&& v.reason == "enum value was removed"@
    &&& v.after is None
}

/// Whether a violation is what is to be said of a method that was at an ordinal.
pub open spec fn method_breaks(
    name: Seq<char>,
    ordinal: u32,
    before: MethodView,
    after: Option<MethodView>,
    v: ViolationView,
) -> bool {
    &&& v.path == place(name, ".method["@, ordinal)
    &&& v.before == Some(before.name + " "@ + before.signature)
    &&& match after {
        None => v.reason == "method was removed"@ && v.after is None,
        Some(later) => {
            &&& words::solid(before.signature) != words::solid(later.signature)
            &&& v.reason == "method signature changed"@
            &&& v.after == Some(later.name + " "@ + later.signature)
        },
    }
}

/// What a map has for a key.
pub open spec fn at<K, V>(entries: Map<K, V>, key: K) -> Option<V> {
    if entries.contains_key(key) {
        Some(entries[key])
    } else {
        None
    }
}

/// Whether a violation is what is to be said of a node that kept its kind.
pub open spec fn members_break(
    name: Seq<char>,
    before: NodeView,
    after: NodeView,
    v: ViolationView,
) -> bool {
    match before.kind {
        NodeKind::Struct => exists|ordinal: u32| #[trigger]
            before.fields.contains_key(ordinal) && field_breaks(
                name,
                ordinal,
                before.fields[ordinal],
                at(after.fields, ordinal),
                v,
            ),
        NodeKind::Enum => exists|ordinal: u32| #[trigger]
            before.enum_values.contains_key(ordinal) && value_breaks(
                name,
                ordinal,
                before.enum_values[ordinal],
                at(after.enum_values, ordinal),
                v,
            ),
        NodeKind::Interface => exists|ordinal: u32| #[trigger]
            before.methods.contains_key(ordinal) && method_breaks(
                name,
                ordinal,
                before.methods[ordinal],
                at(after.methods, ordinal),
                v,
            ),
    }
}

/// Whether a violation is what is to be said of a node that was there.
pub open spec fn node_breaks(
    name: Seq<char>,
    before: NodeView,
    after: Option<NodeView>,
    v: ViolationView,
) -> bool {
    match after {
        None => {
            &&& v.path == name
            &&& v.reason == "node was removed"@
            &&& v.before == Some(kind_word(before.kind))
            &&& v.after is None
        },
        Some(later) => if before.kind != later.kind {
            &&& v.path == name
            &&& v.reason == "node kind changed"@
            &&& v.before == Some(kind_word(before.kind))
            &&& v.after == Some(kind_word(later.kind))
        } else {
            members_break(name, before, later, v)
        },
    }
}

/// Something is gathered from a set if it is there for some item.
pub proof fn lemma_gathered<K, R>(keys: Seq<K>, f: spec_fn(K) -> Seq<R>, x: R)
    ensures
        order::gather(keys, f).contains(x) <==> exists|i: int|
            0 <= i < keys.len() && f(#[trigger] keys[i]).contains(x),
    decreases keys.len(),
{
    let all = order::gather(keys, f);
    if keys.len() > 0 {
        let shorter = keys.drop_last();
        let before = order::gather(shorter, f);
        let more = f(keys.last());
        lemma_gathered(shorter, f, x);
        if all.contains(x) {
            let i = choose|i: int| 0 <= i < all.len() && all[i] == x;
            if i < before.len() {
                assert(before[i] == x);
                let j = choose|j: int| 0 <= j < shorter.len() && f(#[trigger] shorter[j]).contains(
                    x,
                );
                assert(f(keys[j]).contains(x));
            } else {
                assert(more[i - before.len()] == x);
                assert(f(keys[keys.len() - 1]).contains(x));
            }
        }
        if exists|i: int| 0 <= i < keys.len() && f(#[trigger] keys[i]).contains(x) {
            let i = choose|i: int| 0 <= i < keys.len() && f(#[trigger] keys[i]).contains(x);
            if i < shorter.len() {
                assert(f(shorter[i]).contains(x));
                let j = choose|j: int| 0 <= j < before.len() && before[j] == x;
                assert(all[j] == x);
            } else {
                let j = choose|j: int| 0 <= j < more.len() && more[j] == x;
                assert(all[before.len() + j] == x);
            }
        }
    }
}

pub proof fn lemma_gathered_from<K, R>(
    items: Set<K>,
    less: spec_fn(K, K) -> bool,
    f: spec_fn(K) -> Seq<R>,
    x: R,
)
    requires
        items.finite(),
        order::total(less),
    ensures
        order::gather(order::ascending(items, less), f).contains(x) <==> exists|k: K| #[trigger]
            items.contains(k) && f(k).contains(x),
{
    let keys = order::ascending(items, less);
    order::lemma_ascending(items, less);
    lemma_gathered(keys, f, x);
    if order::gather(keys, f).contains(x) {
        let i = choose|i: int| 0 <= i < keys.len() && f(#[trigger] keys[i]).contains(x);
        assert(keys.to_set().contains(keys[i]));
        assert(items.contains(keys[i]));
    }
    if exists|k: K| #[trigger] items.contains(k) && f(k).contains(x) {
        let k = choose|k: K| #[trigger] items.contains(k) && f(k).contains(x);
        assert(keys.to_set().contains(k));
        let i = choose|i: int| 0 <= i < keys.len() && keys[i] == k;
        assert(f(keys[i]).contains(x));
    }
}

pub proof fn lemma_concat<R>(a: Seq<R>, b: Seq<R>, x: R)
    ensures
        (a + b).contains(x) <==> a.contains(x) || b.contains(x),
{
    let c = a + b;
    if c.contains(x) {
        let i = choose|i: int| 0 <= i < c.len() && c[i] == x;
        if i < a.len() {
            assert(a[i] == x);
        } else {
            assert(b[i - a.len()] == x);
        }
    }
    if a.contains(x) {
        let i = choose|i: int| 0 <= i < a.len() && a[i] == x;
        assert(c[i] == x);
    }
    if b.contains(x) {
        let i = choose|i: int| 0 <= i < b.len() && b[i] == x;
        assert(c[a.len() + i] == x);
    }
}

pub proof fn lemma_one<R>(a: R, x: R)
    ensures
        seq![a].contains(x) <==> a == x,
        !Seq::<R>::empty().contains(x),
{
    assert(seq![a][0] == a);
}

pub proof fn lemma_places(name: Seq<char>, ordinal: u32)
    ensures
        schema::member_path_of(name, "field"@, ordinal) == place(name, ".field["@, ordinal),
        schema::member_path_of(name, "enum"@, ordinal) == place(name, ".enum["@, ordinal),
        schema::member_path_of(name, "method"@, ordinal) == place(name, ".method["@, ordinal),
{
    reveal_strlit(".");
    reveal_strlit("[");
    reveal_strlit("field");
    reveal_strlit("enum");
    reveal_strlit("method");
    reveal_strlit(".field[");
    reveal_strlit(".enum[");
    reveal_strlit(".method[");
    assert("."@ + "field"@ + "["@ =~= ".field["@);
    assert("."@ + "enum"@ + "["@ =~= ".enum["@);
    assert("."@ + "method"@ + "["@ =~= ".method["@);
    let d = text::decimal(ordinal as nat) + "]"@;
    assert(schema::member_path_of(name, "field"@, ordinal) =~= name + ("."@ + "field"@ + "["@) + d);
    assert(schema::member_path_of(name, "enum"@, ordinal) =~= name + ("."@ + "enum"@ + "["@) + d);
    assert(schema::member_path_of(name, "method"@, ordinal) =~= name + ("."@ + "method"@ + "["@)
        + d);
    assert(place(name, ".field["@, ordinal) =~= name + ".field["@ + d);
    assert(place(name, ".enum["@, ordinal) =~= name + ".enum["@ + d);
    assert(place(name, ".method["@, ordinal) =~= name + ".method["@ + d);
}

proof fn lemma_field_breaks(
    name: Seq<char>,
    before: Map<u32, FieldView>,
    after: Map<u32, FieldView>,
    k: u32,
    v: ViolationView,
)
    ensures
        compare::field_violations(name, before, after)(k).contains(v) <==> field_breaks(
            name,
            k,
            before[k],
            at(after, k),
            v,
        ),
{
    lemma_places(name, k);
    words::law_only_white_space_is_left_out(before[k].ty);
    let found = compare::field_violations(name, before, after)(k);
    if found.len() > 0 {
        lemma_one(found[0], v);
        assert(found =~= seq![found[0]]);
    }
    if after.contains_key(k) {
        words::law_only_white_space_is_left_out(after[k].ty);
    }
    if field_breaks(name, k, before[k], at(after, k), v) {
        assert(found.len() > 0);
        assert(v =~= found[0]);
    }
}

proof fn lemma_value_breaks(
    name: Seq<char>,
    before: Map<u32, Seq<char>>,
    after: Map<u32, Seq<char>>,
    k: u32,
    v: ViolationView,
)
    ensures
        compare::enum_violations(name, before, after)(k).contains(v) <==> value_breaks(
            name,
            k,
            before[k],
            at(after, k),
            v,
        ),
{
    lemma_places(name, k);
    let found = compare::enum_violations(name, before, after)(k);
    if found.len() > 0 {
        lemma_one(found[0], v);
        assert(found =~= seq![found[0]]);
    }
    if value_breaks(name, k, before[k], at(after, k), v) {
        assert(found.len() > 0);
        assert(v =~= found[0]);
    }
}

proof fn lemma_method_breaks(
    name: Seq<char>,
    before: Map<u32, MethodView>,
    after: Map<u32, MethodView>,
    k: u32,
    v: ViolationView,
)
    ensures
        compare::method_violations(name, before, after)(k).contains(v) <==> method_breaks(
            name,
            k,
            before[k],
            at(after, k),
            v,
        ),
{
    lemma_places(name, k);
    words::law_only_white_space_is_left_out(before[k].signature);
    let found = compare::method_violations(name, before, after)(k);
    if found.len() > 0 {
        lemma_one(found[0], v);
        assert(found =~= seq![found[0]]);
    }
    if after.contains_key(k) {
        words::law_only_white_space_is_left_out(after[k].signature);
    }
    if method_breaks(name, k, before[k], at(after, k), v) {
        assert(found.len() > 0);
        assert(v =~= found[0]);
    }
}

/// What is reported on the members of a node that kept its kind: each earlier field or
/// method that is gone or has another type or signature, and each earlier enum value that
/// is gone. Types and signatures are the same if they are but for white space.
pub proof fn law_broken_members(
    name: Seq<char>,
    before: NodeView,
    after: NodeView,
    v: ViolationView,
)
    requires
        compatibility::finite_node(before),
    ensures
        compare::member_violations(name, before, after).contains(v) <==> members_break(
            name,
            before,
            after,
            v,
        ),
{
    order::lemma_orders_total();
    let less = order::number_order();
    match before.kind {
        NodeKind::Struct => {
            let f = compare::field_violations(name, before.fields, after.fields);
            lemma_gathered_from(before.fields.dom(), less, f, v);
            assert forall|k: u32| f(k).contains(v) <==> #[trigger] field_breaks(
                name,
                k,
                before.fields[k],
                at(after.fields, k),
                v,
            ) by {
                lemma_field_breaks(name, before.fields, after.fields, k, v);
            }
        },
        NodeKind::Enum => {
            let f = compare::enum_violations(name, before.enum_values, after.enum_values);
            lemma_gathered_from(before.enum_values.dom(), less, f, v);
            assert forall|k: u32| f(k).contains(v) <==> #[trigger] value_breaks(
                name,
                k,
                before.enum_values[k],
                at(after.enum_values, k),
                v,
            ) by {
                lemma_value_breaks(name, before.enum_values, after.enum_values, k, v);
            }
        },
        NodeKind::Interface => {
            let f = compare::method_violations(name, before.methods, after.methods);
            lemma_gathered_from(before.methods.dom(), less, f, v);
            assert forall|k: u32| f(k).contains(v) <==> #[trigger] method_breaks(
                name,
                k,
                before.methods[k],
                at(after.methods, k),
                v,
            ) by {
                lemma_method_breaks(name, before.methods, after.methods, k, v);
            }
        },
    }
}

/// What a comparison reports as broken: each earlier node that is gone or of another kind,
/// and what is broken about the members of the others. Nothing else is reported.
pub proof fn law_broken(before: SchemaSetView, after: SchemaSetView, v: ViolationView)
    requires
        compatibility::finite_set(before),
    ensures
        compare::comparison(before, after).violations.contains(v) <==> exists|name: Seq<char>|
            #[trigger]
            before.nodes.contains_key(name) && node_breaks(
                name,
                before.nodes[name],
                at(after.nodes, name),
                v,
            ),
{
    order::lemma_orders_total();
    let f = compare::node_violations(before.nodes, after.nodes);
    lemma_gathered_from(before.nodes.dom(), order::text_order(), f, v);
    assert forall|name: Seq<char>| #[trigger]
        before.nodes.contains_key(name) implies (f(name).contains(v) <==> node_breaks(
        name,
        before.nodes[name],
        at(after.nodes, name),
        v,
    )) by {
        let earlier = before.nodes[name];
        if after.nodes.contains_key(name) && earlier.kind == after.nodes[name].kind {
            law_broken_members(name, earlier, after.nodes[name], v);
        } else {
            let found = f(name);
            assert(found.len() == 1);
            lemma_one(found[0], v);
            assert(found =~= seq![found[0]]);
            if node_breaks(name, earlier, at(after.nodes, name), v) {
                assert(v =~= found[0]);
            }
        }
    }
    if exists|name: Seq<char>| #[trigger]
        before.nodes.dom().contains(name) && f(name).contains(v) {
        let name = choose|name: Seq<char>| #[trigger]
            before.nodes.dom().contains(name) && f(name).contains(v);
        assert(before.nodes.contains_key(name));
    }
    if exists|name: Seq<char>| #[trigger]
        before.nodes.contains_key(name) && node_breaks(
            name,
            before.nodes[name],
            at(after.nodes, name),
            v,
        ) {
        let name = choose|name: Seq<char>| #[trigger]
            before.nodes.contains_key(name) && node_breaks(
                name,
                before.nodes[name],
                at(after.nodes, name),
                v,
            );
        assert(before.nodes.dom().contains(name));
    }
}

/// Two field types are the same exactly if they have the same characters but for white
/// space, from the first to the last: any other change of the type at an ordinal is reported.
pub proof fn law_changed_type_is_reported(
    before: SchemaSetView,
    after: SchemaSetView,
    name: Seq<char>,
    ordinal: u32,
)
    requires
        compatibility::finite_set(before),
        before.nodes.contains_key(name),
        after.nodes.contains_key(name),
        before.nodes[name].kind == NodeKind::Struct,
        after.nodes[name].kind == NodeKind::Struct,
        before.nodes[name].fields.contains_key(ordinal),
        after.nodes[name].fields.contains_key(ordinal),
        words::solid(before.nodes[name].fields[ordinal].ty) != words::solid(
            after.nodes[name].fields[ordinal].ty,
        ),
    ensures
        ({
            let earlier = before.nodes[name].fields[ordinal];
            let later = after.nodes[name].fields[ordinal];
            compare::comparison(before, after).violations.contains(
                ViolationView {
                    path: place(name, ".field["@, ordinal),
                    reason: "field type changed"@,
                    before: Some(earlier.name + ": "@ + earlier.ty),
                    after: Some(later.name + ": "@ + later.ty),
                },
            )
        }),
{
    let earlier = before.nodes[name].fields[ordinal];
    let later = after.nodes[name].fields[ordinal];
    let v = ViolationView {
        path: place(name, ".field["@, ordinal),
        reason: "field type changed"@,
        before: Some(earlier.name + ": "@ + earlier.ty),
        after: Some(later.name + ": "@ + later.ty),
    };
    law_broken(before, after, v);
    assert(field_breaks(name, ordinal, earlier, at(after.nodes[name].fields, ordinal), v));
    assert(members_break(name, before.nodes[name], after.nodes[name], v));
    assert(node_breaks(name, before.nodes[name], at(after.nodes, name), v));
}

/// Two method signatures are the same exactly if they have the same characters but for white
/// space, parameters and results alike: any other change at an ordinal is reported.
pub proof fn law_changed_signature_is_reported(
    before: SchemaSetView,
    after: SchemaSetView,
    name: Seq<char>,
    ordinal: u32,
)
    requires
        compatibility::finite_set(before),
        before.nodes.contains_key(name),
        after.nodes.contains_key(name),
        before.nodes[name].kind == NodeKind::Interface,
        after.nodes[name].kind == NodeKind::Interface,
        before.nodes[name].methods.contains_key(ordinal),
        after.nodes[name].methods.contains_key(ordinal),
        words::solid(before.nodes[name].methods[ordinal].signature) != words::solid(
            after.nodes[name].methods[ordinal].signature,
        ),
    ensures
        ({
            let earlier = before.nodes[name].methods[ordinal];
            let later = after.nodes[name].methods[ordinal];
            compare::comparison(before, after).violations.contains(
                ViolationView {
                    path: place(name, ".method["@, ordinal),
                    reason: "method signature changed"@,
                    before: Some(earlier.name + " "@ + earlier.signature),
                    after: Some(later.name + " "@ + later.signature),
                },
            )
        }),
{
    let earlier = before.nodes[name].methods[ordinal];
    let later = after.nodes[name].methods[ordinal];
    let v = ViolationView {
        path: place(name, ".method["@, ordinal),
        reason: "method signature changed"@,
        before: Some(earlier.name + " "@ + earlier.signature),
        after: Some(later.name + " "@ + later.signature),
    };
    law_broken(before, after, v);
    assert(method_breaks(name, ordinal, earlier, at(after.nodes[name].methods, ordinal), v));
    assert(members_break(name, before.nodes[name], after.nodes[name], v));
    assert(node_breaks(name, before.nodes[name], at(after.nodes, name), v));
}

} // verus!
