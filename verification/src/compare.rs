//! The comparison of two sets of schemas.

use crate::lint;
use crate::lint::{lint_schema_sets, push_lint};
use crate::order;
use crate::schema;
use crate::schema::{
    error_lint, member_path, pair_text, sorted_ordinals, FieldView, Lint, LintView, MethodView, Node,
    NodeKind, NodeView, Report, ReportView, SchemaSet, SchemaSetView, Violation,
    ViolationView,
};
use crate::text;
use crate::text::{same_text, squeezed, string_of};
use vstd::prelude::*;

verus! {

/// A type without its white space.
pub fn normalize_type(ty: &str) -> (normal: String)
    ensures
        normal@ == text::without_white_space(ty@),
{
    string_of(squeezed(ty).as_slice())
}

/// A signature without its white space.
pub fn normalize_signature(signature: &str) -> (normal: String)
    ensures
        normal@ == text::without_white_space(signature@),
{
    string_of(squeezed(signature).as_slice())
}

/// An optional default value without its white space.
pub open spec fn normal_default(default: Option<Seq<char>>) -> Option<Seq<char>> {
    match default {
        Some(value) => Some(text::without_white_space(value)),
        None => None,
    }
}

/// A default value without its white space.
pub fn normalize_default(default: &Option<String>) -> (normal: Option<String>)
    ensures
        text::view_of(normal) == normal_default(text::view_of(*default)),
{
    match default {
        Some(value) => Some(string_of(squeezed(value.as_str()).as_slice())),
        None => None,
    }
}

/// The word for a kind of node.
pub open spec fn kind_text_of(kind: NodeKind) -> Seq<char> {
    match kind {
        NodeKind::Struct => "Struct"@,
        NodeKind::Enum => "Enum"@,
        NodeKind::Interface => "Interface"@,
    }
}

fn kind_text(kind: NodeKind) -> (word: &'static str)
    ensures
        word@ == kind_text_of(kind),
{
    match kind {
        NodeKind::Struct => "Struct",
        NodeKind::Enum => "Enum",
        NodeKind::Interface => "Interface",
    }
}

/// A field as a report shows it.
pub open spec fn field_text(field: FieldView) -> Seq<char> {
    field.name + ": "@ + field.ty
}

/// A method as a report shows it.
pub open spec fn method_text(method: MethodView) -> Seq<char> {
    method.name + " "@ + method.signature
}

/// A violation that one change makes.
pub open spec fn violation_of(
    path: Seq<char>,
    reason: Seq<char>,
    before: Seq<char>,
    after: Option<Seq<char>>,
) -> ViolationView {
    ViolationView { path, reason, before: Some(before), after }
}

fn violation(path: String, reason: &str, before: String, after: Option<String>) -> (v: Violation)
    ensures
        v@ == violation_of(path@, reason@, before@, text::view_of(after)),
{
    Violation { path, reason: reason.to_owned(), before: Some(before), after }
}

fn push_violation(violations: &mut Vec<Violation>, v: Violation)
    ensures
        text::views(final(violations)@) == text::views(old(violations)@).push(v@),
{
    proof {
        schema::lemma_views_push(violations@, v);
    }
    violations.push(v);
}

/// Whether two types are the same but for white space.
pub open spec fn same_type(before: FieldView, after: FieldView) -> bool {
    text::without_white_space(before.ty) == text::without_white_space(after.ty)
}

/// Whether two signatures are the same but for white space.
pub open spec fn same_signature(before: MethodView, after: MethodView) -> bool {
    text::without_white_space(before.signature) == text::without_white_space(after.signature)
}

/// What breaks about the field of an ordinal.
pub open spec fn field_violations(
    name: Seq<char>,
    before: Map<u32, FieldView>,
    after: Map<u32, FieldView>,
) -> spec_fn(u32) -> Seq<ViolationView> {
    |ordinal: u32|
        if !after.contains_key(ordinal) {
            seq![
                violation_of(
                    schema::member_path_of(name, "field"@, ordinal),
                    "field was removed"@,
                    field_text(before[ordinal]),
                    None,
                ),
            ]
        } else if !same_type(before[ordinal], after[ordinal]) {
            seq![
                violation_of(
                    schema::member_path_of(name, "field"@, ordinal),
                    "field type changed"@,
                    field_text(before[ordinal]),
                    Some(field_text(after[ordinal])),
                ),
            ]
        } else {
            Seq::empty()
        }
}

/// The remark on a field with another name than before.
pub open spec fn field_renames(
    name: Seq<char>,
    before: Map<u32, FieldView>,
    after: Map<u32, FieldView>,
) -> spec_fn(u32) -> Seq<LintView> {
    |ordinal: u32|
        if after.contains_key(ordinal) && same_type(before[ordinal], after[ordinal])
            && before[ordinal].name != after[ordinal].name {
            seq![
                schema::error_lint_of(
                    schema::member_path_of(name, "field"@, ordinal),
                    "field name changed"@,
                    Some(before[ordinal].name + " -> "@ + after[ordinal].name),
                ),
            ]
        } else {
            Seq::empty()
        }
}

/// A default value as a report shows it.
pub open spec fn default_text(default: Option<Seq<char>>) -> Seq<char> {
    match default {
        Some(value) => value,
        None => "<none>"@,
    }
}

/// The remark on a field with another default value than before.
pub open spec fn default_changes(
    name: Seq<char>,
    before: Map<u32, FieldView>,
    after: Map<u32, FieldView>,
) -> spec_fn(u32) -> Seq<LintView> {
    |ordinal: u32|
        if after.contains_key(ordinal) && same_type(before[ordinal], after[ordinal])
            && normal_default(before[ordinal].default) != normal_default(after[ordinal].default) {
            seq![
                schema::error_lint_of(
                    schema::member_path_of(name, "field"@, ordinal),
                    "field default value changed"@,
                    Some(
                        default_text(before[ordinal].default) + " -> "@ + default_text(
                            after[ordinal].default,
                        ),
                    ),
                ),
            ]
        } else {
            Seq::empty()
        }
}

/// What breaks about the enum value of an ordinal.
pub open spec fn enum_violations(
    name: Seq<char>,
    before: Map<u32, Seq<char>>,
    after: Map<u32, Seq<char>>,
) -> spec_fn(u32) -> Seq<ViolationView> {
    |ordinal: u32|
        if !after.contains_key(ordinal) {
            seq![
                violation_of(
                    schema::member_path_of(name, "enum"@, ordinal),
                    "enum value was removed"@,
                    before[ordinal],
                    None,
                ),
            ]
        } else {
            Seq::empty()
        }
}

/// The remark on an enum value with another name than before.
pub open spec fn enum_renames(
    name: Seq<char>,
    before: Map<u32, Seq<char>>,
    after: Map<u32, Seq<char>>,
) -> spec_fn(u32) -> Seq<LintView> {
    |ordinal: u32|
        if after.contains_key(ordinal) && before[ordinal] != after[ordinal] {
            seq![
                schema::error_lint_of(
                    schema::member_path_of(name, "enum"@, ordinal),
                    "enum value name changed"@,
                    Some(before[ordinal] + " -> "@ + after[ordinal]),
                ),
            ]
        } else {
            Seq::empty()
        }
}

/// What breaks about the method of an ordinal.
pub open spec fn method_violations(
    name: Seq<char>,
    before: Map<u32, MethodView>,
    after: Map<u32, MethodView>,
) -> spec_fn(u32) -> Seq<ViolationView> {
    |ordinal: u32|
        if !after.contains_key(ordinal) {
            seq![
                violation_of(
                    schema::member_path_of(name, "method"@, ordinal),
                    "method was removed"@,
                    method_text(before[ordinal]),
                    None,
                ),
            ]
        } else if !same_signature(before[ordinal], after[ordinal]) {
            seq![
                violation_of(
                    schema::member_path_of(name, "method"@, ordinal),
                    "method signature changed"@,
                    method_text(before[ordinal]),
                    Some(method_text(after[ordinal])),
                ),
            ]
        } else {
            Seq::empty()
        }
}

/// The remark on a method with another name than before.
pub open spec fn method_renames(
    name: Seq<char>,
    before: Map<u32, MethodView>,
    after: Map<u32, MethodView>,
) -> spec_fn(u32) -> Seq<LintView> {
    |ordinal: u32|
        if after.contains_key(ordinal) && same_signature(before[ordinal], after[ordinal])
            && before[ordinal].name != after[ordinal].name {
            seq![
                schema::error_lint_of(
                    schema::member_path_of(name, "method"@, ordinal),
                    "method name changed"@,
                    Some(before[ordinal].name + " -> "@ + after[ordinal].name),
                ),
            ]
        } else {
            Seq::empty()
        }
}

/// What breaks about a node that keeps its kind, in the order of the ordinals.
pub open spec fn member_violations(name: Seq<char>, before: NodeView, after: NodeView) -> Seq<
    ViolationView,
> {
    match before.kind {
        NodeKind::Struct => order::gather(
            order::ordinals(before.fields.dom()),
            field_violations(name, before.fields, after.fields),
        ),
        NodeKind::Enum => order::gather(
            order::ordinals(before.enum_values.dom()),
            enum_violations(name, before.enum_values, after.enum_values),
        ),
        NodeKind::Interface => order::gather(
            order::ordinals(before.methods.dom()),
            method_violations(name, before.methods, after.methods),
        ),
    }
}

/// The remarks on a node that keeps its kind.
pub open spec fn member_changes(name: Seq<char>, before: NodeView, after: NodeView) -> Seq<
    LintView,
> {
    match before.kind {
        NodeKind::Struct => order::gather(
            order::ordinals(before.fields.dom()),
            field_renames(name, before.fields, after.fields),
        ) + order::gather(
            order::ordinals(before.fields.dom()),
            default_changes(name, before.fields, after.fields),
        ),
        NodeKind::Enum => order::gather(
            order::ordinals(before.enum_values.dom()),
            enum_renames(name, before.enum_values, after.enum_values),
        ),
        NodeKind::Interface => order::gather(
            order::ordinals(before.methods.dom()),
            method_renames(name, before.methods, after.methods),
        ),
    }
}

/// What breaks about the node of a name.
pub open spec fn node_violations(
    before: Map<Seq<char>, NodeView>,
    after: Map<Seq<char>, NodeView>,
) -> spec_fn(Seq<char>) -> Seq<ViolationView> {
    |name: Seq<char>|
        if !after.contains_key(name) {
            seq![
                violation_of(name, "node was removed"@, kind_text_of(before[name].kind), None),
            ]
        } else if before[name].kind != after[name].kind {
            seq![
                violation_of(
                    name,
                    "node kind changed"@,
                    kind_text_of(before[name].kind),
                    Some(kind_text_of(after[name].kind)),
                ),
            ]
        } else {
            member_violations(name, before[name], after[name])
        }
}

/// The remarks on the node of a name.
pub open spec fn node_changes(
    before: Map<Seq<char>, NodeView>,
    after: Map<Seq<char>, NodeView>,
) -> spec_fn(Seq<char>) -> Seq<LintView> {
    |name: Seq<char>|
        if after.contains_key(name) && before[name].kind == after[name].kind {
            member_changes(name, before[name], after[name])
        } else {
            Seq::empty()
        }
}

/// What the comparison of two sets of schemas finds: what breaks, node by node in
/// the order of the names, and the remarks, first those on the sets as a whole.
pub open spec fn comparison(before: SchemaSetView, after: SchemaSetView) -> ReportView {
    let keys = order::names(before.nodes.dom());
    ReportView {
        violations: order::gather(keys, node_violations(before.nodes, after.nodes)),
        lints: lint::set_lints(before, after) + order::gather(
            keys,
            node_changes(before.nodes, after.nodes),
        ),
    }
}

/// Compares the fields of a struct.
pub fn compare_struct_fields(
    node_name: &str,
    before_node: &Node,
    after_node: &Node,
    violations: &mut Vec<Violation>,
    lints: &mut Vec<Lint>,
)
    ensures
        before_node.kind == NodeKind::Struct ==> text::views(final(violations)@) == text::views(
            old(violations)@,
        ) + order::gather(
            order::ordinals(before_node@.fields.dom()),
            field_violations(node_name@, before_node@.fields, after_node@.fields),
        ) && text::views(final(lints)@) == text::views(old(lints)@) + order::gather(
            order::ordinals(before_node@.fields.dom()),
            field_renames(node_name@, before_node@.fields, after_node@.fields),
        ),
        before_node.kind != NodeKind::Struct ==> *final(violations) == *old(violations),
        before_node.kind != NodeKind::Struct ==> *final(lints) == *old(lints),
{
    if before_node.kind != NodeKind::Struct {
        return;
    }
    let ghost v0 = text::views(violations@);
    let ghost l0 = text::views(lints@);
    let ghost b = before_node@.fields;
    let ghost a = after_node@.fields;
    let ghost f = field_violations(node_name@, b, a);
    let ghost g = field_renames(node_name@, b, a);
    let keys = sorted_ordinals(&before_node.fields);
    assert(b.dom() =~= before_node.fields@.dom());
    let mut i: usize = 0;
    while i < keys.len()
        invariant
            i <= keys@.len(),
            b == before_node@.fields,
            a == after_node@.fields,
            f == field_violations(node_name@, b, a),
            g == field_renames(node_name@, b, a),
            forall|j: int|
                0 <= j < keys@.len() ==> before_node.fields@.contains_key(#[trigger] keys@[j]),
            text::views(violations@) == v0 + order::gather(keys@.take(i as int), f),
            text::views(lints@) == l0 + order::gather(keys@.take(i as int), g),
        decreases keys@.len() - i,
    {
        let ordinal: u32 = keys[i];
        assert(before_node.fields@.contains_key(keys@[i as int]));
        let ghost v1 = text::views(violations@);
        let ghost l1 = text::views(lints@);
        if let Some(before) = before_node.fields.get(&ordinal) {
            assert(b[ordinal] == before@);
            let path = member_path(node_name, "field", ordinal);
            match after_node.fields.get(&ordinal) {
                None => {
                    push_violation(
                        violations,
                        violation(
                            path,
                            "field was removed",
                            pair_text(before.name.as_str(), ": ", before.ty.as_str()),
                            None,
                        ),
                    );
                },
                Some(after) => {
                    assert(a[ordinal] == after@);
                    if !same_text(
                        normalize_type(before.ty.as_str()).as_str(),
                        normalize_type(after.ty.as_str()).as_str(),
                    ) {
                        push_violation(
                            violations,
                            violation(
                                path,
                                "field type changed",
                                pair_text(before.name.as_str(), ": ", before.ty.as_str()),
                                Some(pair_text(after.name.as_str(), ": ", after.ty.as_str())),
                            ),
                        );
                    } else if !same_text(before.name.as_str(), after.name.as_str()) {
                        push_lint(
                            lints,
                            error_lint(
                                path,
                                "field name changed",
                                Some(pair_text(before.name.as_str(), " -> ", after.name.as_str())),
                            ),
                        );
                    }
                },
            }
        }
        proof {
            order::lemma_gather_step(keys@, i as int, f);
            order::lemma_gather_step(keys@, i as int, g);
            assert(text::views(violations@) =~= v1 + f(ordinal));
            assert(text::views(lints@) =~= l1 + g(ordinal));
            assert(text::views(violations@) =~= v0 + order::gather(keys@.take(i + 1), f));
            assert(text::views(lints@) =~= l0 + order::gather(keys@.take(i + 1), g));
        }
        i = i + 1;
    }
    assert(keys@.take(i as int) =~= keys@);
}

/// Compares the values of an enum.
pub fn compare_enum_values(
    node_name: &str,
    before_node: &Node,
    after_node: &Node,
    violations: &mut Vec<Violation>,
    lints: &mut Vec<Lint>,
)
    ensures
        before_node.kind == NodeKind::Enum ==> text::views(final(violations)@) == text::views(
            old(violations)@,
        ) + order::gather(
            order::ordinals(before_node@.enum_values.dom()),
            enum_violations(node_name@, before_node@.enum_values, after_node@.enum_values),
        ) && text::views(final(lints)@) == text::views(old(lints)@) + order::gather(
            order::ordinals(before_node@.enum_values.dom()),
            enum_renames(node_name@, before_node@.enum_values, after_node@.enum_values),
        ),
        before_node.kind != NodeKind::Enum ==> *final(violations) == *old(violations),
        before_node.kind != NodeKind::Enum ==> *final(lints) == *old(lints),
{
    if before_node.kind != NodeKind::Enum {
        return;
    }
    let ghost v0 = text::views(violations@);
    let ghost l0 = text::views(lints@);
    let ghost b = before_node@.enum_values;
    let ghost a = after_node@.enum_values;
    let ghost f = enum_violations(node_name@, b, a);
    let ghost g = enum_renames(node_name@, b, a);
    let keys = sorted_ordinals(&before_node.enum_values);
    assert(b.dom() =~= before_node.enum_values@.dom());
    let mut i: usize = 0;
    while i < keys.len()
        invariant
            i <= keys@.len(),
            b == before_node@.enum_values,
            a == after_node@.enum_values,
            f == enum_violations(node_name@, b, a),
            g == enum_renames(node_name@, b, a),
            forall|j: int|
                0 <= j < keys@.len() ==> before_node.enum_values@.contains_key(#[trigger] keys@[j]),
            text::views(violations@) == v0 + order::gather(keys@.take(i as int), f),
            text::views(lints@) == l0 + order::gather(keys@.take(i as int), g),
        decreases keys@.len() - i,
    {
        let ordinal: u32 = keys[i];
        assert(before_node.enum_values@.contains_key(keys@[i as int]));
        let ghost v1 = text::views(violations@);
        let ghost l1 = text::views(lints@);
        if let Some(before) = before_node.enum_values.get(&ordinal) {
            assert(b[ordinal] == before@);
            let path = member_path(node_name, "enum", ordinal);
            match after_node.enum_values.get(&ordinal) {
                None => {
                    push_violation(
                        violations,
                        violation(path, "enum value was removed", before.name.clone(), None),
                    );
                },
                Some(after) => {
                    assert(a[ordinal] == after@);
                    if !same_text(before.name.as_str(), after.name.as_str()) {
                        push_lint(
                            lints,
                            error_lint(
                                path,
                                "enum value name changed",
                                Some(pair_text(before.name.as_str(), " -> ", after.name.as_str())),
                            ),
                        );
                    }
                },
            }
        }
        proof {
            order::lemma_gather_step(keys@, i as int, f);
            order::lemma_gather_step(keys@, i as int, g);
            assert(text::views(violations@) =~= v1 + f(ordinal));
            assert(text::views(lints@) =~= l1 + g(ordinal));
            assert(text::views(violations@) =~= v0 + order::gather(keys@.take(i + 1), f));
            assert(text::views(lints@) =~= l0 + order::gather(keys@.take(i + 1), g));
        }
        i = i + 1;
    }
    assert(keys@.take(i as int) =~= keys@);
}

/// Compares the methods of an interface.
pub fn compare_methods(
    node_name: &str,
    before_node: &Node,
    after_node: &Node,
    violations: &mut Vec<Violation>,
    lints: &mut Vec<Lint>,
)
    ensures
        before_node.kind == NodeKind::Interface ==> text::views(final(violations)@) == text::views(
            old(violations)@,
        ) + order::gather(
            order::ordinals(before_node@.methods.dom()),
            method_violations(node_name@, before_node@.methods, after_node@.methods),
        ) && text::views(final(lints)@) == text::views(old(lints)@) + order::gather(
            order::ordinals(before_node@.methods.dom()),
            method_renames(node_name@, before_node@.methods, after_node@.methods),
        ),
        before_node.kind != NodeKind::Interface ==> *final(violations) == *old(violations),
        before_node.kind != NodeKind::Interface ==> *final(lints) == *old(lints),
{
    if before_node.kind != NodeKind::Interface {
        return;
    }
    let ghost v0 = text::views(violations@);
    let ghost l0 = text::views(lints@);
    let ghost b = before_node@.methods;
    let ghost a = after_node@.methods;
    let ghost f = method_violations(node_name@, b, a);
    let ghost g = method_renames(node_name@, b, a);
    let keys = sorted_ordinals(&before_node.methods);
    assert(b.dom() =~= before_node.methods@.dom());
    let mut i: usize = 0;
    while i < keys.len()
        invariant
            i <= keys@.len(),
            b == before_node@.methods,
            a == after_node@.methods,
            f == method_violations(node_name@, b, a),
            g == method_renames(node_name@, b, a),
            forall|j: int|
                0 <= j < keys@.len() ==> before_node.methods@.contains_key(#[trigger] keys@[j]),
            text::views(violations@) == v0 + order::gather(keys@.take(i as int), f),
            text::views(lints@) == l0 + order::gather(keys@.take(i as int), g),
        decreases keys@.len() - i,
    {
        let ordinal: u32 = keys[i];
        assert(before_node.methods@.contains_key(keys@[i as int]));
        let ghost v1 = text::views(violations@);
        let ghost l1 = text::views(lints@);
        if let Some(before) = before_node.methods.get(&ordinal) {
            assert(b[ordinal] == before@);
            let path = member_path(node_name, "method", ordinal);
            match after_node.methods.get(&ordinal) {
                None => {
                    push_violation(
                        violations,
                        violation(
                            path,
                            "method was removed",
                            pair_text(before.name.as_str(), " ", before.signature.as_str()),
                            None,
                        ),
                    );
                },
                Some(after) => {
                    assert(a[ordinal] == after@);
                    if !same_text(
                        normalize_signature(before.signature.as_str()).as_str(),
                        normalize_signature(after.signature.as_str()).as_str(),
                    ) {
                        push_violation(
                            violations,
                            violation(
                                path,
                                "method signature changed",
                                pair_text(before.name.as_str(), " ", before.signature.as_str()),
                                Some(pair_text(after.name.as_str(), " ", after.signature.as_str())),
                            ),
                        );
                    } else if !same_text(before.name.as_str(), after.name.as_str()) {
                        push_lint(
                            lints,
                            error_lint(
                                path,
                                "method name changed",
                                Some(pair_text(before.name.as_str(), " -> ", after.name.as_str())),
                            ),
                        );
                    }
                },
            }
        }
        proof {
            order::lemma_gather_step(keys@, i as int, f);
            order::lemma_gather_step(keys@, i as int, g);
            assert(text::views(violations@) =~= v1 + f(ordinal));
            assert(text::views(lints@) =~= l1 + g(ordinal));
            assert(text::views(violations@) =~= v0 + order::gather(keys@.take(i + 1), f));
            assert(text::views(lints@) =~= l0 + order::gather(keys@.take(i + 1), g));
        }
        i = i + 1;
    }
    assert(keys@.take(i as int) =~= keys@);
}

/// The text of a default value.
fn default_str(default: &Option<String>) -> (shown: &str)
    ensures
        shown@ == default_text(text::view_of(*default)),
{
    match default {
        Some(value) => value.as_str(),
        None => "<none>",
    }
}

/// Whether two optional texts are the same.
fn same_default(a: Option<String>, b: Option<String>) -> (yes: bool)
    ensures
        yes == (text::view_of(a) == text::view_of(b)),
{
    match (a, b) {
        (Some(x), Some(y)) => same_text(x.as_str(), y.as_str()),
        (None, None) => true,
        _ => false,
    }
}

/// Remarks on fields of a struct whose default value changed.
pub fn lint_field_default_changes(
    node_name: &str,
    before_node: &Node,
    after_node: &Node,
    lints: &mut Vec<Lint>,
)
    ensures
        before_node.kind == NodeKind::Struct ==> text::views(final(lints)@) == text::views(
            old(lints)@,
        ) + order::gather(
            order::ordinals(before_node@.fields.dom()),
            default_changes(node_name@, before_node@.fields, after_node@.fields),
        ),
        before_node.kind != NodeKind::Struct ==> *final(lints) == *old(lints),
{
    if before_node.kind != NodeKind::Struct {
        return;
    }
    let ghost l0 = text::views(lints@);
    let ghost b = before_node@.fields;
    let ghost a = after_node@.fields;
    let ghost g = default_changes(node_name@, b, a);
    let keys = sorted_ordinals(&before_node.fields);
    assert(b.dom() =~= before_node.fields@.dom());
    let mut i: usize = 0;
    while i < keys.len()
        invariant
            i <= keys@.len(),
            b == before_node@.fields,
            a == after_node@.fields,
            g == default_changes(node_name@, b, a),
            forall|j: int|
                0 <= j < keys@.len() ==> before_node.fields@.contains_key(#[trigger] keys@[j]),
            text::views(lints@) == l0 + order::gather(keys@.take(i as int), g),
        decreases keys@.len() - i,
    {
        let ordinal: u32 = keys[i];
        assert(before_node.fields@.contains_key(keys@[i as int]));
        let ghost l1 = text::views(lints@);
        if let (Some(before), Some(after)) = (
            before_node.fields.get(&ordinal),
            after_node.fields.get(&ordinal),
        ) {
            assert(b[ordinal] == before@);
            assert(a[ordinal] == after@);
            if same_text(
                normalize_type(before.ty.as_str()).as_str(),
                normalize_type(after.ty.as_str()).as_str(),
            ) && !same_default(
                normalize_default(&before.default),
                normalize_default(&after.default),
            ) {
                push_lint(
                    lints,
                    error_lint(
                        member_path(node_name, "field", ordinal),
                        "field default value changed",
                        Some(
                            pair_text(
                                default_str(&before.default),
                                " -> ",
                                default_str(&after.default),
                            ),
                        ),
                    ),
                );
            }
        }
        proof {
            order::lemma_gather_step(keys@, i as int, g);
            assert(text::views(lints@) =~= l1 + g(ordinal));
            assert(text::views(lints@) =~= l0 + order::gather(keys@.take(i + 1), g));
        }
        i = i + 1;
    }
    assert(keys@.take(i as int) =~= keys@);
}

/// Compares two nodes of the same name and kind.
fn compare_members(
    node_name: &str,
    before_node: &Node,
    after_node: &Node,
    violations: &mut Vec<Violation>,
    lints: &mut Vec<Lint>,
)
    ensures
        text::views(final(violations)@) == text::views(old(violations)@) + member_violations(
            node_name@,
            before_node@,
            after_node@,
        ),
        text::views(final(lints)@) == text::views(old(lints)@) + member_changes(
            node_name@,
            before_node@,
            after_node@,
        ),
{
    let ghost l0 = text::views(lints@);
    compare_struct_fields(node_name, before_node, after_node, violations, lints);
    lint_field_default_changes(node_name, before_node, after_node, lints);
    compare_enum_values(node_name, before_node, after_node, violations, lints);
    compare_methods(node_name, before_node, after_node, violations, lints);
    assert(text::views(lints@) =~= l0 + member_changes(node_name@, before_node@, after_node@));
}

/// Compares an earlier set of schemas with a later one.
pub fn compare(before: &SchemaSet, after: &SchemaSet) -> (report: Report)
    ensures
        report@ == comparison(before@, after@),
{
    let mut violations: Vec<Violation> = Vec::new();
    let mut lints = lint_schema_sets(before, after);
    let ghost l0 = text::views(lints@);
    let ghost b = before@.nodes;
    let ghost a = after@.nodes;
    let ghost f = node_violations(b, a);
    let ghost g = node_changes(b, a);
    let nodes = &before.snapshot.nodes;
    assert(b.dom() =~= nodes@.dom());
    let ghost keys = order::names(b.dom());
    let n: usize = nodes.len();
    let mut i: usize = 0;
    assert(text::views(violations@) =~= order::gather(keys.take(0), f));
    assert(text::views(lints@) =~= l0 + order::gather(keys.take(0), g));
    while i < n
        invariant
            i <= n == keys.len(),
            keys == order::names(nodes@.dom()),
            nodes == before.snapshot.nodes,
            b == before@.nodes,
            a == after@.nodes,
            f == node_violations(b, a),
            g == node_changes(b, a),
            text::views(violations@) == order::gather(keys.take(i as int), f),
            text::views(lints@) == l0 + order::gather(keys.take(i as int), g),
        decreases n - i,
    {
        let (name, before_node) = nodes.entry(i);
        let ghost v1 = text::views(violations@);
        let ghost l1 = text::views(lints@);
        assert(b[name@] == before_node@);
        match after.snapshot.nodes.get(name.as_str()) {
            None => {
                push_violation(
                    &mut violations,
                    violation(
                        name.clone(),
                        "node was removed",
                        kind_text(before_node.kind).to_owned(),
                        None,
                    ),
                );
            },
            Some(after_node) => {
                assert(a[name@] == after_node@);
                if before_node.kind != after_node.kind {
                    push_violation(
                        &mut violations,
                        violation(
                            name.clone(),
                            "node kind changed",
                            kind_text(before_node.kind).to_owned(),
                            Some(kind_text(after_node.kind).to_owned()),
                        ),
                    );
                } else {
                    compare_members(
                        name.as_str(),
                        before_node,
                        after_node,
                        &mut violations,
                        &mut lints,
                    );
                }
            },
        }
        proof {
            order::lemma_gather_step(keys, i as int, f);
            order::lemma_gather_step(keys, i as int, g);
            assert(text::views(violations@) =~= v1 + f(name@));
            assert(text::views(lints@) =~= l1 + g(name@));
            assert(text::views(lints@) =~= l0 + order::gather(keys.take(i + 1), g));
        }
        i = i + 1;
    }
    assert(keys.take(i as int) =~= keys);
    Report { violations, lints }
}

} // verus!
