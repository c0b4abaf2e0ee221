//! From statements to nodes.

use crate::lexer;
use crate::lexer::statements;
use crate::names::NameMap;
use crate::order;
use crate::schema;
use crate::schema::{
    error_lint, member_path, pair_text, sorted_ordinals, EnumValue, Field, FieldView, Lint, LintView,
    Method, MethodView, Node, NodeKind, NodeView, Snapshot,
};
use crate::text;
use crate::text::{
    chars_of, decimal_chars, find_char, find_no_digit, has_prefix, is_text, next_word,
    parse_unsigned, string_of, trimmed, trimmed_end_of,
};
use std::collections::BTreeMap;
use vstd::prelude::*;
use vstd::slice::slice_subrange;

verus! {

/// The kind and the name that a statement opens a node with.
pub open spec fn node_start(s: Seq<char>) -> Option<(NodeKind, Seq<char>)> {
    if s.len() == 0 || s.last() != '{' {
        None
    } else {
        let prefix = text::trim(s.drop_last());
        let name = text::first_word(text::after_word(prefix));
        match kind_named(text::first_word(prefix)) {
            Some(kind) if name.len() > 0 => Some((kind, name)),
            _ => None,
        }
    }
}

/// The kind of node that a keyword declares.
pub open spec fn kind_named(word: Seq<char>) -> Option<NodeKind> {
    if word == "struct"@ {
        Some(NodeKind::Struct)
    } else if word == "enum"@ {
        Some(NodeKind::Enum)
    } else if word == "interface"@ {
        Some(NodeKind::Interface)
    } else {
        None
    }
}

/// What an optional kind with a name stands for.
pub open spec fn view_start(o: Option<(NodeKind, String)>) -> Option<(NodeKind, Seq<char>)> {
    match o {
        Some((kind, name)) => Some((kind, name@)),
        None => None,
    }
}

/// The kind and the name of the node that a statement opens.
pub fn parse_node_start(statement: &[char]) -> (start: Option<(NodeKind, String)>)
    ensures
        view_start(start) == node_start(statement@),
{
    let n: usize = statement.len();
    if n == 0 || statement[n - 1] != '{' {
        return None;
    }
    let prefix = trimmed(slice_subrange(statement, 0, n - 1));
    assert(statement@.subrange(0, n - 1) =~= statement@.drop_last());
    let (word, rest) = next_word(prefix);
    let kind = if is_text(word, "struct") {
        NodeKind::Struct
    } else if is_text(word, "enum") {
        NodeKind::Enum
    } else if is_text(word, "interface") {
        NodeKind::Interface
    } else {
        return None;
    };
    let (name, _) = next_word(rest);
    if name.len() == 0 {
        return None;
    }
    Some((kind, string_of(name)))
}

/// The ordinal that a text denotes.
pub open spec fn ordinal_of(s: Seq<char>) -> Option<u32> {
    text::unsigned(text::trim(s))
}

/// The ordinal that a text is.
pub fn parse_ordinal(input: &[char]) -> (ordinal: Option<u32>)
    ensures
        ordinal == ordinal_of(input@),
{
    parse_unsigned(trimmed(input))
}

/// The type and the default value behind the colon of a field.
pub open spec fn type_and_default(value: Seq<char>) -> (Seq<char>, Option<Seq<char>>) {
    match text::find(value, '=') {
        None => (text::trim(value), None),
        Some(i) => {
            let default = text::trim(value.skip(i + 1));
            (
                text::trim(value.take(i)),
                if default.len() == 0 {
                    None
                } else {
                    Some(default)
                },
            )
        },
    }
}

/// The type and the default value of a field.
pub fn parse_field_type_and_default(value: &[char]) -> (parsed: (String, Option<String>))
    ensures
        (parsed.0@, text::view_of(parsed.1)) == type_and_default(value@),
{
    let n: usize = value.len();
    match find_char(value, '=') {
        None => (string_of(trimmed(value)), None),
        Some(i) => {
            let ty = string_of(trimmed(slice_subrange(value, 0, i)));
            let default = trimmed(slice_subrange(value, i + 1, n));
            if default.len() == 0 {
                (ty, None)
            } else {
                (ty, Some(string_of(default)))
            }
        },
    }
}

/// Whether a statement in a struct declares something other than a field.
pub open spec fn declares_no_field(s: Seq<char>) -> bool {
    ||| text::starts_with(s, "using "@)
    ||| text::starts_with(s, "const "@)
    ||| text::starts_with(s, "annotation "@)
    ||| text::starts_with(s, "union "@)
}

/// The field that a statement declares: `name @ordinal :type = default;`.
pub open spec fn field_of(s: Seq<char>) -> Option<(u32, FieldView)> {
    match text::find(s, '@') {
        Some(at) if !declares_no_field(s) => match text::find(s.skip(at), ':') {
            Some(offset) => {
                let colon = at + offset;
                let name = text::trim(s.take(at));
                let value = text::trim(text::trim_end_of(text::trim(s.skip(colon + 1)), ';'));
                let (ty, default) = type_and_default(value);
                match ordinal_of(s.subrange(at + 1, colon)) {
                    Some(ordinal) if name.len() > 0 && ty.len() > 0 => Some(
                        (ordinal, FieldView { name, ty, default }),
                    ),
                    _ => None,
                }
            },
            None => None,
        },
        _ => None,
    }
}

/// What an optional numbered item stands for.
pub open spec fn view_numbered<T: View>(o: Option<(u32, T)>) -> Option<(u32, T::V)> {
    match o {
        Some((ordinal, item)) => Some((ordinal, item@)),
        None => None,
    }
}

/// The field that a statement declares, with its ordinal.
pub fn parse_field(statement: &[char]) -> (field: Option<(u32, Field)>)
    ensures
        view_numbered(field) == field_of(statement@),
{
    if has_prefix(statement, "using ") || has_prefix(statement, "const ") || has_prefix(
        statement,
        "annotation ",
    ) || has_prefix(statement, "union ") {
        return None;
    }
    let n: usize = statement.len();
    let at: usize = match find_char(statement, '@') {
        Some(at) => at,
        None => return None,
    };
    proof {
        text::lemma_position(statement@, text::is_char('@'));
        text::lemma_position(statement@.skip(at as int), text::is_char(':'));
    }
    let offset: usize = match find_char(slice_subrange(statement, at, n), ':') {
        Some(offset) => offset,
        None => return None,
    };
    let colon: usize = at + offset;
    assert(statement@[at as int] == '@');
    assert(statement@.skip(at as int)[offset as int] == ':');
    let name = trimmed(slice_subrange(statement, 0, at));
    if name.len() == 0 {
        return None;
    }
    let ordinal: u32 = match parse_ordinal(slice_subrange(statement, at + 1, colon)) {
        Some(ordinal) => ordinal,
        None => return None,
    };
    let value = trimmed(trimmed_end_of(trimmed(slice_subrange(statement, colon + 1, n)), ';'));
    let (ty, default) = parse_field_type_and_default(value);
    if ty.as_str().is_empty() {
        None
    } else {
        Some((ordinal, Field { name: string_of(name), ty, default }))
    }
}

/// The enum value that a statement declares: `name @ordinal;`.
pub open spec fn enum_value_of(s: Seq<char>) -> Option<(u32, Seq<char>)> {
    match text::find(s, '@') {
        Some(at) => {
            let name = text::trim(s.take(at));
            match ordinal_of(text::trim_end_of(s.skip(at + 1), ';')) {
                Some(ordinal) if name.len() > 0 => Some((ordinal, name)),
                _ => None,
            }
        },
        None => None,
    }
}

/// The enum value that a statement declares, with its ordinal.
pub fn parse_enum_value(statement: &[char]) -> (value: Option<(u32, EnumValue)>)
    ensures
        view_numbered(value) == enum_value_of(statement@),
{
    let n: usize = statement.len();
    let at: usize = match find_char(statement, '@') {
        Some(at) => at,
        None => return None,
    };
    let name = trimmed(slice_subrange(statement, 0, at));
    if name.len() == 0 {
        return None;
    }
    match parse_ordinal(trimmed_end_of(slice_subrange(statement, at + 1, n), ';')) {
        Some(ordinal) => Some((ordinal, EnumValue { name: string_of(name) })),
        None => None,
    }
}

/// The method that a statement declares: `name @ordinal signature;`.
pub open spec fn method_of(s: Seq<char>) -> Option<(u32, MethodView)> {
    match text::find(s, '@') {
        Some(at) => {
            let name = text::trim(s.take(at));
            let rest = text::trim(text::trim_end_of(s.skip(at + 1), ';'));
            match text::position(rest, text::no_digit()) {
                Some(end) => match ordinal_of(rest.take(end)) {
                    Some(ordinal) if name.len() > 0 => Some(
                        (ordinal, MethodView { name, signature: text::trim(rest.skip(end)) }),
                    ),
                    _ => None,
                },
                None => None,
            }
        },
        None => None,
    }
}

/// The method that a statement declares, with its ordinal.
pub fn parse_method(statement: &[char]) -> (method: Option<(u32, Method)>)
    ensures
        view_numbered(method) == method_of(statement@),
{
    let n: usize = statement.len();
    let at: usize = match find_char(statement, '@') {
        Some(at) => at,
        None => return None,
    };
    let name = trimmed(slice_subrange(statement, 0, at));
    if name.len() == 0 {
        return None;
    }
    let rest = trimmed(trimmed_end_of(slice_subrange(statement, at + 1, n), ';'));
    let end: usize = match find_no_digit(rest) {
        Some(end) => end,
        None => return None,
    };
    match parse_ordinal(slice_subrange(rest, 0, end)) {
        Some(ordinal) => {
            let signature = string_of(trimmed(slice_subrange(rest, end, rest.len())));
            Some((ordinal, Method { name: string_of(name), signature }))
        },
        None => None,
    }
}

/// Whether the member with this ordinal has this name.
pub open spec fn named(members: Map<u32, Seq<char>>, ordinal: u32, name: Seq<char>) -> bool {
    members.contains_key(ordinal) && members[ordinal] == name
}

/// The lowest ordinal under which a name is taken.
pub open spec fn name_ordinal(members: Map<u32, Seq<char>>, name: Seq<char>) -> Option<u32> {
    if exists|ordinal: u32| named(members, ordinal, name) {
        Some(
            choose|ordinal: u32|
                #![trigger named(members, ordinal, name)]
                named(members, ordinal, name) && forall|other: u32|
                    named(members, other, name) ==> ordinal <= other,
        )
    } else {
        None
    }
}

/// The names of a struct's fields by ordinal.
pub open spec fn field_names(node: NodeView) -> Map<u32, Seq<char>> {
    node.fields.map_values(|f: FieldView| f.name)
}

/// The names of an interface's methods by ordinal.
pub open spec fn method_names(node: NodeView) -> Map<u32, Seq<char>> {
    node.methods.map_values(|m: MethodView| m.name)
}

proof fn lemma_name_ordinal_is(
    members: Map<u32, Seq<char>>,
    name: Seq<char>,
    keys: Seq<u32>,
    i: int,
)
    requires
        keys == order::ordinals(members.dom()),
        order::in_order(keys, order::number_order()),
        keys.to_set() == members.dom(),
        0 <= i < keys.len(),
        named(members, keys[i], name),
        forall|j: int| 0 <= j < i ==> !named(members, #[trigger] keys[j], name),
    ensures
        name_ordinal(members, name) == Some(keys[i]),
{
    assert forall|other: u32| named(members, other, name) implies keys[i] <= other by {
        assert(keys.to_set().contains(other));
        let j = choose|j: int| 0 <= j < keys.len() && keys[j] == other;
        if j > i {
            assert(order::number_order()(keys[i], keys[j]));
        }
    }
    let found = name_ordinal(members, name).unwrap();
    assert(named(members, found, name));
}

proof fn lemma_name_ordinal_none(members: Map<u32, Seq<char>>, name: Seq<char>, keys: Seq<u32>)
    requires
        keys.to_set() == members.dom(),
        forall|j: int| 0 <= j < keys.len() ==> !named(members, #[trigger] keys[j], name),
    ensures
        name_ordinal(members, name) is None,
{
    assert forall|other: u32| !named(members, other, name) by {
        if named(members, other, name) {
            assert(keys.to_set().contains(other));
            let j = choose|j: int| 0 <= j < keys.len() && keys[j] == other;
            assert(!named(members, keys[j], name));
        }
    }
}

/// The lowest ordinal under which a field has the name.
pub fn field_name_ordinal(node: &Node, name: &str) -> (found: Option<u32>)
    ensures
        found == name_ordinal(field_names(node@), name@),
{
    let keys = sorted_ordinals(&node.fields);
    let ghost members = field_names(node@);
    assert(members.dom() =~= node.fields@.dom());
    let mut i: usize = 0;
    while i < keys.len()
        invariant
            i <= keys@.len(),
            members == field_names(node@),
            members.dom() == node.fields@.dom(),
            keys@ == order::ordinals(members.dom()),
            order::in_order(keys@, order::number_order()),
            keys@.to_set() == members.dom(),
            forall|j: int| 0 <= j < keys@.len() ==> node.fields@.contains_key(#[trigger] keys@[j]),
            forall|j: int| 0 <= j < i ==> !named(members, #[trigger] keys@[j], name@),
        decreases keys@.len() - i,
    {
        let key: u32 = keys[i];
        assert(node.fields@.contains_key(keys@[i as int]));
        if let Some(field) = node.fields.get(&key) {
            if text::same_text(field.name.as_str(), name) {
                proof {
                    lemma_name_ordinal_is(members, name@, keys@, i as int);
                }
                return Some(key);
            }
        }
        i = i + 1;
    }
    proof {
        lemma_name_ordinal_none(members, name@, keys@);
    }
    None
}

/// The lowest ordinal under which an enum value has the name.
pub fn enum_value_name_ordinal(node: &Node, name: &str) -> (found: Option<u32>)
    ensures
        found == name_ordinal(node@.enum_values, name@),
{
    let keys = sorted_ordinals(&node.enum_values);
    let ghost members = node@.enum_values;
    assert(members.dom() =~= node.enum_values@.dom());
    let mut i: usize = 0;
    while i < keys.len()
        invariant
            i <= keys@.len(),
            members == node@.enum_values,
            members.dom() == node.enum_values@.dom(),
            keys@ == order::ordinals(members.dom()),
            order::in_order(keys@, order::number_order()),
            keys@.to_set() == members.dom(),
            forall|j: int| 0 <= j < keys@.len() ==> node.enum_values@.contains_key(#[trigger] keys@[j]),
            forall|j: int| 0 <= j < i ==> !named(members, #[trigger] keys@[j], name@),
        decreases keys@.len() - i,
    {
        let key: u32 = keys[i];
        assert(node.enum_values@.contains_key(keys@[i as int]));
        if let Some(value) = node.enum_values.get(&key) {
            if text::same_text(value.name.as_str(), name) {
                proof {
                    lemma_name_ordinal_is(members, name@, keys@, i as int);
                }
                return Some(key);
            }
        }
        i = i + 1;
    }
    proof {
        lemma_name_ordinal_none(members, name@, keys@);
    }
    None
}

/// The lowest ordinal under which a method has the name.
pub fn method_name_ordinal(node: &Node, name: &str) -> (found: Option<u32>)
    ensures
        found == name_ordinal(method_names(node@), name@),
{
    let keys = sorted_ordinals(&node.methods);
    let ghost members = method_names(node@);
    assert(members.dom() =~= node.methods@.dom());
    let mut i: usize = 0;
    while i < keys.len()
        invariant
            i <= keys@.len(),
            members == method_names(node@),
            members.dom() == node.methods@.dom(),
            keys@ == order::ordinals(members.dom()),
            order::in_order(keys@, order::number_order()),
            keys@.to_set() == members.dom(),
            forall|j: int| 0 <= j < keys@.len() ==> node.methods@.contains_key(#[trigger] keys@[j]),
            forall|j: int| 0 <= j < i ==> !named(members, #[trigger] keys@[j], name@),
        decreases keys@.len() - i,
    {
        let key: u32 = keys[i];
        assert(node.methods@.contains_key(keys@[i as int]));
        if let Some(method) = node.methods.get(&key) {
            if text::same_text(method.name.as_str(), name) {
                proof {
                    lemma_name_ordinal_is(members, name@, keys@, i as int);
                }
                return Some(key);
            }
        }
        i = i + 1;
    }
    proof {
        lemma_name_ordinal_none(members, name@, keys@);
    }
    None
}

/// What has been made of the statements read so far.
#[verifier::ext_equal]
pub struct ParsingView {
    /// The nodes that were opened, by full name.
    pub nodes: Map<Seq<char>, NodeView>,
    /// The remarks on them.
    pub lints: Seq<LintView>,
    /// The nodes that are open, the innermost last.
    pub stack: Seq<(Seq<char>, NodeKind)>,
}

/// A node without members.
pub open spec fn empty_node(kind: NodeKind) -> NodeView {
    NodeView { kind, fields: Map::empty(), enum_values: Map::empty(), methods: Map::empty() }
}

/// The full name of a node opened inside the innermost open one.
pub open spec fn full_name(stack: Seq<(Seq<char>, NodeKind)>, name: Seq<char>) -> Seq<char> {
    if stack.len() > 0 {
        stack.last().0 + "."@ + name
    } else {
        name
    }
}

/// A node is opened. The first one of a name stays.
pub open spec fn open_node(state: ParsingView, kind: NodeKind, name: Seq<char>) -> ParsingView {
    let full = full_name(state.stack, name);
    ParsingView {
        nodes: if state.nodes.contains_key(full) {
            state.nodes
        } else {
            state.nodes.insert(full, empty_node(kind))
        },
        lints: if state.nodes.contains_key(full) {
            state.lints.push(
                schema::error_lint_of(full, "node name is defined multiple times"@, None),
            )
        } else {
            state.lints
        },
        stack: state.stack.push((full, kind)),
    }
}

/// What the members of a node of this kind are called in a path.
pub open spec fn part_of(kind: NodeKind) -> Seq<char> {
    match kind {
        NodeKind::Struct => "field"@,
        NodeKind::Enum => "enum"@,
        NodeKind::Interface => "method"@,
    }
}

/// What is said of a member whose name is taken.
pub open spec fn name_taken(kind: NodeKind) -> Seq<char> {
    match kind {
        NodeKind::Struct => "field name is defined multiple times"@,
        NodeKind::Enum => "enum value name is defined multiple times"@,
        NodeKind::Interface => "method name is defined multiple times"@,
    }
}

/// What is said of a member whose ordinal is taken.
pub open spec fn ordinal_taken(kind: NodeKind) -> Seq<char> {
    match kind {
        NodeKind::Struct => "field ordinal is defined multiple times"@,
        NodeKind::Enum => "enum ordinal is defined multiple times"@,
        NodeKind::Interface => "method ordinal is defined multiple times"@,
    }
}

/// The remark on a new member's name.
pub open spec fn name_lints(
    kind: NodeKind,
    node: Seq<char>,
    members: Map<u32, Seq<char>>,
    ordinal: u32,
    name: Seq<char>,
) -> Seq<LintView> {
    match name_ordinal(members, name) {
        Some(taken) => seq![
            schema::error_lint_of(
                schema::member_path_of(node, part_of(kind), ordinal),
                name_taken(kind),
                Some(
                    name + " also used by "@ + part_of(kind) + "["@ + text::decimal(taken as nat)
                        + "]"@,
                ),
            ),
        ],
        None => Seq::empty(),
    }
}

/// The remark on a new member's ordinal.
pub open spec fn ordinal_lints(
    kind: NodeKind,
    node: Seq<char>,
    members: Map<u32, Seq<char>>,
    ordinal: u32,
    name: Seq<char>,
) -> Seq<LintView> {
    if members.contains_key(ordinal) {
        seq![
            schema::error_lint_of(
                schema::member_path_of(node, part_of(kind), ordinal),
                ordinal_taken(kind),
                Some(members[ordinal] + " and "@ + name),
            ),
        ]
    } else {
        Seq::empty()
    }
}

/// The remarks on a new member of a node.
pub open spec fn member_lints(
    kind: NodeKind,
    node: Seq<char>,
    members: Map<u32, Seq<char>>,
    ordinal: u32,
    name: Seq<char>,
) -> Seq<LintView> {
    name_lints(kind, node, members, ordinal, name) + ordinal_lints(
        kind,
        node,
        members,
        ordinal,
        name,
    )
}

/// The entries with one more. The first one of an ordinal stays.
pub open spec fn with_entry<T>(entries: Map<u32, T>, ordinal: u32, entry: T) -> Map<u32, T> {
    if entries.contains_key(ordinal) {
        entries
    } else {
        entries.insert(ordinal, entry)
    }
}

/// A statement inside a node, taken as a member of the given kind: what becomes of
/// the node, and the remarks.
pub open spec fn add_member(
    kind: NodeKind,
    name: Seq<char>,
    node: NodeView,
    s: Seq<char>,
) -> (NodeView, Seq<LintView>) {
    match kind {
        NodeKind::Struct => match field_of(s) {
            Some((ordinal, field)) => (
                NodeView { fields: with_entry(node.fields, ordinal, field), ..node },
                member_lints(kind, name, field_names(node), ordinal, field.name),
            ),
            None => (node, Seq::empty()),
        },
        NodeKind::Enum => match enum_value_of(s) {
            Some((ordinal, value)) => (
                NodeView { enum_values: with_entry(node.enum_values, ordinal, value), ..node },
                member_lints(kind, name, node.enum_values, ordinal, value),
            ),
            None => (node, Seq::empty()),
        },
        NodeKind::Interface => match method_of(s) {
            Some((ordinal, method)) => (
                NodeView { methods: with_entry(node.methods, ordinal, method), ..node },
                member_lints(kind, name, method_names(node), ordinal, method.name),
            ),
            None => (node, Seq::empty()),
        },
    }
}

/// A statement that is neither a closing brace nor opens a node: as a member it belongs
/// to the innermost open node, if there is one.
pub open spec fn fill_node(state: ParsingView, s: Seq<char>) -> ParsingView {
    if state.stack.len() == 0 || !state.nodes.contains_key(state.stack.last().0) {
        state
    } else {
        let (name, kind) = state.stack.last();
        let (node, lints) = add_member(kind, name, state.nodes[name], s);
        ParsingView {
            nodes: state.nodes.insert(name, node),
            lints: state.lints + lints,
            stack: state.stack,
        }
    }
}

/// Whether a statement opens a block: that of a node, a union or a group.
pub open spec fn opens_block(s: Seq<char>) -> bool {
    s.len() > 0 && s.last() == '{'
}

/// A block that is no node is opened. It belongs to the innermost open node, so that its
/// members are members of that node; outside of all nodes it is of no account.
pub open spec fn open_block(state: ParsingView) -> ParsingView {
    if state.stack.len() == 0 {
        state
    } else {
        ParsingView { stack: state.stack.push(state.stack.last()), ..state }
    }
}

/// What one more statement makes of the state.
pub open spec fn parse_step(state: ParsingView, s: Seq<char>) -> ParsingView {
    if s == "}"@ {
        ParsingView {
            stack: if state.stack.len() > 0 {
                state.stack.drop_last()
            } else {
                state.stack
            },
            ..state
        }
    } else {
        match node_start(s) {
            Some((kind, name)) => open_node(state, kind, name),
            None => if opens_block(s) {
                open_block(fill_node(state, s))
            } else {
                fill_node(state, s)
            },
        }
    }
}

/// What a row of statements makes of the state.
pub open spec fn parse_on(state: ParsingView, statements: Seq<Seq<char>>) -> ParsingView
    decreases statements.len(),
{
    if statements.len() == 0 {
        state
    } else {
        parse_step(parse_on(state, statements.drop_last()), statements.last())
    }
}

/// Nothing read yet.
pub open spec fn unread() -> ParsingView {
    ParsingView { nodes: Map::empty(), lints: Seq::empty(), stack: Seq::empty() }
}

/// What a row of statements makes.
pub open spec fn parse_statements(statements: Seq<Seq<char>>) -> ParsingView {
    parse_on(unread(), statements)
}

/// What a schema text makes.
pub open spec fn parsed(source: Seq<char>) -> ParsingView {
    parse_statements(lexer::statements_of(source))
}

/// The word for the members of a node of this kind.
fn part_text(kind: NodeKind) -> (part: &'static str)
    ensures
        part@ == part_of(kind),
{
    match kind {
        NodeKind::Struct => "field",
        NodeKind::Enum => "enum",
        NodeKind::Interface => "method",
    }
}

/// Remarks that a new member's name is taken under another ordinal.
fn lint_name(
    kind: NodeKind,
    node: &str,
    ordinal: u32,
    name: &str,
    taken: Option<u32>,
    lints: &mut Vec<Lint>,
)
    ensures
        forall|members: Map<u32, Seq<char>>|
            taken == #[trigger] name_ordinal(members, name@) ==> text::views(final(lints)@)
                == text::views(old(lints)@) + name_lints(kind, node@, members, ordinal, name@),
{
    if let Some(other) = taken {
        let reason = match kind {
            NodeKind::Struct => "field name is defined multiple times",
            NodeKind::Enum => "enum value name is defined multiple times",
            NodeKind::Interface => "method name is defined multiple times",
        };
        let mut detail = pair_text(name, " also used by ", part_text(kind));
        detail.append("[");
        detail.append(string_of(decimal_chars(other).as_slice()).as_str());
        detail.append("]");
        let lint = error_lint(member_path(node, part_text(kind), ordinal), reason, Some(detail));
        proof {
            schema::lemma_views_push(lints@, lint);
        }
        lints.push(lint);
        assert(text::views(lints@) =~= text::views(old(lints)@) + seq![lint@]);
    } else {
        assert(text::views(lints@) =~= text::views(old(lints)@) + Seq::empty());
    }
}

/// Remarks that a new member's ordinal is taken.
fn lint_ordinal(
    kind: NodeKind,
    node: &str,
    ordinal: u32,
    existing: &str,
    name: &str,
    lints: &mut Vec<Lint>,
)
    ensures
        forall|members: Map<u32, Seq<char>>|
            named(members, ordinal, existing@) ==> text::views(final(lints)@) == text::views(
                old(lints)@,
            ) + #[trigger] ordinal_lints(kind, node@, members, ordinal, name@),
{
    let reason = match kind {
        NodeKind::Struct => "field ordinal is defined multiple times",
        NodeKind::Enum => "enum ordinal is defined multiple times",
        NodeKind::Interface => "method ordinal is defined multiple times",
    };
    let detail = pair_text(existing, " and ", name);
    let lint = error_lint(member_path(node, part_text(kind), ordinal), reason, Some(detail));
    proof {
        schema::lemma_views_push(lints@, lint);
    }
    lints.push(lint);
    assert(text::views(lints@) =~= text::views(old(lints)@) + seq![lint@]);
}

/// Adds a field to a node, unless its ordinal is taken.
#[verifier::rlimit(40)]
fn put_field(node: &mut Node, node_name: &str, ordinal: u32, field: Field, lints: &mut Vec<Lint>)
    ensures
        final(node)@ == (NodeView {
            fields: with_entry(old(node)@.fields, ordinal, field@),
            ..old(node)@
        }),
        text::views(final(lints)@) == text::views(old(lints)@) + member_lints(
            NodeKind::Struct,
            node_name@,
            field_names(old(node)@),
            ordinal,
            field@.name,
        ),
{
    let ghost before = node@;
    let ghost old_lints = text::views(lints@);
    let ghost members = field_names(before);
    lint_name(
        NodeKind::Struct,
        node_name,
        ordinal,
        field.name.as_str(),
        field_name_ordinal(node, field.name.as_str()),
        lints,
    );
    let mut free: bool = true;
    if let Some(existing) = node.fields.get(&ordinal) {
        assert(members.contains_key(ordinal));
        free = false;
        lint_ordinal(
            NodeKind::Struct,
            node_name,
            ordinal,
            existing.name.as_str(),
            field.name.as_str(),
            lints,
        );
    }
    let ghost view = field@;
    if free {
        node.fields.insert(ordinal, field);
    }
    proof {
        assert(members.contains_key(ordinal) == !free);
        assert(text::views(lints@) =~= old_lints + member_lints(
            NodeKind::Struct,
            node_name@,
            members,
            ordinal,
            view.name,
        ));
        assert(node@.fields =~= with_entry(before.fields, ordinal, view));
    }
}

/// Adds the field that a statement declares to a node.
fn add_field(node: &mut Node, node_name: &str, statement: &[char], lints: &mut Vec<Lint>)
    ensures
        (final(node)@, text::views(final(lints)@)) == ({
            let (after, remarks) = add_member(
                NodeKind::Struct,
                node_name@,
                old(node)@,
                statement@,
            );
            (after, text::views(old(lints)@) + remarks)
        }),
{
    match parse_field(statement) {
        Some((ordinal, field)) => put_field(node, node_name, ordinal, field, lints),
        None => {
            assert(text::views(lints@) =~= text::views(old(lints)@) + Seq::empty());
        },
    }
}

/// Adds an enum value to a node, unless its ordinal is taken.
#[verifier::rlimit(40)]
fn put_enum_value(
    node: &mut Node,
    node_name: &str,
    ordinal: u32,
    value: EnumValue,
    lints: &mut Vec<Lint>,
)
    ensures
        final(node)@ == (NodeView {
            enum_values: with_entry(old(node)@.enum_values, ordinal, value@),
            ..old(node)@
        }),
        text::views(final(lints)@) == text::views(old(lints)@) + member_lints(
            NodeKind::Enum,
            node_name@,
            old(node)@.enum_values,
            ordinal,
            value@,
        ),
{
    let ghost before = node@;
    let ghost old_lints = text::views(lints@);
    let ghost members = before.enum_values;
    lint_name(
        NodeKind::Enum,
        node_name,
        ordinal,
        value.name.as_str(),
        enum_value_name_ordinal(node, value.name.as_str()),
        lints,
    );
    let mut free: bool = true;
    if let Some(existing) = node.enum_values.get(&ordinal) {
        assert(members.contains_key(ordinal));
        free = false;
        lint_ordinal(
            NodeKind::Enum,
            node_name,
            ordinal,
            existing.name.as_str(),
            value.name.as_str(),
            lints,
        );
    }
    let ghost view = value@;
    if free {
        node.enum_values.insert(ordinal, value);
    }
    proof {
        assert(members.contains_key(ordinal) == !free);
        assert(text::views(lints@) =~= old_lints + member_lints(
            NodeKind::Enum,
            node_name@,
            members,
            ordinal,
            view,
        ));
        assert(node@.enum_values =~= with_entry(before.enum_values, ordinal, view));
    }
}

/// Adds the enum value that a statement declares to a node.
fn add_enum_value(node: &mut Node, node_name: &str, statement: &[char], lints: &mut Vec<Lint>)
    ensures
        (final(node)@, text::views(final(lints)@)) == ({
            let (after, remarks) = add_member(
                NodeKind::Enum,
                node_name@,
                old(node)@,
                statement@,
            );
            (after, text::views(old(lints)@) + remarks)
        }),
{
    match parse_enum_value(statement) {
        Some((ordinal, value)) => put_enum_value(node, node_name, ordinal, value, lints),
        None => {
            assert(text::views(lints@) =~= text::views(old(lints)@) + Seq::empty());
        },
    }
}

/// Adds a method to a node, unless its ordinal is taken.
#[verifier::rlimit(40)]
fn put_method(node: &mut Node, node_name: &str, ordinal: u32, method: Method, lints: &mut Vec<Lint>)
    ensures
        final(node)@ == (NodeView {
            methods: with_entry(old(node)@.methods, ordinal, method@),
            ..old(node)@
        }),
        text::views(final(lints)@) == text::views(old(lints)@) + member_lints(
            NodeKind::Interface,
            node_name@,
            method_names(old(node)@),
            ordinal,
            method@.name,
        ),
{
    let ghost before = node@;
    let ghost old_lints = text::views(lints@);
    let ghost members = method_names(before);
    lint_name(
        NodeKind::Interface,
        node_name,
        ordinal,
        method.name.as_str(),
        method_name_ordinal(node, method.name.as_str()),
        lints,
    );
    let mut free: bool = true;
    if let Some(existing) = node.methods.get(&ordinal) {
        assert(members.contains_key(ordinal));
        free = false;
        lint_ordinal(
            NodeKind::Interface,
            node_name,
            ordinal,
            existing.name.as_str(),
            method.name.as_str(),
            lints,
        );
    }
    let ghost view = method@;
    if free {
        node.methods.insert(ordinal, method);
    }
    proof {
        assert(members.contains_key(ordinal) == !free);
        assert(text::views(lints@) =~= old_lints + member_lints(
            NodeKind::Interface,
            node_name@,
            members,
            ordinal,
            view.name,
        ));
        assert(node@.methods =~= with_entry(before.methods, ordinal, view));
    }
}

/// Adds the method that a statement declares to a node.
fn add_method(node: &mut Node, node_name: &str, statement: &[char], lints: &mut Vec<Lint>)
    ensures
        (final(node)@, text::views(final(lints)@)) == ({
            let (after, remarks) = add_member(
                NodeKind::Interface,
                node_name@,
                old(node)@,
                statement@,
            );
            (after, text::views(old(lints)@) + remarks)
        }),
{
    match parse_method(statement) {
        Some((ordinal, method)) => put_method(node, node_name, ordinal, method, lints),
        None => {
            assert(text::views(lints@) =~= text::views(old(lints)@) + Seq::empty());
        },
    }
}

/// The nodes of a schema text with the remarks on it.
#[derive(Debug, Clone, PartialEq, Eq)]
pub struct ParsedSchema {
    pub snapshot: Snapshot,
    pub lints: Vec<Lint>,
}

/// The nodes opened so far, the remarks, and the nodes that are open.
struct Parsing {
    nodes: NameMap<Node>,
    lints: Vec<Lint>,
    stack: Vec<(String, NodeKind)>,
}

impl Parsing {
    spec fn state(self) -> ParsingView {
        ParsingView {
            nodes: self.nodes@.map_values(|n: Node| n@),
            lints: text::views(self.lints@),
            stack: self.stack@.map_values(|e: (String, NodeKind)| (e.0@, e.1)),
        }
    }

    /// Opens a node inside the innermost open one.
    fn open(&mut self, kind: NodeKind, name: String)
        ensures
            final(self).state() == open_node(old(self).state(), kind, name@),
    {
        let ghost before = self.state();
        let depth: usize = self.stack.len();
        let full = if depth > 0 {
            let parent = &self.stack[depth - 1].0;
            assert(before.stack.last() == before.stack[depth - 1]);
            pair_text(parent.as_str(), ".", name.as_str())
        } else {
            name
        };
        if self.nodes.contains_key(full.as_str()) {
            let lint = error_lint(full.clone(), "node name is defined multiple times", None);
            proof {
                schema::lemma_views_push(self.lints@, lint);
            }
            self.lints.push(lint);
        } else {
            let node = Node {
                kind,
                fields: BTreeMap::new(),
                enum_values: BTreeMap::new(),
                methods: BTreeMap::new(),
            };
            assert(node@ =~= empty_node(kind));
            self.nodes.insert(full.clone(), node);
        }
        self.stack.push((full, kind));
        assert(self.state() =~= open_node(before, kind, name@));
    }

    /// Takes a statement as a member of the innermost open node.
    fn fill(&mut self, statement: &[char])
        ensures
            final(self).state() == fill_node(old(self).state(), statement@),
    {
        let ghost before = self.state();
        let depth: usize = self.stack.len();
        if depth == 0 {
            return;
        }
        let name = self.stack[depth - 1].0.clone();
        let kind = self.stack[depth - 1].1;
        assert(before.stack.last() == before.stack[depth - 1]);
        if let Some(mut node) = self.nodes.remove(name.as_str()) {
            assert(before.nodes[name@] == node@);
            match kind {
                NodeKind::Struct => add_field(&mut node, name.as_str(), statement, &mut self.lints),
                NodeKind::Enum => add_enum_value(
                    &mut node,
                    name.as_str(),
                    statement,
                    &mut self.lints,
                ),
                NodeKind::Interface => add_method(
                    &mut node,
                    name.as_str(),
                    statement,
                    &mut self.lints,
                ),
            }
            self.nodes.insert(name, node);
        } else {
            assert(self.state().nodes =~= before.nodes);
        }
        assert(self.state() =~= fill_node(before, statement@));
    }

    /// Opens a block inside the innermost open node.
    fn open_block(&mut self)
        ensures
            final(self).state() == open_block(old(self).state()),
    {
        let ghost before = self.state();
        let depth: usize = self.stack.len();
        if depth > 0 {
            assert(before.stack.last() == before.stack[depth - 1]);
            let name = self.stack[depth - 1].0.clone();
            let kind = self.stack[depth - 1].1;
            self.stack.push((name, kind));
        }
        assert(self.state() =~= open_block(before));
    }

    /// Takes one statement.
    fn step(&mut self, statement: &[char])
        ensures
            final(self).state() == parse_step(old(self).state(), statement@),
    {
        let ghost before = self.state();
        if is_text(statement, "}") {
            let _ = self.stack.pop();
            assert(self.state() =~= parse_step(before, statement@));
        } else {
            match parse_node_start(statement) {
                Some((kind, name)) => self.open(kind, name),
                None => {
                    self.fill(statement);
                    let n: usize = statement.len();
                    if n > 0 && statement[n - 1] == '{' {
                        self.open_block();
                    }
                },
            }
        }
    }
}

/// The nodes that a schema text declares, with the remarks on them.
pub fn parse_schema_with_lints(source: &str) -> (schema: ParsedSchema)
    ensures
        schema.snapshot@ == parsed(source@).nodes,
        text::views(schema.lints@) == parsed(source@).lints,
{
    let rows = statements(chars_of(source).as_slice());
    let mut parsing = Parsing { nodes: NameMap::new(), lints: Vec::new(), stack: Vec::new() };
    let mut i: usize = 0;
    assert(parsing.state() =~= unread());
    while i < rows.len()
        invariant
            i <= rows@.len(),
            parsing.state() == parse_statements(text::views(rows@).take(i as int)),
        decreases rows@.len() - i,
    {
        assert(text::views(rows@).take(i + 1).drop_last() =~= text::views(rows@).take(i as int));
        parsing.step(rows[i].as_slice());
        i = i + 1;
    }
    assert(text::views(rows@).take(i as int) =~= text::views(rows@));
    ParsedSchema { snapshot: Snapshot { nodes: parsing.nodes }, lints: parsing.lints }
}

/// The nodes that a schema text declares.
pub fn parse_schema(source: &str) -> (snapshot: Snapshot)
    ensures
        snapshot@ == parsed(source@).nodes,
{
    parse_schema_with_lints(source).snapshot
}

/// Whether entries are all there, as they were.
pub open spec fn stay_in<T>(before: Map<u32, T>, after: Map<u32, T>) -> bool {
    forall|ordinal: u32| #[trigger]
        before.contains_key(ordinal) ==> after.contains_key(ordinal) && before[ordinal]
            == after[ordinal]
}

/// Whether a node has kept its kind and the members that it had.
pub open spec fn grown(before: NodeView, after: NodeView) -> bool {
    &&& before.kind == after.kind
    &&& stay_in(before.fields, after.fields)
    &&& stay_in(before.enum_values, after.enum_values)
    &&& stay_in(before.methods, after.methods)
}

proof fn lemma_member_grows(kind: NodeKind, name: Seq<char>, node: NodeView, s: Seq<char>)
    ensures
        grown(node, add_member(kind, name, node, s).0),
{
}

#[verifier::rlimit(40)]
proof fn lemma_step_grows(state: ParsingView, s: Seq<char>, name: Seq<char>)
    requires
        state.nodes.contains_key(name),
    ensures
        parse_step(state, s).nodes.contains_key(name),
        grown(state.nodes[name], parse_step(state, s).nodes[name]),
        state.lints.is_prefix_of(parse_step(state, s).lints),
{
    if s != "}"@ && node_start(s) is None && state.stack.len() > 0 {
        let (open, kind) = state.stack.last();
        lemma_member_grows(kind, open, state.nodes[open], s);
    }
}

/// Later statements overwrite nothing: a node keeps its kind and the members that it has,
/// whatever follows, and remarks are not taken back.
pub proof fn law_first_definition_stays(statements: Seq<Seq<char>>, n: int, name: Seq<char>)
    requires
        0 <= n <= statements.len(),
        parse_statements(statements.take(n)).nodes.contains_key(name),
    ensures
        parse_statements(statements).nodes.contains_key(name),
        grown(
            parse_statements(statements.take(n)).nodes[name],
            parse_statements(statements).nodes[name],
        ),
        parse_statements(statements.take(n)).lints.is_prefix_of(parse_statements(statements).lints),
    decreases statements.len(),
{
    if n < statements.len() {
        assert(statements.drop_last().take(n) =~= statements.take(n));
        law_first_definition_stays(statements.drop_last(), n, name);
        let before = parse_statements(statements.drop_last());
        lemma_step_grows(before, statements.last(), name);
    } else {
        assert(statements.take(n) =~= statements);
    }
}

/// A member whose ordinal is taken is remarked on, and changes nothing.
pub proof fn law_taken_ordinal_is_remarked(
    kind: NodeKind,
    name: Seq<char>,
    node: NodeView,
    s: Seq<char>,
)
    requires
        match kind {
            NodeKind::Struct => field_of(s) is Some && node.fields.contains_key(
                (field_of(s)->0).0,
            ),
            NodeKind::Enum => enum_value_of(s) is Some && node.enum_values.contains_key(
                (enum_value_of(s)->0).0,
            ),
            NodeKind::Interface => method_of(s) is Some && node.methods.contains_key(
                (method_of(s)->0).0,
            ),
        },
    ensures
        add_member(kind, name, node, s).0 == node,
        add_member(kind, name, node, s).1.len() > 0,
        add_member(kind, name, node, s).1.last().reason == ordinal_taken(kind),
        add_member(kind, name, node, s).1.last().severity == schema::LintSeverity::Error,
{
}

/// How many more blocks are opened than closed.
pub open spec fn depth(statements: Seq<Seq<char>>) -> int
    decreases statements.len(),
{
    if statements.len() == 0 {
        0
    } else if statements.last() == "}"@ {
        depth(statements.drop_last()) - 1
    } else if opens_block(statements.last()) {
        depth(statements.drop_last()) + 1
    } else {
        depth(statements.drop_last())
    }
}

/// Whether every block that is closed was opened before, and every opened one is closed.
pub open spec fn balanced(statements: Seq<Seq<char>>) -> bool {
    &&& depth(statements) == 0
    &&& forall|n: int|
        0 <= n <= statements.len() ==> depth(#[trigger] statements.take(n)) >= 0
}

/// Inside a node, each block adds one entry to the stack and takes away that entry.
proof fn lemma_depth(state: ParsingView, statements: Seq<Seq<char>>)
    requires
        state.stack.len() > 0,
        forall|n: int|
            0 <= n <= statements.len() ==> depth(#[trigger] statements.take(n)) >= 0,
    ensures
        parse_on(state, statements).stack.len() == state.stack.len() + depth(statements),
        state.stack.is_prefix_of(parse_on(state, statements).stack),
    decreases statements.len(),
{
    assert(statements.take(statements.len() as int) =~= statements);
    if statements.len() > 0 {
        let shorter = statements.drop_last();
        let s = statements.last();
        assert forall|n: int| 0 <= n <= shorter.len() implies depth(#[trigger] shorter.take(n))
            >= 0 by {
            assert(shorter.take(n) =~= statements.take(n));
        }
        lemma_depth(state, shorter);
        let before = parse_on(state, shorter);
        let after = parse_on(state, statements);
        assert(shorter.take(shorter.len() as int) =~= shorter);
        assert(after == parse_step(before, s));
        assert(state.stack =~= before.stack.take(state.stack.len() as int));
        if s == "}"@ {
            assert(after.stack == before.stack.drop_last());
        } else if node_start(s) is None {
            assert(fill_node(before, s).stack == before.stack);
        }
        assert(state.stack =~= after.stack.take(state.stack.len() as int));
    }
}

/// A block inside a node ends where its own brace closes it: whatever stands in it, the
/// same nodes are open behind it as before it. So what follows a union or a group is still
/// a member of the node around it.
pub proof fn law_block_leaves_its_node_open(
    state: ParsingView,
    opening: Seq<char>,
    members: Seq<Seq<char>>,
)
    requires
        state.stack.len() > 0,
        opens_block(opening),
        balanced(members),
    ensures
        parse_on(state, seq![opening] + members + seq!["}"@]).stack == state.stack,
{
    let opened = seq![opening] + members;
    let all = opened + seq!["}"@];
    reveal_strlit("}");
    assert(opening != "}"@);
    assert forall|n: int| 0 <= n <= opened.len() implies depth(#[trigger] opened.take(n)) >= (if n
        > 0 {
        1int
    } else {
        0
    }) by {
        if n > 0 {
            lemma_depth_behind(opening, members.take(n - 1));
            assert(opened.take(n) =~= seq![opening] + members.take(n - 1));
        }
    }
    assert(opened.take(opened.len() as int) =~= opened);
    assert(members.take(members.len() as int) =~= members);
    lemma_depth_behind(opening, members);
    lemma_depth(state, opened);
    assert(all.drop_last() =~= opened);
    assert(all.last() == "}"@);
    let before = parse_on(state, opened);
    assert(parse_on(state, all).stack == before.stack.drop_last());
    assert(before.stack.drop_last() =~= state.stack);
}

proof fn lemma_depth_behind(opening: Seq<char>, members: Seq<Seq<char>>)
    requires
        opens_block(opening),
    ensures
        depth(seq![opening] + members) == 1 + depth(members),
    decreases members.len(),
{
    let all = seq![opening] + members;
    reveal_strlit("}");
    if members.len() == 0 {
        assert(all =~= seq![opening]);
        assert(all.drop_last() =~= Seq::empty());
        assert(depth(all.drop_last()) == 0);
        assert(all.last() == opening);
    } else {
        lemma_depth_behind(opening, members.drop_last());
        assert(all.drop_last() =~= seq![opening] + members.drop_last());
        assert(all.last() == members.last());
    }
}

/// A field declared behind a union or a group of a struct is a field of that struct, unless
/// its ordinal is taken.
pub proof fn law_field_behind_a_block_counts(
    state: ParsingView,
    opening: Seq<char>,
    members: Seq<Seq<char>>,
    s: Seq<char>,
)
    requires
        state.stack.len() > 0,
        state.stack.last().1 == NodeKind::Struct,
        state.nodes.contains_key(state.stack.last().0),
        opens_block(opening),
        balanced(members),
        s != "}"@,
        node_start(s) is None,
        field_of(s) is Some,
    ensures
        ({
            let before = parse_on(state, seq![opening] + members + seq!["}"@]);
            let after = parse_on(state, (seq![opening] + members + seq!["}"@]).push(s));
            let name = state.stack.last().0;
            let (ordinal, field) = field_of(s)->0;
            &&& before.nodes.contains_key(name)
            &&& after.nodes.contains_key(name)
            &&& after.nodes[name].fields == with_entry(before.nodes[name].fields, ordinal, field)
        }),
{
    let all = seq![opening] + members + seq!["}"@];
    law_block_leaves_its_node_open(state, opening, members);
    lemma_nodes_stay(state, all, state.stack.last().0);
    assert(all.push(s).drop_last() =~= all);
}

proof fn lemma_nodes_stay(state: ParsingView, statements: Seq<Seq<char>>, name: Seq<char>)
    requires
        state.nodes.contains_key(name),
    ensures
        parse_on(state, statements).nodes.contains_key(name),
    decreases statements.len(),
{
    if statements.len() > 0 {
        lemma_nodes_stay(state, statements.drop_last(), name);
        lemma_step_grows(parse_on(state, statements.drop_last()), statements.last(), name);
    }
}

} // verus!
