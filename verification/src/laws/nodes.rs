//! How statements make up nodes.

use crate::laws::comparing;
use crate::lexer;
use crate::parser;
use crate::parser::ParsingView;
use crate::schema::{FieldView, LintSeverity, LintView, MethodView, NodeKind, NodeView};
use crate::text;
use vstd::prelude::*;

verus! {

/// A text is read statement by statement, from nothing on.
pub proof fn law_text_is_read_by_statements(
    source: Seq<char>,
    state: ParsingView,
    first: Seq<Seq<char>>,
    second: Seq<Seq<char>>,
)
    ensures
        parser::parsed(source) == parser::parse_on(
            ParsingView { nodes: Map::empty(), lints: Seq::empty(), stack: Seq::empty() },
            lexer::statements_of(source),
        ),
        parser::parse_on(state, Seq::empty()) == state,
        parser::parse_on(state, first + second) == parser::parse_on(
            parser::parse_on(state, first),
            second,
        ),
    decreases second.len(),
{
    if second.len() == 0 {
        assert(first + second =~= first);
    } else {
        law_text_is_read_by_statements(source, state, first, second.drop_last());
        assert((first + second).drop_last() =~= first + second.drop_last());
        assert((first + second).last() == second.last());
    }
}

proof fn lemma_one_statement(state: ParsingView, s: Seq<char>)
    ensures
        parser::parse_on(state, seq![s]) == parser::parse_step(state, s),
{
    assert(seq![s].drop_last() =~= Seq::empty());
    assert(parser::parse_on(state, Seq::empty()) == state);
}

/// A closing brace closes what was opened last, and changes nothing else.
pub proof fn law_brace_closes(state: ParsingView)
    ensures
        ({
            let after = parser::parse_on(state, seq!["}"@]);
            &&& after.nodes == state.nodes
            &&& after.lints == state.lints
            &&& state.stack.len() > 0 ==> after.stack == state.stack.drop_last()
            &&& state.stack.len() == 0 ==> after.stack.len() == 0
        }),
{
    lemma_one_statement(state, "}"@);
}

/// The full name of a node: that of the node around it, a dot and its own.
pub open spec fn inside(state: ParsingView, name: Seq<char>) -> Seq<char> {
    if state.stack.len() == 0 {
        name
    } else {
        state.stack.last().0 + "."@ + name
    }
}

/// A statement that opens a node adds it under its full name, without members, unless there
/// is one of that name already: then it is an error, and the first one stays. Either way it
/// is the node that is open.
pub proof fn law_node_is_opened(
    state: ParsingView,
    s: Seq<char>,
    kind: NodeKind,
    name: Seq<char>,
)
    requires
        parser::node_start(s) == Some((kind, name)),
    ensures
        ({
            let after = parser::parse_on(state, seq![s]);
            let full = inside(state, name);
            &&& after.stack == state.stack.push((full, kind))
            &&& state.nodes.contains_key(full) ==> after.nodes == state.nodes && after.lints
                == state.lints.push(
                LintView {
                    severity: LintSeverity::Error,
                    path: full,
                    reason: "node name is defined multiple times"@,
                    detail: None,
                },
            )
            &&& !state.nodes.contains_key(full) ==> after.lints == state.lints && after.nodes
                == state.nodes.insert(
                full,
                NodeView {
                    kind,
                    fields: Map::empty(),
                    enum_values: Map::empty(),
                    methods: Map::empty(),
                },
            )
        }),
{
    reveal_strlit("}");
    lemma_one_statement(state, s);
    assert(s.last() == '{');
    assert(s != "}"@);
}

/// What is open behind a statement that declares no node: the same as before it, and its
/// block once more if it opens one.
pub open spec fn open_behind(state: ParsingView, s: Seq<char>) -> Seq<(Seq<char>, NodeKind)> {
    if s.len() > 0 && s.last() == '{' && state.stack.len() > 0 {
        state.stack.push(state.stack.last())
    } else {
        state.stack
    }
}

/// What is said of a new member: whether its name is taken, and whether its ordinal is.
pub open spec fn said_of_member(
    more: Seq<LintView>,
    node: Seq<char>,
    between: Seq<char>,
    part: Seq<char>,
    name_reason: Seq<char>,
    ordinal_reason: Seq<char>,
    names: Map<u32, Seq<char>>,
    n: u32,
    name: Seq<char>,
) -> bool {
    let path = comparing::place(node, between, n);
    let taken_name = names.contains_value(name);
    let taken_ordinal = names.contains_key(n);
    let count: nat = if taken_name && taken_ordinal {
        2
    } else if taken_name || taken_ordinal {
        1
    } else {
        0
    };
    &&& more.len() == count
    &&& taken_name ==> exists|m: u32|
        {
            &&& #[trigger] names.contains_key(m)
            &&& names[m] == name
            &&& forall|other: u32| #[trigger]
                names.contains_key(other) && names[other] == name ==> m <= other
            &&& more[0] == (LintView {
                severity: LintSeverity::Error,
                path,
                reason: name_reason,
                detail: Some(
                    name + " also used by "@ + part + "["@ + text::decimal(m as nat) + "]"@,
                ),
            })
        }
    &&& taken_ordinal ==> more[count - 1] == (LintView {
        severity: LintSeverity::Error,
        path,
        reason: ordinal_reason,
        detail: Some(names[n] + " and "@ + name),
    })
}

proof fn lemma_said(
    kind: NodeKind,
    node: Seq<char>,
    names: Map<u32, Seq<char>>,
    n: u32,
    name: Seq<char>,
)
    ensures
        said_of_member(
            parser::member_lints(kind, node, names, n, name),
            node,
            match kind {
                NodeKind::Struct => ".field["@,
                NodeKind::Enum => ".enum["@,
                NodeKind::Interface => ".method["@,
            },
            match kind {
                NodeKind::Struct => "field"@,
                NodeKind::Enum => "enum"@,
                NodeKind::Interface => "method"@,
            },
            match kind {
                NodeKind::Struct => "field name is defined multiple times"@,
                NodeKind::Enum => "enum value name is defined multiple times"@,
                NodeKind::Interface => "method name is defined multiple times"@,
            },
            match kind {
                NodeKind::Struct => "field ordinal is defined multiple times"@,
                NodeKind::Enum => "enum ordinal is defined multiple times"@,
                NodeKind::Interface => "method ordinal is defined multiple times"@,
            },
            names,
            n,
            name,
        ),
{
    comparing::lemma_places(node, n);
    let first = parser::name_lints(kind, node, names, n, name);
    let second = parser::ordinal_lints(kind, node, names, n, name);
    let found = parser::name_ordinal(names, name);
    if names.contains_value(name) {
        let k = choose|k: u32| #[trigger] names.contains_key(k) && names[k] == name;
        assert(parser::named(names, k, name));
        lemma_lowest(names, name, k);
        let m = found->0;
        assert(parser::named(names, m, name));
        assert(names.contains_key(m));
        assert forall|other: u32| #[trigger]
            names.contains_key(other) && names[other] == name implies m <= other by {
            assert(parser::named(names, other, name));
        }
        assert((first + second)[0] == first[0]);
    } else {
        assert forall|k: u32| !parser::named(names, k, name) by {
            if parser::named(names, k, name) {
                assert(names.contains_key(k) && names[k] == name);
            }
        }
        assert(first =~= Seq::empty());
    }
}

/// There is a lowest ordinal under which a name is taken.
proof fn lemma_lowest(names: Map<u32, Seq<char>>, name: Seq<char>, k: u32)
    requires
        parser::named(names, k, name),
    ensures
        exists|m: u32|
            #![trigger parser::named(names, m, name)]
            parser::named(names, m, name) && forall|other: u32|
                parser::named(names, other, name) ==> m <= other,
    decreases k,
{
    if exists|other: u32| parser::named(names, other, name) && other < k {
        let other = choose|other: u32| parser::named(names, other, name) && other < k;
        lemma_lowest(names, name, other);
    } else {
        assert(parser::named(names, k, name) && forall|other: u32|
            parser::named(names, other, name) ==> k <= other);
    }
}

/// What becomes of a member of the node that is open.
#[verifier::rlimit(40)]
proof fn lemma_member(state: ParsingView, s: Seq<char>, node: NodeView, more: Seq<LintView>)
    requires
        state.stack.len() > 0,
        state.nodes.contains_key(state.stack.last().0),
        s != "}"@,
        parser::node_start(s) is None,
        parser::add_member(
            state.stack.last().1,
            state.stack.last().0,
            state.nodes[state.stack.last().0],
            s,
        ) == (node, more),
    ensures
        ({
            let after = parser::parse_on(state, seq![s]);
            &&& after.stack == open_behind(state, s)
            &&& after.nodes == state.nodes.insert(state.stack.last().0, node)
            &&& state.lints.is_prefix_of(after.lints)
            &&& after.lints.skip(state.lints.len() as int) == more
        }),
{
    lemma_one_statement(state, s);
    let after = parser::parse_on(state, seq![s]);
    assert(after.lints == state.lints + more);
    assert(after.lints.skip(state.lints.len() as int) =~= more);
    assert(after.lints.take(state.lints.len() as int) =~= state.lints);
}

/// A field belongs to the struct that is open. The first field of an ordinal stays, and a
/// name or an ordinal that is taken is an error.
#[verifier::rlimit(40)]
pub proof fn law_field_joins_its_struct(state: ParsingView, s: Seq<char>, n: u32, field: FieldView)
    requires
        state.stack.len() > 0,
        state.stack.last().1 == NodeKind::Struct,
        state.nodes.contains_key(state.stack.last().0),
        s != "}"@,
        parser::node_start(s) is None,
        parser::field_of(s) == Some((n, field)),
    ensures
        ({
            let after = parser::parse_on(state, seq![s]);
            let name = state.stack.last().0;
            let node = state.nodes[name];
            &&& after.stack == open_behind(state, s)
            &&& after.nodes == state.nodes.insert(
                name,
                NodeView {
                    fields: if node.fields.contains_key(n) {
                        node.fields
                    } else {
                        node.fields.insert(n, field)
                    },
                    ..node
                },
            )
            &&& state.lints.is_prefix_of(after.lints)
            &&& said_of_member(
                after.lints.skip(state.lints.len() as int),
                name,
                ".field["@,
                "field"@,
                "field name is defined multiple times"@,
                "field ordinal is defined multiple times"@,
                node.fields.map_values(|f: FieldView| f.name),
                n,
                field.name,
            )
        }),
{
    let (name, kind) = state.stack.last();
    let node = state.nodes[name];
    let (more_node, more) = parser::add_member(kind, name, node, s);
    lemma_member(state, s, more_node, more);
    lemma_said(NodeKind::Struct, name, parser::field_names(node), n, field.name);
}

/// An enum value belongs to the enum that is open. The first value of an ordinal stays, and
/// a name or an ordinal that is taken is an error.
#[verifier::rlimit(40)]
pub proof fn law_value_joins_its_enum(state: ParsingView, s: Seq<char>, n: u32, value: Seq<char>)
    requires
        state.stack.len() > 0,
        state.stack.last().1 == NodeKind::Enum,
        state.nodes.contains_key(state.stack.last().0),
        s != "}"@,
        parser::node_start(s) is None,
        parser::enum_value_of(s) == Some((n, value)),
    ensures
        ({
            let after = parser::parse_on(state, seq![s]);
            let name = state.stack.last().0;
            let node = state.nodes[name];
            &&& after.stack == open_behind(state, s)
            &&& after.nodes == state.nodes.insert(
                name,
                NodeView {
                    enum_values: if node.enum_values.contains_key(n) {
                        node.enum_values
                    } else {
                        node.enum_values.insert(n, value)
                    },
                    ..node
                },
            )
            &&& state.lints.is_prefix_of(after.lints)
            &&& said_of_member(
                after.lints.skip(state.lints.len() as int),
                name,
                ".enum["@,
                "enum"@,
                "enum value name is defined multiple times"@,
                "enum ordinal is defined multiple times"@,
                node.enum_values,
                n,
                value,
            )
        }),
{
    let (name, kind) = state.stack.last();
    let node = state.nodes[name];
    let (more_node, more) = parser::add_member(kind, name, node, s);
    lemma_member(state, s, more_node, more);
    lemma_said(NodeKind::Enum, name, node.enum_values, n, value);
}

/// A method belongs to the interface that is open. The first method of an ordinal stays, and
/// a name or an ordinal that is taken is an error.
#[verifier::rlimit(40)]
pub proof fn law_method_joins_its_interface(
    state: ParsingView,
    s: Seq<char>,
    n: u32,
    method: MethodView,
)
    requires
        state.stack.len() > 0,
        state.stack.last().1 == NodeKind::Interface,
        state.nodes.contains_key(state.stack.last().0),
        s != "}"@,
        parser::node_start(s) is None,
        parser::method_of(s) == Some((n, method)),
    ensures
        ({
            let after = parser::parse_on(state, seq![s]);
            let name = state.stack.last().0;
            let node = state.nodes[name];
            &&& after.stack == open_behind(state, s)
            &&& after.nodes == state.nodes.insert(
                name,
                NodeView {
                    methods: if node.methods.contains_key(n) {
                        node.methods
                    } else {
                        node.methods.insert(n, method)
                    },
                    ..node
                },
            )
            &&& state.lints.is_prefix_of(after.lints)
            &&& said_of_member(
                after.lints.skip(state.lints.len() as int),
                name,
                ".method["@,
                "method"@,
                "method name is defined multiple times"@,
                "method ordinal is defined multiple times"@,
                node.methods.map_values(|m: MethodView| m.name),
                n,
                method.name,
            )
        }),
{
    let (name, kind) = state.stack.last();
    let node = state.nodes[name];
    let (more_node, more) = parser::add_member(kind, name, node, s);
    lemma_member(state, s, more_node, more);
    lemma_said(NodeKind::Interface, name, parser::method_names(node), n, method.name);
}

/// A statement that declares nothing where it stands changes neither nodes nor remarks.
pub proof fn law_other_statements_declare_nothing(state: ParsingView, s: Seq<char>)
    requires
        s != "}"@,
        parser::node_start(s) is None,
        state.stack.len() == 0 || match state.stack.last().1 {
            NodeKind::Struct => parser::field_of(s) is None,
            NodeKind::Enum => parser::enum_value_of(s) is None,
            NodeKind::Interface => parser::method_of(s) is None,
        },
    ensures
        ({
            let after = parser::parse_on(state, seq![s]);
            &&& after.nodes == state.nodes
            &&& after.lints == state.lints
            &&& after.stack == open_behind(state, s)
        }),
{
    lemma_one_statement(state, s);
    if state.stack.len() > 0 && state.nodes.contains_key(state.stack.last().0) {
        let name = state.stack.last().0;
        assert(state.nodes.insert(name, state.nodes[name]) =~= state.nodes);
        assert(state.lints + Seq::<LintView>::empty() =~= state.lints);
    }
}

} // verus!
