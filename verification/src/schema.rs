//! Schemas, reports and errors, and the mathematical values they stand for.

use crate::names::NameMap;
use crate::order;
use crate::text;
use crate::text::{decimal_chars, string_of};
use std::collections::BTreeMap;
use vstd::prelude::*;

verus! {

/// What went wrong when a check could not be carried out.
#[derive(Debug, Clone, PartialEq, Eq)]
pub enum Error {
    /// The file system or the start of a program failed; `source` says how.
    Io { path: String, source: String },
    /// The schema compiler refused the schemas.
    CapnpFailed { command: String, stderr: String },
    /// Another program failed.
    CommandFailed { command: String, stderr: String },
    /// Nothing to check was found.
    NoSchemas(String),
    /// The command line makes no sense.
    Usage(String),
}

/// An `Error` as texts.
pub enum ErrorView {
    Io { path: Seq<char>, source: Seq<char> },
    CapnpFailed { command: Seq<char>, stderr: Seq<char> },
    CommandFailed { command: Seq<char>, stderr: Seq<char> },
    NoSchemas(Seq<char>),
    Usage(Seq<char>),
}

impl View for Error {
    type V = ErrorView;

    open spec fn view(&self) -> ErrorView {
        match *self {
            Error::Io { path, source } => ErrorView::Io { path: path@, source: source@ },
            Error::CapnpFailed { command, stderr } => ErrorView::CapnpFailed {
                command: command@,
                stderr: stderr@,
            },
            Error::CommandFailed { command, stderr } => ErrorView::CommandFailed {
                command: command@,
                stderr: stderr@,
            },
            Error::NoSchemas(path) => ErrorView::NoSchemas(path@),
            Error::Usage(message) => ErrorView::Usage(message@),
        }
    }
}

/// What the outcome of a fallible step stands for.
pub open spec fn outcome<T: View>(result: Result<T, Error>) -> Result<T::V, ErrorView> {
    match result {
        Ok(value) => Ok(value@),
        Err(error) => Err(error@),
    }
}

/// How much a lint weighs.
#[derive(Debug, Clone, Copy, PartialEq, Eq, Structural)]
pub enum LintSeverity {
    /// Makes the schemas incompatible.
    Error,
    /// Is only worth knowing.
    Warning,
}

/// A remark on a schema or on a change.
#[derive(Debug, Clone, PartialEq, Eq)]
pub struct Lint {
    pub severity: LintSeverity,
    pub path: String,
    pub reason: String,
    pub detail: Option<String>,
}

/// A `Lint` as texts.
#[verifier::ext_equal]
pub struct LintView {
    pub severity: LintSeverity,
    pub path: Seq<char>,
    pub reason: Seq<char>,
    pub detail: Option<Seq<char>>,
}

impl View for Lint {
    type V = LintView;

    open spec fn view(&self) -> LintView {
        LintView {
            severity: self.severity,
            path: self.path@,
            reason: self.reason@,
            detail: text::view_of(self.detail),
        }
    }
}

/// A change that breaks readers, writers or callers of the earlier schema.
#[derive(Debug, Clone, PartialEq, Eq)]
pub struct Violation {
    pub path: String,
    pub reason: String,
    pub before: Option<String>,
    pub after: Option<String>,
}

/// A `Violation` as texts.
#[verifier::ext_equal]
pub struct ViolationView {
    pub path: Seq<char>,
    pub reason: Seq<char>,
    pub before: Option<Seq<char>>,
    pub after: Option<Seq<char>>,
}

impl View for Violation {
    type V = ViolationView;

    open spec fn view(&self) -> ViolationView {
        ViolationView {
            path: self.path@,
            reason: self.reason@,
            before: text::view_of(self.before),
            after: text::view_of(self.after),
        }
    }
}

/// What a comparison found.
#[derive(Debug, Clone, PartialEq, Eq)]
pub struct Report {
    pub violations: Vec<Violation>,
    pub lints: Vec<Lint>,
}

/// A `Report` as texts.
#[verifier::ext_equal]
pub struct ReportView {
    pub violations: Seq<ViolationView>,
    pub lints: Seq<LintView>,
}

impl View for Report {
    type V = ReportView;

    open spec fn view(&self) -> ReportView {
        ReportView { violations: text::views(self.violations@), lints: text::views(self.lints@) }
    }
}

impl ReportView {
    /// Whether some lint is an error.
    pub open spec fn has_error_lints(self) -> bool {
        exists|i: int|
            0 <= i < self.lints.len() && (#[trigger] self.lints[i]).severity == LintSeverity::Error
    }

    /// Whether the later schemas can take the place of the earlier ones.
    pub open spec fn compatible(self) -> bool {
        self.violations.len() == 0 && !self.has_error_lints()
    }
}

/// The kinds of nodes that a schema declares.
#[derive(Debug, Clone, Copy, PartialEq, Eq, Structural)]
pub enum NodeKind {
    Struct,
    Enum,
    Interface,
}

/// A field of a struct.
#[derive(Debug, Clone, PartialEq, Eq)]
pub struct Field {
    pub name: String,
    pub ty: String,
    pub default: Option<String>,
}

/// A `Field` as texts.
#[verifier::ext_equal]
pub struct FieldView {
    pub name: Seq<char>,
    pub ty: Seq<char>,
    pub default: Option<Seq<char>>,
}

impl View for Field {
    type V = FieldView;

    open spec fn view(&self) -> FieldView {
        FieldView { name: self.name@, ty: self.ty@, default: text::view_of(self.default) }
    }
}

/// A value of an enum.
#[derive(Debug, Clone, PartialEq, Eq)]
pub struct EnumValue {
    pub name: String,
}

impl View for EnumValue {
    type V = Seq<char>;

    /// Its name.
    open spec fn view(&self) -> Seq<char> {
        self.name@
    }
}

/// A method of an interface.
#[derive(Debug, Clone, PartialEq, Eq)]
pub struct Method {
    pub name: String,
    pub signature: String,
}

/// A `Method` as texts.
#[verifier::ext_equal]
pub struct MethodView {
    pub name: Seq<char>,
    pub signature: Seq<char>,
}

impl View for Method {
    type V = MethodView;

    open spec fn view(&self) -> MethodView {
        MethodView { name: self.name@, signature: self.signature@ }
    }
}

/// A declared struct, enum or interface with its members by ordinal.
#[derive(Debug, Clone, PartialEq, Eq)]
pub struct Node {
    pub kind: NodeKind,
    pub fields: BTreeMap<u32, Field>,
    pub enum_values: BTreeMap<u32, EnumValue>,
    pub methods: BTreeMap<u32, Method>,
}

/// A `Node` with texts for its members.
#[verifier::ext_equal]
pub struct NodeView {
    pub kind: NodeKind,
    pub fields: Map<u32, FieldView>,
    pub enum_values: Map<u32, Seq<char>>,
    pub methods: Map<u32, MethodView>,
}

impl View for Node {
    type V = NodeView;

    open spec fn view(&self) -> NodeView {
        NodeView {
            kind: self.kind,
            fields: self.fields@.map_values(|f: Field| f@),
            enum_values: self.enum_values@.map_values(|v: EnumValue| v@),
            methods: self.methods@.map_values(|m: Method| m@),
        }
    }
}

/// The nodes of a set of schemas under their full names.
#[derive(Debug, Clone, PartialEq, Eq)]
pub struct Snapshot {
    pub nodes: NameMap<Node>,
}

impl View for Snapshot {
    type V = Map<Seq<char>, NodeView>;

    open spec fn view(&self) -> Map<Seq<char>, NodeView> {
        self.nodes@.map_values(|n: Node| n@)
    }
}

impl Default for Snapshot {
    fn default() -> (snapshot: Snapshot)
        ensures
            snapshot@ == Map::<Seq<char>, NodeView>::empty(),
    {
        let snapshot = Snapshot { nodes: NameMap::new() };
        assert(snapshot@ =~= Map::<Seq<char>, NodeView>::empty());
        snapshot
    }
}

/// A schema file.
#[derive(Debug, Clone, PartialEq, Eq)]
pub struct SchemaFile {
    pub path: String,
    pub relative_path: String,
    pub file_id: Option<String>,
}

/// A `SchemaFile` as texts.
#[verifier::ext_equal]
pub struct SchemaFileView {
    pub path: Seq<char>,
    pub relative_path: Seq<char>,
    pub file_id: Option<Seq<char>>,
}

impl View for SchemaFile {
    type V = SchemaFileView;

    open spec fn view(&self) -> SchemaFileView {
        SchemaFileView {
            path: self.path@,
            relative_path: self.relative_path@,
            file_id: text::view_of(self.file_id),
        }
    }
}

/// One side of a comparison: all its nodes and files, the file that each node
/// comes from, and the remarks made while reading.
#[derive(Debug, Clone, PartialEq, Eq)]
pub struct SchemaSet {
    pub snapshot: Snapshot,
    pub files: Vec<SchemaFile>,
    pub node_paths: NameMap<String>,
    pub lints: Vec<Lint>,
}

/// A `SchemaSet` as texts and maps.
#[verifier::ext_equal]
pub struct SchemaSetView {
    pub nodes: Map<Seq<char>, NodeView>,
    pub files: Seq<SchemaFileView>,
    pub node_paths: Map<Seq<char>, Seq<char>>,
    pub lints: Seq<LintView>,
}

impl View for SchemaSet {
    type V = SchemaSetView;

    open spec fn view(&self) -> SchemaSetView {
        SchemaSetView {
            nodes: self.snapshot@,
            files: text::views(self.files@),
            node_paths: self.node_paths@.map_values(|p: String| p@),
            lints: text::views(self.lints@),
        }
    }
}

impl Default for SchemaSet {
    fn default() -> (set: SchemaSet)
        ensures
            set@ == (SchemaSetView {
                nodes: Map::empty(),
                files: Seq::empty(),
                node_paths: Map::empty(),
                lints: Seq::empty(),
            }),
    {
        let set = SchemaSet {
            snapshot: Snapshot::default(),
            files: Vec::new(),
            node_paths: NameMap::new(),
            lints: Vec::new(),
        };
        assert(set@.files =~= Seq::empty());
        assert(set@.node_paths =~= Map::empty());
        assert(set@.lints =~= Seq::empty());
        set
    }
}

/// How a member of a node is referred to: `Node.part[ordinal]`.
pub open spec fn member_path_of(node: Seq<char>, part: Seq<char>, ordinal: u32) -> Seq<char> {
    node + "."@ + part + "["@ + text::decimal(ordinal as nat) + "]"@
}

/// How a member of a node is referred to.
pub fn member_path(node: &str, part: &str, ordinal: u32) -> (path: String)
    ensures
        path@ == member_path_of(node@, part@, ordinal),
{
    let number = string_of(decimal_chars(ordinal).as_slice());
    let mut path = node.to_owned();
    path.append(".");
    path.append(part);
    path.append("[");
    path.append(number.as_str());
    path.append("]");
    path
}

/// A text, something between, and another text.
pub fn pair_text(first: &str, between: &str, second: &str) -> (whole: String)
    ensures
        whole@ == first@ + between@ + second@,
{
    let mut whole = first.to_owned();
    whole.append(between);
    whole.append(second);
    whole
}

/// A lint that makes the schemas incompatible.
pub open spec fn error_lint_of(
    path: Seq<char>,
    reason: Seq<char>,
    detail: Option<Seq<char>>,
) -> LintView {
    LintView { severity: LintSeverity::Error, path, reason, detail }
}

/// A lint that makes the schemas incompatible.
pub fn error_lint(path: String, reason: &str, detail: Option<String>) -> (lint: Lint)
    ensures
        lint@ == error_lint_of(path@, reason@, text::view_of(detail)),
{
    Lint { severity: LintSeverity::Error, path, reason: reason.to_owned(), detail }
}

/// A pushed item is one more item of what the sequence stands for.
pub proof fn lemma_views_push<T: View>(items: Seq<T>, item: T)
    ensures
        text::views(items.push(item)) == text::views(items).push(item@),
{
    assert(text::views(items.push(item)) =~= text::views(items).push(item@));
}

/// The ordinals that a map has entries for, the lowest first.
pub fn sorted_ordinals<V>(map: &BTreeMap<u32, V>) -> (keys: Vec<u32>)
    ensures
        keys@ == order::ordinals(map@.dom()),
        order::in_order(keys@, order::number_order()),
        keys@.to_set() == map@.dom(),
        map@.dom().finite(),
        forall|i: int| 0 <= i < keys@.len() ==> map@.contains_key(#[trigger] keys@[i]),
{
    let mut keys: Vec<u32> = Vec::new();
    let entries = map.iter();
    let ghost listed = vstd::std_specs::iter::IteratorSpec::remaining(&entries);
    for entry in it: entries
        invariant
            it.seq() == listed,
            keys@ == listed.map_values(|e: (&u32, &V)| *e.0).take(it.index()),
    {
        keys.push(*entry.0);
    }
    proof {
        let q = listed.map_values(|e: (&u32, &V)| *e.0);
        assert(keys@ =~= q);
        assert(vstd::std_specs::btree::increasing_seq(q));
        assert forall|i: int, j: int| 0 <= i < j < q.len() implies order::number_order()(
            #[trigger] q[i],
            #[trigger] q[j],
        ) by {
            assert(vstd::std_specs::cmp::OrdSpec::cmp_spec(&q[i], &q[j]) is Less);
        }
        assert forall|k: u32| #[trigger] map@.contains_key(k) implies q.contains(k) by {
            let e = (&k, &map@[k]);
            assert(listed.contains(e));
            let i = choose|i: int| 0 <= i < listed.len() && listed[i] == e;
            assert(q[i] == k);
        }
        assert forall|k: u32| q.contains(k) implies #[trigger] map@.contains_key(k) by {
            let i = choose|i: int| 0 <= i < q.len() && q[i] == k;
            assert(map@.contains_key(*listed[i].0));
        }
        assert(q.to_set() =~= map@.dom());
        order::lemma_orders_total();
        order::lemma_ascending_is(q, map@.dom(), order::number_order());
    }
    keys
}

} // verus!
