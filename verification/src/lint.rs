//! Remarks on two sets of schemas as a whole.

use crate::names::NameMap;
use crate::order;
use crate::schema;
use crate::schema::{
    error_lint, member_path, pair_text, sorted_ordinals, FieldView, Lint, LintSeverity,
    LintView, Method, MethodView, Node, NodeKind, NodeView, SchemaFile, SchemaFileView, SchemaSet,
    SchemaSetView,
};
use crate::text;
use crate::text::{chars_of, find_chars, joined, same_text, stands_at};
use vstd::prelude::*;
use vstd::slice::slice_subrange;

verus! {

/// Appends a lint.
pub fn push_lint(lints: &mut Vec<Lint>, lint: Lint)
    ensures
        text::views(final(lints)@) == text::views(old(lints)@).push(lint@),
{
    proof {
        schema::lemma_views_push(lints@, lint);
    }
    lints.push(lint);
}

/// Whether `c` can be part of an identifier.
pub open spec fn is_word_char(c: char) -> bool {
    'a' <= c <= 'z' || 'A' <= c <= 'Z' || '0' <= c <= '9' || c == '_'
}

fn word_char(c: char) -> (yes: bool)
    ensures
        yes == is_word_char(c),
{
    ('a' <= c && c <= 'z') || ('A' <= c && c <= 'Z') || ('0' <= c && c <= '9') || c == '_'
}

/// Whether `word` stands at place `i` of `s` with nothing of an identifier on
/// either side.
pub open spec fn is_whole_word(s: Seq<char>, i: int, word: Seq<char>) -> bool {
    &&& text::occurs(s, i, word)
    &&& i > 0 ==> !is_word_char(s[i - 1])
    &&& i + word.len() < s.len() ==> !is_word_char(s[i + word.len()])
}

/// Whether a type or a list of parameters names the type `AnyPointer`.
pub open spec fn has_any_pointer(s: Seq<char>) -> bool {
    exists|i: int| is_whole_word(s, i, "AnyPointer"@)
}

/// Whether a type or a list of parameters names the type `AnyPointer`.
pub fn contains_any_pointer(value: &[char]) -> (yes: bool)
    ensures
        yes == has_any_pointer(value@),
{
    let word = chars_of("AnyPointer");
    let n: usize = value.len();
    let m: usize = word.len();
    if n < m {
        return false;
    }
    let mut i: usize = 0;
    let last: usize = n - m;
    let mut more: bool = true;
    while more
        invariant
            i <= last,
            last == n - m,
            n == value@.len(),
            m == word@.len(),
            word@ == "AnyPointer"@,
            more ==> forall|j: int| 0 <= j < i ==> !is_whole_word(value@, j, word@),
            !more ==> forall|j: int| !is_whole_word(value@, j, word@),
        decreases last - i + (if more { 1int } else { 0 }),
    {
        if stands_at(value, i, word.as_slice()) && (i == 0 || !word_char(value[i - 1])) && (i + m
            == n || !word_char(value[i + m])) {
            assert(is_whole_word(value@, i as int, word@));
            return true;
        }
        if i < last {
            i = i + 1;
        } else {
            more = false;
        }
    }
    false
}

/// A lint that is only worth knowing.
pub open spec fn warning_of(
    path: Seq<char>,
    reason: Seq<char>,
    detail: Option<Seq<char>>,
) -> LintView {
    LintView { severity: LintSeverity::Warning, path, reason, detail }
}

fn warning(path: String, reason: &str, detail: String) -> (lint: Lint)
    ensures
        lint@ == warning_of(path@, reason@, Some(detail@)),
{
    Lint { severity: LintSeverity::Warning, path, reason: reason.to_owned(), detail: Some(detail) }
}

/// The remark on a field whose type names `AnyPointer`.
pub open spec fn field_pointer_lints(node: Seq<char>, ordinal: u32, field: FieldView) -> Seq<
    LintView,
> {
    if has_any_pointer(field.ty) {
        seq![
            warning_of(
                schema::member_path_of(node, "field"@, ordinal),
                "field uses AnyPointer"@,
                Some(field.name + ": "@ + field.ty),
            ),
        ]
    } else {
        Seq::empty()
    }
}

/// The parameters of a signature: what stands before its arrow.
pub open spec fn params_of(signature: Seq<char>) -> Seq<char> {
    match text::find_text(signature, "->"@) {
        Some(i) => signature.take(i),
        None => signature,
    }
}

/// The results of a signature: what stands behind its arrow.
pub open spec fn results_of(signature: Seq<char>) -> Seq<char> {
    match text::find_text(signature, "->"@) {
        Some(i) => signature.skip(i + 2),
        None => Seq::empty(),
    }
}

/// The remark on one side of a signature that names `AnyPointer`.
pub open spec fn side_pointer_lints(
    node: Seq<char>,
    ordinal: u32,
    method: MethodView,
    side: Seq<char>,
    reason: Seq<char>,
) -> Seq<LintView> {
    if has_any_pointer(side) {
        seq![
            warning_of(
                schema::member_path_of(node, "method"@, ordinal),
                reason,
                Some(method.name + " "@ + method.signature),
            ),
        ]
    } else {
        Seq::empty()
    }
}

/// The remarks on a method whose signature names `AnyPointer`.
pub open spec fn method_pointer_lints(node: Seq<char>, ordinal: u32, method: MethodView) -> Seq<
    LintView,
> {
    side_pointer_lints(
        node,
        ordinal,
        method,
        params_of(method.signature),
        "method parameter uses AnyPointer"@,
    ) + side_pointer_lints(
        node,
        ordinal,
        method,
        results_of(method.signature),
        "method result uses AnyPointer"@,
    )
}

/// Remarks on a method whose signature names `AnyPointer`.
pub fn lint_method_any_pointer(node_name: &str, ordinal: u32, method: &Method, lints: &mut Vec<Lint>)
    ensures
        text::views(final(lints)@) == text::views(old(lints)@) + method_pointer_lints(
            node_name@,
            ordinal,
            method@,
        ),
{
    let ghost before = text::views(lints@);
    let signature = chars_of(method.signature.as_str());
    let all = signature.as_slice();
    let n: usize = all.len();
    proof {
        reveal_strlit("->");
    }
    let (params, results): (&[char], &[char]) = match find_chars(all, "->") {
        Some(i) => (slice_subrange(all, 0, i), slice_subrange(all, i + 2, n)),
        None => (all, slice_subrange(all, n, n)),
    };
    assert(params@ =~= params_of(method@.signature));
    assert(results@ =~= results_of(method@.signature));
    if contains_any_pointer(params) {
        push_lint(
            lints,
            warning(
                member_path(node_name, "method", ordinal),
                "method parameter uses AnyPointer",
                pair_text(method.name.as_str(), " ", method.signature.as_str()),
            ),
        );
    }
    if contains_any_pointer(results) {
        push_lint(
            lints,
            warning(
                member_path(node_name, "method", ordinal),
                "method result uses AnyPointer",
                pair_text(method.name.as_str(), " ", method.signature.as_str()),
            ),
        );
    }
    assert(text::views(lints@) =~= before + method_pointer_lints(node_name@, ordinal, method@));
}

/// The remarks on each field of a struct.
pub open spec fn field_pointers(name: Seq<char>, node: NodeView) -> spec_fn(u32) -> Seq<LintView> {
    |ordinal: u32| field_pointer_lints(name, ordinal, node.fields[ordinal])
}

/// The remarks on each method of an interface.
pub open spec fn method_pointers(name: Seq<char>, node: NodeView) -> spec_fn(u32) -> Seq<
    LintView,
> {
    |ordinal: u32| method_pointer_lints(name, ordinal, node.methods[ordinal])
}

/// The remarks on a node that names `AnyPointer`, in the order of the ordinals.
pub open spec fn node_pointer_lints(name: Seq<char>, node: NodeView) -> Seq<LintView> {
    match node.kind {
        NodeKind::Struct => order::gather(
            order::ordinals(node.fields.dom()),
            field_pointers(name, node),
        ),
        NodeKind::Interface => order::gather(
            order::ordinals(node.methods.dom()),
            method_pointers(name, node),
        ),
        NodeKind::Enum => Seq::empty(),
    }
}

/// The remarks on each node.
pub open spec fn node_pointers(nodes: Map<Seq<char>, NodeView>) -> spec_fn(Seq<char>) -> Seq<
    LintView,
> {
    |name: Seq<char>| node_pointer_lints(name, nodes[name])
}

/// The remarks on all nodes that name `AnyPointer`, in the order of the names.
pub open spec fn any_pointer_lints(nodes: Map<Seq<char>, NodeView>) -> Seq<LintView> {
    order::gather(order::names(nodes.dom()), node_pointers(nodes))
}

fn lint_node_any_pointer(name: &str, node: &Node, lints: &mut Vec<Lint>)
    ensures
        text::views(final(lints)@) == text::views(old(lints)@) + node_pointer_lints(name@, node@),
{
    let ghost start = text::views(lints@);
    match node.kind {
        NodeKind::Struct => {
            let keys = sorted_ordinals(&node.fields);
            let ghost f = field_pointers(name@, node@);
            assert(node@.fields.dom() =~= node.fields@.dom());
            let mut i: usize = 0;
            while i < keys.len()
                invariant
                    i <= keys@.len(),
                    f == field_pointers(name@, node@),
                    forall|j: int|
                        0 <= j < keys@.len() ==> node.fields@.contains_key(#[trigger] keys@[j]),
                    text::views(lints@) == start + order::gather(keys@.take(i as int), f),
                decreases keys@.len() - i,
            {
                let ordinal: u32 = keys[i];
                assert(node.fields@.contains_key(keys@[i as int]));
                let ghost before = text::views(lints@);
                if let Some(field) = node.fields.get(&ordinal) {
                    assert(node@.fields[ordinal] == field@);
                    if contains_any_pointer(chars_of(field.ty.as_str()).as_slice()) {
                        push_lint(
                            lints,
                            warning(
                                member_path(name, "field", ordinal),
                                "field uses AnyPointer",
                                pair_text(field.name.as_str(), ": ", field.ty.as_str()),
                            ),
                        );
                    }
                }
                proof {
                    order::lemma_gather_step(keys@, i as int, f);
                    assert(text::views(lints@) =~= before + f(ordinal));
                    assert(text::views(lints@) =~= start + order::gather(keys@.take(i + 1), f));
                }
                i = i + 1;
            }
            assert(keys@.take(i as int) =~= keys@);
        },
        NodeKind::Interface => {
            let keys = sorted_ordinals(&node.methods);
            let ghost f = method_pointers(name@, node@);
            assert(node@.methods.dom() =~= node.methods@.dom());
            let mut i: usize = 0;
            while i < keys.len()
                invariant
                    i <= keys@.len(),
                    f == method_pointers(name@, node@),
                    forall|j: int|
                        0 <= j < keys@.len() ==> node.methods@.contains_key(#[trigger] keys@[j]),
                    text::views(lints@) == start + order::gather(keys@.take(i as int), f),
                decreases keys@.len() - i,
            {
                let ordinal: u32 = keys[i];
                assert(node.methods@.contains_key(keys@[i as int]));
                let ghost before = text::views(lints@);
                if let Some(method) = node.methods.get(&ordinal) {
                    assert(node@.methods[ordinal] == method@);
                    lint_method_any_pointer(name, ordinal, method, lints);
                }
                proof {
                    order::lemma_gather_step(keys@, i as int, f);
                    assert(text::views(lints@) =~= before + f(ordinal));
                    assert(text::views(lints@) =~= start + order::gather(keys@.take(i + 1), f));
                }
                i = i + 1;
            }
            assert(keys@.take(i as int) =~= keys@);
        },
        NodeKind::Enum => {
            assert(text::views(lints@) =~= start + Seq::empty());
        },
    }
}

/// Remarks on every node of the set that names `AnyPointer`.
pub fn lint_any_pointer_types(set: &SchemaSet, lints: &mut Vec<Lint>)
    ensures
        text::views(final(lints)@) == text::views(old(lints)@) + any_pointer_lints(set@.nodes),
{
    let ghost start = text::views(lints@);
    let nodes = &set.snapshot.nodes;
    let ghost f = node_pointers(set@.nodes);
    assert(set@.nodes.dom() =~= nodes@.dom());
    let ghost keys = order::names(nodes@.dom());
    let n: usize = nodes.len();
    let mut i: usize = 0;
    while i < n
        invariant
            i <= n == keys.len(),
            keys == order::names(nodes@.dom()),
            set@.nodes == nodes@.map_values(|n: Node| n@),
            f == node_pointers(set@.nodes),
            text::views(lints@) == start + order::gather(keys.take(i as int), f),
        decreases n - i,
    {
        let (name, node) = nodes.entry(i);
        let ghost before = text::views(lints@);
        lint_node_any_pointer(name.as_str(), node, lints);
        proof {
            assert(set@.nodes[name@] == node@);
            order::lemma_gather_step(keys, i as int, f);
            assert(text::views(lints@) =~= start + order::gather(keys.take(i + 1), f));
        }
        i = i + 1;
    }
    assert(keys.take(i as int) =~= keys);
}

/// Whether some file has the id.
pub open spec fn has_id(files: Seq<SchemaFileView>, id: Seq<char>) -> bool {
    exists|i: int| 0 <= i < files.len() && (#[trigger] files[i]).file_id == Some(id)
}

/// Whether some file has the relative path.
pub open spec fn has_path(files: Seq<SchemaFileView>, path: Seq<char>) -> bool {
    exists|i: int| 0 <= i < files.len() && (#[trigger] files[i]).relative_path == path
}

/// The ids that files have.
pub open spec fn ids(files: Seq<SchemaFileView>) -> Set<Seq<char>> {
    Set::new(|id: Seq<char>| has_id(files, id))
}

/// The last file with the id.
pub open spec fn last_with_id(files: Seq<SchemaFileView>, id: Seq<char>) -> Option<SchemaFileView>
    decreases files.len(),
{
    if files.len() == 0 {
        None
    } else if files.last().file_id == Some(id) {
        Some(files.last())
    } else {
        last_with_id(files.drop_last(), id)
    }
}

/// The last file with the relative path.
pub open spec fn last_with_path(files: Seq<SchemaFileView>, path: Seq<char>) -> Option<
    SchemaFileView,
>
    decreases files.len(),
{
    if files.len() == 0 {
        None
    } else if files.last().relative_path == path {
        Some(files.last())
    } else {
        last_with_path(files.drop_last(), path)
    }
}

/// The relative paths of the files with the id.
pub open spec fn paths_with_id(files: Seq<SchemaFileView>, id: Seq<char>) -> Seq<Seq<char>>
    decreases files.len(),
{
    if files.len() == 0 {
        Seq::empty()
    } else if files.last().file_id == Some(id) {
        paths_with_id(files.drop_last(), id).push(files.last().relative_path)
    } else {
        paths_with_id(files.drop_last(), id)
    }
}

/// The remark on a file without an id.
pub open spec fn missing_id(side: Seq<char>) -> spec_fn(SchemaFileView) -> Seq<LintView> {
    |file: SchemaFileView|
        if file.file_id is Some {
            Seq::empty()
        } else {
            seq![
                schema::error_lint_of(
                    side + ":"@ + file.relative_path,
                    "file is missing a file id"@,
                    None,
                ),
            ]
        }
}

/// The remark on an id that more than one file has.
pub open spec fn shared_id(side: Seq<char>, files: Seq<SchemaFileView>) -> spec_fn(
    Seq<char>,
) -> Seq<LintView> {
    |id: Seq<char>|
        if paths_with_id(files, id).len() < 2 {
            Seq::empty()
        } else {
            seq![
                schema::error_lint_of(
                    side + ":"@ + id,
                    "file id is used by multiple files"@,
                    Some(text::join(paths_with_id(files, id), ", "@)),
                ),
            ]
        }
}

/// The remarks on the ids of one side.
pub open spec fn file_id_lints(side: Seq<char>, files: Seq<SchemaFileView>) -> Seq<LintView> {
    order::gather(files, missing_id(side)) + order::gather(
        order::names(ids(files)),
        shared_id(side, files),
    )
}

/// Whether two optional texts are the same.
fn same_option(a: &Option<String>, b: &Option<String>) -> (yes: bool)
    ensures
        yes == (text::view_of(*a) == text::view_of(*b)),
{
    match (a, b) {
        (Some(x), Some(y)) => same_text(x.as_str(), y.as_str()),
        (None, None) => true,
        _ => false,
    }
}

/// Whether the id of a file is the given one.
fn is_id(file: &SchemaFile, id: &str) -> (yes: bool)
    ensures
        yes == (file@.file_id == Some(id@)),
{
    match &file.file_id {
        Some(x) => same_text(x.as_str(), id),
        None => false,
    }
}

proof fn lemma_last_with_id(files: Seq<SchemaFileView>, id: Seq<char>)
    ensures
        last_with_id(files, id) is Some <==> has_id(files, id),
    decreases files.len(),
{
    if files.len() > 0 {
        let shorter = files.drop_last();
        lemma_last_with_id(shorter, id);
        if has_id(shorter, id) {
            let i = choose|i: int| 0 <= i < shorter.len() && (#[trigger] shorter[i]).file_id == Some(id);
            assert(files[i].file_id == Some(id));
        }
        if has_id(files, id) && files.last().file_id != Some(id) {
            let i = choose|i: int| 0 <= i < files.len() && (#[trigger] files[i]).file_id == Some(id);
            assert(shorter[i].file_id == Some(id));
        }
        if files.last().file_id == Some(id) {
            assert(files[files.len() - 1].file_id == Some(id));
        }
    }
}

/// Where the last file of each id stands.
pub fn files_by_id(files: &[SchemaFile]) -> (places: NameMap<usize>)
    ensures
        places@.dom() == ids(text::views(files@)),
        forall|id: Seq<char>| #[trigger]
            places@.contains_key(id) ==> places@[id] < files@.len() && last_with_id(
                text::views(files@),
                id,
            ) == Some(files@[places@[id] as int]@),
{
    let mut places: NameMap<usize> = NameMap::new();
    let ghost all = text::views(files@);
    let mut i: usize = 0;
    assert(ids(all.take(0)) =~= Set::empty());
    while i < files.len()
        invariant
            i <= files@.len(),
            all == text::views(files@),
            forall|id: Seq<char>| #[trigger]
                places@.contains_key(id) <==> last_with_id(all.take(i as int), id) is Some,
            forall|id: Seq<char>| #[trigger]
                places@.contains_key(id) ==> places@[id] < i && last_with_id(
                    all.take(i as int),
                    id,
                ) == Some(all[places@[id] as int]),
        decreases files@.len() - i,
    {
        assert(all.take(i + 1).drop_last() =~= all.take(i as int));
        assert(all.take(i + 1).last() == files@[i as int]@);
        if let Some(id) = &files[i].file_id {
            places.insert(id.clone(), i);
        }
        i = i + 1;
    }
    proof {
        assert(all.take(i as int) =~= all);
        assert forall|id: Seq<char>| places@.dom().contains(id) == ids(all).contains(id) by {
            lemma_last_with_id(all, id);
            assert(places@.contains_key(id) == places@.dom().contains(id));
        }
        assert(places@.dom() =~= ids(all));
    }
    places
}

/// The relative paths of the files with the id.
fn relative_paths(files: &[SchemaFile], id: &str) -> (paths: Vec<String>)
    ensures
        text::views(paths@) == paths_with_id(text::views(files@), id@),
{
    let mut paths: Vec<String> = Vec::new();
    let ghost all = text::views(files@);
    let mut i: usize = 0;
    assert(text::views(paths@) =~= paths_with_id(all.take(0), id@));
    while i < files.len()
        invariant
            i <= files@.len(),
            all == text::views(files@),
            text::views(paths@) == paths_with_id(all.take(i as int), id@),
        decreases files@.len() - i,
    {
        assert(all.take(i + 1).drop_last() =~= all.take(i as int));
        assert(all.take(i + 1).last() == files@[i as int]@);
        if is_id(&files[i], id) {
            let path = files[i].relative_path.clone();
            proof {
                schema::lemma_views_push(paths@, path);
            }
            paths.push(path);
        }
        i = i + 1;
    }
    assert(all.take(i as int) =~= all);
    paths
}

/// Remarks on files without an id and on ids that more than one file has.
pub fn lint_file_ids(side: &str, files: &[SchemaFile], lints: &mut Vec<Lint>)
    ensures
        text::views(final(lints)@) == text::views(old(lints)@) + file_id_lints(
            side@,
            text::views(files@),
        ),
{
    let ghost start = text::views(lints@);
    let ghost all = text::views(files@);
    let ghost f = missing_id(side@);
    let mut i: usize = 0;
    while i < files.len()
        invariant
            i <= files@.len(),
            all == text::views(files@),
            f == missing_id(side@),
            text::views(lints@) == start + order::gather(all.take(i as int), f),
        decreases files@.len() - i,
    {
        let ghost before = text::views(lints@);
        if files[i].file_id.is_none() {
            push_lint(
                lints,
                error_lint(
                    pair_text(side, ":", files[i].relative_path.as_str()),
                    "file is missing a file id",
                    None,
                ),
            );
        }
        proof {
            order::lemma_gather_step(all, i as int, f);
            assert(all[i as int] == files@[i as int]@);
            assert(text::views(lints@) =~= before + f(all[i as int]));
            assert(text::views(lints@) =~= start + order::gather(all.take(i + 1), f));
        }
        i = i + 1;
    }
    assert(all.take(i as int) =~= all);
    let ghost middle = text::views(lints@);
    let ghost g = shared_id(side@, all);
    let places = files_by_id(files);
    let ghost keys = order::names(ids(all));
    let n: usize = places.len();
    let mut k: usize = 0;
    while k < n
        invariant
            k <= n == keys.len(),
            keys == order::names(places@.dom()),
            all == text::views(files@),
            g == shared_id(side@, all),
            text::views(lints@) == middle + order::gather(keys.take(k as int), g),
        decreases n - k,
    {
        let (id, _) = places.entry(k);
        let ghost before = text::views(lints@);
        let paths = relative_paths(files, id.as_str());
        if paths.len() >= 2 {
            push_lint(
                lints,
                error_lint(
                    pair_text(side, ":", id.as_str()),
                    "file id is used by multiple files",
                    Some(joined(paths.as_slice(), ", ")),
                ),
            );
        }
        proof {
            order::lemma_gather_step(keys, k as int, g);
            assert(text::views(lints@) =~= before + g(id@));
            assert(text::views(lints@) =~= middle + order::gather(keys.take(k + 1), g));
        }
        k = k + 1;
    }
    assert(keys.take(k as int) =~= keys);
    assert(text::views(lints@) =~= start + file_id_lints(side@, all));
}

/// The remark on a file whose id differs from that of the earlier file at its path.
pub open spec fn changed_id(before: Seq<SchemaFileView>) -> spec_fn(SchemaFileView) -> Seq<
    LintView,
> {
    |file: SchemaFileView|
        match (last_with_path(before, file.relative_path), file.file_id) {
            (Some(earlier), Some(id)) => match earlier.file_id {
                Some(earlier_id) if earlier_id != id => seq![
                    schema::error_lint_of(
                        file.relative_path,
                        "file id changed"@,
                        Some(earlier_id + " -> "@ + id),
                    ),
                ],
                _ => Seq::empty(),
            },
            _ => Seq::empty(),
        }
}

/// The last file with the relative path.
fn file_at<'a>(files: &'a [SchemaFile], path: &str) -> (found: Option<&'a SchemaFile>)
    ensures
        match found {
            Some(file) => last_with_path(text::views(files@), path@) == Some(file@),
            None => last_with_path(text::views(files@), path@) is None,
        },
{
    let ghost all = text::views(files@);
    let mut i: usize = files.len();
    assert(all.take(i as int) =~= all);
    while i > 0
        invariant
            i <= files@.len(),
            all == text::views(files@),
            last_with_path(all.take(i as int), path@) == last_with_path(all, path@),
        decreases i,
    {
        assert(all.take(i as int).drop_last() =~= all.take(i - 1));
        assert(all.take(i as int).last() == files@[i - 1]@);
        if same_text(files[i - 1].relative_path.as_str(), path) {
            return Some(&files[i - 1]);
        }
        i = i - 1;
    }
    None
}

/// Remarks on files whose id changed.
pub fn lint_file_id_changes(before: &SchemaSet, after: &SchemaSet, lints: &mut Vec<Lint>)
    ensures
        text::views(final(lints)@) == text::views(old(lints)@) + order::gather(
            after@.files,
            changed_id(before@.files),
        ),
{
    let ghost start = text::views(lints@);
    let ghost all = after@.files;
    let ghost f = changed_id(before@.files);
    let mut i: usize = 0;
    while i < after.files.len()
        invariant
            i <= after.files@.len(),
            all == text::views(after.files@),
            f == changed_id(before@.files),
            text::views(lints@) == start + order::gather(all.take(i as int), f),
        decreases after.files@.len() - i,
    {
        let ghost earlier_lints = text::views(lints@);
        let file = &after.files[i];
        assert(all[i as int] == file@);
        if let Some(earlier) = file_at(before.files.as_slice(), file.relative_path.as_str()) {
            if let (Some(earlier_id), Some(id)) = (&earlier.file_id, &file.file_id) {
                if !same_text(earlier_id.as_str(), id.as_str()) {
                    push_lint(
                        lints,
                        error_lint(
                            file.relative_path.clone(),
                            "file id changed",
                            Some(pair_text(earlier_id.as_str(), " -> ", id.as_str())),
                        ),
                    );
                }
            }
        }
        proof {
            order::lemma_gather_step(all, i as int, f);
            assert(text::views(lints@) =~= earlier_lints + f(all[i as int]));
            assert(text::views(lints@) =~= start + order::gather(all.take(i + 1), f));
        }
        i = i + 1;
    }
    assert(all.take(i as int) =~= all);
}

/// The remark on an id whose file has another path on the later side.
pub open spec fn moved_id(before: Seq<SchemaFileView>, after: Seq<SchemaFileView>) -> spec_fn(
    Seq<char>,
) -> Seq<LintView> {
    |id: Seq<char>|
        match (last_with_id(before, id), last_with_id(after, id)) {
            (Some(earlier), Some(later)) if earlier.relative_path != later.relative_path => seq![
                schema::error_lint_of(
                    id,
                    "file id moved to a different path"@,
                    Some(earlier.relative_path + " -> "@ + later.relative_path),
                ),
            ],
            _ => Seq::empty(),
        }
}

/// Remarks on ids whose file moved.
pub fn lint_file_id_path_changes(before: &SchemaSet, after: &SchemaSet, lints: &mut Vec<Lint>)
    ensures
        text::views(final(lints)@) == text::views(old(lints)@) + order::gather(
            order::names(ids(before@.files)),
            moved_id(before@.files, after@.files),
        ),
{
    let ghost start = text::views(lints@);
    let ghost f = moved_id(before@.files, after@.files);
    let earlier_places = files_by_id(before.files.as_slice());
    let later_places = files_by_id(after.files.as_slice());
    let ghost keys = order::names(ids(before@.files));
    let n: usize = earlier_places.len();
    let mut i: usize = 0;
    while i < n
        invariant
            i <= n == keys.len(),
            keys == order::names(earlier_places@.dom()),
            f == moved_id(before@.files, after@.files),
            forall|id: Seq<char>| #[trigger]
                earlier_places@.contains_key(id) ==> earlier_places@[id] < before.files@.len()
                    && last_with_id(before@.files, id) == Some(
                    before.files@[earlier_places@[id] as int]@,
                ),
            later_places@.dom() == ids(after@.files),
            forall|id: Seq<char>| #[trigger]
                later_places@.contains_key(id) ==> later_places@[id] < after.files@.len()
                    && last_with_id(after@.files, id) == Some(
                    after.files@[later_places@[id] as int]@,
                ),
            text::views(lints@) == start + order::gather(keys.take(i as int), f),
        decreases n - i,
    {
        let (id, place) = earlier_places.entry(i);
        let ghost earlier_lints = text::views(lints@);
        let earlier = &before.files[*place];
        if let Some(later_place) = later_places.get(id.as_str()) {
            let later = &after.files[*later_place];
            if !same_text(earlier.relative_path.as_str(), later.relative_path.as_str()) {
                push_lint(
                    lints,
                    error_lint(
                        id.clone(),
                        "file id moved to a different path",
                        Some(
                            pair_text(
                                earlier.relative_path.as_str(),
                                " -> ",
                                later.relative_path.as_str(),
                            ),
                        ),
                    ),
                );
            }
        } else {
            proof {
                lemma_last_with_id(after@.files, id@);
                assert(!later_places@.dom().contains(id@));
            }
        }
        proof {
            order::lemma_gather_step(keys, i as int, f);
            assert(text::views(lints@) =~= earlier_lints + f(id@));
            assert(text::views(lints@) =~= start + order::gather(keys.take(i + 1), f));
        }
        i = i + 1;
    }
    assert(keys.take(i as int) =~= keys);
}

/// Whether the later side still has the file, by its path or by its id.
pub open spec fn still_there(file: SchemaFileView, after: Seq<SchemaFileView>) -> bool {
    ||| has_path(after, file.relative_path)
    ||| file.file_id is Some && has_id(after, file.file_id.unwrap())
}

/// The remark on a file that the later side does not have.
pub open spec fn removed_file(after: Seq<SchemaFileView>) -> spec_fn(SchemaFileView) -> Seq<
    LintView,
> {
    |file: SchemaFileView|
        if still_there(file, after) {
            Seq::empty()
        } else {
            seq![
                schema::error_lint_of(
                    file.relative_path,
                    "schema file was removed"@,
                    file.file_id,
                ),
            ]
        }
}

/// Whether one of the files has the path or the id of the given one.
fn has_file(files: &[SchemaFile], file: &SchemaFile) -> (yes: bool)
    ensures
        yes == still_there(file@, text::views(files@)),
{
    let ghost all = text::views(files@);
    let mut i: usize = 0;
    while i < files.len()
        invariant
            i <= files@.len(),
            all == text::views(files@),
            forall|j: int|
                0 <= j < i ==> (#[trigger] all[j]).relative_path != file@.relative_path && (
                file@.file_id is Some ==> all[j].file_id != file@.file_id),
        decreases files@.len() - i,
    {
        assert(all[i as int] == files@[i as int]@);
        if same_text(files[i].relative_path.as_str(), file.relative_path.as_str()) {
            return true;
        }
        if file.file_id.is_some() && same_option(&files[i].file_id, &file.file_id) {
            assert(all[i as int].file_id == Some(file@.file_id.unwrap()));
            return true;
        }
        i = i + 1;
    }
    false
}

/// Remarks on files that are gone.
pub fn lint_removed_files(before: &SchemaSet, after: &SchemaSet, lints: &mut Vec<Lint>)
    ensures
        text::views(final(lints)@) == text::views(old(lints)@) + order::gather(
            before@.files,
            removed_file(after@.files),
        ),
{
    let ghost start = text::views(lints@);
    let ghost all = before@.files;
    let ghost f = removed_file(after@.files);
    let mut i: usize = 0;
    while i < before.files.len()
        invariant
            i <= before.files@.len(),
            all == text::views(before.files@),
            f == removed_file(after@.files),
            text::views(lints@) == start + order::gather(all.take(i as int), f),
        decreases before.files@.len() - i,
    {
        let ghost earlier_lints = text::views(lints@);
        let file = &before.files[i];
        assert(all[i as int] == file@);
        if !has_file(after.files.as_slice(), file) {
            push_lint(
                lints,
                error_lint(
                    file.relative_path.clone(),
                    "schema file was removed",
                    file.file_id.clone(),
                ),
            );
        }
        proof {
            order::lemma_gather_step(all, i as int, f);
            assert(text::views(lints@) =~= earlier_lints + f(all[i as int]));
            assert(text::views(lints@) =~= start + order::gather(all.take(i + 1), f));
        }
        i = i + 1;
    }
    assert(all.take(i as int) =~= all);
}

/// The remark on a node that another file declares on the later side.
pub open spec fn moved_node(
    before: Map<Seq<char>, Seq<char>>,
    after: Map<Seq<char>, Seq<char>>,
) -> spec_fn(Seq<char>) -> Seq<LintView> {
    |name: Seq<char>|
        if after.contains_key(name) && before[name] != after[name] {
            seq![
                schema::error_lint_of(
                    name,
                    "node moved to a different file"@,
                    Some(before[name] + " -> "@ + after[name]),
                ),
            ]
        } else {
            Seq::empty()
        }
}

/// Remarks on nodes that moved to another file.
pub fn lint_node_path_changes(before: &SchemaSet, after: &SchemaSet, lints: &mut Vec<Lint>)
    ensures
        text::views(final(lints)@) == text::views(old(lints)@) + order::gather(
            order::names(before@.node_paths.dom()),
            moved_node(before@.node_paths, after@.node_paths),
        ),
{
    let ghost start = text::views(lints@);
    let ghost f = moved_node(before@.node_paths, after@.node_paths);
    assert(before@.node_paths.dom() =~= before.node_paths@.dom());
    let ghost keys = order::names(before@.node_paths.dom());
    let n: usize = before.node_paths.len();
    let mut i: usize = 0;
    while i < n
        invariant
            i <= n == keys.len(),
            keys == order::names(before.node_paths@.dom()),
            f == moved_node(before@.node_paths, after@.node_paths),
            text::views(lints@) == start + order::gather(keys.take(i as int), f),
        decreases n - i,
    {
        let (name, path) = before.node_paths.entry(i);
        let ghost earlier_lints = text::views(lints@);
        if let Some(later) = after.node_paths.get(name.as_str()) {
            if !same_text(path.as_str(), later.as_str()) {
                push_lint(
                    lints,
                    error_lint(
                        name.clone(),
                        "node moved to a different file",
                        Some(pair_text(path.as_str(), " -> ", later.as_str())),
                    ),
                );
            }
        }
        proof {
            order::lemma_gather_step(keys, i as int, f);
            assert(before@.node_paths[name@] == path@);
            assert(text::views(lints@) =~= earlier_lints + f(name@));
            assert(text::views(lints@) =~= start + order::gather(keys.take(i + 1), f));
        }
        i = i + 1;
    }
    assert(keys.take(i as int) =~= keys);
}

/// The remarks on two sets of schemas as a whole.
pub open spec fn set_lints(before: SchemaSetView, after: SchemaSetView) -> Seq<LintView> {
    before.lints + after.lints + file_id_lints("before"@, before.files) + file_id_lints(
        "after"@,
        after.files,
    ) + order::gather(after.files, changed_id(before.files)) + order::gather(
        order::names(ids(before.files)),
        moved_id(before.files, after.files),
    ) + order::gather(before.files, removed_file(after.files)) + order::gather(
        order::names(before.node_paths.dom()),
        moved_node(before.node_paths, after.node_paths),
    ) + any_pointer_lints(after.nodes)
}

/// Appends copies of lints.
fn copy_lints(from: &[Lint], lints: &mut Vec<Lint>)
    ensures
        text::views(final(lints)@) == text::views(old(lints)@) + text::views(from@),
{
    let ghost start = text::views(lints@);
    let ghost all = text::views(from@);
    let mut i: usize = 0;
    assert(text::views(lints@) =~= start + all.take(0));
    while i < from.len()
        invariant
            i <= from@.len(),
            all == text::views(from@),
            text::views(lints@) == start + all.take(i as int),
        decreases from@.len() - i,
    {
        let lint = Lint {
            severity: from[i].severity,
            path: from[i].path.clone(),
            reason: from[i].reason.clone(),
            detail: from[i].detail.clone(),
        };
        assert(lint@ =~= all[i as int]);
        push_lint(lints, lint);
        assert(text::views(lints@) =~= start + all.take(i + 1));
        i = i + 1;
    }
    assert(all.take(i as int) =~= all);
}

/// The remarks on two sets of schemas as a whole.
pub fn lint_schema_sets(before: &SchemaSet, after: &SchemaSet) -> (lints: Vec<Lint>)
    ensures
        text::views(lints@) == set_lints(before@, after@),
{
    let mut lints: Vec<Lint> = Vec::new();
    copy_lints(before.lints.as_slice(), &mut lints);
    assert(text::views(lints@) =~= before@.lints);
    copy_lints(after.lints.as_slice(), &mut lints);
    lint_file_ids("before", before.files.as_slice(), &mut lints);
    lint_file_ids("after", after.files.as_slice(), &mut lints);
    lint_file_id_changes(before, after, &mut lints);
    lint_file_id_path_changes(before, after, &mut lints);
    lint_removed_files(before, after, &mut lints);
    lint_node_path_changes(before, after, &mut lints);
    lint_any_pointer_types(after, &mut lints);
    lints
}

} // verus!
