//! What a comparison remarks on.

use crate::compare;
use crate::compatibility;
use crate::laws::comparing;
use crate::laws::words;
use crate::lint;
use crate::order;
use crate::schema::{
    FieldView, LintSeverity, LintView, MethodView, NodeKind, NodeView, SchemaFileView,
    SchemaSetView,
};
use crate::text;
use vstd::prelude::*;

verus! {

/// A remark that makes schemas incompatible.
pub open spec fn error(path: Seq<char>, reason: Seq<char>, detail: Option<Seq<char>>) -> LintView {
    LintView { severity: LintSeverity::Error, path, reason, detail }
}

/// A remark that is only worth knowing.
pub open spec fn notice(path: Seq<char>, reason: Seq<char>, detail: Seq<char>) -> LintView {
    LintView { severity: LintSeverity::Warning, path, reason, detail: Some(detail) }
}

/// Whether a file without an id is remarked on.
pub open spec fn missing_id(side: Seq<char>, files: Seq<SchemaFileView>, l: LintView) -> bool {
    exists|i: int|
        0 <= i < files.len() && (#[trigger] files[i]).file_id is None && l == error(
            side + ":"@ + files[i].relative_path,
            "file is missing a file id"@,
            None,
        )
}

/// The relative paths of the files with an id.
pub open spec fn paths_with(files: Seq<SchemaFileView>, id: Seq<char>) -> Seq<Seq<char>> {
    files.filter(|file: SchemaFileView| file.file_id == Some(id)).map_values(
        |file: SchemaFileView| file.relative_path,
    )
}

/// Whether an id that more than one file has is remarked on.
pub open spec fn shared_id(side: Seq<char>, files: Seq<SchemaFileView>, l: LintView) -> bool {
    exists|id: Seq<char>|
        #![trigger paths_with(files, id)]
        paths_with(files, id).len() >= 2 && l == error(
            side + ":"@ + id,
            "file id is used by multiple files"@,
            Some(text::join(paths_with(files, id), ", "@)),
        )
}

/// Whether a file is the last one with a relative path.
pub open spec fn last_at(files: Seq<SchemaFileView>, j: int, path: Seq<char>) -> bool {
    &&& 0 <= j < files.len()
    &&& files[j].relative_path == path
    &&& forall|k: int| j < k < files.len() ==> (#[trigger] files[k]).relative_path != path
}

/// Whether a file is the last one with an id.
pub open spec fn last_of(files: Seq<SchemaFileView>, j: int, id: Seq<char>) -> bool {
    &&& 0 <= j < files.len()
    &&& files[j].file_id == Some(id)
    &&& forall|k: int| j < k < files.len() ==> (#[trigger] files[k]).file_id != Some(id)
}

/// Whether a file with another id than the earlier file at its path is remarked on.
pub open spec fn changed_id(
    before: Seq<SchemaFileView>,
    after: Seq<SchemaFileView>,
    l: LintView,
) -> bool {
    exists|i: int, j: int|
        {
            &&& 0 <= i < after.len()
            &&& #[trigger] last_at(before, j, (#[trigger] after[i]).relative_path)
            &&& before[j].file_id matches Some(earlier) && after[i].file_id matches Some(later)
                && earlier != later && l == error(
                after[i].relative_path,
                "file id changed"@,
                Some(earlier + " -> "@ + later),
            )
        }
}

/// Whether a file that has another path than the earlier file with its id is remarked on.
pub open spec fn moved_id(
    before: Seq<SchemaFileView>,
    after: Seq<SchemaFileView>,
    l: LintView,
) -> bool {
    exists|id: Seq<char>, i: int, j: int|
        {
            &&& #[trigger] last_of(before, i, id)
            &&& #[trigger] last_of(after, j, id)
            &&& before[i].relative_path != after[j].relative_path
            &&& l == error(
                id,
                "file id moved to a different path"@,
                Some(before[i].relative_path + " -> "@ + after[j].relative_path),
            )
        }
}

/// Whether a file that is gone, path and id, is remarked on.
pub open spec fn removed(
    before: Seq<SchemaFileView>,
    after: Seq<SchemaFileView>,
    l: LintView,
) -> bool {
    exists|i: int|
        {
            &&& 0 <= i < before.len()
            &&& forall|j: int|
                0 <= j < after.len() ==> (#[trigger] after[j]).relative_path
                    != before[i].relative_path && (before[i].file_id is None || after[j].file_id
                    != before[i].file_id)
            &&& l == error(
                (#[trigger] before[i]).relative_path,
                "schema file was removed"@,
                before[i].file_id,
            )
        }
}

/// Whether a node that another file declares than before is remarked on.
pub open spec fn moved_node(
    before: Map<Seq<char>, Seq<char>>,
    after: Map<Seq<char>, Seq<char>>,
    l: LintView,
) -> bool {
    exists|name: Seq<char>|
        {
            &&& #[trigger] before.contains_key(name)
            &&& after.contains_key(name)
            &&& before[name] != after[name]
            &&& l == error(
                name,
                "node moved to a different file"@,
                Some(before[name] + " -> "@ + after[name]),
            )
        }
}

/// Whether a character can be part of an identifier.
pub open spec fn identifying(c: char) -> bool {
    let n = c as int;
    48 <= n <= 57 || 65 <= n <= 90 || 97 <= n <= 122 || n == 95
}

/// Whether the word `AnyPointer` stands at a place of a text, not as a part of another word.
pub open spec fn pointer_at(s: Seq<char>, i: int) -> bool {
    &&& 0 <= i <= s.len() - 10
    &&& s.subrange(i, i + 10) == "AnyPointer"@
    &&& i > 0 ==> !identifying(s[i - 1])
    &&& i + 10 < s.len() ==> !identifying(s[i + 10])
}

/// Whether a text names `AnyPointer`.
pub open spec fn names_pointer(s: Seq<char>) -> bool {
    exists|i: int| pointer_at(s, i)
}

/// Whether the first arrow of a signature stands at a place.
pub open spec fn arrow_at(s: Seq<char>, i: int) -> bool {
    &&& 0 <= i <= s.len() - 2
    &&& s[i] == '-'
    &&& s[i + 1] == '>'
    &&& forall|j: int| 0 <= j < i ==> !(#[trigger] s[j] == '-' && s[j + 1] == '>')
}

/// Whether the parameters of a signature name `AnyPointer`.
pub open spec fn parameters_name_pointer(s: Seq<char>) -> bool {
    ||| exists|i: int| #[trigger] arrow_at(s, i) && names_pointer(s.take(i))
    ||| (forall|i: int| !#[trigger] arrow_at(s, i)) && names_pointer(s)
}

/// Whether the results of a signature name `AnyPointer`.
pub open spec fn results_name_pointer(s: Seq<char>) -> bool {
    exists|i: int| #[trigger] arrow_at(s, i) && names_pointer(s.skip(i + 2))
}

/// Whether the use of `AnyPointer` in a node is remarked on.
pub open spec fn pointer_in(name: Seq<char>, node: NodeView, l: LintView) -> bool {
    match node.kind {
        NodeKind::Struct => exists|n: u32|
            {
                &&& #[trigger] node.fields.contains_key(n)
                &&& names_pointer(node.fields[n].ty)
                &&& l == notice(
                    comparing::place(name, ".field["@, n),
                    "field uses AnyPointer"@,
                    node.fields[n].name + ": "@ + node.fields[n].ty,
                )
            },
        NodeKind::Enum => false,
        NodeKind::Interface => exists|n: u32|
            {
                let method = node.methods[n];
                let path = comparing::place(name, ".method["@, n);
                let detail = method.name + " "@ + method.signature;
                &&& #[trigger] node.methods.contains_key(n)
                &&& {
                    ||| parameters_name_pointer(method.signature) && l == notice(
                        path,
                        "method parameter uses AnyPointer"@,
                        detail,
                    )
                    ||| results_name_pointer(method.signature) && l == notice(
                        path,
                        "method result uses AnyPointer"@,
                        detail,
                    )
                }
            },
    }
}

/// Whether the use of `AnyPointer` is remarked on.
pub open spec fn pointer_used(nodes: Map<Seq<char>, NodeView>, l: LintView) -> bool {
    exists|name: Seq<char>| #[trigger]
        nodes.contains_key(name) && pointer_in(name, nodes[name], l)
}

/// A default value in print.
pub open spec fn shown(default: Option<Seq<char>>) -> Seq<char> {
    match default {
        Some(value) => value,
        None => "<none>"@,
    }
}

/// Whether two default values are the same but for white space.
pub open spec fn same_default(a: Option<Seq<char>>, b: Option<Seq<char>>) -> bool {
    match (a, b) {
        (Some(x), Some(y)) => words::solid(x) == words::solid(y),
        (None, None) => true,
        _ => false,
    }
}

/// Whether a change of a field that keeps its type is remarked on.
pub open spec fn field_change(
    name: Seq<char>,
    n: u32,
    before: FieldView,
    after: FieldView,
    l: LintView,
) -> bool {
    let path = comparing::place(name, ".field["@, n);
    &&& words::solid(before.ty) == words::solid(after.ty)
    &&& {
        ||| before.name != after.name && l == error(
            path,
            "field name changed"@,
            Some(before.name + " -> "@ + after.name),
        )
        ||| !same_default(before.default, after.default) && l == error(
            path,
            "field default value changed"@,
            Some(shown(before.default) + " -> "@ + shown(after.default)),
        )
    }
}

/// Whether a change of a member that breaks nothing is remarked on.
pub open spec fn member_change(
    name: Seq<char>,
    before: NodeView,
    after: NodeView,
    l: LintView,
) -> bool {
    match before.kind {
        NodeKind::Struct => exists|n: u32| #[trigger]
            before.fields.contains_key(n) && after.fields.contains_key(n) && field_change(
                name,
                n,
                before.fields[n],
                after.fields[n],
                l,
            ),
        NodeKind::Enum => exists|n: u32|
            {
                &&& #[trigger] before.enum_values.contains_key(n)
                &&& after.enum_values.contains_key(n)
                &&& before.enum_values[n] != after.enum_values[n]
                &&& l == error(
                    comparing::place(name, ".enum["@, n),
                    "enum value name changed"@,
                    Some(before.enum_values[n] + " -> "@ + after.enum_values[n]),
                )
            },
        NodeKind::Interface => exists|n: u32|
            {
                &&& #[trigger] before.methods.contains_key(n)
                &&& after.methods.contains_key(n)
                &&& words::solid(before.methods[n].signature) == words::solid(
                    after.methods[n].signature,
                )
                &&& before.methods[n].name != after.methods[n].name
                &&& l == error(
                    comparing::place(name, ".method["@, n),
                    "method name changed"@,
                    Some(before.methods[n].name + " -> "@ + after.methods[n].name),
                )
            },
    }
}

/// Whether a change of a node that breaks nothing is remarked on.
pub open spec fn node_change(
    before: Map<Seq<char>, NodeView>,
    after: Map<Seq<char>, NodeView>,
    l: LintView,
) -> bool {
    exists|name: Seq<char>| #[trigger]
        before.contains_key(name) && after.contains_key(name) && before[name].kind
            == after[name].kind && member_change(name, before[name], after[name], l)
}

proof fn lemma_none_or_one(found: Seq<LintView>, l: LintView)
    requires
        found.len() <= 1,
    ensures
        found.contains(l) <==> found.len() == 1 && found[0] == l,
{
    if found.len() == 1 {
        assert(found =~= seq![found[0]]);
        comparing::lemma_one(found[0], l);
    }
}

proof fn lemma_missing(side: Seq<char>, files: Seq<SchemaFileView>, l: LintView)
    ensures
        order::gather(files, lint::missing_id(side)).contains(l) <==> missing_id(side, files, l),
{
    let f = lint::missing_id(side);
    comparing::lemma_gathered(files, f, l);
    assert forall|i: int| 0 <= i < files.len() implies (f(#[trigger] files[i]).contains(l)
        <==> files[i].file_id is None && l == error(
        side + ":"@ + files[i].relative_path,
        "file is missing a file id"@,
        None,
    )) by {
        lemma_none_or_one(f(files[i]), l);
    }
}

proof fn lemma_paths_with(files: Seq<SchemaFileView>, id: Seq<char>)
    ensures
        lint::paths_with_id(files, id) == paths_with(files, id),
        paths_with(files, id).len() > 0 ==> lint::has_id(files, id),
    decreases files.len(),
{
    reveal(Seq::filter);
    let p = |file: SchemaFileView| file.file_id == Some(id);
    if files.len() > 0 {
        let shorter = files.drop_last();
        lemma_paths_with(shorter, id);
        if files.last().file_id == Some(id) {
            assert(files[files.len() - 1].file_id == Some(id));
            assert(shorter.filter(p).push(files.last()).map_values(
                |file: SchemaFileView| file.relative_path,
            ) =~= paths_with(shorter, id).push(files.last().relative_path));
        } else if lint::has_id(shorter, id) {
            let i = choose|i: int|
                0 <= i < shorter.len() && (#[trigger] shorter[i]).file_id == Some(id);
            assert(files[i].file_id == Some(id));
        }
    } else {
        assert(paths_with(files, id) =~= Seq::empty());
    }
}

/// The ids that files have are finitely many.
proof fn lemma_ids_finite(files: Seq<SchemaFileView>)
    ensures
        lint::ids(files).finite(),
    decreases files.len(),
{
    if files.len() == 0 {
        assert(lint::ids(files) =~= Set::empty());
    } else {
        let shorter = files.drop_last();
        lemma_ids_finite(shorter);
        assert forall|id: Seq<char>| lint::has_id(files, id) implies lint::has_id(shorter, id)
            || files.last().file_id == Some(id) by {
            let i = choose|i: int| 0 <= i < files.len() && (#[trigger] files[i]).file_id == Some(id);
            if i < shorter.len() {
                assert(shorter[i].file_id == Some(id));
            }
        }
        assert forall|id: Seq<char>| lint::has_id(shorter, id) implies lint::has_id(files, id) by {
            let i = choose|i: int|
                0 <= i < shorter.len() && (#[trigger] shorter[i]).file_id == Some(id);
            assert(files[i].file_id == Some(id));
        }
        match files.last().file_id {
            Some(id) => {
                assert(files[files.len() - 1].file_id == Some(id));
                assert(lint::ids(files) =~= lint::ids(shorter).insert(id));
            },
            None => {
                assert(lint::ids(files) =~= lint::ids(shorter));
            },
        }
    }
}

proof fn lemma_shared(side: Seq<char>, files: Seq<SchemaFileView>, l: LintView)
    ensures
        order::gather(order::names(lint::ids(files)), lint::shared_id(side, files)).contains(l)
            <==> shared_id(side, files, l),
{
    let f = lint::shared_id(side, files);
    order::lemma_orders_total();
    lemma_ids_finite(files);
    comparing::lemma_gathered_from(lint::ids(files), order::text_order(), f, l);
    assert forall|id: Seq<char>|
        #![trigger paths_with(files, id)]
        #![trigger f(id)]
        f(id).contains(l) <==> paths_with(files, id).len() >= 2 && l == error(
            side + ":"@ + id,
            "file id is used by multiple files"@,
            Some(text::join(paths_with(files, id), ", "@)),
        ) by {
        lemma_paths_with(files, id);
        lemma_none_or_one(f(id), l);
    }
    if shared_id(side, files, l) {
        let id = choose|id: Seq<char>|
            #![trigger paths_with(files, id)]
            paths_with(files, id).len() >= 2 && l == error(
                side + ":"@ + id,
                "file id is used by multiple files"@,
                Some(text::join(paths_with(files, id), ", "@)),
            );
        lemma_paths_with(files, id);
        assert(lint::ids(files).contains(id));
        assert(f(id).contains(l));
    }
    if exists|id: Seq<char>| #[trigger] lint::ids(files).contains(id) && f(id).contains(l) {
        let id = choose|id: Seq<char>| #[trigger]
            lint::ids(files).contains(id) && f(id).contains(l);
        assert(paths_with(files, id).len() >= 2);
    }
}

proof fn lemma_last_at(files: Seq<SchemaFileView>, path: Seq<char>)
    ensures
        match lint::last_with_path(files, path) {
            Some(file) => exists|j: int| #[trigger] last_at(files, j, path) && files[j] == file,
            None => forall|j: int| !#[trigger] last_at(files, j, path),
        },
        forall|j: int| #[trigger]
            last_at(files, j, path) ==> lint::last_with_path(files, path) == Some(files[j]),
    decreases files.len(),
{
    if files.len() > 0 {
        let shorter = files.drop_last();
        let n = files.len() - 1;
        lemma_last_at(shorter, path);
        if files.last().relative_path == path {
            assert(last_at(files, n, path));
            assert forall|j: int| #[trigger] last_at(files, j, path) implies j == n by {
                if j < n {
                    assert(files[n].relative_path == path);
                }
            }
        } else {
            assert forall|j: int| #[trigger] last_at(files, j, path) implies last_at(
                shorter,
                j,
                path,
            ) by {
                assert(j != n);
                assert forall|k: int| j < k < shorter.len() implies (
                #[trigger] shorter[k]).relative_path != path by {
                    assert(files[k].relative_path != path);
                }
            }
            assert forall|j: int| #[trigger] last_at(shorter, j, path) implies last_at(
                files,
                j,
                path,
            ) by {
                assert forall|k: int| j < k < files.len() implies (
                #[trigger] files[k]).relative_path != path by {
                    if k < n {
                        assert(shorter[k].relative_path != path);
                    }
                }
            }
        }
    }
}

proof fn lemma_last_of(files: Seq<SchemaFileView>, id: Seq<char>)
    ensures
        match lint::last_with_id(files, id) {
            Some(file) => exists|j: int| #[trigger] last_of(files, j, id) && files[j] == file,
            None => forall|j: int| !#[trigger] last_of(files, j, id),
        },
        forall|j: int| #[trigger]
            last_of(files, j, id) ==> lint::last_with_id(files, id) == Some(files[j]),
    decreases files.len(),
{
    if files.len() > 0 {
        let shorter = files.drop_last();
        let n = files.len() - 1;
        lemma_last_of(shorter, id);
        if files.last().file_id == Some(id) {
            assert(last_of(files, n, id));
            assert forall|j: int| #[trigger] last_of(files, j, id) implies j == n by {
                if j < n {
                    assert(files[n].file_id == Some(id));
                }
            }
        } else {
            assert forall|j: int| #[trigger] last_of(files, j, id) implies last_of(
                shorter,
                j,
                id,
            ) by {
                assert(j != n);
                assert forall|k: int| j < k < shorter.len() implies (#[trigger] shorter[k]).file_id
                    != Some(id) by {
                    assert(files[k].file_id != Some(id));
                }
            }
            assert forall|j: int| #[trigger] last_of(shorter, j, id) implies last_of(
                files,
                j,
                id,
            ) by {
                assert forall|k: int| j < k < files.len() implies (#[trigger] files[k]).file_id
                    != Some(id) by {
                    if k < n {
                        assert(shorter[k].file_id != Some(id));
                    }
                }
            }
        }
    }
}

proof fn lemma_changed(before: Seq<SchemaFileView>, after: Seq<SchemaFileView>, l: LintView)
    ensures
        order::gather(after, lint::changed_id(before)).contains(l) <==> changed_id(
            before,
            after,
            l,
        ),
{
    let f = lint::changed_id(before);
    comparing::lemma_gathered(after, f, l);
    if order::gather(after, f).contains(l) {
        let i = choose|i: int| 0 <= i < after.len() && f(#[trigger] after[i]).contains(l);
        lemma_none_or_one(f(after[i]), l);
        lemma_last_at(before, after[i].relative_path);
        let earlier = lint::last_with_path(before, after[i].relative_path)->0;
        let j = choose|j: int| #[trigger]
            last_at(before, j, after[i].relative_path) && before[j] == earlier;
        assert(last_at(before, j, after[i].relative_path));
    }
    if changed_id(before, after, l) {
        let (i, j) = choose|i: int, j: int|
            {
                &&& 0 <= i < after.len()
                &&& #[trigger] last_at(before, j, (#[trigger] after[i]).relative_path)
                &&& before[j].file_id matches Some(earlier) && after[i].file_id matches Some(later)
                    && earlier != later && l == error(
                    after[i].relative_path,
                    "file id changed"@,
                    Some(earlier + " -> "@ + later),
                )
            };
        lemma_last_at(before, after[i].relative_path);
        lemma_none_or_one(f(after[i]), l);
        assert(f(after[i]).contains(l));
    }
}

proof fn lemma_moved(before: Seq<SchemaFileView>, after: Seq<SchemaFileView>, l: LintView)
    ensures
        order::gather(order::names(lint::ids(before)), lint::moved_id(before, after)).contains(l)
            <==> moved_id(before, after, l),
{
    let f = lint::moved_id(before, after);
    order::lemma_orders_total();
    lemma_ids_finite(before);
    comparing::lemma_gathered_from(lint::ids(before), order::text_order(), f, l);
    if order::gather(order::names(lint::ids(before)), f).contains(l) {
        let id = choose|id: Seq<char>| #[trigger]
            lint::ids(before).contains(id) && f(id).contains(l);
        lemma_none_or_one(f(id), l);
        lemma_last_of(before, id);
        lemma_last_of(after, id);
        let i = choose|i: int| #[trigger]
            last_of(before, i, id) && before[i] == lint::last_with_id(before, id)->0;
        let j = choose|j: int| #[trigger]
            last_of(after, j, id) && after[j] == lint::last_with_id(after, id)->0;
        assert(last_of(before, i, id) && last_of(after, j, id));
    }
    if moved_id(before, after, l) {
        let (id, i, j) = choose|id: Seq<char>, i: int, j: int|
            {
                &&& #[trigger] last_of(before, i, id)
                &&& #[trigger] last_of(after, j, id)
                &&& before[i].relative_path != after[j].relative_path
                &&& l == error(
                    id,
                    "file id moved to a different path"@,
                    Some(before[i].relative_path + " -> "@ + after[j].relative_path),
                )
            };
        lemma_last_of(before, id);
        lemma_last_of(after, id);
        lemma_none_or_one(f(id), l);
        assert(before[i].file_id == Some(id));
        assert(lint::ids(before).contains(id));
        assert(f(id).contains(l));
    }
}

proof fn lemma_removed(before: Seq<SchemaFileView>, after: Seq<SchemaFileView>, l: LintView)
    ensures
        order::gather(before, lint::removed_file(after)).contains(l) <==> removed(
            before,
            after,
            l,
        ),
{
    let f = lint::removed_file(after);
    comparing::lemma_gathered(before, f, l);
    assert forall|i: int| 0 <= i < before.len() implies (f(#[trigger] before[i]).contains(l) <==> (
    forall|j: int|
        0 <= j < after.len() ==> (#[trigger] after[j]).relative_path != before[i].relative_path && (
        before[i].file_id is None || after[j].file_id != before[i].file_id)) && l == error(
        before[i].relative_path,
        "schema file was removed"@,
        before[i].file_id,
    )) by {
        lemma_none_or_one(f(before[i]), l);
        let file = before[i];
        if lint::still_there(file, after) {
            if lint::has_path(after, file.relative_path) {
                let j = choose|j: int|
                    0 <= j < after.len() && (#[trigger] after[j]).relative_path
                        == file.relative_path;
                assert(after[j].relative_path == file.relative_path);
            } else {
                let id = file.file_id->0;
                let j = choose|j: int|
                    0 <= j < after.len() && (#[trigger] after[j]).file_id == Some(id);
                assert(after[j].file_id == file.file_id);
            }
        } else {
            assert forall|j: int| 0 <= j < after.len() implies (#[trigger] after[j]).relative_path
                != file.relative_path && (file.file_id is None || after[j].file_id
                != file.file_id) by {
                if after[j].relative_path == file.relative_path {
                    assert(lint::has_path(after, file.relative_path));
                }
                if file.file_id is Some && after[j].file_id == file.file_id {
                    assert(lint::has_id(after, file.file_id.unwrap()));
                }
            }
        }
    }
}

proof fn lemma_moved_node(
    before: Map<Seq<char>, Seq<char>>,
    after: Map<Seq<char>, Seq<char>>,
    l: LintView,
)
    requires
        before.dom().finite(),
    ensures
        order::gather(order::names(before.dom()), lint::moved_node(before, after)).contains(l)
            <==> moved_node(before, after, l),
{
    let f = lint::moved_node(before, after);
    order::lemma_orders_total();
    comparing::lemma_gathered_from(before.dom(), order::text_order(), f, l);
    assert forall|name: Seq<char>|
        #![trigger before.contains_key(name)]
        #![trigger before.dom().contains(name)]
        f(name).contains(l) <==> after.contains_key(name) && before[name] != after[name] && l
            == error(
            name,
            "node moved to a different file"@,
            Some(before[name] + " -> "@ + after[name]),
        ) by {
        lemma_none_or_one(f(name), l);
    }
    if moved_node(before, after, l) {
        let name = choose|name: Seq<char>|
            {
                &&& #[trigger] before.contains_key(name)
                &&& after.contains_key(name)
                &&& before[name] != after[name]
                &&& l == error(
                    name,
                    "node moved to a different file"@,
                    Some(before[name] + " -> "@ + after[name]),
                )
            };
        assert(before.dom().contains(name) && f(name).contains(l));
    }
    if exists|name: Seq<char>| #[trigger] before.dom().contains(name) && f(name).contains(l) {
        let name = choose|name: Seq<char>| #[trigger]
            before.dom().contains(name) && f(name).contains(l);
        assert(before.contains_key(name));
    }
}

proof fn lemma_names_pointer(s: Seq<char>)
    ensures
        lint::has_any_pointer(s) <==> names_pointer(s),
{
    reveal_strlit("AnyPointer");
    assert forall|i: int| lint::is_whole_word(s, i, "AnyPointer"@) <==> #[trigger] pointer_at(
        s,
        i,
    ) by {}
    if lint::has_any_pointer(s) {
        let i = choose|i: int| lint::is_whole_word(s, i, "AnyPointer"@);
        assert(pointer_at(s, i));
    }
    if names_pointer(s) {
        let i = choose|i: int| pointer_at(s, i);
        assert(lint::is_whole_word(s, i, "AnyPointer"@));
    }
}

proof fn lemma_arrow(s: Seq<char>)
    ensures
        match text::find_text(s, "->"@) {
            Some(i) => arrow_at(s, i) && forall|j: int| #[trigger] arrow_at(s, j) ==> j == i,
            None => forall|j: int| !#[trigger] arrow_at(s, j),
        },
{
    reveal_strlit("->");
    let arrow = "->"@;
    text::lemma_find_text(s, arrow);
    assert forall|j: int| #[trigger]
        text::occurs(s, j, arrow) <==> 0 <= j <= s.len() - 2 && s[j] == '-' && s[j + 1] == '>' by {
        if 0 <= j <= s.len() - 2 {
            let t = s.subrange(j, j + 2);
            assert(t[0] == s[j] && t[1] == s[j + 1]);
            if s[j] == '-' && s[j + 1] == '>' {
                assert(t =~= arrow);
            }
        }
    }
    match text::find_text(s, arrow) {
        Some(i) => {
            assert(text::occurs(s, i, arrow));
            assert forall|j: int| 0 <= j < i implies !(#[trigger] s[j] == '-' && s[j + 1]
                == '>') by {
                assert(!text::occurs(s, j, arrow));
            }
            assert forall|j: int| #[trigger] arrow_at(s, j) implies j == i by {
                assert(text::occurs(s, j, arrow));
                if i < j {
                    assert(s[i] == '-' && s[i + 1] == '>');
                }
            }
        },
        None => {
            assert forall|j: int| !#[trigger] arrow_at(s, j) by {
                assert(!text::occurs(s, j, arrow));
            }
        },
    }
}

proof fn lemma_signature(s: Seq<char>)
    ensures
        lint::has_any_pointer(lint::params_of(s)) <==> parameters_name_pointer(s),
        lint::has_any_pointer(lint::results_of(s)) <==> results_name_pointer(s),
{
    lemma_arrow(s);
    lemma_names_pointer(lint::params_of(s));
    lemma_names_pointer(lint::results_of(s));
    match text::find_text(s, "->"@) {
        Some(i) => {
            assert(arrow_at(s, i));
        },
        None => {
            assert forall|i: int| !pointer_at(Seq::empty(), i) by {}
        },
    }
}

proof fn lemma_node_pointers(name: Seq<char>, node: NodeView, l: LintView)
    requires
        compatibility::finite_node(node),
    ensures
        lint::node_pointer_lints(name, node).contains(l) <==> pointer_in(name, node, l),
{
    order::lemma_orders_total();
    let less = order::number_order();
    match node.kind {
        NodeKind::Struct => {
            let f = lint::field_pointers(name, node);
            comparing::lemma_gathered_from(node.fields.dom(), less, f, l);
            assert forall|n: u32|
                #![trigger node.fields.contains_key(n)]
                #![trigger node.fields.dom().contains(n)]
                f(n).contains(l) <==> names_pointer(node.fields[n].ty) && l == notice(
                    comparing::place(name, ".field["@, n),
                    "field uses AnyPointer"@,
                    node.fields[n].name + ": "@ + node.fields[n].ty,
                ) by {
                comparing::lemma_places(name, n);
                lemma_names_pointer(node.fields[n].ty);
                lemma_none_or_one(f(n), l);
            }
            if pointer_in(name, node, l) {
                let n = choose|n: u32|
                    {
                        &&& #[trigger] node.fields.contains_key(n)
                        &&& names_pointer(node.fields[n].ty)
                        &&& l == notice(
                            comparing::place(name, ".field["@, n),
                            "field uses AnyPointer"@,
                            node.fields[n].name + ": "@ + node.fields[n].ty,
                        )
                    };
                assert(node.fields.dom().contains(n) && f(n).contains(l));
            }
            if exists|n: u32| #[trigger] node.fields.dom().contains(n) && f(n).contains(l) {
                let n = choose|n: u32| #[trigger]
                    node.fields.dom().contains(n) && f(n).contains(l);
                assert(node.fields.contains_key(n));
            }
        },
        NodeKind::Enum => {},
        NodeKind::Interface => {
            let f = lint::method_pointers(name, node);
            comparing::lemma_gathered_from(node.methods.dom(), less, f, l);
            assert forall|n: u32|
                #![trigger node.methods.contains_key(n)]
                #![trigger node.methods.dom().contains(n)]
                f(n).contains(l) <==> method_pointer(name, n, node.methods[n], l) by {
                lemma_method_pointer(name, n, node.methods[n], l);
            }
            if pointer_in(name, node, l) {
                let n = choose|n: u32| #[trigger]
                    node.methods.contains_key(n) && method_pointer(name, n, node.methods[n], l);
                assert(node.methods.dom().contains(n) && f(n).contains(l));
            }
            if exists|n: u32| #[trigger] node.methods.dom().contains(n) && f(n).contains(l) {
                let n = choose|n: u32| #[trigger]
                    node.methods.dom().contains(n) && f(n).contains(l);
                assert(node.methods.contains_key(n));
            }
        },
    }
}

spec fn method_pointer(name: Seq<char>, n: u32, method: MethodView, l: LintView) -> bool {
    let path = comparing::place(name, ".method["@, n);
    let detail = method.name + " "@ + method.signature;
    ||| parameters_name_pointer(method.signature) && l == notice(
        path,
        "method parameter uses AnyPointer"@,
        detail,
    )
    ||| results_name_pointer(method.signature) && l == notice(
        path,
        "method result uses AnyPointer"@,
        detail,
    )
}

proof fn lemma_method_pointer(name: Seq<char>, n: u32, method: MethodView, l: LintView)
    ensures
        lint::method_pointer_lints(name, n, method).contains(l) <==> method_pointer(
            name,
            n,
            method,
            l,
        ),
{
    comparing::lemma_places(name, n);
    lemma_signature(method.signature);
    let first = lint::side_pointer_lints(
        name,
        n,
        method,
        lint::params_of(method.signature),
        "method parameter uses AnyPointer"@,
    );
    let second = lint::side_pointer_lints(
        name,
        n,
        method,
        lint::results_of(method.signature),
        "method result uses AnyPointer"@,
    );
    comparing::lemma_concat(first, second, l);
    lemma_none_or_one(first, l);
    lemma_none_or_one(second, l);
}

proof fn lemma_pointers(nodes: Map<Seq<char>, NodeView>, l: LintView)
    requires
        nodes.dom().finite(),
        forall|name: Seq<char>| #[trigger]
            nodes.contains_key(name) ==> compatibility::finite_node(nodes[name]),
    ensures
        lint::any_pointer_lints(nodes).contains(l) <==> pointer_used(nodes, l),
{
    let f = lint::node_pointers(nodes);
    order::lemma_orders_total();
    comparing::lemma_gathered_from(nodes.dom(), order::text_order(), f, l);
    assert forall|name: Seq<char>| #[trigger] nodes.contains_key(name) implies (f(name).contains(l)
        <==> pointer_in(name, nodes[name], l)) by {
        lemma_node_pointers(name, nodes[name], l);
    }
    if pointer_used(nodes, l) {
        let name = choose|name: Seq<char>| #[trigger]
            nodes.contains_key(name) && pointer_in(name, nodes[name], l);
        assert(nodes.dom().contains(name) && f(name).contains(l));
    }
    if exists|name: Seq<char>| #[trigger] nodes.dom().contains(name) && f(name).contains(l) {
        let name = choose|name: Seq<char>| #[trigger]
            nodes.dom().contains(name) && f(name).contains(l);
        assert(nodes.contains_key(name));
    }
}

proof fn lemma_field_change(
    name: Seq<char>,
    before: Map<u32, FieldView>,
    after: Map<u32, FieldView>,
    n: u32,
    l: LintView,
)
    ensures
        compare::field_renames(name, before, after)(n).contains(l) || compare::default_changes(
            name,
            before,
            after,
        )(n).contains(l) <==> after.contains_key(n) && field_change(
            name,
            n,
            before[n],
            after[n],
            l,
        ),
{
    comparing::lemma_places(name, n);
    let f = compare::field_renames(name, before, after)(n);
    let g = compare::default_changes(name, before, after)(n);
    lemma_none_or_one(f, l);
    lemma_none_or_one(g, l);
    if after.contains_key(n) {
        words::law_only_white_space_is_left_out(before[n].ty);
        words::law_only_white_space_is_left_out(after[n].ty);
        if let Some(value) = before[n].default {
            words::law_only_white_space_is_left_out(value);
        }
        if let Some(value) = after[n].default {
            words::law_only_white_space_is_left_out(value);
        }
    }
}

proof fn lemma_member_change(name: Seq<char>, before: NodeView, after: NodeView, l: LintView)
    requires
        compatibility::finite_node(before),
    ensures
        compare::member_changes(name, before, after).contains(l) <==> member_change(
            name,
            before,
            after,
            l,
        ),
{
    order::lemma_orders_total();
    let less = order::number_order();
    match before.kind {
        NodeKind::Struct => {
            let f = compare::field_renames(name, before.fields, after.fields);
            let g = compare::default_changes(name, before.fields, after.fields);
            let keys = before.fields.dom();
            comparing::lemma_concat(
                order::gather(order::ordinals(keys), f),
                order::gather(order::ordinals(keys), g),
                l,
            );
            comparing::lemma_gathered_from(keys, less, f, l);
            comparing::lemma_gathered_from(keys, less, g, l);
            assert forall|n: u32|
                #![trigger keys.contains(n)]
                #![trigger before.fields.contains_key(n)]
                f(n).contains(l) || g(n).contains(l) <==> after.fields.contains_key(n)
                    && field_change(name, n, before.fields[n], after.fields[n], l) by {
                lemma_field_change(name, before.fields, after.fields, n, l);
            }
            if member_change(name, before, after, l) {
                let n = choose|n: u32| #[trigger]
                    before.fields.contains_key(n) && after.fields.contains_key(n) && field_change(
                        name,
                        n,
                        before.fields[n],
                        after.fields[n],
                        l,
                    );
                assert(keys.contains(n));
            }
            if exists|n: u32| #[trigger] keys.contains(n) && f(n).contains(l) {
                let n = choose|n: u32| #[trigger] keys.contains(n) && f(n).contains(l);
                assert(before.fields.contains_key(n));
            }
            if exists|n: u32| #[trigger] keys.contains(n) && g(n).contains(l) {
                let n = choose|n: u32| #[trigger] keys.contains(n) && g(n).contains(l);
                assert(before.fields.contains_key(n));
            }
        },
        NodeKind::Enum => {
            let f = compare::enum_renames(name, before.enum_values, after.enum_values);
            let keys = before.enum_values.dom();
            comparing::lemma_gathered_from(keys, less, f, l);
            assert forall|n: u32|
                #![trigger keys.contains(n)]
                #![trigger before.enum_values.contains_key(n)]
                f(n).contains(l) <==> after.enum_values.contains_key(n) && before.enum_values[n]
                    != after.enum_values[n] && l == error(
                    comparing::place(name, ".enum["@, n),
                    "enum value name changed"@,
                    Some(before.enum_values[n] + " -> "@ + after.enum_values[n]),
                ) by {
                comparing::lemma_places(name, n);
                lemma_none_or_one(f(n), l);
            }
            if member_change(name, before, after, l) {
                let n = choose|n: u32|
                    {
                        &&& #[trigger] before.enum_values.contains_key(n)
                        &&& after.enum_values.contains_key(n)
                        &&& before.enum_values[n] != after.enum_values[n]
                        &&& l == error(
                            comparing::place(name, ".enum["@, n),
                            "enum value name changed"@,
                            Some(before.enum_values[n] + " -> "@ + after.enum_values[n]),
                        )
                    };
                assert(keys.contains(n) && f(n).contains(l));
            }
            if exists|n: u32| #[trigger] keys.contains(n) && f(n).contains(l) {
                let n = choose|n: u32| #[trigger] keys.contains(n) && f(n).contains(l);
                assert(before.enum_values.contains_key(n));
            }
        },
        NodeKind::Interface => {
            let f = compare::method_renames(name, before.methods, after.methods);
            let keys = before.methods.dom();
            comparing::lemma_gathered_from(keys, less, f, l);
            assert forall|n: u32|
                #![trigger keys.contains(n)]
                #![trigger before.methods.contains_key(n)]
                f(n).contains(l) <==> method_change(name, before, after, n, l) by {
                comparing::lemma_places(name, n);
                words::law_only_white_space_is_left_out(before.methods[n].signature);
                words::law_only_white_space_is_left_out(after.methods[n].signature);
                lemma_none_or_one(f(n), l);
            }
            if member_change(name, before, after, l) {
                let n = choose|n: u32| #[trigger]
                    before.methods.contains_key(n) && method_change(name, before, after, n, l);
                assert(keys.contains(n) && f(n).contains(l));
            }
            if exists|n: u32| #[trigger] keys.contains(n) && f(n).contains(l) {
                let n = choose|n: u32| #[trigger] keys.contains(n) && f(n).contains(l);
                assert(before.methods.contains_key(n));
            }
        },
    }
}

spec fn method_change(
    name: Seq<char>,
    before: NodeView,
    after: NodeView,
    n: u32,
    l: LintView,
) -> bool {
    &&& after.methods.contains_key(n)
    &&& words::solid(before.methods[n].signature) == words::solid(after.methods[n].signature)
    &&& before.methods[n].name != after.methods[n].name
    &&& l == error(
        comparing::place(name, ".method["@, n),
        "method name changed"@,
        Some(before.methods[n].name + " -> "@ + after.methods[n].name),
    )
}

proof fn lemma_node_change(
    before: Map<Seq<char>, NodeView>,
    after: Map<Seq<char>, NodeView>,
    l: LintView,
)
    requires
        before.dom().finite(),
        forall|name: Seq<char>| #[trigger]
            before.contains_key(name) ==> compatibility::finite_node(before[name]),
    ensures
        order::gather(order::names(before.dom()), compare::node_changes(before, after)).contains(l)
            <==> node_change(before, after, l),
{
    let f = compare::node_changes(before, after);
    order::lemma_orders_total();
    comparing::lemma_gathered_from(before.dom(), order::text_order(), f, l);
    assert forall|name: Seq<char>| #[trigger] before.contains_key(name) implies (f(name).contains(l)
        <==> after.contains_key(name) && before[name].kind == after[name].kind && member_change(
        name,
        before[name],
        after[name],
        l,
    )) by {
        lemma_member_change(name, before[name], after[name], l);
    }
    if node_change(before, after, l) {
        let name = choose|name: Seq<char>| #[trigger]
            before.contains_key(name) && after.contains_key(name) && before[name].kind
                == after[name].kind && member_change(name, before[name], after[name], l);
        assert(before.dom().contains(name) && f(name).contains(l));
    }
    if exists|name: Seq<char>| #[trigger] before.dom().contains(name) && f(name).contains(l) {
        let name = choose|name: Seq<char>| #[trigger]
            before.dom().contains(name) && f(name).contains(l);
        assert(before.contains_key(name));
    }
}

/// What a comparison remarks on: what was remarked on when the two sides were read; on each
/// side files without an id and ids of several files; files whose id changed, moved or is
/// gone; nodes that moved to another file; members that keep their types or signatures with
/// other names or default values; and where the later side uses `AnyPointer`. It remarks on
/// nothing else.
pub proof fn law_remarks(before: SchemaSetView, after: SchemaSetView, l: LintView)
    requires
        compatibility::finite_set(before),
        compatibility::finite_set(after),
    ensures
        compare::comparison(before, after).lints.contains(l) <==> {
            ||| before.lints.contains(l)
            ||| after.lints.contains(l)
            ||| missing_id("before"@, before.files, l)
            ||| shared_id("before"@, before.files, l)
            ||| missing_id("after"@, after.files, l)
            ||| shared_id("after"@, after.files, l)
            ||| changed_id(before.files, after.files, l)
            ||| moved_id(before.files, after.files, l)
            ||| removed(before.files, after.files, l)
            ||| moved_node(before.node_paths, after.node_paths, l)
            ||| pointer_used(after.nodes, l)
            ||| node_change(before.nodes, after.nodes, l)
        },
{
    let a = before.lints;
    let b = after.lints;
    let c = order::gather(before.files, lint::missing_id("before"@));
    let d = order::gather(
        order::names(lint::ids(before.files)),
        lint::shared_id("before"@, before.files),
    );
    let e = order::gather(after.files, lint::missing_id("after"@));
    let f = order::gather(
        order::names(lint::ids(after.files)),
        lint::shared_id("after"@, after.files),
    );
    let g = order::gather(after.files, lint::changed_id(before.files));
    let h = order::gather(
        order::names(lint::ids(before.files)),
        lint::moved_id(before.files, after.files),
    );
    let i = order::gather(before.files, lint::removed_file(after.files));
    let j = order::gather(
        order::names(before.node_paths.dom()),
        lint::moved_node(before.node_paths, after.node_paths),
    );
    let k = lint::any_pointer_lints(after.nodes);
    let m = order::gather(
        order::names(before.nodes.dom()),
        compare::node_changes(before.nodes, after.nodes),
    );
    comparing::lemma_concat(a, b, l);
    comparing::lemma_concat(c, d, l);
    comparing::lemma_concat(e, f, l);
    comparing::lemma_concat(a + b, c + d, l);
    comparing::lemma_concat(a + b + (c + d), e + f, l);
    comparing::lemma_concat(a + b + (c + d) + (e + f), g, l);
    comparing::lemma_concat(a + b + (c + d) + (e + f) + g, h, l);
    comparing::lemma_concat(a + b + (c + d) + (e + f) + g + h, i, l);
    comparing::lemma_concat(a + b + (c + d) + (e + f) + g + h + i, j, l);
    comparing::lemma_concat(a + b + (c + d) + (e + f) + g + h + i + j, k, l);
    comparing::lemma_concat(a + b + (c + d) + (e + f) + g + h + i + j + k, m, l);
    lemma_missing("before"@, before.files, l);
    lemma_shared("before"@, before.files, l);
    lemma_missing("after"@, after.files, l);
    lemma_shared("after"@, after.files, l);
    lemma_changed(before.files, after.files, l);
    lemma_moved(before.files, after.files, l);
    lemma_removed(before.files, after.files, l);
    lemma_moved_node(before.node_paths, after.node_paths, l);
    lemma_pointers(after.nodes, l);
    lemma_node_change(before.nodes, after.nodes, l);
}

} // verus!
