//! The schema set that the texts of schema files make up.

use crate::file_id;
use crate::file_id::parse_file_metadata;
use crate::lexer;
use crate::order;
use crate::parser;
use crate::parser::parse_schema_with_lints;
use crate::path;
use crate::path::{common_file_root, relative_schema_path};
use crate::schema;
use crate::schema::{
    error_lint, pair_text, Error, ErrorView, Lint, LintView, Node, NodeView, SchemaFile,
    SchemaFileView, SchemaSet, SchemaSetView, Snapshot,
};
use crate::text;
use vstd::prelude::*;

verus! {

/// A file with its text, or with what went wrong when it was read.
#[derive(Debug, PartialEq, Eq)]
pub struct FileText {
    pub path: String,
    pub text: Result<String, String>,
}

/// A `FileText` as texts.
#[verifier::ext_equal]
pub struct FileTextView {
    pub path: Seq<char>,
    pub text: Result<Seq<char>, Seq<char>>,
}

impl View for FileText {
    type V = FileTextView;

    open spec fn view(&self) -> FileTextView {
        FileTextView {
            path: self.path@,
            text: match self.text {
                Ok(text) => Ok(text@),
                Err(message) => Err(message@),
            },
        }
    }
}

/// The paths of the files.
pub open spec fn paths_of(files: Seq<FileTextView>) -> Seq<Seq<char>> {
    files.map_values(|file: FileTextView| file.path)
}

/// The remarks on a text, as remarks on the file that it stands in.
pub open spec fn in_file(lints: Seq<LintView>, file: Seq<char>) -> Seq<LintView> {
    lints.map_values(|lint: LintView| LintView { path: file + ":"@ + lint.path, ..lint })
}

/// The remarks on a file as a whole.
pub open spec fn on_file(lints: Seq<LintView>, file: Seq<char>) -> Seq<LintView> {
    lints.map_values(|lint: LintView| LintView { path: file, ..lint })
}

/// The remark on a node of a file that another file defines already.
pub open spec fn clash_lints(
    node_paths: Map<Seq<char>, Seq<char>>,
    file: Seq<char>,
) -> spec_fn(Seq<char>) -> Seq<LintView> {
    |name: Seq<char>|
        if node_paths.contains_key(name) {
            seq![
                schema::error_lint_of(
                    name,
                    "node name is defined in multiple files"@,
                    Some(node_paths[name] + " and "@ + file),
                ),
            ]
        } else {
            Seq::empty()
        }
}

/// A set of schemas with one file more. Of nodes with the same name, the first stays.
pub open spec fn with_file(
    set: SchemaSetView,
    path: Seq<char>,
    relative: Seq<char>,
    source: Seq<char>,
) -> SchemaSetView {
    let found = parser::parsed(source);
    let metadata = file_id::metadata_of(lexer::statements_of(source));
    let fresh = found.nodes.remove_keys(set.node_paths.dom());
    SchemaSetView {
        nodes: set.nodes.union_prefer_right(fresh),
        files: set.files.push(
            SchemaFileView { path, relative_path: relative, file_id: metadata.file_id },
        ),
        node_paths: set.node_paths.union_prefer_right(fresh.map_values(|n: NodeView| relative)),
        lints: set.lints + in_file(found.lints, relative) + on_file(metadata.lints, relative)
            + order::gather(
            order::names(found.nodes.dom()),
            clash_lints(set.node_paths, relative),
        ),
    }
}

/// A set without files.
pub open spec fn empty_set() -> SchemaSetView {
    SchemaSetView {
        nodes: Map::empty(),
        files: Seq::empty(),
        node_paths: Map::empty(),
        lints: Seq::empty(),
    }
}

/// The set that files make up whose paths are seen from `root`. The first file that
/// could not be read makes it fail.
pub open spec fn read_all(files: Seq<FileTextView>, root: Seq<char>) -> Result<
    SchemaSetView,
    ErrorView,
>
    decreases files.len(),
{
    if files.len() == 0 {
        Ok(empty_set())
    } else {
        match read_all(files.drop_last(), root) {
            Err(error) => Err(error),
            Ok(set) => {
                let file = files.last();
                match file.text {
                    Err(message) => Err(ErrorView::Io { path: file.path, source: message }),
                    Ok(source) => Ok(
                        with_file(set, file.path, path::relative_to(file.path, root), source),
                    ),
                }
            },
        }
    }
}

/// The set that files make up.
pub open spec fn snapshot_of(files: Seq<FileTextView>) -> Result<SchemaSetView, ErrorView> {
    read_all(files, path::common_root(paths_of(files)))
}

/// A lint under another path.
fn moved(lint: &Lint, path: String) -> (under: Lint)
    ensures
        under@ == (LintView { path: path@, ..lint@ }),
{
    Lint {
        severity: lint.severity,
        path,
        reason: lint.reason.clone(),
        detail: lint.detail.clone(),
    }
}

/// Adds the remarks on a text as remarks on the file that it stands in.
fn add_text_lints(lints: &mut Vec<Lint>, found: &Vec<Lint>, file: &str)
    ensures
        text::views(final(lints)@) == text::views(old(lints)@) + in_file(text::views(found@), file@),
{
    let ghost all = in_file(text::views(found@), file@);
    let ghost before = text::views(lints@);
    let mut i: usize = 0;
    assert(before + all.take(0) =~= before);
    while i < found.len()
        invariant
            i <= found@.len(),
            all == in_file(text::views(found@), file@),
            text::views(lints@) == before + all.take(i as int),
        decreases found@.len() - i,
    {
        let lint = moved(&found[i], pair_text(file, ":", found[i].path.as_str()));
        proof {
            schema::lemma_views_push(lints@, lint);
        }
        lints.push(lint);
        assert(all[i as int] =~= lint@);
        assert(all.take(i + 1) =~= all.take(i as int).push(lint@));
        assert(text::views(lints@) =~= before + all.take(i + 1));
        i = i + 1;
    }
    assert(all.take(i as int) =~= all);
}

/// Adds the remarks on a file as a whole.
fn add_file_lints(lints: &mut Vec<Lint>, found: &Vec<Lint>, file: &str)
    ensures
        text::views(final(lints)@) == text::views(old(lints)@) + on_file(text::views(found@), file@),
{
    let ghost all = on_file(text::views(found@), file@);
    let ghost before = text::views(lints@);
    let mut i: usize = 0;
    assert(before + all.take(0) =~= before);
    while i < found.len()
        invariant
            i <= found@.len(),
            all == on_file(text::views(found@), file@),
            text::views(lints@) == before + all.take(i as int),
        decreases found@.len() - i,
    {
        let lint = moved(&found[i], file.to_owned());
        proof {
            schema::lemma_views_push(lints@, lint);
        }
        lints.push(lint);
        assert(all[i as int] =~= lint@);
        assert(all.take(i + 1) =~= all.take(i as int).push(lint@));
        assert(text::views(lints@) =~= before + all.take(i + 1));
        i = i + 1;
    }
    assert(all.take(i as int) =~= all);
}

/// The names in front of place `i`, mapped to what they name.
spec fn fresh_front(
    nodes: Map<Seq<char>, NodeView>,
    taken: Set<Seq<char>>,
    i: int,
) -> Map<Seq<char>, NodeView> {
    nodes.restrict(order::names(nodes.dom()).take(i).to_set()).remove_keys(taken)
}

/// Adds the nodes of a file to a set, but for those whose names are taken.
fn add_nodes(set: &mut SchemaSet, found: Snapshot, relative: &str)
    ensures
        final(set)@.nodes == old(set)@.nodes.union_prefer_right(
            found@.remove_keys(old(set)@.node_paths.dom()),
        ),
        final(set)@.node_paths == old(set)@.node_paths.union_prefer_right(
            found@.remove_keys(old(set)@.node_paths.dom()).map_values(|n: NodeView| relative@),
        ),
        final(set)@.files == old(set)@.files,
        final(set)@.lints == old(set)@.lints + order::gather(
            order::names(found@.dom()),
            clash_lints(old(set)@.node_paths, relative@),
        ),
{
    let ghost start = set@;
    let ghost all = found@;
    let ghost names = order::names(all.dom());
    let ghost taken = start.node_paths.dom();
    let ghost clash = clash_lints(start.node_paths, relative@);
    assert(all.dom() =~= found.nodes@.dom());
    let mut entries = found.nodes.into_entries();
    let ghost rows = entries@;
    let ghost mut i: int = 0;
    proof {
        order::lemma_orders_total();
        order::lemma_ascending(all.dom(), order::text_order());
        order::lemma_in_order_distinct(names, order::text_order());
        assert(rows.skip(0) =~= rows);
        assert(rows.len() == names.len());
        assert(fresh_front(all, taken, 0) =~= Map::empty());
        assert(set@.nodes =~= start.nodes.union_prefer_right(fresh_front(all, taken, 0)));
        assert(set@.node_paths =~= start.node_paths.union_prefer_right(
            fresh_front(all, taken, 0).map_values(|n: NodeView| relative@),
        ));
        assert(set@.lints =~= start.lints + order::gather(names.take(0), clash));
        assert forall|j: int| 0 <= j < rows.len() implies all.contains_key((#[trigger] rows[j]).0@)
            && all[rows[j].0@] == rows[j].1@ && names[j] == rows[j].0@ by {
            assert(rows.map_values(|e: (String, Node)| e.0@)[j] == rows[j].0@);
        }
    }
    while entries.len() > 0
        invariant
            0 <= i <= rows.len(),
            entries@ == rows.skip(i),
            names == order::names(all.dom()),
            rows.len() == names.len(),
            names.no_duplicates(),
            taken == start.node_paths.dom(),
            clash == clash_lints(start.node_paths, relative@),
            forall|j: int|
                0 <= j < rows.len() ==> all.contains_key((#[trigger] rows[j]).0@)
                    && all[rows[j].0@] == rows[j].1@ && names[j] == rows[j].0@,
            set@.nodes == start.nodes.union_prefer_right(fresh_front(all, taken, i)),
            set@.node_paths == start.node_paths.union_prefer_right(
                fresh_front(all, taken, i).map_values(|n: NodeView| relative@),
            ),
            set@.files == start.files,
            set@.lints == start.lints + order::gather(names.take(i), clash),
        decreases entries@.len(),
    {
        let ghost before = set@;
        let (name, node) = entries.remove(0);
        proof {
            assert(rows.skip(i)[0] == rows[i]);
            assert(rows.skip(i).remove(0) =~= rows.skip(i + 1));
            order::lemma_gather_step(names, i, clash);
            order::lemma_set_push(names.take(i), name@);
            assert(names.take(i + 1) =~= names.take(i).push(name@));
            if names.take(i).contains(name@) {
                let j = choose|j: int| 0 <= j < i && names.take(i)[j] == name@;
                assert(names[j] == names[i]);
            }
            assert(before.node_paths.contains_key(name@) == taken.contains(name@));
        }
        let mut first: Option<String> = None;
        if let Some(path) = set.node_paths.get(name.as_str()) {
            first = Some(pair_text(path.as_str(), " and ", relative));
        }
        if first.is_some() {
            let lint = error_lint(name, "node name is defined in multiple files", first);
            proof {
                schema::lemma_views_push(set.lints@, lint);
                assert(fresh_front(all, taken, i + 1) =~= fresh_front(all, taken, i));
                assert(before.node_paths[name@] == start.node_paths[name@]);
            }
            set.lints.push(lint);
            assert(set@.lints =~= before.lints + clash(name@));
        } else {
            proof {
                assert(fresh_front(all, taken, i + 1) =~= fresh_front(all, taken, i).insert(
                    name@,
                    node@,
                ));
            }
            set.node_paths.insert(name.clone(), relative.to_owned());
            set.snapshot.nodes.insert(name, node);
            assert(set@.nodes =~= before.nodes.insert(name@, node@));
            assert(set@.node_paths =~= before.node_paths.insert(name@, relative@));
            assert(set@.nodes =~= start.nodes.union_prefer_right(fresh_front(all, taken, i + 1)));
            assert(set@.node_paths =~= start.node_paths.union_prefer_right(
                fresh_front(all, taken, i + 1).map_values(|n: NodeView| relative@),
            ));
            assert(set@.lints =~= before.lints + clash(name@));
        }
        proof {
            i = i + 1;
            assert(set@.lints =~= start.lints + order::gather(names.take(i), clash));
        }
    }
    proof {
        assert(names.take(i) =~= names);
        assert(fresh_front(all, taken, i) =~= all.remove_keys(taken));
    }
}

/// Adds a file to a set.
fn add_file(set: &mut SchemaSet, path: &str, root: &str, source: &str)
    ensures
        final(set)@ == with_file(old(set)@, path@, path::relative_to(path@, root@), source@),
{
    let ghost start = set@;
    let relative = relative_schema_path(path, root);
    let found = parse_schema_with_lints(source);
    add_text_lints(&mut set.lints, &found.lints, relative.as_str());
    let metadata = parse_file_metadata(source);
    add_file_lints(&mut set.lints, &metadata.lints, relative.as_str());
    let file = SchemaFile {
        path: path.to_owned(),
        relative_path: relative.clone(),
        file_id: metadata.file_id,
    };
    proof {
        schema::lemma_views_push(set.files@, file);
    }
    set.files.push(file);
    add_nodes(set, found.snapshot, relative.as_str());
    assert(set@ =~= with_file(start, path@, relative@, source@));
}

fn paths_in(files: &[FileText]) -> (paths: Vec<String>)
    ensures
        text::views(paths@) == paths_of(text::views(files@)),
{
    let mut paths: Vec<String> = Vec::new();
    let mut i: usize = 0;
    let ghost all = paths_of(text::views(files@));
    assert(text::views(paths@) =~= all.take(0));
    while i < files.len()
        invariant
            i <= files@.len(),
            all == paths_of(text::views(files@)),
            text::views(paths@) == all.take(i as int),
        decreases files@.len() - i,
    {
        let path = files[i].path.clone();
        proof {
            schema::lemma_views_push(paths@, path);
            assert(all.take(i + 1) =~= all.take(i as int).push(path@));
        }
        paths.push(path);
        i = i + 1;
    }
    assert(all.take(i as int) =~= all);
    paths
}

/// The set that files make up.
#[verifier::rlimit(40)]
pub fn snapshot_files(files: &[FileText]) -> (set: Result<SchemaSet, Error>)
    ensures
        schema::outcome(set) == snapshot_of(text::views(files@)),
{
    let ghost all = text::views(files@);
    let root = common_file_root(paths_in(files).as_slice());
    let mut set = SchemaSet::default();
    let mut i: usize = 0;
    proof {
        assert(set@ =~= empty_set());
        assert(all.take(0) =~= Seq::empty());
    }
    while i < files.len()
        invariant
            i <= files@.len(),
            all == text::views(files@),
            read_all(all.take(i as int), root@) == Ok::<SchemaSetView, ErrorView>(set@),
            root@ == path::common_root(paths_of(all)),
        decreases files@.len() - i,
    {
        let file = &files[i];
        assert(all.take(i + 1).drop_last() =~= all.take(i as int));
        assert(all.take(i + 1).last() == file@);
        match &file.text {
            Ok(source) => {
                add_file(&mut set, file.path.as_str(), root.as_str(), source.as_str());
            },
            Err(message) => {
                proof {
                    lemma_failure_stays(all, i + 1, root@);
                }
                return Err(Error::Io { path: file.path.clone(), source: message.clone() });
            },
        }
        i = i + 1;
    }
    assert(all.take(i as int) =~= all);
    Ok(set)
}

/// A failure among the first files is the failure of all of them.
proof fn lemma_failure_stays(files: Seq<FileTextView>, i: int, root: Seq<char>)
    requires
        0 <= i <= files.len(),
        read_all(files.take(i), root) is Err,
    ensures
        read_all(files, root) == read_all(files.take(i), root),
    decreases files.len(),
{
    if i < files.len() {
        assert(files.drop_last().take(i) =~= files.take(i));
        lemma_failure_stays(files.drop_last(), i, root);
    } else {
        assert(files.take(i) =~= files);
    }
}

/// The remark on a file that was selected once more.
pub open spec fn repeat_lint(root: Seq<char>) -> spec_fn(Seq<char>) -> LintView {
    |file: Seq<char>|
        schema::error_lint_of(
            path::relative_to(file, root),
            "file was selected more than once"@,
            None,
        )
}

/// The set that files make up, with a remark on each file that was selected once more.
pub open spec fn sources_of(files: Seq<FileTextView>, repeated: Seq<Seq<char>>) -> Result<
    SchemaSetView,
    ErrorView,
> {
    match snapshot_of(files) {
        Err(error) => Err(error),
        Ok(set) => Ok(
            SchemaSetView {
                lints: set.lints + repeated.map_values(
                    repeat_lint(path::common_root(paths_of(files))),
                ),
                ..set
            },
        ),
    }
}

/// The set that files make up, with a remark on each file that was selected once more.
pub fn snapshot_sources(files: &[FileText], repeated: &[String]) -> (set: Result<SchemaSet, Error>)
    ensures
        schema::outcome(set) == sources_of(text::views(files@), text::views(repeated@)),
{
    let mut set = match snapshot_files(files) {
        Ok(set) => set,
        Err(error) => return Err(error),
    };
    let root = common_file_root(paths_in(files).as_slice());
    let ghost start = set@;
    let ghost all = text::views(repeated@).map_values(repeat_lint(root@));
    let mut i: usize = 0;
    assert(set@.lints =~= start.lints + all.take(0));
    while i < repeated.len()
        invariant
            i <= repeated@.len(),
            all == text::views(repeated@).map_values(repeat_lint(root@)),
            set@.nodes == start.nodes,
            set@.files == start.files,
            set@.node_paths == start.node_paths,
            set@.lints == start.lints + all.take(i as int),
        decreases repeated@.len() - i,
    {
        let lint = error_lint(
            relative_schema_path(repeated[i].as_str(), root.as_str()),
            "file was selected more than once",
            None,
        );
        proof {
            schema::lemma_views_push(set.lints@, lint);
            assert(all[i as int] == lint@);
            assert(all.take(i + 1) =~= all.take(i as int).push(lint@));
        }
        set.lints.push(lint);
        assert(set@.lints =~= start.lints + all.take(i + 1));
        i = i + 1;
    }
    assert(all.take(i as int) =~= all);
    Ok(set)
}

/// Reading fails exactly if some file could not be read, and then with the first such
/// file and what went wrong there.
pub proof fn law_first_unreadable_file_fails(files: Seq<FileTextView>)
    ensures
        snapshot_of(files) is Ok <==> forall|i: int|
            0 <= i < files.len() ==> (#[trigger] files[i]).text is Ok,
        forall|i: int|
            0 <= i < files.len() && (#[trigger] files[i]).text is Err && (forall|j: int|
                0 <= j < i ==> (#[trigger] files[j]).text is Ok) ==> snapshot_of(files) == Err::<
                SchemaSetView,
                ErrorView,
            >(ErrorView::Io { path: files[i].path, source: files[i].text->Err_0 }),
{
    lemma_first_failure(files, path::common_root(paths_of(files)));
}

#[verifier::rlimit(40)]
proof fn lemma_first_failure(files: Seq<FileTextView>, root: Seq<char>)
    ensures
        read_all(files, root) is Ok <==> forall|i: int|
            0 <= i < files.len() ==> (#[trigger] files[i]).text is Ok,
        forall|i: int|
            0 <= i < files.len() && (#[trigger] files[i]).text is Err && (forall|j: int|
                0 <= j < i ==> (#[trigger] files[j]).text is Ok) ==> read_all(files, root) == Err::<
                SchemaSetView,
                ErrorView,
            >(ErrorView::Io { path: files[i].path, source: files[i].text->Err_0 }),
    decreases files.len(),
{
    if files.len() > 0 {
        let shorter = files.drop_last();
        lemma_first_failure(shorter, root);
        assert forall|i: int| 0 <= i < shorter.len() implies shorter[i] == #[trigger] files[i] by {}
        assert(files[files.len() - 1] == files.last());
        if read_all(files, root) is Ok {
            assert forall|i: int| 0 <= i < files.len() implies (#[trigger] files[i]).text is Ok by {
                if i < shorter.len() {
                    assert(shorter[i].text is Ok);
                }
            }
        }
        assert forall|i: int|
            0 <= i < files.len() && (#[trigger] files[i]).text is Err && (forall|j: int|
                0 <= j < i ==> (#[trigger] files[j]).text is Ok) implies read_all(files, root)
            == Err::<SchemaSetView, ErrorView>(
            ErrorView::Io { path: files[i].path, source: files[i].text->Err_0 },
        ) by {
            if i < shorter.len() {
                assert(shorter[i].text is Err);
                assert(forall|j: int| 0 <= j < i ==> (#[trigger] shorter[j]).text is Ok) by {
                    assert forall|j: int| 0 <= j < i implies (#[trigger] shorter[j]).text is Ok by {
                        assert(files[j].text is Ok);
                    }
                }
            } else {
                assert forall|j: int| 0 <= j < shorter.len() implies (#[trigger] shorter[j]).text
                    is Ok by {
                    assert(files[j].text is Ok);
                }
            }
        }
    }
}

/// Every node of a set that was read has the file that it comes from, one of those that
/// were read, and there is one entry for each file, in order.
pub proof fn law_nodes_come_from_files(files: Seq<FileTextView>)
    requires
        snapshot_of(files) is Ok,
    ensures
        snapshot_of(files)->Ok_0.nodes.dom() == snapshot_of(files)->Ok_0.node_paths.dom(),
        snapshot_of(files)->Ok_0.files.map_values(|f: SchemaFileView| f.path) == paths_of(files),
        forall|name: Seq<char>| #[trigger]
            snapshot_of(files)->Ok_0.node_paths.contains_key(name) ==> exists|i: int|
                0 <= i < files.len() && (#[trigger] snapshot_of(files)->Ok_0.files[i]).relative_path
                    == snapshot_of(files)->Ok_0.node_paths[name],
{
    lemma_nodes_come_from_files(files, path::common_root(paths_of(files)));
}

proof fn lemma_nodes_come_from_files(files: Seq<FileTextView>, root: Seq<char>)
    requires
        read_all(files, root) is Ok,
    ensures
        read_all(files, root)->Ok_0.nodes.dom() == read_all(files, root)->Ok_0.node_paths.dom(),
        read_all(files, root)->Ok_0.files.map_values(|f: SchemaFileView| f.path) == paths_of(files),
        forall|name: Seq<char>| #[trigger]
            read_all(files, root)->Ok_0.node_paths.contains_key(name) ==> exists|i: int|
                0 <= i < files.len() && (#[trigger] read_all(
                    files,
                    root,
                )->Ok_0.files[i]).relative_path == read_all(files, root)->Ok_0.node_paths[name],
    decreases files.len(),
{
    let f = |f: SchemaFileView| f.path;
    let set = read_all(files, root)->Ok_0;
    if files.len() == 0 {
        assert(set.nodes.dom() =~= set.node_paths.dom());
        assert(set.files.map_values(f) =~= paths_of(files));
    } else {
        let before = read_all(files.drop_last(), root)->Ok_0;
        lemma_nodes_come_from_files(files.drop_last(), root);
        let file = files.last();
        assert(paths_of(files) =~= paths_of(files.drop_last()).push(file.path));
        assert(set.files.map_values(f) =~= before.files.map_values(f).push(file.path));
        assert(set.nodes.dom() =~= set.node_paths.dom());
        assert(before.files.map_values(f).len() == files.len() - 1);
        assert forall|name: Seq<char>| #[trigger]
            set.node_paths.contains_key(name) implies exists|i: int|
            0 <= i < files.len() && (#[trigger] set.files[i]).relative_path
                == set.node_paths[name] by {
            if before.node_paths.contains_key(name) {
                let i = choose|i: int|
                    0 <= i < files.drop_last().len() && (#[trigger] before.files[i]).relative_path
                        == before.node_paths[name];
                assert(set.files[i] == before.files[i]);
            } else {
                let i = files.len() - 1;
                assert(set.files[i].relative_path == set.node_paths[name]);
            }
        }
    }
}

/// Later files do not change what earlier files define: each node and the file that it
/// comes from stay.
pub proof fn law_first_definition_stays(
    files: Seq<FileTextView>,
    root: Seq<char>,
    n: int,
    name: Seq<char>,
)
    requires
        0 <= n <= files.len(),
        read_all(files, root) is Ok,
        read_all(files.take(n), root) is Ok,
        read_all(files.take(n), root)->Ok_0.node_paths.contains_key(name),
    ensures
        read_all(files, root)->Ok_0.nodes.contains_key(name),
        read_all(files, root)->Ok_0.nodes[name] == read_all(files.take(n), root)->Ok_0.nodes[name],
        read_all(files, root)->Ok_0.node_paths.contains_key(name),
        read_all(files, root)->Ok_0.node_paths[name] == read_all(
            files.take(n),
            root,
        )->Ok_0.node_paths[name],
    decreases files.len(),
{
    if n < files.len() {
        assert(files.drop_last().take(n) =~= files.take(n));
        law_first_definition_stays(files.drop_last(), root, n, name);
    } else {
        assert(files.take(n) =~= files);
        lemma_nodes_come_from_files(files, root);
        assert(read_all(files, root)->Ok_0.nodes.dom().contains(name));
    }
}

} // verus!
