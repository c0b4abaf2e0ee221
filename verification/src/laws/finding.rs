//! Which files are found, and what is taken from them.

use crate::discover;
use crate::discover::{DiscoveredView, SelectionView, SourceView, WalkView};
use crate::file_id;
use crate::glob;
use crate::laws::comparing;
use crate::laws::selecting;
use crate::lexer;
use crate::listing;
use crate::order;
use crate::parser;
use crate::path;
use crate::schema::{ErrorView, LintSeverity, LintView, SchemaFileView, SchemaSetView};
use crate::snapshot;
use crate::snapshot::FileTextView;
use crate::text;
use vstd::prelude::*;

verus! {

/// The files at the place of a source.
pub open spec fn offered(source: SourceView) -> Seq<Seq<char>> {
    match source.walk {
        WalkView::File => seq![glob::root_of(source.name)],
        WalkView::Directory(files) => files,
        WalkView::Failed { path, message } => Seq::empty(),
    }
}

/// Which files a source wants: schema files and, if it is a pattern, those that fit it.
pub open spec fn wanted(source: SourceView) -> spec_fn(Seq<char>) -> bool {
    |file: Seq<char>|
        path::is_schema(file) && (glob::has_operator(source.name) ==> glob::selects(
            source.name,
            file,
        ))
}

proof fn lemma_filter_twice(
    items: Seq<Seq<char>>,
    p: spec_fn(Seq<char>) -> bool,
    q: spec_fn(Seq<char>) -> bool,
    both: spec_fn(Seq<char>) -> bool,
)
    requires
        forall|s: Seq<char>| #[trigger] both(s) <==> p(s) && q(s),
    ensures
        items.filter(p).filter(q) == items.filter(both),
    decreases items.len(),
{
    reveal(Seq::filter);
    if items.len() > 0 {
        let shorter = items.drop_last();
        lemma_filter_twice(shorter, p, q, both);
        assert(both(items.last()) <==> p(items.last()) && q(items.last()));
        if p(items.last()) {
            assert(items.filter(p).drop_last() =~= shorter.filter(p));
        }
    }
}

proof fn lemma_filter_alike(
    items: Seq<Seq<char>>,
    p: spec_fn(Seq<char>) -> bool,
    q: spec_fn(Seq<char>) -> bool,
)
    requires
        forall|s: Seq<char>| #[trigger] p(s) <==> q(s),
    ensures
        items.filter(p) == items.filter(q),
    decreases items.len(),
{
    reveal(Seq::filter);
    if items.len() > 0 {
        lemma_filter_alike(items.drop_last(), p, q);
        assert(p(items.last()) <==> q(items.last()));
    }
}

/// A source selects all files at its place that it wants, in the order in which they are
/// offered, and no others. A directory is imported from as it is named, and the directories
/// of selected files are imported from. A pattern that selects nothing is an error, and so is
/// a place that cannot be looked at.
pub proof fn law_selection(source: SourceView)
    ensures
        ({
            let files = offered(source).filter(wanted(source));
            let pattern = glob::has_operator(source.name);
            let found = discover::selected(source);
            &&& source.walk matches WalkView::Failed { path, message } ==> found == Err::<
                SelectionView,
                ErrorView,
            >(ErrorView::Io { path, source: message })
            &&& source.walk !is Failed && pattern && files.len() == 0 ==> found == Err::<
                SelectionView,
                ErrorView,
            >(ErrorView::NoSchemas(source.name))
            &&& source.walk !is Failed && (!pattern || files.len() > 0) ==> {
                &&& found is Ok
                &&& found->Ok_0.files == files
                &&& found->Ok_0.roots == if source.walk is Directory && !pattern {
                    seq![source.name]
                } else {
                    path::parents(files)
                }
            }
        }),
{
    let schemas = discover::schema_named();
    let fits = discover::fitting(source.name);
    let all = offered(source);
    selecting::lemma_picked_filters(all, schemas);
    selecting::lemma_picked_filters(all.filter(schemas), fits);
    if glob::has_operator(source.name) {
        lemma_filter_twice(all, schemas, fits, wanted(source));
    } else {
        lemma_filter_alike(all, schemas, wanted(source));
    }
}

/// The files that a source selects.
pub open spec fn files_of() -> spec_fn(SourceView) -> Seq<Seq<char>> {
    |source: SourceView| discover::selected(source)->Ok_0.files
}

/// The directories that a source adds to import from.
pub open spec fn roots_of() -> spec_fn(SourceView) -> Seq<Seq<char>> {
    |source: SourceView| discover::selected(source)->Ok_0.roots
}

/// Whether all sources can be looked at.
pub open spec fn all_found(sources: Seq<SourceView>) -> bool {
    forall|i: int| 0 <= i < sources.len() ==> discover::selected(#[trigger] sources[i]) is Ok
}

/// Sources select together what each of them selects, one after the other; the first that
/// selects nothing for an error gives the error.
pub proof fn law_selections_are_joined(sources: Seq<SourceView>, i: int)
    ensures
        all_found(sources) ==> {
            &&& discover::selected_by_all(sources) is Ok
            &&& discover::selected_by_all(sources)->Ok_0.files == sources.map_values(
                files_of(),
            ).flatten()
            &&& discover::selected_by_all(sources)->Ok_0.roots == sources.map_values(
                roots_of(),
            ).flatten()
        },
        0 <= i < sources.len() && all_found(sources.take(i)) && discover::selected(sources[i]) is Err
            ==> discover::selected_by_all(sources) == Err::<SelectionView, ErrorView>(
            discover::selected(sources[i])->Err_0,
        ),
    decreases sources.len(),
{
    if sources.len() > 0 {
        let shorter = sources.drop_last();
        let last = sources.last();
        law_selections_are_joined(shorter, i);
        assert(sources[sources.len() - 1] == last);
        if all_found(sources) {
            assert forall|k: int| 0 <= k < shorter.len() implies discover::selected(
                #[trigger] shorter[k],
            ) is Ok by {
                assert(shorter[k] == sources[k]);
            }
            assert(sources.map_values(files_of()) =~= shorter.map_values(files_of()).push(
                files_of()(last),
            ));
            shorter.map_values(files_of()).lemma_flatten_push(files_of()(last));
            assert(sources.map_values(roots_of()) =~= shorter.map_values(roots_of()).push(
                roots_of()(last),
            ));
            shorter.map_values(roots_of()).lemma_flatten_push(roots_of()(last));
        }
        if 0 <= i < sources.len() && all_found(sources.take(i)) && discover::selected(sources[i])
            is Err {
            if i < shorter.len() {
                assert(shorter.take(i) =~= sources.take(i));
                assert(shorter[i] == sources[i]);
            } else {
                assert(sources.take(i) =~= shorter);
                law_selections_are_joined(shorter, 0);
            }
        }
    }
}

/// What is found are the selected files and the directories to import from, each once and in
/// order, and beside them the files that were selected again. Where no file is found, the
/// error names all sources.
pub proof fn law_found_files(sources: Seq<SourceView>)
    ensures
        match discover::selected_by_all(sources) {
            Err(error) => discover::discovered(sources) == Err::<DiscoveredView, ErrorView>(error),
            Ok(selection) => if selection.files.len() == 0 {
                discover::discovered(sources) == Err::<DiscoveredView, ErrorView>(
                    ErrorView::NoSchemas(
                        text::join(
                            Seq::new(sources.len(), |i: int| sources[i].name),
                            ", "@,
                        ),
                    ),
                )
            } else {
                discover::discovered(sources) == Ok::<DiscoveredView, ErrorView>(
                    DiscoveredView {
                        files: listing::distinct(selection.files),
                        import_roots: listing::distinct(selection.roots),
                        duplicate_files: listing::repeats(selection.files),
                    },
                )
            },
        },
{
    assert(discover::names_of(sources) =~= Seq::new(sources.len(), |i: int| sources[i].name));
}

proof fn lemma_finite(statements: Seq<Seq<char>>)
    ensures
        parser::parse_statements(statements).nodes.dom().finite(),
    decreases statements.len(),
{
    if statements.len() > 0 {
        lemma_finite(statements.drop_last());
    }
}

/// An error that something says of a file or a node.
pub open spec fn fault(
    path: Seq<char>,
    reason: Seq<char>,
    detail: Option<Seq<char>>,
) -> LintView {
    LintView { severity: LintSeverity::Error, path, reason, detail }
}

/// What one more file adds to what was read: itself with its id, and those of its nodes that
/// are new, each with where it stands.
pub proof fn law_file_adds_its_nodes(
    set: SchemaSetView,
    path: Seq<char>,
    relative: Seq<char>,
    source: Seq<char>,
    name: Seq<char>,
)
    requires
        set.nodes.dom() == set.node_paths.dom(),
    ensures
        ({
            let next = snapshot::with_file(set, path, relative, source);
            let found = parser::parsed(source).nodes;
            &&& next.files == set.files.push(
                SchemaFileView {
                    path,
                    relative_path: relative,
                    file_id: file_id::metadata_of(lexer::statements_of(source)).file_id,
                },
            )
            &&& next.nodes.dom() == next.node_paths.dom()
            &&& next.nodes.contains_key(name) <==> set.nodes.contains_key(name)
                || found.contains_key(name)
            &&& set.nodes.contains_key(name) ==> next.nodes[name] == set.nodes[name]
                && next.node_paths[name] == set.node_paths[name]
            &&& !set.nodes.contains_key(name) && found.contains_key(name) ==> next.nodes[name]
                == found[name] && next.node_paths[name] == relative
        }),
{
    let next = snapshot::with_file(set, path, relative, source);
    assert(next.nodes.dom() =~= next.node_paths.dom());
    assert(set.nodes.dom().contains(name) == set.node_paths.dom().contains(name));
}

/// What is remarked on when one more file is read: what its text has to say under its name,
/// what its id has to say of it, and each node that another file has already.
pub proof fn law_file_adds_its_remarks(
    set: SchemaSetView,
    path: Seq<char>,
    relative: Seq<char>,
    source: Seq<char>,
    l: LintView,
)
    ensures
        ({
            let next = snapshot::with_file(set, path, relative, source);
            let found = parser::parsed(source);
            let metadata = file_id::metadata_of(lexer::statements_of(source));
            next.lints.contains(l) <==> {
                ||| set.lints.contains(l)
                ||| exists|i: int|
                    0 <= i < found.lints.len() && l == (LintView {
                        severity: found.lints[i].severity,
                        path: relative + ":"@ + (#[trigger] found.lints[i]).path,
                        reason: found.lints[i].reason,
                        detail: found.lints[i].detail,
                    })
                ||| exists|i: int|
                    0 <= i < metadata.lints.len() && l == (LintView {
                        severity: metadata.lints[i].severity,
                        path: relative,
                        reason: (#[trigger] metadata.lints[i]).reason,
                        detail: metadata.lints[i].detail,
                    })
                ||| exists|name: Seq<char>| #[trigger]
                    found.nodes.contains_key(name) && set.node_paths.contains_key(name) && l
                        == fault(
                        name,
                        "node name is defined in multiple files"@,
                        Some(set.node_paths[name] + " and "@ + relative),
                    )
            }
        }),
{
    let found = parser::parsed(source);
    let metadata = file_id::metadata_of(lexer::statements_of(source));
    let a = set.lints;
    let b = snapshot::in_file(found.lints, relative);
    let c = snapshot::on_file(metadata.lints, relative);
    let f = snapshot::clash_lints(set.node_paths, relative);
    let d = order::gather(order::names(found.nodes.dom()), f);
    lemma_finite(lexer::statements_of(source));
    order::lemma_orders_total();
    comparing::lemma_gathered_from(found.nodes.dom(), order::text_order(), f, l);
    comparing::lemma_concat(a, b, l);
    comparing::lemma_concat(a + b, c, l);
    comparing::lemma_concat(a + b + c, d, l);
    if b.contains(l) {
        let i = choose|i: int| 0 <= i < b.len() && b[i] == l;
        assert(found.lints[i].path == found.lints[i].path);
    }
    if exists|i: int|
        0 <= i < found.lints.len() && l == (LintView {
            severity: found.lints[i].severity,
            path: relative + ":"@ + (#[trigger] found.lints[i]).path,
            reason: found.lints[i].reason,
            detail: found.lints[i].detail,
        }) {
        let i = choose|i: int|
            0 <= i < found.lints.len() && l == (LintView {
                severity: found.lints[i].severity,
                path: relative + ":"@ + (#[trigger] found.lints[i]).path,
                reason: found.lints[i].reason,
                detail: found.lints[i].detail,
            });
        assert(b[i] == l);
    }
    if c.contains(l) {
        let i = choose|i: int| 0 <= i < c.len() && c[i] == l;
        assert(metadata.lints[i].reason == l.reason);
    }
    if exists|i: int|
        0 <= i < metadata.lints.len() && l == (LintView {
            severity: metadata.lints[i].severity,
            path: relative,
            reason: (#[trigger] metadata.lints[i]).reason,
            detail: metadata.lints[i].detail,
        }) {
        let i = choose|i: int|
            0 <= i < metadata.lints.len() && l == (LintView {
                severity: metadata.lints[i].severity,
                path: relative,
                reason: (#[trigger] metadata.lints[i]).reason,
                detail: metadata.lints[i].detail,
            });
        assert(c[i] == l);
    }
    if d.contains(l) {
        let name = choose|name: Seq<char>| #[trigger]
            found.nodes.dom().contains(name) && f(name).contains(l);
        assert(found.nodes.contains_key(name));
        comparing::lemma_one(
            fault(
                name,
                "node name is defined in multiple files"@,
                Some(set.node_paths[name] + " and "@ + relative),
            ),
            l,
        );
    }
    if exists|name: Seq<char>| #[trigger]
        found.nodes.contains_key(name) && set.node_paths.contains_key(name) && l == fault(
            name,
            "node name is defined in multiple files"@,
            Some(set.node_paths[name] + " and "@ + relative),
        ) {
        let name = choose|name: Seq<char>| #[trigger]
            found.nodes.contains_key(name) && set.node_paths.contains_key(name) && l == fault(
                name,
                "node name is defined in multiple files"@,
                Some(set.node_paths[name] + " and "@ + relative),
            );
        comparing::lemma_one(l, l);
        assert(found.nodes.dom().contains(name) && f(name).contains(l));
    }
}

/// Files are read in order, each under its name below the common root, and the first that
/// cannot be read gives the error.
pub proof fn law_files_are_read_in_order(
    files: Seq<FileTextView>,
    file: FileTextView,
    root: Seq<char>,
)
    ensures
        snapshot::read_all(Seq::empty(), root) == Ok::<SchemaSetView, ErrorView>(
            SchemaSetView {
                nodes: Map::empty(),
                files: Seq::empty(),
                node_paths: Map::empty(),
                lints: Seq::empty(),
            },
        ),
        match snapshot::read_all(files, root) {
            Err(error) => snapshot::read_all(files.push(file), root) == Err::<
                SchemaSetView,
                ErrorView,
            >(error),
            Ok(set) => match file.text {
                Err(message) => snapshot::read_all(files.push(file), root) == Err::<
                    SchemaSetView,
                    ErrorView,
                >(ErrorView::Io { path: file.path, source: message }),
                Ok(source) => snapshot::read_all(files.push(file), root) == Ok::<
                    SchemaSetView,
                    ErrorView,
                >(
                    snapshot::with_file(
                        set,
                        file.path,
                        path::relative_to(file.path, root),
                        source,
                    ),
                ),
            },
        },
{
    assert(files.push(file).drop_last() =~= files);
    assert(files.push(file).last() == file);
}

/// The files of a side are read below their common root, and each that was selected again is
/// an error behind all other remarks.
pub proof fn law_selected_again(files: Seq<FileTextView>, repeated: Seq<Seq<char>>)
    ensures
        ({
            let root = path::common_root(Seq::new(files.len(), |i: int| files[i].path));
            match snapshot::read_all(files, root) {
                Err(error) => snapshot::sources_of(files, repeated) == Err::<
                    SchemaSetView,
                    ErrorView,
                >(error),
                Ok(set) => {
                    let read = snapshot::sources_of(files, repeated);
                    &&& read is Ok
                    &&& read->Ok_0.nodes == set.nodes
                    &&& read->Ok_0.files == set.files
                    &&& read->Ok_0.node_paths == set.node_paths
                    &&& read->Ok_0.lints.len() == set.lints.len() + repeated.len()
                    &&& set.lints.is_prefix_of(read->Ok_0.lints)
                    &&& forall|i: int|
                        0 <= i < repeated.len() ==> read->Ok_0.lints[set.lints.len() + i] == fault(
                            path::relative_to(#[trigger] repeated[i], root),
                            "file was selected more than once"@,
                            None,
                        )
                },
            }
        }),
{
    assert(snapshot::paths_of(files) =~= Seq::new(files.len(), |i: int| files[i].path));
    let root = path::common_root(Seq::new(files.len(), |i: int| files[i].path));
    if let Ok(set) = snapshot::read_all(files, root) {
        let read = snapshot::sources_of(files, repeated)->Ok_0;
        assert(set.lints =~= read.lints.take(set.lints.len() as int));
    }
}

} // verus!
