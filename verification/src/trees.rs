//! Checks of trees that were taken out of a repository.
//!
//! Where the trees were put has no part in the report, and neither has anything that lies
//! elsewhere in the file system, the worktree among it.

use crate::check;
use crate::check::{CheckActionView, CheckEventView, CheckStepView};
use crate::command::CommandOutcomeView;
use crate::compare;
use crate::config::ConfigView;
use crate::discover;
use crate::discover::{DiscoveredView, SourceView, WalkView};
use crate::glob;
use crate::lint;
use crate::mode;
use crate::mode::ResolvedView;
use crate::moved;
use crate::order;
use crate::path;
use crate::schema;
use crate::schema::{ErrorView, LintView, ReportView, SchemaFileView, SchemaSetView};
use crate::snapshot;
use crate::snapshot::FileTextView;
use vstd::prelude::*;

verus! {

/// Whether two rows of files are the same but for the places where they lie.
pub open spec fn files_alike(a: Seq<SchemaFileView>, b: Seq<SchemaFileView>) -> bool {
    &&& a.len() == b.len()
    &&& forall|i: int|
        0 <= i < a.len() ==> (#[trigger] a[i]).relative_path == b[i].relative_path && a[i].file_id
            == b[i].file_id
}

/// Whether two sets of schemas are the same but for the places where their files lie.
pub open spec fn sets_alike(a: SchemaSetView, b: SchemaSetView) -> bool {
    &&& a.nodes == b.nodes
    &&& a.node_paths == b.node_paths
    &&& a.lints == b.lints
    &&& files_alike(a.files, b.files)
}

proof fn lemma_fewer_alike(a: Seq<SchemaFileView>, b: Seq<SchemaFileView>)
    requires
        files_alike(a, b),
        a.len() > 0,
    ensures
        files_alike(a.drop_last(), b.drop_last()),
        a.last().relative_path == b.last().relative_path,
        a.last().file_id == b.last().file_id,
{
    let x = a.drop_last();
    let y = b.drop_last();
    assert forall|i: int| 0 <= i < x.len() implies (#[trigger] x[i]).relative_path
        == y[i].relative_path && x[i].file_id == y[i].file_id by {
        assert(x[i] == a[i]);
    }
    assert(a[a.len() - 1].file_id == b[a.len() - 1].file_id);
}

proof fn lemma_ids_alike(a: Seq<SchemaFileView>, b: Seq<SchemaFileView>)
    requires
        files_alike(a, b),
    ensures
        lint::ids(a) == lint::ids(b),
{
    assert forall|id: Seq<char>| lint::has_id(a, id) == lint::has_id(b, id) by {
        if lint::has_id(a, id) {
            let i = choose|i: int| 0 <= i < a.len() && (#[trigger] a[i]).file_id == Some(id);
            assert(b[i].file_id == Some(id));
        }
        if lint::has_id(b, id) {
            let i = choose|i: int| 0 <= i < b.len() && (#[trigger] b[i]).file_id == Some(id);
            assert(a[i].file_id == Some(id));
        }
    }
    assert(lint::ids(a) =~= lint::ids(b));
}

proof fn lemma_paths_alike(a: Seq<SchemaFileView>, b: Seq<SchemaFileView>, s: Seq<char>)
    requires
        files_alike(a, b),
    ensures
        lint::paths_with_id(a, s) == lint::paths_with_id(b, s),
        lint::has_path(a, s) == lint::has_path(b, s),
        match (lint::last_with_id(a, s), lint::last_with_id(b, s)) {
            (Some(x), Some(y)) => x.relative_path == y.relative_path,
            (None, None) => true,
            _ => false,
        },
        match (lint::last_with_path(a, s), lint::last_with_path(b, s)) {
            (Some(x), Some(y)) => x.file_id == y.file_id,
            (None, None) => true,
            _ => false,
        },
    decreases a.len(),
{
    if a.len() > 0 {
        lemma_fewer_alike(a, b);
        lemma_paths_alike(a.drop_last(), b.drop_last(), s);
    }
    if lint::has_path(a, s) {
        let i = choose|i: int| 0 <= i < a.len() && (#[trigger] a[i]).relative_path == s;
        assert(b[i].relative_path == s);
    }
    if lint::has_path(b, s) {
        let i = choose|i: int| 0 <= i < b.len() && (#[trigger] b[i]).relative_path == s;
        assert(a[i].relative_path == s);
    }
}

/// What is gathered from files that are alike is the same, if the remarks on each are.
proof fn lemma_gathered_alike(
    a: Seq<SchemaFileView>,
    b: Seq<SchemaFileView>,
    f: spec_fn(SchemaFileView) -> Seq<LintView>,
    g: spec_fn(SchemaFileView) -> Seq<LintView>,
)
    requires
        files_alike(a, b),
        forall|x: SchemaFileView, y: SchemaFileView|
            #![trigger f(x), g(y)]
            x.relative_path == y.relative_path && x.file_id == y.file_id ==> f(x) == g(y),
    ensures
        order::gather(a, f) == order::gather(b, g),
    decreases a.len(),
{
    if a.len() > 0 {
        lemma_fewer_alike(a, b);
        lemma_gathered_alike(a.drop_last(), b.drop_last(), f, g);
        assert(f(a.last()) == g(b.last()));
    }
}

proof fn lemma_id_lints_alike(side: Seq<char>, a: Seq<SchemaFileView>, b: Seq<SchemaFileView>)
    requires
        files_alike(a, b),
    ensures
        lint::file_id_lints(side, a) == lint::file_id_lints(side, b),
{
    lemma_gathered_alike(a, b, lint::missing_id(side), lint::missing_id(side));
    lemma_ids_alike(a, b);
    assert forall|id: Seq<char>| #[trigger]
        lint::shared_id(side, a)(id) == lint::shared_id(side, b)(id) by {
        lemma_paths_alike(a, b, id);
    }
    assert(lint::shared_id(side, a) =~= lint::shared_id(side, b));
}

/// The comparison does not depend on the places where the files lie.
pub proof fn law_comparison_ignores_places(
    before: SchemaSetView,
    after: SchemaSetView,
    before_moved: SchemaSetView,
    after_moved: SchemaSetView,
)
    requires
        sets_alike(before, before_moved),
        sets_alike(after, after_moved),
    ensures
        compare::comparison(before, after) == compare::comparison(before_moved, after_moved),
{
    let a = before.files;
    let b = after.files;
    let x = before_moved.files;
    let y = after_moved.files;
    lemma_id_lints_alike("before"@, a, x);
    lemma_id_lints_alike("after"@, b, y);
    lemma_ids_alike(a, x);
    assert forall|p: SchemaFileView, q: SchemaFileView|
        #![trigger lint::changed_id(a)(p), lint::changed_id(x)(q)]
        p.relative_path == q.relative_path && p.file_id == q.file_id implies lint::changed_id(a)(p)
        == lint::changed_id(x)(q) by {
        lemma_paths_alike(a, x, p.relative_path);
    }
    lemma_gathered_alike(b, y, lint::changed_id(a), lint::changed_id(x));
    assert forall|id: Seq<char>| #[trigger]
        lint::moved_id(a, b)(id) == lint::moved_id(x, y)(id) by {
        lemma_paths_alike(a, x, id);
        lemma_paths_alike(b, y, id);
    }
    assert(lint::moved_id(a, b) =~= lint::moved_id(x, y));
    assert forall|p: SchemaFileView, q: SchemaFileView|
        #![trigger lint::removed_file(b)(p), lint::removed_file(y)(q)]
        p.relative_path == q.relative_path && p.file_id == q.file_id implies lint::removed_file(b)(
        p,
    ) == lint::removed_file(y)(q) by {
        lemma_paths_alike(b, y, p.relative_path);
        if let Some(id) = p.file_id {
            lemma_paths_alike(b, y, id);
            assert(lint::ids(b).contains(id) == lint::has_id(b, id));
            assert(lint::ids(y).contains(id) == lint::has_id(y, id));
            lemma_ids_alike(b, y);
        }
    }
    lemma_gathered_alike(a, x, lint::removed_file(b), lint::removed_file(y));
    assert(lint::set_lints(before, after) =~= lint::set_lints(before_moved, after_moved));
}

/// Whether a path stays inside the tree that it starts in.
pub open spec fn inside(s: Seq<char>) -> bool {
    !path::absolute(s) && !moved::parts_in(s).contains(".."@)
}

/// What a tree holds, by the names that things have inside it.
pub struct TreeView {
    pub walks: spec_fn(Seq<char>) -> WalkView,
    pub texts: spec_fn(Seq<char>) -> Result<Seq<char>, Seq<char>>,
}

/// Whether what is found where a source is looked for are files with names inside the tree.
pub open spec fn files_inside(source: Seq<char>, walk: WalkView) -> bool {
    match walk {
        WalkView::File => moved::named(moved::place_in(source)),
        WalkView::Directory(files) => forall|i: int|
            0 <= i < files.len() ==> moved::named(#[trigger] files[i]) && inside(files[i]),
        WalkView::Failed { path, message } => true,
    }
}

impl TreeView {
    /// Whether the files of the tree have names inside it.
    pub open spec fn well_formed(self) -> bool {
        forall|s: Seq<char>| inside(s) ==> files_inside(s, #[trigger] (self.walks)(s))
    }
}

/// What is found in a file system.
pub struct FileSystemView {
    pub walks: spec_fn(Seq<char>) -> WalkView,
    pub texts: spec_fn(Seq<char>) -> Result<Seq<char>, Seq<char>>,
}

/// Whether a walk in a directory finds what a walk in a tree finds. What went wrong may be
/// told in other words.
pub open spec fn walks_alike(dir: Seq<char>, found: WalkView, inner: WalkView) -> bool {
    match inner {
        WalkView::File => found is File,
        WalkView::Directory(files) => found == WalkView::Directory(mode::all_within(dir, files)),
        WalkView::Failed { path, message } => found is Failed,
    }
}

/// Whether two texts were read alike. What went wrong may be told in other words.
pub open spec fn texts_alike(
    a: Result<Seq<char>, Seq<char>>,
    b: Result<Seq<char>, Seq<char>>,
) -> bool {
    match (a, b) {
        (Ok(x), Ok(y)) => x == y,
        (Err(x), Err(y)) => true,
        _ => false,
    }
}

impl FileSystemView {
    /// Whether a path inside a directory leads to the same as in a tree.
    pub open spec fn agrees(self, dir: Seq<char>, tree: TreeView, s: Seq<char>) -> bool {
        &&& walks_alike(dir, (self.walks)(path::within(dir, s)), (tree.walks)(s))
        &&& texts_alike((self.texts)(path::within(dir, s)), (tree.texts)(s))
    }

    /// Whether a directory holds a tree.
    pub open spec fn holds(self, dir: Seq<char>, tree: TreeView) -> bool {
        forall|s: Seq<char>| inside(s) ==> #[trigger] self.agrees(dir, tree, s)
    }

    /// What lies where a source is looked for.
    pub open spec fn source(self) -> spec_fn(Seq<char>) -> SourceView {
        |name: Seq<char>| SourceView { name, walk: (self.walks)(name) }
    }

    /// A file with its text.
    pub open spec fn file(self) -> spec_fn(Seq<char>) -> FileTextView {
        |file: Seq<char>| FileTextView { path: file, text: (self.texts)(file) }
    }

    /// The step after this one, if what it asks for is looked up in the file system.
    pub open spec fn looked_up(self, step: CheckStepView) -> CheckStepView {
        match check::action_of(step) {
            CheckActionView::Walk(sources) => check::step_after(
                step,
                CheckEventView::Walked(sources.map_values(self.source())),
            ),
            CheckActionView::Read(files) => check::step_after(
                step,
                CheckEventView::Read(files.map_values(self.file())),
            ),
            _ => step,
        }
    }
}

/// Whether a path inside a tree names a schema file.
pub open spec fn schema_in() -> spec_fn(Seq<char>) -> bool {
    |s: Seq<char>|
        moved::parts_in(s).len() > 0 && path::ends_as_schema(moved::parts_in(s).last())
}

/// Whether a path inside a tree fits a pattern.
pub open spec fn fitting_in(pattern: Seq<char>) -> spec_fn(Seq<char>) -> bool {
    |s: Seq<char>| glob::fits(pattern, path::with_slashes(s))
}

/// The files inside a tree that a source selects.
pub open spec fn selected_in(source: Seq<char>, walk: WalkView) -> Seq<Seq<char>> {
    let found = order::picked(
        match walk {
            WalkView::File => seq![moved::place_in(source)],
            WalkView::Directory(files) => files,
            WalkView::Failed { path, message } => Seq::empty(),
        },
        schema_in(),
    );
    if glob::has_operator(source) {
        order::picked(found, fitting_in(source))
    } else {
        found
    }
}

/// The files inside a tree that sources select, one source after the other.
pub open spec fn selected_from(tree: TreeView) -> spec_fn(Seq<char>) -> Seq<Seq<char>> {
    |source: Seq<char>| selected_in(source, (tree.walks)(source))
}

/// Picking from moved paths is moving the picked paths.
proof fn lemma_picked_in(
    dir: Seq<char>,
    paths: Seq<Seq<char>>,
    p: spec_fn(Seq<char>) -> bool,
    q: spec_fn(Seq<char>) -> bool,
)
    requires
        forall|i: int|
            0 <= i < paths.len() ==> p(path::within(dir, #[trigger] paths[i])) == q(paths[i]),
    ensures
        order::picked(mode::all_within(dir, paths), p) == mode::all_within(
            dir,
            order::picked(paths, q),
        ),
    decreases paths.len(),
{
    let all = mode::all_within(dir, paths);
    if paths.len() > 0 {
        let shorter = paths.drop_last();
        assert forall|i: int| 0 <= i < shorter.len() implies p(
            path::within(dir, #[trigger] shorter[i]),
        ) == q(shorter[i]) by {
            assert(shorter[i] == paths[i]);
        }
        lemma_picked_in(dir, shorter, p, q);
        assert(all.drop_last() =~= mode::all_within(dir, shorter));
        assert(p(path::within(dir, paths[paths.len() - 1])) == q(paths[paths.len() - 1]));
    }
    assert(order::picked(all, p) =~= mode::all_within(dir, order::picked(paths, q)));
}

/// Whether a directory can hold a tree: it has a name, with no glob operator in it.
pub open spec fn plain(dir: Seq<char>) -> bool {
    dir.len() > 0 && !glob::has_operator(dir)
}

proof fn lemma_schema_in(dir: Seq<char>, s: Seq<char>)
    requires
        dir.len() > 0,
        moved::named(s),
    ensures
        path::is_schema(path::within(dir, s)) == schema_in()(s),
{
    moved::lemma_parts_in(dir, s);
    let all = path::components(path::within(dir, s));
    assert(all.last() == moved::parts_in(s).last());
}

/// Whether the paths name things inside a tree.
pub open spec fn all_inside(paths: Seq<Seq<char>>) -> bool {
    forall|i: int|
        0 <= i < paths.len() ==> moved::named(#[trigger] paths[i]) && inside(paths[i])
}

proof fn lemma_picked_inside(paths: Seq<Seq<char>>, q: spec_fn(Seq<char>) -> bool)
    requires
        all_inside(paths),
    ensures
        all_inside(order::picked(paths, q)),
{
    let found = order::picked(paths, q);
    order::lemma_picked(paths, q);
    assert forall|i: int| 0 <= i < found.len() implies moved::named(#[trigger] found[i]) && inside(
        found[i],
    ) by {
        assert(found.contains(found[i]));
        let j = choose|j: int| 0 <= j < paths.len() && paths[j] == found[i];
        assert(moved::named(paths[j]));
    }
}

/// What a source selects that is looked for in a directory which holds a tree.
proof fn lemma_selected_in(
    dir: Seq<char>,
    source: Seq<char>,
    found: WalkView,
    walk: WalkView,
)
    requires
        plain(dir),
        inside(source),
        walks_alike(dir, found, walk),
        files_inside(source, walk),
        discover::selected(SourceView { name: path::within(dir, source), walk: found }) is Ok,
    ensures
        discover::selected(
            SourceView { name: path::within(dir, source), walk: found },
        )->Ok_0.files == mode::all_within(dir, selected_in(source, walk)),
        all_inside(selected_in(source, walk)),
{
    let name = path::within(dir, source);
    let place = moved::place_in(source);
    moved::lemma_seen_in(dir, source, name);
    let candidates = discover::candidates(glob::root_of(name), found);
    let fit = order::picked(candidates, discover::fitting(name));
    match walk {
        WalkView::File => {
            let one = seq![place];
            moved::lemma_place_in(source);
            assert(inside(place)) by {
                if moved::parts_in(place).contains(".."@) {
                    let all = moved::parts_in(source);
                    let i = choose|i: int|
                        0 <= i < moved::parts_in(place).len() && moved::parts_in(place)[i]
                            == ".."@;
                    assert(all[i] == ".."@);
                }
            }
            if glob::has_operator(source) {
                order::lemma_picked(seq![glob::base(name)], discover::schema_named());
                order::lemma_picked(candidates, discover::fitting(name));
                assert(fit.contains(fit[0]));
                assert(candidates.contains(fit[0]));
                assert(seq![glob::base(name)].contains(fit[0]));
                assert(fit[0] == glob::base(name));
                assert(discover::fitting(name)(fit[0]));
                moved::lemma_base_in(dir, source);
            }
            assert(seq![glob::root_of(name)] =~= mode::all_within(dir, one));
            lemma_schema_in(dir, place);
            lemma_picked_in(dir, one, discover::schema_named(), schema_in());
            lemma_picked_inside(one, schema_in());
        },
        WalkView::Directory(files) => {
            assert forall|i: int| 0 <= i < files.len() implies discover::schema_named()(
                path::within(dir, #[trigger] files[i]),
            ) == schema_in()(files[i]) by {
                lemma_schema_in(dir, files[i]);
            }
            lemma_picked_in(dir, files, discover::schema_named(), schema_in());
            lemma_picked_inside(files, schema_in());
        },
        WalkView::Failed { path, message } => {},
    }
    if glob::has_operator(source) {
        let inner = order::picked(
            match walk {
                WalkView::File => seq![place],
                WalkView::Directory(files) => files,
                WalkView::Failed { path, message } => Seq::empty(),
            },
            schema_in(),
        );
        assert(candidates == mode::all_within(dir, inner));
        order::lemma_picked(candidates, discover::fitting(name));
        assert(fit.contains(fit[0]));
        let k = choose|k: int| 0 <= k < candidates.len() && candidates[k] == fit[0];
        assert(moved::named(inner[k]));
        moved::lemma_selects_in(dir, source, inner[k]);
        assert(discover::fitting(name)(fit[0]));
        assert forall|i: int| 0 <= i < inner.len() implies discover::fitting(name)(
            path::within(dir, #[trigger] inner[i]),
        ) == fitting_in(source)(inner[i]) by {
            assert(moved::named(inner[i]));
            moved::lemma_selects_in(dir, source, inner[i]);
        }
        lemma_picked_in(dir, inner, discover::fitting(name), fitting_in(source));
        lemma_picked_inside(inner, fitting_in(source));
    }
}

/// Whether all the sources stay inside the tree that they are looked for in.
pub open spec fn stay_inside(sources: Seq<Seq<char>>) -> bool {
    forall|i: int| 0 <= i < sources.len() ==> inside(#[trigger] sources[i])
}

proof fn lemma_selected_by_all_in(
    system: FileSystemView,
    dir: Seq<char>,
    tree: TreeView,
    sources: Seq<Seq<char>>,
)
    requires
        plain(dir),
        tree.well_formed(),
        system.holds(dir, tree),
        stay_inside(sources),
        discover::selected_by_all(
            mode::all_within(dir, sources).map_values(system.source()),
        ) is Ok,
    ensures
        discover::selected_by_all(
            mode::all_within(dir, sources).map_values(system.source()),
        )->Ok_0.files == mode::all_within(dir, order::gather(sources, selected_from(tree))),
        all_inside(order::gather(sources, selected_from(tree))),
    decreases sources.len(),
{
    let looked_at = mode::all_within(dir, sources).map_values(system.source());
    let found = order::gather(sources, selected_from(tree));
    if sources.len() > 0 {
        let shorter = sources.drop_last();
        let last = sources.last();
        assert(inside(sources[sources.len() - 1]));
        assert forall|i: int| 0 <= i < shorter.len() implies inside(#[trigger] shorter[i]) by {
            assert(shorter[i] == sources[i]);
        }
        assert(looked_at.drop_last() =~= mode::all_within(dir, shorter).map_values(
            system.source(),
        ));
        lemma_selected_by_all_in(system, dir, tree, shorter);
        let name = path::within(dir, last);
        assert(looked_at.last() == system.source()(name));
        assert(system.agrees(dir, tree, last));
        assert(files_inside(last, (tree.walks)(last)));
        lemma_selected_in(dir, last, (system.walks)(name), (tree.walks)(last));
        let before = order::gather(shorter, selected_from(tree));
        let more = selected_in(last, (tree.walks)(last));
        assert(mode::all_within(dir, before + more) =~= mode::all_within(dir, before)
            + mode::all_within(dir, more));
        assert forall|i: int| 0 <= i < found.len() implies moved::named(#[trigger] found[i])
            && inside(found[i]) by {
            if i < before.len() {
                assert(moved::named(before[i]));
            } else {
                assert(moved::named(more[i - before.len()]));
            }
        }
    } else {
        assert(mode::all_within(dir, found) =~= Seq::empty());
    }
}

/// The files of a tree that sources select, in order and each once.
pub open spec fn files_of(tree: TreeView, sources: Seq<Seq<char>>) -> Seq<Seq<char>> {
    moved::distinct_in(order::gather(sources, selected_from(tree)))
}

/// The files of a tree that sources select once more.
pub open spec fn repeats_of(tree: TreeView, sources: Seq<Seq<char>>) -> Seq<Seq<char>> {
    moved::repeats_in(order::gather(sources, selected_from(tree)))
}

/// Whether each of some paths is among others, though it may be written in another way.
spec fn among(some: Seq<Seq<char>>, others: Seq<Seq<char>>) -> bool {
    forall|i: int|
        0 <= i < some.len() ==> !path::absolute(#[trigger] some[i]) && moved::keys_in(
            others,
        ).contains(moved::parts_in(some[i]))
}

proof fn lemma_discovered_in(
    system: FileSystemView,
    dir: Seq<char>,
    tree: TreeView,
    sources: Seq<Seq<char>>,
)
    requires
        plain(dir),
        tree.well_formed(),
        system.holds(dir, tree),
        stay_inside(sources),
        discover::discovered(mode::all_within(dir, sources).map_values(system.source())) is Ok,
    ensures
        ({
            let found = discover::discovered(
                mode::all_within(dir, sources).map_values(system.source()),
            )->Ok_0;
            &&& found.files == mode::all_within(dir, files_of(tree, sources))
            &&& found.duplicate_files == mode::all_within(dir, repeats_of(tree, sources))
            &&& all_inside(files_of(tree, sources))
            &&& among(repeats_of(tree, sources), files_of(tree, sources))
        }),
{
    let all = order::gather(sources, selected_from(tree));
    let files = files_of(tree, sources);
    let repeats = repeats_of(tree, sources);
    lemma_selected_by_all_in(system, dir, tree, sources);
    assert forall|i: int| 0 <= i < all.len() implies !path::absolute(#[trigger] all[i]) by {
        assert(moved::named(all[i]));
    }
    moved::lemma_distinct_in(dir, all);
    moved::lemma_repeats_in(dir, all);
    assert forall|i: int| 0 <= i < files.len() implies moved::named(#[trigger] files[i]) && inside(
        files[i],
    ) by {
        assert(all.contains(files[i]));
        let j = choose|j: int| 0 <= j < all.len() && all[j] == files[i];
        assert(moved::named(all[j]));
    }
    assert forall|i: int| 0 <= i < repeats.len() implies !path::absolute(#[trigger] repeats[i])
        && moved::keys_in(files).contains(moved::parts_in(repeats[i])) by {
        assert(all.contains(repeats[i]));
        let j = choose|j: int| 0 <= j < all.len() && all[j] == repeats[i];
        assert(moved::named(all[j]));
        let f = |s: Seq<char>| moved::parts_in(s);
        assert(all.map_values(f)[j] == moved::parts_in(repeats[i]));
        assert(moved::keys_in(all).contains(moved::parts_in(repeats[i])));
    }
}

/// The set that files of a tree make up, as seen from `k` directories further in.
pub open spec fn read_in(tree: TreeView, files: Seq<Seq<char>>, k: int) -> SchemaSetView
    decreases files.len(),
{
    if files.len() == 0 {
        snapshot::empty_set()
    } else {
        let file = files.last();
        snapshot::with_file(
            read_in(tree, files.drop_last(), k),
            file,
            moved::name_in(file, k),
            (tree.texts)(file)->Ok_0,
        )
    }
}

/// The remark on a file of a tree that was selected once more.
pub open spec fn repeat_lint_in(k: int) -> spec_fn(Seq<char>) -> LintView {
    |file: Seq<char>|
        schema::error_lint_of(
            moved::name_in(file, k),
            "file was selected more than once"@,
            None,
        )
}

/// The set of schemas that sources select from a tree, if all the files can be read.
pub open spec fn set_of(tree: TreeView, sources: Seq<Seq<char>>) -> SchemaSetView {
    let files = files_of(tree, sources);
    let k = moved::shared_in(files);
    let set = read_in(tree, files, k);
    SchemaSetView {
        lints: set.lints + repeats_of(tree, sources).map_values(repeat_lint_in(k)),
        ..set
    }
}

proof fn lemma_with_file_alike(
    a: SchemaSetView,
    b: SchemaSetView,
    p: Seq<char>,
    q: Seq<char>,
    relative: Seq<char>,
    source: Seq<char>,
)
    requires
        sets_alike(a, b),
    ensures
        sets_alike(
            snapshot::with_file(a, p, relative, source),
            snapshot::with_file(b, q, relative, source),
        ),
{
    let x = snapshot::with_file(a, p, relative, source).files;
    let y = snapshot::with_file(b, q, relative, source).files;
    assert forall|i: int| 0 <= i < x.len() implies (#[trigger] x[i]).relative_path
        == y[i].relative_path && x[i].file_id == y[i].file_id by {
        if i < a.files.len() {
            assert(x[i] == a.files[i]);
        }
    }
}

proof fn lemma_read_in(
    system: FileSystemView,
    dir: Seq<char>,
    tree: TreeView,
    files: Seq<Seq<char>>,
    root: Seq<char>,
    k: int,
)
    requires
        dir.len() > 0,
        system.holds(dir, tree),
        all_inside(files),
        forall|i: int|
            0 <= i < files.len() ==> path::relative_to(
                path::within(dir, #[trigger] files[i]),
                root,
            ) == moved::name_in(files[i], k),
        snapshot::read_all(mode::all_within(dir, files).map_values(system.file()), root) is Ok,
    ensures
        sets_alike(
            snapshot::read_all(
                mode::all_within(dir, files).map_values(system.file()),
                root,
            )->Ok_0,
            read_in(tree, files, k),
        ),
    decreases files.len(),
{
    if files.len() > 0 {
        let all = mode::all_within(dir, files).map_values(system.file());
        let shorter = files.drop_last();
        let last = files.last();
        assert forall|i: int| 0 <= i < shorter.len() implies moved::named(#[trigger] shorter[i])
            && inside(shorter[i]) && path::relative_to(path::within(dir, shorter[i]), root)
            == moved::name_in(shorter[i], k) by {
            assert(moved::named(files[i]));
        }
        assert(all.drop_last() =~= mode::all_within(dir, shorter).map_values(system.file()));
        lemma_read_in(system, dir, tree, shorter, root, k);
        assert(moved::named(files[files.len() - 1]));
        assert(system.agrees(dir, tree, last));
        assert(all.last() == system.file()(path::within(dir, last)));
        lemma_with_file_alike(
            snapshot::read_all(all.drop_last(), root)->Ok_0,
            read_in(tree, shorter, k),
            path::within(dir, last),
            last,
            moved::name_in(last, k),
            (tree.texts)(last)->Ok_0,
        );
    }
}

/// What is read in a directory that holds a tree is what is read in the tree.
proof fn lemma_set_in(
    system: FileSystemView,
    dir: Seq<char>,
    tree: TreeView,
    sources: Seq<Seq<char>>,
    found: DiscoveredView,
)
    requires
        plain(dir),
        tree.well_formed(),
        system.holds(dir, tree),
        stay_inside(sources),
        discover::discovered(mode::all_within(dir, sources).map_values(system.source())) == Ok::<
            DiscoveredView,
            ErrorView,
        >(found),
        snapshot::sources_of(found.files.map_values(system.file()), found.duplicate_files) is Ok,
    ensures
        sets_alike(
            snapshot::sources_of(
                found.files.map_values(system.file()),
                found.duplicate_files,
            )->Ok_0,
            set_of(tree, sources),
        ),
{
    let files = files_of(tree, sources);
    let repeats = repeats_of(tree, sources);
    let k = moved::shared_in(files);
    lemma_discovered_in(system, dir, tree, sources);
    let moved_files = mode::all_within(dir, files);
    let texts = moved_files.map_values(system.file());
    assert(snapshot::paths_of(texts) =~= moved_files);
    let root = path::common_root(moved_files);
    assert forall|i: int| 0 <= i < files.len() implies path::relative_to(
        path::within(dir, #[trigger] files[i]),
        root,
    ) == moved::name_in(files[i], k) by {
        moved::lemma_name_in(dir, files, i, files[i]);
    }
    lemma_read_in(system, dir, tree, files, root, k);
    let f = |s: Seq<char>| moved::parts_in(s);
    assert forall|i: int| 0 <= i < repeats.len() implies snapshot::repeat_lint(root)(
        path::within(dir, #[trigger] repeats[i]),
    ) == repeat_lint_in(k)(repeats[i]) by {
        let j = choose|j: int|
            0 <= j < files.len() && files.map_values(f)[j] == moved::parts_in(repeats[i]);
        moved::lemma_name_in(dir, files, j, repeats[i]);
    }
    assert(found.duplicate_files.map_values(snapshot::repeat_lint(root))
        =~= repeats.map_values(repeat_lint_in(k)));
}

/// A check of two trees: the file system that they lie in, the directories that they were
/// put into, and what became of compiling them.
pub struct RunView {
    pub system: FileSystemView,
    pub before: Seq<char>,
    pub after: Seq<char>,
    pub before_outcome: CommandOutcomeView,
    pub after_outcome: CommandOutcomeView,
}

impl RunView {
    /// Whether the two directories hold the two trees.
    pub open spec fn is_of(self, before: TreeView, after: TreeView) -> bool {
        &&& plain(self.before)
        &&& plain(self.after)
        &&& self.system.holds(self.before, before)
        &&& self.system.holds(self.after, after)
    }

    /// The check, once the trees lie in their directories.
    pub open spec fn exported(self, config: ConfigView) -> CheckStepView {
        check::step_after(
            check::start_of(config),
            CheckEventView::Exported { before: self.before, after: self.after },
        )
    }

    /// The check, once both sides were found and read.
    pub open spec fn compared(self, config: ConfigView) -> CheckStepView {
        let before_found = self.system.looked_up(self.exported(config));
        let after_found = self.system.looked_up(before_found);
        self.system.looked_up(self.system.looked_up(after_found))
    }

    /// How the check ends.
    pub open spec fn end(self, config: ConfigView) -> CheckStepView {
        check::step_after(
            check::step_after(self.compared(config), CheckEventView::Ran(self.before_outcome)),
            CheckEventView::Ran(self.after_outcome),
        )
    }
}

/// The report on two trees.
pub open spec fn report_of(
    sources: Seq<Seq<char>>,
    before: TreeView,
    after: TreeView,
) -> ReportView {
    compare::comparison(set_of(before, sources), set_of(after, sources))
}

/// A failure stays one, whatever is looked up.
proof fn lemma_failure_stays(system: FileSystemView, step: CheckStepView)
    ensures
        step is Failed ==> system.looked_up(step) is Failed,
{
}

/// A failure stays one, whatever the compiler says.
proof fn lemma_failure_is_the_end(
    step: CheckStepView,
    first: CheckEventView,
    second: CheckEventView,
)
    ensures
        step is Failed ==> check::step_after(check::step_after(step, first), second) is Failed,
{
}

proof fn lemma_before_found(system: FileSystemView, resolved: ResolvedView)
    ensures
        ({
            let next = system.looked_up(CheckStepView::WalkBefore { resolved });
            match discover::discovered(resolved.before.map_values(system.source())) {
                Ok(before) => next == (CheckStepView::WalkAfter { resolved, before }),
                Err(error) => next is Failed,
            }
        }),
{
}

proof fn lemma_after_found(
    system: FileSystemView,
    resolved: ResolvedView,
    before: DiscoveredView,
)
    ensures
        ({
            let next = system.looked_up(CheckStepView::WalkAfter { resolved, before });
            match discover::discovered(resolved.after.map_values(system.source())) {
                Ok(after) => next == (CheckStepView::ReadBefore { resolved, before, after }),
                Err(error) => next is Failed,
            }
        }),
{
}

proof fn lemma_before_read(
    system: FileSystemView,
    resolved: ResolvedView,
    before: DiscoveredView,
    after: DiscoveredView,
)
    ensures
        ({
            let next = system.looked_up(CheckStepView::ReadBefore { resolved, before, after });
            match snapshot::sources_of(
                before.files.map_values(system.file()),
                before.duplicate_files,
            ) {
                Ok(before_set) => next == (CheckStepView::ReadAfter {
                    resolved,
                    before,
                    after,
                    before_set,
                }),
                Err(error) => next is Failed,
            }
        }),
{
}

proof fn lemma_after_read(
    system: FileSystemView,
    resolved: ResolvedView,
    before: DiscoveredView,
    after: DiscoveredView,
    before_set: SchemaSetView,
)
    ensures
        ({
            let next = system.looked_up(
                CheckStepView::ReadAfter { resolved, before, after, before_set },
            );
            match snapshot::sources_of(
                after.files.map_values(system.file()),
                after.duplicate_files,
            ) {
                Ok(after_set) => next == check::reported(
                    resolved,
                    before,
                    after,
                    compare::comparison(before_set, after_set),
                ),
                Err(error) => next is Failed,
            }
        }),
{
}

proof fn lemma_end(
    resolved: ResolvedView,
    before: DiscoveredView,
    after: DiscoveredView,
    report: ReportView,
    first: CheckEventView,
    second: CheckEventView,
)
    ensures
        ({
            let step = check::reported(resolved, before, after, report);
            check::step_after(check::step_after(step, first), second) matches
                CheckStepView::Finished(end) ==> end == report
        }),
{
}

/// What a check comes to that looks up in a file system what it asks for.
proof fn lemma_looked_up(
    system: FileSystemView,
    resolved: ResolvedView,
    first: CheckEventView,
    second: CheckEventView,
)
    ensures
        ({
            let s1 = system.looked_up(CheckStepView::WalkBefore { resolved });
            let s4 = system.looked_up(system.looked_up(system.looked_up(s1)));
            let before = discover::discovered(resolved.before.map_values(system.source()));
            let after = discover::discovered(resolved.after.map_values(system.source()));
            let before_set = snapshot::sources_of(
                before->Ok_0.files.map_values(system.file()),
                before->Ok_0.duplicate_files,
            );
            let after_set = snapshot::sources_of(
                after->Ok_0.files.map_values(system.file()),
                after->Ok_0.duplicate_files,
            );
            check::step_after(check::step_after(s4, first), second) matches
                CheckStepView::Finished(report) ==> {
                &&& before is Ok
                &&& after is Ok
                &&& before_set is Ok
                &&& after_set is Ok
                &&& report == compare::comparison(before_set->Ok_0, after_set->Ok_0)
            }
        }),
{
    let s0 = CheckStepView::WalkBefore { resolved };
    let s1 = system.looked_up(s0);
    let s2 = system.looked_up(s1);
    let s3 = system.looked_up(s2);
    let s4 = system.looked_up(s3);
    lemma_before_found(system, resolved);
    lemma_failure_stays(system, s1);
    lemma_failure_stays(system, s2);
    lemma_failure_stays(system, s3);
    lemma_failure_is_the_end(s4, first, second);
    if s1 !is Failed {
        let before = s1->WalkAfter_before;
        lemma_after_found(system, resolved, before);
        if s2 !is Failed {
            let after = s2->ReadBefore_after;
            lemma_before_read(system, resolved, before, after);
            if s3 !is Failed {
                let before_set = s3->ReadAfter_before_set;
                lemma_after_read(system, resolved, before, after, before_set);
                if s4 !is Failed {
                    let after_set = snapshot::sources_of(
                        after.files.map_values(system.file()),
                        after.duplicate_files,
                    )->Ok_0;
                    lemma_end(
                        resolved,
                        before,
                        after,
                        compare::comparison(before_set, after_set),
                        first,
                        second,
                    );
                }
            }
        }
    }
}

/// A check between two references is decided by the two trees: if it comes to a report, it
/// is the report on them, wherever they were put, and whatever else lies in the file system.
pub proof fn law_report_is_of_the_trees(
    config: ConfigView,
    run: RunView,
    before: TreeView,
    after: TreeView,
)
    requires
        mode::mode_of(config) is Ok,
        config.before_ref is Some,
        stay_inside(config.paths),
        before.well_formed(),
        after.well_formed(),
        run.is_of(before, after),
    ensures
        run.end(config) matches CheckStepView::Finished(report) ==> report == report_of(
            config.paths,
            before,
            after,
        ),
{
    let system = run.system;
    let sources = config.paths;
    let resolved = mode::resolved_in(run.before, run.after, config.paths, config.import_paths);
    check::law_references_leave_the_worktree_alone(config);
    assert(run.exported(config) == CheckStepView::WalkBefore { resolved });
    lemma_looked_up(
        system,
        resolved,
        CheckEventView::Ran(run.before_outcome),
        CheckEventView::Ran(run.after_outcome),
    );
    if run.end(config) is Finished {
        let before_found = discover::discovered(
            mode::all_within(run.before, sources).map_values(system.source()),
        )->Ok_0;
        let after_found = discover::discovered(
            mode::all_within(run.after, sources).map_values(system.source()),
        )->Ok_0;
        lemma_set_in(system, run.before, before, sources, before_found);
        lemma_set_in(system, run.after, after, sources, after_found);
        law_comparison_ignores_places(
            snapshot::sources_of(
                before_found.files.map_values(system.file()),
                before_found.duplicate_files,
            )->Ok_0,
            snapshot::sources_of(
                after_found.files.map_values(system.file()),
                after_found.duplicate_files,
            )->Ok_0,
            set_of(before, sources),
            set_of(after, sources),
        );
    }
}

/// The worktree does not affect a check between two references: two checks of the same trees
/// that come to a report come to the same one, though everything else in the file systems,
/// and the directories that the trees were put into, may differ.
pub proof fn law_worktree_does_not_affect_the_report(
    config: ConfigView,
    first: RunView,
    second: RunView,
    before: TreeView,
    after: TreeView,
)
    requires
        mode::mode_of(config) is Ok,
        config.before_ref is Some,
        stay_inside(config.paths),
        before.well_formed(),
        after.well_formed(),
        first.is_of(before, after),
        second.is_of(before, after),
        first.end(config) is Finished,
        second.end(config) is Finished,
    ensures
        first.end(config) == second.end(config),
{
    law_report_is_of_the_trees(config, first, before, after);
    law_report_is_of_the_trees(config, second, before, after);
}

} // verus!
