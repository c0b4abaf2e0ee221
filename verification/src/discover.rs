//! The schema files that sources select.
//!
//! A source is a file, a directory or a glob pattern. What lies at the place where a
//! source is looked for comes from outside; which of it the source selects is decided
//! here.

use crate::glob;
use crate::glob::{glob_selects, has_glob_meta};
use crate::listing;
use crate::listing::sort_paths;
use crate::order;
use crate::path;
use crate::path::{is_schema_file, parents_of};
use crate::schema;
use crate::schema::{Error, ErrorView};
use crate::text;
use crate::text::{chars_of, joined};
use vstd::prelude::*;

verus! {

/// What lies at a place in the file system.
#[derive(Debug, Clone, PartialEq, Eq)]
pub enum Walk {
    /// A file.
    File,
    /// A directory with the files under it. Where nothing lies, there are none.
    Directory(Vec<String>),
    /// Looking at `path` went wrong.
    Failed { path: String, message: String },
}

/// A `Walk` as texts.
pub enum WalkView {
    File,
    Directory(Seq<Seq<char>>),
    Failed { path: Seq<char>, message: Seq<char> },
}

impl View for Walk {
    type V = WalkView;

    open spec fn view(&self) -> WalkView {
        match *self {
            Walk::File => WalkView::File,
            Walk::Directory(files) => WalkView::Directory(text::views(files@)),
            Walk::Failed { path, message } => WalkView::Failed { path: path@, message: message@ },
        }
    }
}

/// A source with what lies where it is looked for.
#[derive(Debug, Clone, PartialEq, Eq)]
pub struct Source {
    pub name: String,
    pub walk: Walk,
}

/// A `Source` as texts.
pub struct SourceView {
    pub name: Seq<char>,
    pub walk: WalkView,
}

impl View for Source {
    type V = SourceView;

    open spec fn view(&self) -> SourceView {
        SourceView { name: self.name@, walk: self.walk@ }
    }
}

/// The schema files that sources select.
#[derive(Debug, Clone, PartialEq, Eq)]
pub struct DiscoveredSources {
    /// The files in order, each once.
    pub files: Vec<String>,
    /// The directories that the sources lie in, in order, each once.
    pub import_roots: Vec<String>,
    /// The files that were selected once more.
    pub duplicate_files: Vec<String>,
}

/// `DiscoveredSources` as texts.
#[verifier::ext_equal]
pub struct DiscoveredView {
    pub files: Seq<Seq<char>>,
    pub import_roots: Seq<Seq<char>>,
    pub duplicate_files: Seq<Seq<char>>,
}

impl View for DiscoveredSources {
    type V = DiscoveredView;

    open spec fn view(&self) -> DiscoveredView {
        DiscoveredView {
            files: text::views(self.files@),
            import_roots: text::views(self.import_roots@),
            duplicate_files: text::views(self.duplicate_files@),
        }
    }
}

/// Files as they are selected, and the directories to import from.
#[verifier::ext_equal]
pub struct SelectionView {
    pub files: Seq<Seq<char>>,
    pub roots: Seq<Seq<char>>,
}

/// Whether a path names a schema file.
pub open spec fn schema_named() -> spec_fn(Seq<char>) -> bool {
    |file: Seq<char>| path::is_schema(file)
}

/// Whether a pattern selects a file.
pub open spec fn fitting(pattern: Seq<char>) -> spec_fn(Seq<char>) -> bool {
    |file: Seq<char>| glob::selects(pattern, file)
}

/// The schema files that lie at a place.
pub open spec fn candidates(root: Seq<char>, walk: WalkView) -> Seq<Seq<char>> {
    match walk {
        WalkView::File => order::picked(seq![root], schema_named()),
        WalkView::Directory(files) => order::picked(files, schema_named()),
        WalkView::Failed { path, message } => Seq::empty(),
    }
}

/// What one source selects. A pattern has to select something.
pub open spec fn selected(source: SourceView) -> Result<SelectionView, ErrorView> {
    let found = candidates(glob::root_of(source.name), source.walk);
    let fit = order::picked(found, fitting(source.name));
    match source.walk {
        WalkView::Failed { path, message } => Err(ErrorView::Io { path, source: message }),
        _ => if !glob::has_operator(source.name) {
            Ok(
                SelectionView {
                    files: found,
                    roots: if source.walk is File {
                        path::parents(found)
                    } else {
                        seq![source.name]
                    },
                },
            )
        } else if fit.len() == 0 {
            Err(ErrorView::NoSchemas(source.name))
        } else {
            Ok(SelectionView { files: fit, roots: path::parents(fit) })
        },
    }
}

/// What sources select one after the other. The first failure makes it fail.
pub open spec fn selected_by_all(sources: Seq<SourceView>) -> Result<SelectionView, ErrorView>
    decreases sources.len(),
{
    if sources.len() == 0 {
        Ok(SelectionView { files: Seq::empty(), roots: Seq::empty() })
    } else {
        match selected_by_all(sources.drop_last()) {
            Err(error) => Err(error),
            Ok(before) => match selected(sources.last()) {
                Err(error) => Err(error),
                Ok(more) => Ok(
                    SelectionView {
                        files: before.files + more.files,
                        roots: before.roots + more.roots,
                    },
                ),
            },
        }
    }
}

/// The names of sources.
pub open spec fn names_of(sources: Seq<SourceView>) -> Seq<Seq<char>> {
    sources.map_values(|source: SourceView| source.name)
}

/// The schema files that sources select. There has to be one.
pub open spec fn discovered(sources: Seq<SourceView>) -> Result<DiscoveredView, ErrorView> {
    match selected_by_all(sources) {
        Err(error) => Err(error),
        Ok(selection) => if selection.files.len() == 0 {
            Err(ErrorView::NoSchemas(text::join(names_of(sources), ", "@)))
        } else {
            Ok(
                DiscoveredView {
                    files: listing::distinct(selection.files),
                    import_roots: listing::distinct(selection.roots),
                    duplicate_files: listing::repeats(selection.files),
                },
            )
        },
    }
}

/// The schema files among those that lie at a place.
fn schema_files(files: &[String]) -> (found: Vec<String>)
    ensures
        text::views(found@) == order::picked(text::views(files@), schema_named()),
{
    let ghost all = text::views(files@);
    let mut found: Vec<String> = Vec::new();
    let mut i: usize = 0;
    assert(text::views(found@) =~= order::picked(all.take(0), schema_named()));
    while i < files.len()
        invariant
            i <= files@.len(),
            all == text::views(files@),
            text::views(found@) == order::picked(all.take(i as int), schema_named()),
        decreases files@.len() - i,
    {
        let chars = chars_of(files[i].as_str());
        proof {
            order::lemma_picked_step(all, i as int, schema_named());
        }
        if is_schema_file(chars.as_slice()) {
            let file = files[i].clone();
            proof {
                schema::lemma_views_push(found@, file);
            }
            found.push(file);
        }
        i = i + 1;
    }
    assert(all.take(i as int) =~= all);
    found
}

/// The files that a pattern selects.
fn fitting_files(pattern: &[char], files: &[String]) -> (found: Vec<String>)
    ensures
        text::views(found@) == order::picked(text::views(files@), fitting(pattern@)),
{
    let ghost all = text::views(files@);
    let mut found: Vec<String> = Vec::new();
    let mut i: usize = 0;
    assert(text::views(found@) =~= order::picked(all.take(0), fitting(pattern@)));
    while i < files.len()
        invariant
            i <= files@.len(),
            all == text::views(files@),
            text::views(found@) == order::picked(all.take(i as int), fitting(pattern@)),
        decreases files@.len() - i,
    {
        let chars = chars_of(files[i].as_str());
        proof {
            order::lemma_picked_step(all, i as int, fitting(pattern@));
        }
        if glob_selects(pattern, chars.as_slice()) {
            let file = files[i].clone();
            proof {
                schema::lemma_views_push(found@, file);
            }
            found.push(file);
        }
        i = i + 1;
    }
    assert(all.take(i as int) =~= all);
    found
}

/// Appends files or directories to a list.
fn add_all(list: &mut Vec<String>, more: &[String])
    ensures
        text::views(final(list)@) == text::views(old(list)@) + text::views(more@),
{
    let ghost before = text::views(list@);
    let ghost all = text::views(more@);
    let mut i: usize = 0;
    assert(before + all.take(0) =~= before);
    while i < more.len()
        invariant
            i <= more@.len(),
            all == text::views(more@),
            text::views(list@) == before + all.take(i as int),
        decreases more@.len() - i,
    {
        let item = more[i].clone();
        proof {
            schema::lemma_views_push(list@, item);
            assert(all.take(i + 1) =~= all.take(i as int).push(item@));
        }
        list.push(item);
        assert(text::views(list@) =~= before + all.take(i + 1));
        i = i + 1;
    }
    assert(all.take(i as int) =~= all);
}

/// The schema files that lie where a path or a pattern is looked for.
fn find_candidates(root: String, walk: &Walk) -> (found: Vec<String>)
    ensures
        text::views(found@) == candidates(root@, walk@),
{
    match walk {
        Walk::File => {
            let mut one: Vec<String> = Vec::new();
            proof {
                schema::lemma_views_push(one@, root);
                assert(text::views(one@) =~= Seq::empty());
            }
            one.push(root);
            assert(text::views(one@) =~= seq![root@]);
            schema_files(one.as_slice())
        },
        Walk::Directory(files) => schema_files(files.as_slice()),
        Walk::Failed { path, message } => {
            let none: Vec<String> = Vec::new();
            assert(text::views(none@) =~= Seq::empty());
            none
        },
    }
}

/// Adds what a path selects.
fn discover_path(source: &Source, files: &mut Vec<String>, roots: &mut Vec<String>)
    requires
        source@.walk !is Failed,
        !glob::has_operator(source@.name),
    ensures
        selected(source@) matches Ok(selection) && text::views(final(files)@) == text::views(
            old(files)@,
        ) + selection.files && text::views(final(roots)@) == text::views(old(roots)@)
            + selection.roots,
{
    let found = find_candidates(source.name.clone(), &source.walk);
    add_all(files, found.as_slice());
    match &source.walk {
        Walk::File => {
            add_all(roots, parents_of(found.as_slice()).as_slice());
        },
        _ => {
            let root = source.name.clone();
            proof {
                schema::lemma_views_push(roots@, root);
            }
            roots.push(root);
            assert(text::views(roots@) =~= text::views(old(roots)@) + seq![root@]);
        },
    }
}

/// Adds what a pattern selects, and says whether it selects something.
fn discover_glob(source: &Source, files: &mut Vec<String>, roots: &mut Vec<String>) -> (matched:
    bool)
    requires
        source@.walk !is Failed,
        glob::has_operator(source@.name),
    ensures
        match selected(source@) {
            Ok(selection) => matched && text::views(final(files)@) == text::views(old(files)@)
                + selection.files && text::views(final(roots)@) == text::views(old(roots)@)
                + selection.roots,
            Err(error) => !matched && error == ErrorView::NoSchemas(source@.name),
        },
{
    let found = find_candidates(glob::materialization_root(source.name.as_str()), &source.walk);
    let fit = fitting_files(chars_of(source.name.as_str()).as_slice(), found.as_slice());
    assert(fit@.len() == text::views(fit@).len());
    add_all(files, fit.as_slice());
    add_all(roots, parents_of(fit.as_slice()).as_slice());
    fit.len() > 0
}

/// The names of sources.
fn source_names(sources: &[Source]) -> (names: Vec<String>)
    ensures
        text::views(names@) == names_of(text::views(sources@)),
{
    let ghost all = names_of(text::views(sources@));
    let mut names: Vec<String> = Vec::new();
    let mut i: usize = 0;
    assert(text::views(names@) =~= all.take(0));
    while i < sources.len()
        invariant
            i <= sources@.len(),
            all == names_of(text::views(sources@)),
            text::views(names@) == all.take(i as int),
        decreases sources@.len() - i,
    {
        let name = sources[i].name.clone();
        proof {
            schema::lemma_views_push(names@, name);
            assert(all.take(i + 1) =~= all.take(i as int).push(name@));
        }
        names.push(name);
        i = i + 1;
    }
    assert(all.take(i as int) =~= all);
    names
}

/// A failure among the first sources is the failure of all of them.
proof fn lemma_failure_stays(sources: Seq<SourceView>, i: int)
    requires
        0 <= i <= sources.len(),
        selected_by_all(sources.take(i)) is Err,
    ensures
        selected_by_all(sources) == selected_by_all(sources.take(i)),
    decreases sources.len(),
{
    if i < sources.len() {
        assert(sources.drop_last().take(i) =~= sources.take(i));
        lemma_failure_stays(sources.drop_last(), i);
    } else {
        assert(sources.take(i) =~= sources);
    }
}

/// The schema files that sources select.
pub fn discover_capnp_sources(sources: &[Source]) -> (found: Result<DiscoveredSources, Error>)
    ensures
        schema::outcome(found) == discovered(text::views(sources@)),
{
    let ghost all = text::views(sources@);
    let mut files: Vec<String> = Vec::new();
    let mut roots: Vec<String> = Vec::new();
    let mut i: usize = 0;
    proof {
        assert(text::views(files@) =~= Seq::empty());
        assert(text::views(roots@) =~= Seq::empty());
        assert(all.take(0) =~= Seq::empty());
    }
    while i < sources.len()
        invariant
            i <= sources@.len(),
            all == text::views(sources@),
            selected_by_all(all.take(i as int)) == Ok::<SelectionView, ErrorView>(
                SelectionView { files: text::views(files@), roots: text::views(roots@) },
            ),
        decreases sources@.len() - i,
    {
        let source = &sources[i];
        proof {
            assert(all.take(i + 1).drop_last() =~= all.take(i as int));
            assert(all.take(i + 1).last() == source@);
            if selected(source@) is Err {
                lemma_failure_stays(all, i + 1);
            }
        }
        if let Walk::Failed { path, message } = &source.walk {
            return Err(Error::Io { path: path.clone(), source: message.clone() });
        }
        if has_glob_meta(chars_of(source.name.as_str()).as_slice()) {
            let matched: bool = discover_glob(source, &mut files, &mut roots);
            if !matched {
                return Err(Error::NoSchemas(source.name.clone()));
            }
        } else {
            discover_path(source, &mut files, &mut roots);
        }
        i = i + 1;
    }
    proof {
        assert(all.take(i as int) =~= all);
        assert(files@.len() == text::views(files@).len());
    }
    if files.len() == 0 {
        return Err(Error::NoSchemas(joined(source_names(sources).as_slice(), ", ")));
    }
    let (files, duplicate_files) = sort_paths(files.as_slice());
    let (import_roots, _) = sort_paths(roots.as_slice());
    let found = DiscoveredSources { files, import_roots, duplicate_files };
    Ok(found)
}

/// The schema files that a single source selects.
pub fn discover_capnp_files(root: Source) -> (files: Result<Vec<String>, Error>)
    ensures
        match files {
            Ok(files) => discovered(seq![root@]) matches Ok(found) && text::views(files@)
                == found.files,
            Err(error) => discovered(seq![root@]) == Err::<DiscoveredView, ErrorView>(error@),
        },
{
    let mut sources: Vec<Source> = Vec::new();
    sources.push(root);
    assert(text::views(sources@) =~= seq![root@]);
    match discover_capnp_sources(sources.as_slice()) {
        Ok(found) => Ok(found.files),
        Err(error) => Err(error),
    }
}

/// Whether a source can select a file: it is the file, or the file lies under it.
pub open spec fn offers(source: SourceView, file: Seq<char>) -> bool {
    match source.walk {
        WalkView::File => file == glob::root_of(source.name),
        WalkView::Directory(files) => files.contains(file),
        WalkView::Failed { path, message } => false,
    }
}

proof fn lemma_selected_files(source: SourceView, file: Seq<char>)
    requires
        selected(source) is Ok,
        selected(source)->Ok_0.files.contains(file),
    ensures
        path::is_schema(file),
        offers(source, file),
        glob::has_operator(source.name) ==> glob::selects(source.name, file),
{
    let root = glob::root_of(source.name);
    let found = candidates(root, source.walk);
    order::lemma_picked(found, fitting(source.name));
    order::lemma_picked(seq![root], schema_named());
    if let WalkView::Directory(files) = source.walk {
        order::lemma_picked(files, schema_named());
    }
    assert(found.contains(file));
    assert(schema_named()(file));
    if glob::has_operator(source.name) {
        assert(fitting(source.name)(file));
    }
}

proof fn lemma_selected_by_all(sources: Seq<SourceView>, file: Seq<char>)
    requires
        selected_by_all(sources) is Ok,
        selected_by_all(sources)->Ok_0.files.contains(file),
    ensures
        path::is_schema(file),
        exists|i: int| 0 <= i < sources.len() && #[trigger] offers(sources[i], file),
    decreases sources.len(),
{
    if sources.len() > 0 {
        let before = selected_by_all(sources.drop_last())->Ok_0.files;
        let more = selected(sources.last())->Ok_0.files;
        let at = choose|at: int| 0 <= at < (before + more).len() && (before + more)[at] == file;
        if at < before.len() {
            assert(before[at] == file);
            lemma_selected_by_all(sources.drop_last(), file);
            let i = choose|i: int|
                0 <= i < sources.drop_last().len() && #[trigger] offers(
                    sources.drop_last()[i],
                    file,
                );
            assert(offers(sources[i], file));
        } else {
            assert(more[at - before.len()] == file);
            lemma_selected_files(sources.last(), file);
            assert(offers(sources[sources.len() - 1], file));
        }
    }
}

/// What sources select: at least one file, all of them schema files that some source
/// offers, in strictly ascending order, and nothing is set apart as repeated exactly if
/// no two selected files are the same.
pub proof fn law_discovered_files(sources: Seq<SourceView>)
    requires
        discovered(sources) is Ok,
    ensures
        discovered(sources)->Ok_0.files.len() > 0,
        forall|i: int|
            0 <= i < discovered(sources)->Ok_0.files.len() ==> path::is_schema(
                #[trigger] discovered(sources)->Ok_0.files[i],
            ) && exists|k: int|
                0 <= k < sources.len() && #[trigger] offers(
                    sources[k],
                    discovered(sources)->Ok_0.files[i],
                ),
        order::in_order(
            discovered(sources)->Ok_0.files.map_values(|s: Seq<char>| path::components(s)),
            listing::path_order(),
        ),
        discovered(sources)->Ok_0.duplicate_files.len() == 0 <==> selected_by_all(
            sources,
        )->Ok_0.files.map_values(|s: Seq<char>| path::components(s)).no_duplicates(),
{
    let files = selected_by_all(sources)->Ok_0.files;
    let found = discovered(sources)->Ok_0;
    listing::law_distinct_paths(files);
    listing::law_repeats_are_duplicates(files);
    assert forall|i: int| 0 <= i < found.files.len() implies path::is_schema(
        #[trigger] found.files[i],
    ) && exists|k: int| 0 <= k < sources.len() && #[trigger] offers(sources[k], found.files[i]) by {
        assert(files.contains(listing::distinct(files)[i]));
        lemma_selected_by_all(sources, found.files[i]);
    }
    let f = |s: Seq<char>| path::components(s);
    assert(files.map_values(f)[0] == path::components(files[0]));
    assert(listing::keys(files).contains(path::components(files[0])));
    assert(listing::keys(found.files).contains(path::components(files[0])));
    assert(found.files.map_values(f).contains(path::components(files[0])));
}

spec fn files_of() -> spec_fn(SourceView) -> Seq<Seq<char>> {
    |source: SourceView| selected(source)->Ok_0.files
}

spec fn roots_of() -> spec_fn(SourceView) -> Seq<Seq<char>> {
    |source: SourceView| selected(source)->Ok_0.roots
}

/// What sources select together is what each of them selects.
proof fn lemma_selected_gathered(sources: Seq<SourceView>)
    ensures
        selected_by_all(sources) is Ok <==> forall|i: int|
            0 <= i < sources.len() ==> selected(#[trigger] sources[i]) is Ok,
        selected_by_all(sources) matches Ok(selection) ==> selection.files == order::gather(
            sources,
            files_of(),
        ) && selection.roots == order::gather(sources, roots_of()),
    decreases sources.len(),
{
    if sources.len() > 0 {
        let shorter = sources.drop_last();
        lemma_selected_gathered(shorter);
        assert(sources[sources.len() - 1] == sources.last());
        assert forall|i: int| 0 <= i < shorter.len() implies shorter[i] == #[trigger] sources[i] by {}
        if selected_by_all(sources) is Ok {
            assert forall|i: int| 0 <= i < sources.len() implies selected(#[trigger] sources[i])
                is Ok by {
                if i < shorter.len() {
                    assert(selected(shorter[i]) is Ok);
                }
            }
        }
    }
}

/// The order of the sources does not matter: the same files and import roots are found, and
/// the same files are set apart as repeated. They are also written the same, if no path is
/// written in two ways.
pub proof fn law_order_of_sources_does_not_matter(first: Seq<SourceView>, second: Seq<SourceView>)
    requires
        first.to_multiset() == second.to_multiset(),
        discovered(first) is Ok,
    ensures
        discovered(second) is Ok,
        listing::all_parts(discovered(first)->Ok_0.files) == listing::all_parts(
            discovered(second)->Ok_0.files,
        ),
        listing::all_parts(discovered(first)->Ok_0.import_roots) == listing::all_parts(
            discovered(second)->Ok_0.import_roots,
        ),
        listing::all_parts(discovered(first)->Ok_0.duplicate_files) == listing::all_parts(
            discovered(second)->Ok_0.duplicate_files,
        ),
        listing::spelled_once(selected_by_all(first)->Ok_0.files) && listing::spelled_once(
            selected_by_all(first)->Ok_0.roots,
        ) ==> discovered(second) == discovered(first),
{
    broadcast use vstd::seq_lib::group_to_multiset_ensures;

    lemma_selected_gathered(first);
    lemma_selected_gathered(second);
    assert forall|i: int| 0 <= i < second.len() implies selected(#[trigger] second[i]) is Ok by {
        assert(second.contains(second[i]));
        assert(second.to_multiset().count(second[i]) > 0);
        assert(first.to_multiset().count(second[i]) > 0);
        let k = choose|k: int| 0 <= k < first.len() && first[k] == second[i];
        assert(selected(first[k]) is Ok);
    }
    let a = selected_by_all(first)->Ok_0;
    let b = selected_by_all(second)->Ok_0;
    order::lemma_gather_reordered(first, second, files_of());
    order::lemma_gather_reordered(first, second, roots_of());
    listing::law_order_does_not_matter(a.files, b.files);
    listing::law_order_does_not_matter(a.roots, b.roots);
    assert(a.files.len() == a.files.to_multiset().len());
    assert(b.files.len() == b.files.to_multiset().len());
}

} // verus!
