//! The ways to choose the two schema sets of a check.

use crate::config;
use crate::config::{usage_error, CheckConfig, ConfigView};
use crate::path;
use crate::path::join_path;
use crate::schema;
use crate::schema::{Error, ErrorView};
use crate::text;
use crate::text::{chars_of, string_of};
use vstd::prelude::*;

verus! {

/// The sources and import paths of both sides.
#[derive(Debug, Clone, PartialEq, Eq)]
pub struct ResolvedCheck {
    pub before: Vec<String>,
    pub after: Vec<String>,
    pub before_import_paths: Vec<String>,
    pub after_import_paths: Vec<String>,
}

/// A `ResolvedCheck` as texts.
#[verifier::ext_equal]
pub struct ResolvedView {
    pub before: Seq<Seq<char>>,
    pub after: Seq<Seq<char>>,
    pub before_import_paths: Seq<Seq<char>>,
    pub after_import_paths: Seq<Seq<char>>,
}

impl View for ResolvedCheck {
    type V = ResolvedView;

    open spec fn view(&self) -> ResolvedView {
        ResolvedView {
            before: text::views(self.before@),
            after: text::views(self.after@),
            before_import_paths: text::views(self.before_import_paths@),
            after_import_paths: text::views(self.after_import_paths@),
        }
    }
}

/// Where the two schema sets come from.
#[derive(Debug, Clone, PartialEq, Eq)]
pub enum CheckMode {
    /// Both lie in the file system.
    Filesystem(ResolvedCheck),
    /// Both are committed.
    GitRefs {
        before_ref: String,
        after_ref: String,
        paths: Vec<String>,
        import_paths: Vec<String>,
    },
    /// The earlier one is committed, the later one is the worktree.
    CompareRef { compare_ref: String, paths: Vec<String>, import_paths: Vec<String> },
}

/// A `CheckMode` as texts.
#[verifier::ext_equal]
pub enum ModeView {
    Filesystem(ResolvedView),
    GitRefs {
        before_ref: Seq<char>,
        after_ref: Seq<char>,
        paths: Seq<Seq<char>>,
        import_paths: Seq<Seq<char>>,
    },
    CompareRef {
        compare_ref: Seq<char>,
        paths: Seq<Seq<char>>,
        import_paths: Seq<Seq<char>>,
    },
}

impl View for CheckMode {
    type V = ModeView;

    open spec fn view(&self) -> ModeView {
        match *self {
            CheckMode::Filesystem(resolved) => ModeView::Filesystem(resolved@),
            CheckMode::GitRefs { before_ref, after_ref, paths, import_paths } => ModeView::GitRefs {
                before_ref: before_ref@,
                after_ref: after_ref@,
                paths: text::views(paths@),
                import_paths: text::views(import_paths@),
            },
            CheckMode::CompareRef { compare_ref, paths, import_paths } => ModeView::CompareRef {
                compare_ref: compare_ref@,
                paths: text::views(paths@),
                import_paths: text::views(import_paths@),
            },
        }
    }
}

/// The mode that a configuration asks for. One has to be chosen, and completely.
pub open spec fn mode_of(config: ConfigView) -> Result<ModeView, ErrorView> {
    let files = config.before.len() > 0 || config.after.len() > 0;
    let refs = config.before_ref is Some || config.after_ref is Some;
    let compared = config.compare_ref is Some;
    let paths = config.paths.len() > 0;
    if files && (refs || compared || paths) {
        Err(
            config::usage_error_of("cannot mix --before/--after with ref comparison flags"@),
        )
    } else if refs && compared {
        Err(
            config::usage_error_of("cannot mix --compare-ref with --before-ref/--after-ref"@),
        )
    } else if refs && config.before_ref is None {
        Err(config::usage_error_of("missing --before-ref"@))
    } else if refs && config.after_ref is None {
        Err(config::usage_error_of("missing --after-ref"@))
    } else if (refs || compared) && !paths {
        Err(config::usage_error_of("missing --path"@))
    } else if refs {
        Ok(
            ModeView::GitRefs {
                before_ref: config.before_ref->0,
                after_ref: config.after_ref->0,
                paths: config.paths,
                import_paths: config.import_paths,
            },
        )
    } else if compared {
        Ok(
            ModeView::CompareRef {
                compare_ref: config.compare_ref->0,
                paths: config.paths,
                import_paths: config.import_paths,
            },
        )
    } else if paths {
        Err(
            config::usage_error_of("--path requires --before-ref/--after-ref or --compare-ref"@),
        )
    } else if config.before.len() == 0 {
        Err(config::usage_error_of("missing --before"@))
    } else if config.after.len() == 0 {
        Err(config::usage_error_of("missing --after"@))
    } else {
        Ok(
            ModeView::Filesystem(
                ResolvedView {
                    before: config.before,
                    after: config.after,
                    before_import_paths: config.import_paths,
                    after_import_paths: config.import_paths,
                },
            ),
        )
    }
}

/// The same texts once more.
pub fn copied(list: &Vec<String>) -> (copy: Vec<String>)
    ensures
        text::views(copy@) == text::views(list@),
{
    let copy = list.clone();
    assert(text::views(copy@) =~= text::views(list@));
    copy
}

/// The mode that a configuration asks for.
pub fn check_mode(config: &CheckConfig) -> (mode: Result<CheckMode, Error>)
    ensures
        schema::outcome(mode) == mode_of(config@),
{
    let files: bool = config.before.len() > 0 || config.after.len() > 0;
    let refs: bool = config.before_ref.is_some() || config.after_ref.is_some();
    let compared: bool = config.compare_ref.is_some();
    let paths: bool = config.paths.len() > 0;
    if files && (refs || compared || paths) {
        return Err(usage_error("cannot mix --before/--after with ref comparison flags"));
    }
    if refs && compared {
        return Err(usage_error("cannot mix --compare-ref with --before-ref/--after-ref"));
    }
    if refs {
        let before_ref = match &config.before_ref {
            Some(before_ref) => before_ref.clone(),
            None => return Err(usage_error("missing --before-ref")),
        };
        let after_ref = match &config.after_ref {
            Some(after_ref) => after_ref.clone(),
            None => return Err(usage_error("missing --after-ref")),
        };
        if !paths {
            return Err(usage_error("missing --path"));
        }
        return Ok(
            CheckMode::GitRefs {
                before_ref,
                after_ref,
                paths: copied(&config.paths),
                import_paths: copied(&config.import_paths),
            },
        );
    }
    if let Some(compare_ref) = &config.compare_ref {
        if !paths {
            return Err(usage_error("missing --path"));
        }
        return Ok(
            CheckMode::CompareRef {
                compare_ref: compare_ref.clone(),
                paths: copied(&config.paths),
                import_paths: copied(&config.import_paths),
            },
        );
    }
    if paths {
        return Err(usage_error("--path requires --before-ref/--after-ref or --compare-ref"));
    }
    if config.before.len() == 0 {
        return Err(usage_error("missing --before"));
    }
    if config.after.len() == 0 {
        return Err(usage_error("missing --after"));
    }
    Ok(
        CheckMode::Filesystem(
            ResolvedCheck {
                before: copied(&config.before),
                after: copied(&config.after),
                before_import_paths: copied(&config.import_paths),
                after_import_paths: copied(&config.import_paths),
            },
        ),
    )
}

/// Paths as they lie in a directory. Absolute ones stay.
pub open spec fn all_within(dir: Seq<char>, paths: Seq<Seq<char>>) -> Seq<Seq<char>> {
    paths.map_values(|s: Seq<char>| path::within(dir, s))
}

/// A path as it lies in a directory.
fn prefix_string_path(dir: &str, path: &str) -> (moved: String)
    ensures
        moved@ == path::within(dir@, path@),
{
    string_of(join_path(chars_of(dir).as_slice(), chars_of(path).as_slice()).as_slice())
}

/// Sources or import paths as they lie in a directory.
pub fn prefix_sources(dir: &str, sources: &[String]) -> (moved: Vec<String>)
    ensures
        text::views(moved@) == all_within(dir@, text::views(sources@)),
{
    let ghost all = all_within(dir@, text::views(sources@));
    let mut moved: Vec<String> = Vec::new();
    let mut i: usize = 0;
    assert(text::views(moved@) =~= all.take(0));
    while i < sources.len()
        invariant
            i <= sources@.len(),
            all == all_within(dir@, text::views(sources@)),
            text::views(moved@) == all.take(i as int),
        decreases sources@.len() - i,
    {
        let source = prefix_string_path(dir, sources[i].as_str());
        proof {
            schema::lemma_views_push(moved@, source);
            assert(all.take(i + 1) =~= all.take(i as int).push(source@));
        }
        moved.push(source);
        i = i + 1;
    }
    assert(all.take(i as int) =~= all);
    moved
}

/// Sources and import paths as they lie in the directories of the two sides.
pub open spec fn resolved_in(
    before_dir: Seq<char>,
    after_dir: Seq<char>,
    paths: Seq<Seq<char>>,
    import_paths: Seq<Seq<char>>,
) -> ResolvedView {
    ResolvedView {
        before: all_within(before_dir, paths),
        after: all_within(after_dir, paths),
        before_import_paths: all_within(before_dir, import_paths),
        after_import_paths: all_within(after_dir, import_paths),
    }
}

/// Sources and import paths as they lie in the directories of the two sides.
pub fn resolve(
    before_dir: &str,
    after_dir: &str,
    paths: &[String],
    import_paths: &[String],
) -> (resolved: ResolvedCheck)
    ensures
        resolved@ == resolved_in(
            before_dir@,
            after_dir@,
            text::views(paths@),
            text::views(import_paths@),
        ),
{
    ResolvedCheck {
        before: prefix_sources(before_dir, paths),
        after: prefix_sources(after_dir, paths),
        before_import_paths: prefix_sources(before_dir, import_paths),
        after_import_paths: prefix_sources(after_dir, import_paths),
    }
}

} // verus!
