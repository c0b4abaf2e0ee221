//! What is taken out of a repository, and with which commands.

use captain::command::{CommandLine, CommandOutcome};
use captain::export::{
    archive_path, copy_worktree_paths, export_dirs, git_repo_root, repo_root_command,
    should_skip_worktree_entry, worktree_entry_action, CopyTask, EntryAction, EntryKind,
    ExportStep, RefExport,
};
use captain::git::{archive_roots, git_relative_path};
use captain::Error;

fn texts(list: &[&str]) -> Vec<String> {
    list.iter().map(|text| (*text).to_owned()).collect()
}

fn git_name(path: &str) -> Option<String> {
    let chars: Vec<char> = path.chars().collect();
    git_relative_path(&chars).map(|name| name.into_iter().collect())
}

fn line(program: &str, args: &[&str]) -> CommandLine {
    CommandLine { program: program.to_owned(), args: texts(args) }
}

fn success() -> CommandOutcome {
    CommandOutcome::Success { stdout: String::new() }
}

fn failure() -> CommandOutcome {
    CommandOutcome::Failed { command: "\"git\"".to_owned(), stderr: "no".to_owned() }
}

#[test]
fn archive_roots_use_glob_bases_and_relative_import_paths() {
    let roots = archive_roots(
        &["schemas/**/*.capnp".to_owned(), "api/user.capnp".to_owned()],
        &["schemas".to_owned(), "shared/capnp".to_owned(), "/usr/include/capnp".to_owned()],
    );

    assert_eq!(
        roots,
        vec!["api/user.capnp".to_owned(), "schemas".to_owned(), "shared/capnp".to_owned()]
    );
}

#[test]
fn archive_roots_reject_parent_paths() {
    let roots = archive_roots(
        &["schemas/**/*.capnp".to_owned(), "../outside/**/*.capnp".to_owned()],
        &["./schemas".to_owned(), "../shared".to_owned()],
    );

    assert_eq!(roots, vec!["schemas".to_owned()]);
}

#[test]
fn archive_roots_stand_in_the_order_of_components() {
    let roots = archive_roots(&texts(&["a.b", "a/b", "**/*.capnp", "a"]), &[]);
    assert_eq!(roots, texts(&[".", "a", "a/b", "a.b"]));
}

#[test]
fn git_names_drop_dots_and_refuse_what_lies_outside() {
    assert_eq!(git_name("./a//b/."), Some("a/b".to_owned()));
    assert_eq!(git_name(""), Some(".".to_owned()));
    assert_eq!(git_name("."), Some(".".to_owned()));
    assert_eq!(git_name("a/../b"), None);
    assert_eq!(git_name("/a"), None);
    assert_eq!(git_name("a/..b"), Some("a/..b".to_owned()));
}

#[test]
fn git_names_are_their_own_names() {
    for path in ["./a//b/.", "", ".", "a/b/c", "x/./y/"] {
        let name = git_name(path).unwrap();
        assert_eq!(git_name(name.as_str()), Some(name));
    }
}

#[test]
fn export_asks_for_each_path_and_archives_what_is_there() {
    let export = RefExport::new("main", "/t/before", &texts(&["a", "b\\c", "."]));
    assert_eq!(
        export.command(),
        Some(line("git", &["rev-parse", "--verify", "--quiet", "main^{tree}"]))
    );
    let export = export.advance(success());
    assert_eq!(export.command(), Some(line("git", &["cat-file", "-e", "main:a"])));
    let export = export.advance(failure());
    assert_eq!(export.command(), Some(line("git", &["cat-file", "-e", "main:b/c"])));
    let export = export.advance(success());
    assert_eq!(
        export.command(),
        Some(line(
            "git",
            &["archive", "--format=tar", "--output=/t/before.tar", "main", "--", "b\\c", "."]
        ))
    );
    let export = export.advance(success());
    assert_eq!(
        export.command(),
        Some(line("tar", &["-xf", "/t/before.tar", "-C", "/t/before"]))
    );
    let export = export.advance(success());
    assert_eq!(export.step, ExportStep::Done);
    assert_eq!(export.command(), None);
}

#[test]
fn export_of_absent_paths_does_nothing() {
    let export = RefExport::new("main", "/t/after", &texts(&["a"]));
    let export = export.advance(success()).advance(failure());
    assert_eq!(export.step, ExportStep::Done);
}

#[test]
fn export_of_rejected_paths_only_verifies_the_reference() {
    let export = RefExport::new("main", "/t/after", &texts(&["../a"]));
    assert!(export.command().is_some());
    assert_eq!(export.advance(success()).step, ExportStep::Done);
}

#[test]
fn export_without_paths_archives_everything() {
    let export = RefExport::new("v1", "/t/after", &[]);
    assert_eq!(
        export.command(),
        Some(line("git", &["archive", "--format=tar", "--output=/t/after.tar", "v1"]))
    );
}

#[test]
fn export_fails_with_the_command() {
    let refused = RefExport::new("main", "/t/after", &texts(&["a"])).advance(failure());
    assert_eq!(
        refused.step,
        ExportStep::Failed(Error::CommandFailed {
            command: "\"git\"".to_owned(),
            stderr: "no".to_owned(),
        })
    );
    let unstarted = RefExport::new("main", "/t/after", &texts(&["a"]))
        .advance(success())
        .advance(CommandOutcome::Unstarted { message: "missing".to_owned() });
    assert_eq!(
        unstarted.step,
        ExportStep::Failed(Error::Io { path: "git".to_owned(), source: "missing".to_owned() })
    );
    let unpacked = RefExport::new("main", "/t/after", &[])
        .advance(success())
        .advance(CommandOutcome::Unstarted { message: "missing".to_owned() });
    assert_eq!(
        unpacked.step,
        ExportStep::Failed(Error::Io { path: "tar".to_owned(), source: "missing".to_owned() })
    );
    assert_eq!(unpacked.command(), None);
}

#[test]
fn repository_root_is_what_git_prints() {
    assert_eq!(repo_root_command(), line("git", &["rev-parse", "--show-toplevel"]));
    let printed = CommandOutcome::Success { stdout: " /repo\n".to_owned() };
    assert_eq!(git_repo_root(printed), Ok("/repo".to_owned()));
    assert_eq!(
        git_repo_root(failure()),
        Err(Error::CommandFailed { command: "\"git\"".to_owned(), stderr: "no".to_owned() })
    );
}

#[test]
fn exports_have_a_directory_for_each_side() {
    let dirs = export_dirs("/t/x");
    assert_eq!(dirs.before, "/t/x/before");
    assert_eq!(dirs.after, "/t/x/after");
    assert_eq!(archive_path("/t/x/after"), "/t/x/after.tar");
    assert_eq!(archive_path("/t/x/after.d"), "/t/x/after.tar");
}

#[test]
fn worktree_copies_leave_out_git_and_target() {
    assert!(should_skip_worktree_entry(".git"));
    assert!(should_skip_worktree_entry("target"));
    assert!(!should_skip_worktree_entry("targets"));
    assert!(!should_skip_worktree_entry(".gitignore"));
    assert_eq!(copy_worktree_paths("/repo", "/t/after", &[]), None);
    assert_eq!(
        copy_worktree_paths("/repo", "/t/after", &texts(&["a/b", "../c", "."])),
        Some(vec![
            CopyTask { source: "/repo/a/b".to_owned(), destination: "/t/after/a/b".to_owned() },
            CopyTask { source: "/repo/.".to_owned(), destination: "/t/after/.".to_owned() },
        ])
    );
}

#[test]
fn worktree_entries_are_copied_by_kind() {
    assert_eq!(worktree_entry_action(EntryKind::Directory), EntryAction::Descend);
    assert_eq!(worktree_entry_action(EntryKind::File), EntryAction::Copy);
    assert_eq!(worktree_entry_action(EntryKind::Other), EntryAction::Pass);
}
