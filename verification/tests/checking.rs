//! Whole checks, driven by hand.

use captain::check::{CheckAction, CheckEvent, CheckStep, ExportPlan};
use captain::command::{CommandLine, CommandOutcome};
use captain::discover::{Source, Walk};
use captain::export::export_dirs;
use captain::snapshot::FileText;
use captain::{check, format_report, CheckConfig, Error, Report};

fn texts(list: &[&str]) -> Vec<String> {
    list.iter().map(|text| (*text).to_owned()).collect()
}

fn config() -> CheckConfig {
    CheckConfig {
        before: texts(&["old"]),
        after: texts(&["new"]),
        before_ref: None,
        after_ref: None,
        compare_ref: None,
        paths: vec![],
        import_paths: texts(&["inc"]),
    }
}

fn walked(name: &str, files: &[&str]) -> CheckEvent {
    CheckEvent::Walked(vec![Source {
        name: name.to_owned(),
        walk: Walk::Directory(texts(files)),
    }])
}

fn read(path: &str, text: &str) -> CheckEvent {
    CheckEvent::Read(vec![FileText { path: path.to_owned(), text: Ok(text.to_owned()) }])
}

fn success() -> CheckEvent {
    CheckEvent::Ran(CommandOutcome::Success { stdout: String::new() })
}

fn compile(args: &[&str]) -> CheckAction {
    CheckAction::Run(CommandLine { program: "capnp".to_owned(), args: texts(args) })
}

const USER: &str = "@0xbf5147cbbecf40c1;\nstruct User { id @0 :UInt64; }";

/// A check of one file on each side, with everything read.
fn after_reading(before: &str, after: &str) -> CheckStep {
    let step = check(&config());
    assert_eq!(step.action(), CheckAction::Walk(texts(&["old"])));
    let step = step.advance(walked("old", &["old/user.capnp"]));
    assert_eq!(step.action(), CheckAction::Walk(texts(&["new"])));
    let step = step.advance(walked("new", &["new/user.capnp"]));
    assert_eq!(step.action(), CheckAction::Read(texts(&["old/user.capnp"])));
    let step = step.advance(read("old/user.capnp", before));
    assert_eq!(step.action(), CheckAction::Read(texts(&["new/user.capnp"])));
    step.advance(read("new/user.capnp", after))
}

#[test]
fn checks_compile_both_sides_before_they_report() {
    let step = after_reading(USER, USER);
    assert_eq!(
        step.action(),
        compile(&["compile", "-o-", "-Iold", "-Iinc", "old/user.capnp"])
    );
    let step = step.advance(success());
    assert_eq!(
        step.action(),
        compile(&["compile", "-o-", "-Inew", "-Iinc", "new/user.capnp"])
    );
    let step = step.advance(success());
    assert_eq!(step.action(), CheckAction::Stop);
    let CheckStep::Finished(report) = step else { panic!("no report") };
    assert!(report.is_compatible());
}

#[test]
fn violations_are_reported_once_both_sides_compile() {
    let step = after_reading(USER, "@0xbf5147cbbecf40c1;\nstruct User { }");
    let step = step.advance(success()).advance(success());
    let CheckStep::Finished(report) = step else { panic!("no report") };
    assert_eq!(
        format_report(&report),
        "incompatible: User.field[0]\n  reason: field was removed\n  before: id: UInt64"
    );
}

#[test]
fn error_lints_end_a_check_without_the_compiler() {
    let step = after_reading(USER, "struct User { id @0 :UInt64; }");
    assert_eq!(step.action(), CheckAction::Stop);
    let CheckStep::Finished(report) = step else { panic!("no report") };
    assert_eq!(
        format_report(&report),
        "lint: after:user.capnp\n  severity: error\n  reason: file is missing a file id"
    );
}

#[test]
fn compiler_failures_end_a_check() {
    let failed = CommandOutcome::Failed { command: "c".to_owned(), stderr: "e".to_owned() };
    let step = after_reading(USER, USER).advance(CheckEvent::Ran(failed.clone()));
    let expected = Error::CapnpFailed { command: "c".to_owned(), stderr: "e".to_owned() };
    assert_eq!(step, CheckStep::Failed(expected.clone()));
    let step = after_reading(USER, USER).advance(success()).advance(CheckEvent::Ran(failed));
    assert_eq!(step, CheckStep::Failed(expected));
    let unstarted = CommandOutcome::Unstarted { message: "missing".to_owned() };
    let step = after_reading(USER, USER).advance(CheckEvent::Ran(unstarted));
    assert_eq!(
        step,
        CheckStep::Failed(Error::Io {
            path: "capnp".to_owned(),
            source: "missing".to_owned(),
        })
    );
}

#[test]
fn unsound_configurations_fail_at_once() {
    let step = check(&CheckConfig { after: vec![], ..config() });
    assert!(matches!(step, CheckStep::Failed(Error::Usage(_))));
    assert_eq!(step.action(), CheckAction::Stop);
}

#[test]
fn searches_that_find_nothing_end_a_check() {
    let step = check(&config()).advance(walked("old", &[]));
    assert_eq!(step, CheckStep::Failed(Error::NoSchemas("old".to_owned())));
    let step = check(&config())
        .advance(walked("old", &["old/user.capnp"]))
        .advance(walked("new", &["new/readme.md"]));
    assert_eq!(step, CheckStep::Failed(Error::NoSchemas("new".to_owned())));
}

#[test]
fn unreadable_files_end_a_check() {
    let step = check(&config())
        .advance(walked("old", &["old/user.capnp"]))
        .advance(walked("new", &["new/user.capnp"]))
        .advance(CheckEvent::Read(vec![FileText {
            path: "old/user.capnp".to_owned(),
            text: Err("denied".to_owned()),
        }]));
    assert_eq!(
        step,
        CheckStep::Failed(Error::Io {
            path: "old/user.capnp".to_owned(),
            source: "denied".to_owned(),
        })
    );
}

#[test]
fn events_that_are_not_waited_for_change_nothing() {
    let step = check(&config()).advance(success());
    assert_eq!(step, check(&config()));
    let failed = CheckStep::Failed(Error::Usage("u".to_owned()));
    assert_eq!(failed.advance(success()), CheckStep::Failed(Error::Usage("u".to_owned())));
}

#[test]
fn references_are_exported_first() {
    let refs = CheckConfig {
        before: vec![],
        after: vec![],
        before_ref: Some("x".to_owned()),
        after_ref: Some("y".to_owned()),
        paths: texts(&["s/**/*.capnp"]),
        ..config()
    };
    let step = check(&refs);
    assert_eq!(
        step.action(),
        CheckAction::Export(ExportPlan::Refs {
            before_ref: "x".to_owned(),
            after_ref: "y".to_owned(),
            roots: texts(&["inc", "s"]),
        })
    );
    let step = step.advance(CheckEvent::Exported(export_dirs("/t")));
    assert_eq!(step.action(), CheckAction::Walk(texts(&["/t/before/s/**/*.capnp"])));
    let step = step.advance(CheckEvent::Walked(vec![Source {
        name: "/t/before/s/**/*.capnp".to_owned(),
        walk: Walk::Directory(texts(&["/t/before/s/user.capnp"])),
    }]));
    assert_eq!(step.action(), CheckAction::Walk(texts(&["/t/after/s/**/*.capnp"])));
}

#[test]
fn worktrees_are_compared_with_a_reference() {
    let worktree = CheckConfig {
        before: vec![],
        after: vec![],
        compare_ref: Some("x".to_owned()),
        paths: texts(&["s"]),
        import_paths: vec![],
        ..config()
    };
    let step = check(&worktree);
    assert_eq!(
        step.action(),
        CheckAction::Export(ExportPlan::Worktree {
            compare_ref: "x".to_owned(),
            roots: texts(&["s"]),
        })
    );
    let error = Error::Io { path: "/t".to_owned(), source: "full".to_owned() };
    assert_eq!(
        step.advance(CheckEvent::ExportFailed(error.clone())),
        CheckStep::Failed(error)
    );
}

#[test]
fn checks_of_references_stay_inside_the_export() {
    let refs = CheckConfig {
        before: vec![],
        after: vec![],
        before_ref: Some("x".to_owned()),
        after_ref: Some("y".to_owned()),
        paths: texts(&["s", "/abs/t"]),
        import_paths: texts(&["inc", "/usr/inc"]),
        ..config()
    };
    let walked = |side: &str| {
        CheckEvent::Walked(vec![
            Source {
                name: format!("/t/{side}/s"),
                walk: Walk::Directory(vec![format!("/t/{side}/s/user.capnp")]),
            },
            Source { name: "/abs/t".to_owned(), walk: Walk::Directory(vec![]) },
        ])
    };
    let step = check(&refs).advance(CheckEvent::Exported(export_dirs("/t")));
    assert_eq!(step.action(), CheckAction::Walk(texts(&["/t/before/s", "/abs/t"])));
    let step = step.advance(walked("before"));
    assert_eq!(step.action(), CheckAction::Walk(texts(&["/t/after/s", "/abs/t"])));
    let step = step
        .advance(walked("after"))
        .advance(read("/t/before/s/user.capnp", USER))
        .advance(read("/t/after/s/user.capnp", USER));
    assert_eq!(
        step.action(),
        compile(&[
            "compile", "-o-", "-I/abs/t", "-I/t/before/s", "-I/t/before/inc", "-I/usr/inc",
            "/t/before/s/user.capnp",
        ])
    );
    let step = step.advance(success());
    assert_eq!(
        step.action(),
        compile(&[
            "compile", "-o-", "-I/abs/t", "-I/t/after/s", "-I/t/after/inc", "-I/usr/inc",
            "/t/after/s/user.capnp",
        ])
    );
}

/// What a check of two references comes to whose trees lie under `root`, each with the
/// files `s/user.capnp` and `s/x/other.capnp`.
fn report_under(root: &str, paths: &[&str], after: &str) -> Report {
    const OTHER: &str = "@0xaf5147cbbecf40c1;\nstruct Other { a @0 :AnyPointer; }";
    let refs = CheckConfig {
        before: vec![],
        after: vec![],
        before_ref: Some("x".to_owned()),
        after_ref: Some("y".to_owned()),
        paths: texts(paths),
        import_paths: vec![],
        ..config()
    };
    let mut step = check(&refs).advance(CheckEvent::Exported(export_dirs(root)));
    loop {
        let event = match step.action() {
            CheckAction::Walk(sources) => CheckEvent::Walked(
                sources
                    .into_iter()
                    .map(|name| {
                        let side = if name.contains("/before/") { "before" } else { "after" };
                        let walk = Walk::Directory(vec![
                            format!("{root}/{side}/s/x/other.capnp"),
                            format!("{root}/{side}/s/user.capnp"),
                        ]);
                        Source { name, walk }
                    })
                    .collect(),
            ),
            CheckAction::Read(files) => CheckEvent::Read(
                files
                    .into_iter()
                    .map(|path| {
                        let text = if path.ends_with("other.capnp") {
                            OTHER
                        } else if path.contains("/before/") {
                            USER
                        } else {
                            after
                        };
                        FileText { path, text: Ok(text.to_owned()) }
                    })
                    .collect(),
            ),
            CheckAction::Run(_) => success(),
            CheckAction::Export(_) => panic!("exported twice"),
            CheckAction::Stop => break,
        };
        step = step.advance(event);
    }
    let CheckStep::Finished(report) = step else { panic!("no report") };
    report
}

#[test]
fn reports_do_not_depend_on_where_the_trees_lie() {
    let after = "@0xbf5147cbbecf40c1;\nstruct User { }";
    for paths in [
        vec!["s"],
        vec!["s/**/*.capnp"],
        vec!["s/*.capnp", "s/x/*"],
        vec!["s", "s/*.capnp"],
        vec!["./s"],
    ] {
        let report = report_under("/t", &paths, after);
        for root in ["/var/tmp/z.capnp", "/a/b/c", "x/y", "/t//u"] {
            assert_eq!(report_under(root, &paths, after), report, "{root:?} {paths:?}");
        }
    }
    assert_eq!(
        format_report(&report_under("/t", &["s", "s/*.capnp"], USER)),
        "lint: user.capnp\n  severity: error\n  reason: file was selected more than once\nlint: user.capnp\n  severity: error\n  reason: file was selected more than once\nlint: Other.field[0]\n  severity: warning\n  reason: field uses AnyPointer\n  detail: a: AnyPointer"
    );
}
