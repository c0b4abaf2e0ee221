//! Comparisons, reports and conclusions.

use captain::compare::normalize_default;
use captain::lint::contains_any_pointer;
use captain::report::{conclude_error, conclude_report};
use captain::snapshot::FileText;
use captain::{
    compare, format_report, parse_schema, snapshot_files, violation_paths, Error, Lint,
    LintSeverity, Report, SchemaSet, Violation,
};

const ID: &str = "@0xbf5147cbbecf40c1;\n";

fn set(source: &str) -> SchemaSet {
    let mut text = ID.to_owned();
    text.push_str(source);
    snapshot_files(&[FileText { path: "s/user.capnp".to_owned(), text: Ok(text) }]).unwrap()
}

fn compared(before: &str, after: &str) -> Report {
    compare(&set(before), &set(after))
}

#[test]
fn changed_field_types_break() {
    let report = compared(
        "struct User {\n  email @1 :Text;\n}",
        "struct User {\n  primaryEmail @1 :Data;\n}",
    );
    assert_eq!(
        format_report(&report),
        "incompatible: User.field[1]\n  reason: field type changed\n  before: email: Text\n  after: primaryEmail: Data"
    );
    assert!(!report.is_compatible());
}

#[test]
fn removed_fields_break() {
    let report = compared(
        "struct User {\n  id @0 :UInt64;\n  email @1 :Text;\n}",
        "struct User {\n  id @0 :UInt64;\n}",
    );
    assert_eq!(
        format_report(&report),
        "incompatible: User.field[1]\n  reason: field was removed\n  before: email: Text"
    );
}

#[test]
fn changed_method_signatures_break() {
    let report = compared(
        "interface Users {\n  get @0 (id :UInt64) -> (email :Text);\n}",
        "interface Users {\n  get @0 (id :Text) -> (email :Text);\n}",
    );
    assert_eq!(
        format_report(&report),
        "incompatible: Users.method[0]\n  reason: method signature changed\n  before: get (id :UInt64) -> (email :Text)\n  after: get (id :Text) -> (email :Text)"
    );
}

#[test]
fn removed_methods_enum_values_and_nodes_break() {
    let report = compared(
        "interface I { f @0 (a); }\nenum E { a @0; b @1; }\nstruct S { }\nenum K { }",
        "interface I { }\nenum E { a @0; }\nstruct K { }",
    );
    assert_eq!(
        format_report(&report),
        "incompatible: E.enum[1]\n  reason: enum value was removed\n  before: b\nincompatible: I.method[0]\n  reason: method was removed\n  before: f (a)\nincompatible: K\n  reason: node kind changed\n  before: Enum\n  after: Struct\nincompatible: S\n  reason: node was removed\n  before: Struct"
    );
    assert_eq!(violation_paths(&report), vec!["E.enum[1]", "I.method[0]", "K", "S"]);
}

#[test]
fn additions_break_nothing() {
    let report = compared(
        "struct A { a @0 :Text; }\nenum E { a @0; }\ninterface I { f @0 (a); }",
        "struct A { a @0 :Text; b @1 :Text; }\nenum E { a @0; b @1; }\ninterface I { f @0 (a); g @1 (b); }\nstruct B { }",
    );
    assert_eq!(
        format_report(&report),
        "compatible: no backwards-incompatible schema changes found"
    );
    assert!(report.is_compatible());
}

#[test]
fn white_space_breaks_nothing() {
    let report = compared(
        "struct A { a @0 :List(Text) = [ 1, 2 ]; }\ninterface I { f @0 (a :Text)->(b :Text); }",
        "struct A { a @0 :List( Text ) = [1,2]; }\ninterface I { f @0 (a:Text) -> (b:Text); }",
    );
    assert!(report.is_compatible());
}

#[test]
fn a_set_is_compatible_with_itself() {
    let source = "struct A { a @0 :Text = \"x\"; }\nenum E { a @0; }\ninterface I { f @0 (a); }";
    assert_eq!(compared(source, source), Report { violations: vec![], lints: vec![] });
}

#[test]
fn unbroken_changes_add_up() {
    let a = "struct A { a @0 :Text; }";
    let b = "struct A { b @0 :Text; c @1 :Text; }";
    let c = "struct A { d @0 :Text; c @1 :Text; }\nstruct B { }";
    assert_eq!(compared(a, b).violations, vec![]);
    assert_eq!(compared(b, c).violations, vec![]);
    assert_eq!(compared(a, c).violations, vec![]);
}

#[test]
fn missing_defaults_are_shown_as_none() {
    let report = compared("struct A { a @0 :Bool; }", "struct A { a @0 :Bool = true; }");
    assert_eq!(report.lints[0].detail, Some("<none> -> true".to_owned()));
    assert_eq!(normalize_default(&Some(" a b ".to_owned())), Some("ab".to_owned()));
    assert_eq!(normalize_default(&None), None);
}

#[test]
fn any_pointer_counts_as_a_whole_word() {
    let holds = |text: &str| contains_any_pointer(&text.chars().collect::<Vec<char>>());
    assert!(holds("AnyPointer"));
    assert!(holds("List(AnyPointer)"));
    assert!(!holds("AnyPointers"));
    assert!(!holds("My_AnyPointer"));
    assert!(holds("xAnyPointer,AnyPointer"));
    assert!(!holds("anypointer"));
}

#[test]
fn warnings_alone_are_compatible() {
    let report = compared("", "struct A { a @0 :AnyPointer; }");
    assert_eq!(report.lints.len(), 1);
    assert_eq!(report.lints[0].severity, LintSeverity::Warning);
    assert_eq!(LintSeverity::Warning.as_str(), "warning");
    assert!(!report.has_error_lints());
    assert!(report.is_compatible());
    assert_eq!(conclude_report(&report).status, 0);
}

#[test]
fn error_lints_are_incompatible() {
    let report = compared("enum E { a @0; }", "enum E { b @0; }");
    assert_eq!(report.violations, vec![]);
    assert!(report.has_error_lints());
    let conclusion = conclude_report(&report);
    assert_eq!(conclusion.status, 1);
    assert_eq!(conclusion.message, format_report(&report));
}

#[test]
fn reports_list_violations_before_remarks() {
    let report = Report {
        violations: vec![Violation {
            path: "A".to_owned(),
            reason: "r".to_owned(),
            before: None,
            after: Some("x".to_owned()),
        }],
        lints: vec![Lint {
            severity: LintSeverity::Warning,
            path: "B".to_owned(),
            reason: "s".to_owned(),
            detail: Some("d \n".to_owned()),
        }],
    };
    assert_eq!(
        format_report(&report),
        "incompatible: A\n  reason: r\n  after: x\nlint: B\n  severity: warning\n  reason: s\n  detail: d"
    );
}

#[test]
fn violation_paths_are_sorted_and_distinct() {
    let violation = |path: &str| Violation {
        path: path.to_owned(),
        reason: String::new(),
        before: None,
        after: None,
    };
    let report =
        Report { violations: vec![violation("b"), violation("a"), violation("b")], lints: vec![] };
    assert_eq!(violation_paths(&report), vec!["a", "b"]);
}

#[test]
fn errors_are_printed_by_kind() {
    let failed = |stderr: &str| Error::CommandFailed {
        command: "\"git\" \"x\"".to_owned(),
        stderr: stderr.to_owned(),
    };
    assert_eq!(failed(" \n").message(), "`\"git\" \"x\"` failed");
    assert_eq!(failed(" fatal: x\n").message(), "`\"git\" \"x\"` failed\nfatal: x");
    let capnp = Error::CapnpFailed { command: "c".to_owned(), stderr: "e".to_owned() };
    assert_eq!(capnp.message(), "`c` failed\ne");
    let io = Error::Io { path: "p".to_owned(), source: "denied".to_owned() };
    assert_eq!(io.message(), "p: denied");
    assert_eq!(
        Error::NoSchemas("x".to_owned()).message(),
        "no .capnp files found under x"
    );
    assert_eq!(Error::Usage("u".to_owned()).message(), "u");
    assert_eq!(conclude_error(&io).message, "error: p: denied");
    assert_eq!(conclude_error(&io).status, 2);
    assert_eq!(conclude_error(&Error::Usage("u".to_owned())).message, "u");
    assert_eq!(conclude_error(&Error::Usage("u".to_owned())).status, 2);
}

#[test]
fn fields_behind_a_union_break_when_removed() {
    let nodes = |text: &str| SchemaSet { snapshot: parse_schema(text), ..SchemaSet::default() };
    let report = compare(
        &nodes("struct S {\n  union {\n    a @0 :Text;\n  }\n  c @1 :Bool;\n}\n"),
        &nodes("struct S {\n  union {\n    a @0 :Text;\n  }\n}\n"),
    );
    assert_eq!(
        report.violations,
        vec![Violation {
            path: "S.field[1]".to_owned(),
            reason: "field was removed".to_owned(),
            before: Some("c: Bool".to_owned()),
            after: None,
        }]
    );
}

#[test]
fn comparisons_ignore_where_files_lie() {
    let at = |path: &str, source: &str| {
        let mut text = ID.to_owned();
        text.push_str(source);
        snapshot_files(&[FileText { path: path.to_owned(), text: Ok(text) }]).unwrap()
    };
    let before = "struct A { a @0 :Text; }";
    let after = "struct A { b @0 :AnyPointer; }\nenum E { c @0; }";
    let report = compare(&at("s/user.capnp", before), &at("s/user.capnp", after));
    assert!(!report.lints.is_empty() && !report.violations.is_empty());
    assert_eq!(compare(&at("/t/1/user.capnp", before), &at("/u/user.capnp", after)), report);
}
