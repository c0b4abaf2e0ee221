//! Remarks on schema sets, one by one.

use captain::names::NameMap;
use captain::{
    compare, format_report, parse_schema, snapshot_files, Lint, LintSeverity, SchemaFile, SchemaSet,
    Snapshot,
};
use captain::discover::{discover_capnp_sources, Source, Walk};
use captain::snapshot::{snapshot_sources, FileText};

fn text_of(path: &str, text: &str) -> FileText {
    FileText { path: path.to_owned(), text: Ok(text.to_owned()) }
}

#[test]
fn lints_missing_file_ids_before_compile() {
    let before = SchemaSet {
        snapshot: Snapshot::default(),
        node_paths: NameMap::new(),
        files: vec![SchemaFile {
            path: "old/user.capnp".to_owned(),
            relative_path: "user.capnp".to_owned(),
            file_id: Some("@0xbf5147cbbecf40c1".to_owned()),
        }],
        lints: Vec::new(),
    };
    let after = SchemaSet {
        snapshot: Snapshot::default(),
        node_paths: NameMap::new(),
        files: vec![SchemaFile {
            path: "new/user.capnp".to_owned(),
            relative_path: "user.capnp".to_owned(),
            file_id: None,
        }],
        lints: Vec::new(),
    };

    let report = compare(&before, &after);

    assert_eq!(
        format_report(&report),
        "lint: after:user.capnp\n  severity: error\n  reason: file is missing a file id"
    );
}

#[test]
fn lints_duplicate_file_ids() {
    let before = SchemaSet::default();
    let after = SchemaSet {
        snapshot: Snapshot::default(),
        node_paths: NameMap::new(),
        files: vec![
            SchemaFile {
                path: "new/payment.capnp".to_owned(),
                relative_path: "payment.capnp".to_owned(),
                file_id: Some("@0xbf5147cbbecf40c1".to_owned()),
            },
            SchemaFile {
                path: "new/user.capnp".to_owned(),
                relative_path: "user.capnp".to_owned(),
                file_id: Some("@0xbf5147cbbecf40c1".to_owned()),
            },
        ],
        lints: Vec::new(),
    };

    let report = compare(&before, &after);

    assert_eq!(
        format_report(&report),
        "lint: after:@0xbf5147cbbecf40c1\n  severity: error\n  reason: file id is used by multiple files\n  detail: payment.capnp, user.capnp"
    );
}

#[test]
fn lints_file_id_changes_for_same_relative_path() {
    let before = SchemaSet {
        snapshot: Snapshot::default(),
        node_paths: NameMap::new(),
        files: vec![SchemaFile {
            path: "old/user.capnp".to_owned(),
            relative_path: "user.capnp".to_owned(),
            file_id: Some("@0xbf5147cbbecf40c1".to_owned()),
        }],
        lints: Vec::new(),
    };
    let after = SchemaSet {
        snapshot: Snapshot::default(),
        node_paths: NameMap::new(),
        files: vec![SchemaFile {
            path: "new/user.capnp".to_owned(),
            relative_path: "user.capnp".to_owned(),
            file_id: Some("@0xaf5147cbbecf40c1".to_owned()),
        }],
        lints: Vec::new(),
    };

    let report = compare(&before, &after);

    assert_eq!(
        format_report(&report),
        "lint: user.capnp\n  severity: error\n  reason: file id changed\n  detail: @0xbf5147cbbecf40c1 -> @0xaf5147cbbecf40c1"
    );
}

#[test]
fn lints_duplicate_node_names_without_overwriting_first_node() {
    let first = text_of(
        "/tmp/duplicate-node-name/a.capnp",
        "@0xbf5147cbbecf40c1;\nstruct User {\n  id @0 :UInt64;\n}\n",
    );
    let second = text_of(
        "/tmp/duplicate-node-name/b.capnp",
        "@0xaf5147cbbecf40c1;\nstruct User {\n  email @0 :Text;\n}\n",
    );

    let set = snapshot_files(&[first, second]).unwrap();

    assert_eq!(set.snapshot.nodes.get("User").unwrap().fields[&0].name, "id");
    assert_eq!(
        set.lints,
        vec![Lint {
            severity: LintSeverity::Error,
            path: "User".to_owned(),
            reason: "node name is defined in multiple files".to_owned(),
            detail: Some("a.capnp and b.capnp".to_owned()),
        }]
    );
}

#[test]
fn lints_duplicate_discovered_files() {
    let file = "/tmp/duplicate-discovered-file/user.capnp";
    let content = "@0xbf5147cbbecf40c1;\nstruct User {\n  id @0 :UInt64;\n}\n";

    let sources = discover_capnp_sources(&[
        Source { name: file.to_owned(), walk: Walk::File },
        Source { name: file.to_owned(), walk: Walk::File },
    ])
    .unwrap();
    let texts: Vec<FileText> =
        sources.files.iter().map(|path| text_of(path.as_str(), content)).collect();
    let set = snapshot_sources(&texts, &sources.duplicate_files).unwrap();

    assert_eq!(
        set.lints,
        vec![Lint {
            severity: LintSeverity::Error,
            path: "user.capnp".to_owned(),
            reason: "file was selected more than once".to_owned(),
            detail: None,
        }]
    );
}

#[test]
fn lints_parser_collisions_without_overwriting_first_field() {
    let file = text_of(
        "/tmp/parser-collision/user.capnp",
        "@0xbf5147cbbecf40c1;\nstruct User {\n  id @0 :UInt64;\n  email @0 :Text;\n}\n",
    );

    let set = snapshot_files(&[file]).unwrap();

    assert_eq!(set.snapshot.nodes.get("User").unwrap().fields[&0].name, "id");
    assert_eq!(
        set.lints,
        vec![Lint {
            severity: LintSeverity::Error,
            path: "user.capnp:User.field[0]".to_owned(),
            reason: "field ordinal is defined multiple times".to_owned(),
            detail: Some("id and email".to_owned()),
        }]
    );
}

#[test]
fn lints_duplicate_field_names() {
    let file = text_of(
        "/tmp/duplicate-field-name/user.capnp",
        "@0xbf5147cbbecf40c1;\nstruct User {\n  email @0 :Text;\n  email @1 :Text;\n}\n",
    );

    let set = snapshot_files(&[file]).unwrap();

    assert_eq!(
        set.lints,
        vec![Lint {
            severity: LintSeverity::Error,
            path: "user.capnp:User.field[1]".to_owned(),
            reason: "field name is defined multiple times".to_owned(),
            detail: Some("email also used by field[0]".to_owned()),
        }]
    );
}

#[test]
fn lints_duplicate_enum_value_names() {
    let file = text_of(
        "/tmp/duplicate-enum-name/status.capnp",
        "@0xbf5147cbbecf40c1;\nenum Status {\n  active @0;\n  active @1;\n}\n",
    );

    let set = snapshot_files(&[file]).unwrap();

    assert_eq!(
        set.lints,
        vec![Lint {
            severity: LintSeverity::Error,
            path: "status.capnp:Status.enum[1]".to_owned(),
            reason: "enum value name is defined multiple times".to_owned(),
            detail: Some("active also used by enum[0]".to_owned()),
        }]
    );
}

#[test]
fn lints_duplicate_method_names() {
    let file = text_of(
        "/tmp/duplicate-method-name/users.capnp",
        "@0xbf5147cbbecf40c1;\ninterface Users {\n  get @0 (id :UInt64) -> (email :Text);\n  get @1 (id :UInt64) -> (email :Text);\n}\n",
    );

    let set = snapshot_files(&[file]).unwrap();

    assert_eq!(
        set.lints,
        vec![Lint {
            severity: LintSeverity::Error,
            path: "users.capnp:Users.method[1]".to_owned(),
            reason: "method name is defined multiple times".to_owned(),
            detail: Some("get also used by method[0]".to_owned()),
        }]
    );
}

#[test]
fn lints_malformed_file_ids() {
    let file = text_of(
        "/tmp/malformed-file-id/user.capnp",
        "@0xnot-an-id;\nstruct User {\n  id @0 :UInt64;\n}\n",
    );

    let set = snapshot_files(&[file]).unwrap();

    assert_eq!(
        set.lints,
        vec![Lint {
            severity: LintSeverity::Error,
            path: "user.capnp".to_owned(),
            reason: "file id declaration is malformed".to_owned(),
            detail: Some("@0xnot-an-id;".to_owned()),
        }]
    );
}

#[test]
fn lints_multiple_file_ids_in_one_file() {
    let file = text_of(
        "/tmp/multiple-file-id/user.capnp",
        "@0xbf5147cbbecf40c1;\n@0xaf5147cbbecf40c1;\nstruct User {\n  id @0 :UInt64;\n}\n",
    );

    let set = snapshot_files(&[file]).unwrap();

    assert_eq!(
        set.lints,
        vec![Lint {
            severity: LintSeverity::Error,
            path: "user.capnp".to_owned(),
            reason: "file id is declared multiple times".to_owned(),
            detail: Some("@0xbf5147cbbecf40c1 and @0xaf5147cbbecf40c1".to_owned()),
        }]
    );
}

#[test]
fn lints_zero_file_ids() {
    let file = text_of(
        "/tmp/zero-file-id/user.capnp",
        "@0x0000000000000000;\nstruct User {\n  id @0 :UInt64;\n}\n",
    );

    let set = snapshot_files(&[file]).unwrap();

    assert_eq!(
        set.lints,
        vec![Lint {
            severity: LintSeverity::Error,
            path: "user.capnp".to_owned(),
            reason: "file id must not be zero".to_owned(),
            detail: Some("@0x0000000000000000".to_owned()),
        }]
    );
}

#[test]
fn lints_file_id_path_changes() {
    let before = SchemaSet {
        snapshot: Snapshot::default(),
        files: vec![SchemaFile {
            path: "old/user.capnp".to_owned(),
            relative_path: "user.capnp".to_owned(),
            file_id: Some("@0xbf5147cbbecf40c1".to_owned()),
        }],
        node_paths: NameMap::new(),
        lints: Vec::new(),
    };
    let after = SchemaSet {
        snapshot: Snapshot::default(),
        files: vec![SchemaFile {
            path: "new/account.capnp".to_owned(),
            relative_path: "account.capnp".to_owned(),
            file_id: Some("@0xbf5147cbbecf40c1".to_owned()),
        }],
        node_paths: NameMap::new(),
        lints: Vec::new(),
    };

    let report = compare(&before, &after);

    assert_eq!(
        format_report(&report),
        "lint: @0xbf5147cbbecf40c1\n  severity: error\n  reason: file id moved to a different path\n  detail: user.capnp -> account.capnp"
    );
}

#[test]
fn lints_removed_schema_files() {
    let before = SchemaSet {
        snapshot: Snapshot::default(),
        files: vec![SchemaFile {
            path: "old/legacy.capnp".to_owned(),
            relative_path: "legacy.capnp".to_owned(),
            file_id: Some("@0xbf5147cbbecf40c1".to_owned()),
        }],
        node_paths: NameMap::new(),
        lints: Vec::new(),
    };
    let after = SchemaSet::default();

    let report = compare(&before, &after);

    assert_eq!(
        format_report(&report),
        "lint: legacy.capnp\n  severity: error\n  reason: schema file was removed\n  detail: @0xbf5147cbbecf40c1"
    );
}

#[test]
fn lints_node_path_changes() {
    let mut before_node_paths = NameMap::new();
    before_node_paths.insert("User".to_owned(), "user.capnp".to_owned());
    let mut after_node_paths = NameMap::new();
    after_node_paths.insert("User".to_owned(), "account.capnp".to_owned());
    let before = SchemaSet {
        snapshot: parse_schema("@0xbf5147cbbecf40c1;\nstruct User {\n  id @0 :UInt64;\n}\n"),
        files: Vec::new(),
        node_paths: before_node_paths,
        lints: Vec::new(),
    };
    let after = SchemaSet {
        snapshot: parse_schema("@0xaf5147cbbecf40c1;\nstruct User {\n  id @0 :UInt64;\n}\n"),
        files: Vec::new(),
        node_paths: after_node_paths,
        lints: Vec::new(),
    };

    let report = compare(&before, &after);

    assert_eq!(
        format_report(&report),
        "lint: User\n  severity: error\n  reason: node moved to a different file\n  detail: user.capnp -> account.capnp"
    );
}

#[test]
fn lints_field_default_value_changes() {
    let before = SchemaSet {
        snapshot: parse_schema("@0xbf5147cbbecf40c1;\nstruct User {\n  active @0 :Bool = true;\n}\n"),
        files: Vec::new(),
        node_paths: NameMap::new(),
        lints: Vec::new(),
    };
    let after = SchemaSet {
        snapshot: parse_schema("@0xbf5147cbbecf40c1;\nstruct User {\n  active @0 :Bool = false;\n}\n"),
        files: Vec::new(),
        node_paths: NameMap::new(),
        lints: Vec::new(),
    };

    let report = compare(&before, &after);

    assert_eq!(
        format_report(&report),
        "lint: User.field[0]\n  severity: error\n  reason: field default value changed\n  detail: true -> false"
    );
}

#[test]
fn lints_field_name_changes() {
    let before = SchemaSet {
        snapshot: parse_schema("@0xbf5147cbbecf40c1;\nstruct User {\n  email @0 :Text;\n}\n"),
        files: Vec::new(),
        node_paths: NameMap::new(),
        lints: Vec::new(),
    };
    let after = SchemaSet {
        snapshot: parse_schema("@0xbf5147cbbecf40c1;\nstruct User {\n  primaryEmail @0 :Text;\n}\n"),
        files: Vec::new(),
        node_paths: NameMap::new(),
        lints: Vec::new(),
    };

    let report = compare(&before, &after);

    assert_eq!(
        format_report(&report),
        "lint: User.field[0]\n  severity: error\n  reason: field name changed\n  detail: email -> primaryEmail"
    );
}

#[test]
fn lints_enum_value_name_changes() {
    let before = SchemaSet {
        snapshot: parse_schema("@0xbf5147cbbecf40c1;\nenum Status {\n  active @0;\n}\n"),
        files: Vec::new(),
        node_paths: NameMap::new(),
        lints: Vec::new(),
    };
    let after = SchemaSet {
        snapshot: parse_schema("@0xbf5147cbbecf40c1;\nenum Status {\n  enabled @0;\n}\n"),
        files: Vec::new(),
        node_paths: NameMap::new(),
        lints: Vec::new(),
    };

    let report = compare(&before, &after);

    assert_eq!(
        format_report(&report),
        "lint: Status.enum[0]\n  severity: error\n  reason: enum value name changed\n  detail: active -> enabled"
    );
}

#[test]
fn lints_method_name_changes() {
    let before = SchemaSet {
        snapshot: parse_schema("@0xbf5147cbbecf40c1;\ninterface Users {\n  get @0 (id :UInt64) -> (email :Text);\n}\n"),
        files: Vec::new(),
        node_paths: NameMap::new(),
        lints: Vec::new(),
    };
    let after = SchemaSet {
        snapshot: parse_schema("@0xbf5147cbbecf40c1;\ninterface Users {\n  fetch @0 (id :UInt64) -> (email :Text);\n}\n"),
        files: Vec::new(),
        node_paths: NameMap::new(),
        lints: Vec::new(),
    };

    let report = compare(&before, &after);

    assert_eq!(
        format_report(&report),
        "lint: Users.method[0]\n  severity: error\n  reason: method name changed\n  detail: get -> fetch"
    );
}

#[test]
fn lints_any_pointer_fields() {
    let before = SchemaSet::default();
    let after = SchemaSet {
        snapshot: parse_schema("@0xbf5147cbbecf40c1;\nstruct Envelope {\n  payload @0 :AnyPointer;\n}\n"),
        files: Vec::new(),
        node_paths: NameMap::new(),
        lints: Vec::new(),
    };

    let report = compare(&before, &after);

    assert_eq!(
        format_report(&report),
        "lint: Envelope.field[0]\n  severity: warning\n  reason: field uses AnyPointer\n  detail: payload: AnyPointer"
    );
}

#[test]
fn lints_any_pointer_method_parameters() {
    let before = SchemaSet::default();
    let after = SchemaSet {
        snapshot: parse_schema("@0xbf5147cbbecf40c1;\ninterface Store {\n  put @0 (payload :AnyPointer) -> (ok :Bool);\n}\n"),
        files: Vec::new(),
        node_paths: NameMap::new(),
        lints: Vec::new(),
    };

    let report = compare(&before, &after);

    assert_eq!(
        format_report(&report),
        "lint: Store.method[0]\n  severity: warning\n  reason: method parameter uses AnyPointer\n  detail: put (payload :AnyPointer) -> (ok :Bool)"
    );
}

#[test]
fn lints_any_pointer_method_results() {
    let before = SchemaSet::default();
    let after = SchemaSet {
        snapshot: parse_schema("@0xbf5147cbbecf40c1;\ninterface Store {\n  get @0 (id :UInt64) -> (payload :AnyPointer);\n}\n"),
        files: Vec::new(),
        node_paths: NameMap::new(),
        lints: Vec::new(),
    };

    let report = compare(&before, &after);

    assert_eq!(
        format_report(&report),
        "lint: Store.method[0]\n  severity: warning\n  reason: method result uses AnyPointer\n  detail: get (id :UInt64) -> (payload :AnyPointer)"
    );
}
