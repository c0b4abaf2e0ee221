//! From schema text to nodes and file ids.

use captain::file_id::{parse_file_id_statement, parse_file_metadata};
use captain::lexer::{statements, strip_comments};
use captain::parser::{
    parse_enum_value, parse_field, parse_method, parse_node_start, parse_schema_with_lints,
};
use captain::snapshot::{snapshot_files, snapshot_sources, FileText};
use captain::{parse_schema, Error, NodeKind};

fn chars(text: &str) -> Vec<char> {
    text.chars().collect()
}

fn rows(text: &str) -> Vec<String> {
    statements(&chars(text)).into_iter().map(|row| row.into_iter().collect()).collect()
}

#[test]
fn comments_reach_to_the_end_of_the_line() {
    let stripped: String =
        strip_comments(&chars("a # b // c\r\nd // e # f\ng / h\r\n")).into_iter().collect();
    assert_eq!(stripped, "a \nd \ng / h");
}

#[test]
fn statements_end_at_braces_and_semicolons() {
    assert_eq!(
        rows("struct A {\n  a @0\n\t :Text;  # first\n  }\n\n tail"),
        vec!["struct A {", "a @0 :Text;", "}", "tail"]
    );
    assert_eq!(rows(" \n ; "), vec![";"]);
    assert_eq!(rows("a}"), vec!["a", "}"]);
    assert_eq!(rows(""), Vec::<String>::new());
}

#[test]
fn statements_hold_nothing_of_comments() {
    for row in rows("a # ; b\n; # c { d\nstruct X { # }\n}") {
        assert!(!row.contains('#'));
        assert_eq!(row.trim(), row);
    }
}

#[test]
fn node_starts_name_a_kind_and_a_node() {
    assert_eq!(
        parse_node_start(&chars("struct  User $anno {")),
        Some((NodeKind::Struct, "User".to_owned()))
    );
    assert_eq!(parse_node_start(&chars("enum E{")), Some((NodeKind::Enum, "E".to_owned())));
    assert_eq!(
        parse_node_start(&chars("interface I {")),
        Some((NodeKind::Interface, "I".to_owned()))
    );
    assert_eq!(parse_node_start(&chars("union {")), None);
    assert_eq!(parse_node_start(&chars("struct {")), None);
    assert_eq!(parse_node_start(&chars("struct User")), None);
}

#[test]
fn fields_have_an_ordinal_a_type_and_maybe_a_default() {
    let (ordinal, field) = parse_field(&chars("size @ 3 :List(Text) = [\"a=b\"];")).unwrap();
    assert_eq!(ordinal, 3);
    assert_eq!(field.name, "size");
    assert_eq!(field.ty, "List(Text)");
    assert_eq!(field.default, Some("[\"a=b\"]".to_owned()));
    let (_, field) = parse_field(&chars("x @0 :Bool = ;")).unwrap();
    assert_eq!(field.default, None);
    for none in [
        "using X @0 :Y;",
        "const x @0 :Y;",
        "annotation x @0 :Y;",
        "union @0 :Y;",
        "@0 :Text;",
        "x :Text;",
        "x @0;",
        "x @a :Text;",
        "x @4294967296 :Text;",
        "x @0 : ;",
    ] {
        assert_eq!(parse_field(&chars(none)), None, "{none:?}");
    }
    assert!(parse_field(&chars("unions @0 :Y;")).is_some());
}

#[test]
fn enum_values_have_an_ordinal() {
    let (ordinal, value) = parse_enum_value(&chars("active @ 7 ;;")).unwrap();
    assert_eq!(ordinal, 7);
    assert_eq!(value.name, "active");
    assert_eq!(parse_enum_value(&chars("@1;")), None);
    assert_eq!(parse_enum_value(&chars("active;")), None);
    assert_eq!(parse_enum_value(&chars("active @1 $x;")), None);
}

#[test]
fn methods_have_an_ordinal_and_a_signature() {
    let (ordinal, method) = parse_method(&chars("get @12(id :UInt64) -> (x :Text);")).unwrap();
    assert_eq!(ordinal, 12);
    assert_eq!(method.name, "get");
    assert_eq!(method.signature, "(id :UInt64) -> (x :Text)");
    assert_eq!(parse_method(&chars("get @12;")), None);
    assert_eq!(parse_method(&chars("get @x (a);")), None);
    assert_eq!(parse_method(&chars("@0 (a);")), None);
}

#[test]
fn nested_nodes_have_full_names() {
    let snapshot = parse_schema(
        "struct A {\n  a @0 :B;\n  struct B {\n    b @0 :Text;\n  }\n  c @1 :Text;\n}\nenum C { d @0; }",
    );
    let a = snapshot.nodes.get("A").unwrap();
    assert_eq!(a.fields.len(), 2);
    assert_eq!(a.fields[&1].name, "c");
    assert_eq!(snapshot.nodes.get("A.B").unwrap().fields[&0].ty, "Text");
    assert_eq!(snapshot.nodes.get("C").unwrap().kind, NodeKind::Enum);
    assert_eq!(snapshot.nodes.len(), 3);
}

#[test]
fn the_first_definition_of_a_node_stays() {
    let parsed = parse_schema_with_lints(
        "struct A {\n  a @0 :Text;\n}\nenum A {\n  b @0;\n}\nstruct A {\n  c @0 :Data;\n  d @1 :Data;\n}",
    );
    let node = parsed.snapshot.nodes.get("A").unwrap();
    assert_eq!(node.kind, NodeKind::Struct);
    assert_eq!(node.fields[&0].name, "a");
    assert_eq!(node.fields[&1].name, "d");
    assert_eq!(node.enum_values[&0].name, "b");
    let reasons: Vec<&str> = parsed.lints.iter().map(|lint| lint.reason.as_str()).collect();
    assert_eq!(
        reasons,
        vec![
            "node name is defined multiple times",
            "node name is defined multiple times",
            "field ordinal is defined multiple times",
        ]
    );
}

#[test]
fn taken_names_and_ordinals_are_both_remarked() {
    let parsed = parse_schema_with_lints("struct A { a @1 :X; a @0 :X; a @0 :X; }");
    let details: Vec<String> =
        parsed.lints.iter().map(|lint| lint.detail.clone().unwrap()).collect();
    assert_eq!(
        details,
        vec!["a also used by field[1]", "a also used by field[0]", "a and a"]
    );
}

#[test]
fn enums_and_methods_keep_their_first_ordinals() {
    let parsed = parse_schema_with_lints(
        "enum E { a @0; b @0; }\ninterface I { f @0 (a); g @0 (b); }",
    );
    assert_eq!(parsed.snapshot.nodes.get("E").unwrap().enum_values[&0].name, "a");
    assert_eq!(parsed.snapshot.nodes.get("I").unwrap().methods[&0].name, "f");
    let reasons: Vec<&str> = parsed.lints.iter().map(|lint| lint.reason.as_str()).collect();
    assert_eq!(
        reasons,
        vec!["enum ordinal is defined multiple times", "method ordinal is defined multiple times"]
    );
}

#[test]
fn stray_closing_braces_are_ignored() {
    let snapshot = parse_schema("}\na @0 :Text;\nstruct A {\n a @0 :Text;\n}\n}\nstruct B {");
    assert_eq!(snapshot.nodes.len(), 2);
    assert_eq!(snapshot.nodes.get("A").unwrap().fields.len(), 1);
}

#[test]
fn file_ids_are_sixteen_hexadecimal_digits() {
    let id = |text: &str| parse_file_id_statement(&chars(text));
    assert_eq!(id(" @0xBF5147CBBECF40C1 ;"), Some("@0xbf5147cbbecf40c1".to_owned()));
    assert_eq!(id("@0xbf5147cbbecf40c1"), Some("@0xbf5147cbbecf40c1".to_owned()));
    assert_eq!(id("@0xbf5147cbbecf40c"), None);
    assert_eq!(id("@0xbf5147cbbecf40c1a"), None);
    assert_eq!(id("@0xbf5147cbbecf40cg"), None);
    assert_eq!(id("0xbf5147cbbecf40c1"), None);
}

#[test]
fn the_first_file_id_stays() {
    let metadata = parse_file_metadata("@0xBF5147CBBECF40C1;\n@0xaf5147cbbecf40c1;\n@x;");
    assert_eq!(metadata.file_id, Some("@0xbf5147cbbecf40c1".to_owned()));
    assert_eq!(metadata.lints.len(), 2);
    assert_eq!(metadata.lints[1].detail, Some("@x;".to_owned()));
}

#[test]
fn the_first_unreadable_file_fails() {
    let files = [
        FileText { path: "x/a.capnp".to_owned(), text: Ok(String::new()) },
        FileText { path: "x/b.capnp".to_owned(), text: Err("denied".to_owned()) },
        FileText { path: "x/c.capnp".to_owned(), text: Err("gone".to_owned()) },
    ];
    let expected = Error::Io { path: "x/b.capnp".to_owned(), source: "denied".to_owned() };
    assert_eq!(snapshot_files(&files), Err(expected.clone()));
    assert_eq!(snapshot_sources(&files, &[]), Err(expected));
}

#[test]
fn nodes_come_from_the_files_that_define_them() {
    let files = [
        FileText {
            path: "x/a.capnp".to_owned(),
            text: Ok("@0xbf5147cbbecf40c1;\nstruct A { }".to_owned()),
        },
        FileText { path: "x/y/b.capnp".to_owned(), text: Ok("struct A { }\nstruct B { }".to_owned()) },
    ];
    let set = snapshot_files(&files).unwrap();
    assert_eq!(set.node_paths.get("A"), Some(&"a.capnp".to_owned()));
    assert_eq!(set.node_paths.get("B"), Some(&"y/b.capnp".to_owned()));
    assert_eq!(set.files[0].file_id, Some("@0xbf5147cbbecf40c1".to_owned()));
    assert_eq!(set.files[1].path, "x/y/b.capnp");
    assert_eq!(set.files[1].relative_path, "y/b.capnp");
    assert_eq!(set.files[1].file_id, None);
}

#[test]
fn blocks_leave_their_node_open() {
    let snapshot = parse_schema(
        "struct S {\n  shape :union {\n    a @0 :Text;\n    b :group { d @2 :Text; }\n  }\n  c @1 :Bool;\n  struct T {\n    union { e @0 :Text; }\n    f @1 :Text;\n  }\n  g @3 :T;\n}\nstruct U { h @0 :Text; }",
    );
    let ordinals = |node: &str| -> Vec<u32> {
        snapshot.nodes.get(node).unwrap().fields.keys().copied().collect()
    };
    assert_eq!(ordinals("S"), vec![0, 1, 2, 3]);
    assert_eq!(ordinals("S.T"), vec![0, 1]);
    assert_eq!(ordinals("U"), vec![0]);
    assert_eq!(snapshot.nodes.len(), 3);
}

#[test]
fn blocks_outside_of_nodes_hold_nothing() {
    let snapshot = parse_schema("union { a @0 :Text; }\nstruct S { b @0 :Text; }");
    assert_eq!(snapshot.nodes.len(), 1);
    assert_eq!(snapshot.nodes.get("S").unwrap().fields[&0].name, "b");
}

#[test]
fn comments_declare_nothing() {
    let text = "@0xbf5147cbbecf40c1; # @0xaf5147cbbecf40c1;\n# struct X {\nstruct A { // struct Y {\r\n  a @0 :Text; # b @1 :Text;\n  // c @2 :Text;\n}\n";
    let stripped: String = strip_comments(&chars(text)).into_iter().collect();
    assert_eq!(parse_schema(text), parse_schema(&stripped));
    assert_eq!(statements(&chars(text)), statements(&chars(&stripped)));
    assert_eq!(strip_comments(&chars(&stripped)), chars(&stripped));
    assert_eq!(parse_file_metadata(text), parse_file_metadata(&stripped));
    assert_eq!(rows(text), vec!["@0xbf5147cbbecf40c1;", "struct A {", "a @0 :Text;", "}"]);
}
