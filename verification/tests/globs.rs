//! Glob patterns and the files that sources select.

use captain::discover::{
    discover_capnp_files, discover_capnp_sources, DiscoveredSources, Source, Walk,
};
use captain::glob::{
    glob_base, glob_component_match, glob_matches, glob_selects, has_glob_meta,
    materialization_root,
};
use captain::Error;

fn chars(text: &str) -> Vec<char> {
    text.chars().collect()
}

fn fits(pattern: &str, candidate: &str) -> bool {
    glob_matches(&chars(pattern), &chars(candidate))
}

fn base(pattern: &str) -> String {
    glob_base(&chars(pattern)).into_iter().collect()
}

fn texts(list: &[&str]) -> Vec<String> {
    list.iter().map(|text| (*text).to_owned()).collect()
}

fn source(name: &str, walk: Walk) -> Source {
    Source { name: name.to_owned(), walk }
}

fn directory(files: &[&str]) -> Walk {
    Walk::Directory(texts(files))
}

#[test]
fn operators_are_told_apart_from_plain_text() {
    assert!(has_glob_meta(&chars("a*")));
    assert!(has_glob_meta(&chars("?")));
    assert!(!has_glob_meta(&chars("a[b]")));
}

#[test]
fn question_marks_stand_for_one_character() {
    assert!(glob_component_match(&chars("a?c"), &chars("abc")));
    assert!(!glob_component_match(&chars("a?c"), &chars("ac")));
    assert!(!glob_component_match(&chars("a?"), &chars("abc")));
}

#[test]
fn stars_stand_for_any_text_in_a_component() {
    assert!(glob_component_match(&chars("*.capnp"), &chars("user.capnp")));
    assert!(glob_component_match(&chars("*.capnp"), &chars(".capnp")));
    assert!(glob_component_match(&chars("a*b*c"), &chars("aXbYbc")));
    assert!(!glob_component_match(&chars("a*b"), &chars("abc")));
    assert!(fits("schemas/*.capnp", "schemas/a.capnp"));
    assert!(!fits("schemas/*.capnp", "schemas/x/a.capnp"));
}

#[test]
fn double_stars_stand_for_any_run_of_components() {
    assert!(fits("schemas/**/*.capnp", "schemas/a.capnp"));
    assert!(fits("schemas/**/*.capnp", "schemas/x/y/a.capnp"));
    assert!(!fits("schemas/**/*.capnp", "other/a.capnp"));
    assert!(fits("**", "a/b/c"));
    assert!(!fits("a**/b", "a/x/b"));
}

#[test]
fn plain_patterns_fit_themselves_only() {
    assert!(fits("a/b.capnp", "a/b.capnp"));
    assert!(!fits("a/b.capnp", "./a/b.capnp"));
    assert!(!fits("a/b.capnp", "a//b.capnp"));
}

#[test]
fn bases_are_the_plain_front_of_a_pattern() {
    assert_eq!(base("schemas/**/*.capnp"), "schemas");
    assert_eq!(base("a//b/./c?/d"), "a/b");
    assert_eq!(base("*.capnp"), ".");
    assert_eq!(base("/*/a"), "/");
    assert_eq!(base("../x/*"), "../x");
    assert_eq!(base("./*"), ".");
    assert_eq!(materialization_root("a//b/*"), "a/b");
    assert_eq!(materialization_root("a//b"), "a//b");
}

#[test]
fn what_fits_lies_under_the_base() {
    for (pattern, candidate) in [("x/**/*.capnp", "x/y/a.capnp"), ("/x/*", "/x/a")] {
        assert!(fits(pattern, candidate));
        assert!(std::path::Path::new(candidate).starts_with(base(pattern)));
    }
}

#[test]
fn directories_select_the_schema_files_under_them() {
    let found = discover_capnp_sources(&[source(
        "x",
        directory(&["x/b.capnp", "x/readme.md", "x/a/c.capnp", "x/.capnp"]),
    )]);
    assert_eq!(
        found,
        Ok(DiscoveredSources {
            files: texts(&["x/a/c.capnp", "x/b.capnp"]),
            import_roots: texts(&["x"]),
            duplicate_files: vec![],
        })
    );
}

#[test]
fn files_select_themselves_and_import_from_their_directory() {
    let found = discover_capnp_sources(&[
        source("y/b.capnp", Walk::File),
        source("x/notes.txt", Walk::File),
        source("a.capnp", Walk::File),
    ]);
    assert_eq!(
        found,
        Ok(DiscoveredSources {
            files: texts(&["a.capnp", "y/b.capnp"]),
            import_roots: texts(&["", "y"]),
            duplicate_files: vec![],
        })
    );
}

#[test]
fn patterns_select_what_fits() {
    let found = discover_capnp_sources(&[source(
        "x/*.capnp",
        directory(&["x/b.capnp", "x/a/c.capnp", "x/b.txt"]),
    )]);
    assert_eq!(
        found,
        Ok(DiscoveredSources {
            files: texts(&["x/b.capnp"]),
            import_roots: texts(&["x"]),
            duplicate_files: vec![],
        })
    );
}

#[test]
fn files_selected_twice_are_set_apart() {
    let found = discover_capnp_sources(&[
        source("x/**", directory(&["x/a.capnp", "x/b.capnp"])),
        source("x/./a.capnp", Walk::File),
    ])
    .unwrap();
    assert_eq!(found.files, texts(&["x/a.capnp", "x/b.capnp"]));
    assert_eq!(found.duplicate_files, texts(&["x/./a.capnp"]));
    assert_eq!(found.import_roots, texts(&["x"]));
}

#[test]
fn patterns_have_to_select_something() {
    let found = discover_capnp_sources(&[
        source("y/a.capnp", Walk::File),
        source("x/*.capnp", directory(&[])),
    ]);
    assert_eq!(found, Err(Error::NoSchemas("x/*.capnp".to_owned())));
}

#[test]
fn sources_have_to_select_something_together() {
    let found =
        discover_capnp_sources(&[source("x", directory(&["x/a.txt"])), source("y", Walk::File)]);
    assert_eq!(found, Err(Error::NoSchemas("x, y".to_owned())));
}

#[test]
fn the_first_failure_ends_the_search() {
    let failed = |path: &str| Walk::Failed { path: path.to_owned(), message: "gone".to_owned() };
    let found = discover_capnp_sources(&[
        source("a.capnp", Walk::File),
        source("x", failed("x/inner")),
        source("y/*", directory(&[])),
    ]);
    assert_eq!(
        found,
        Err(Error::Io { path: "x/inner".to_owned(), source: "gone".to_owned() })
    );
}

#[test]
fn a_single_source_gives_its_files() {
    assert_eq!(
        discover_capnp_files(source("x", directory(&["x/b.capnp", "x/a.capnp"]))),
        Ok(texts(&["x/a.capnp", "x/b.capnp"]))
    );
    assert_eq!(
        discover_capnp_files(source("x", directory(&[]))),
        Err(Error::NoSchemas("x".to_owned()))
    );
}

#[test]
fn patterns_without_a_base_select_in_the_current_directory() {
    let found = discover_capnp_sources(&[source(
        "*.capnp",
        directory(&["./user.capnp", "./x/inner.capnp", "./notes.txt"]),
    )]);
    assert_eq!(
        found,
        Ok(DiscoveredSources {
            files: texts(&["./user.capnp"]),
            import_roots: texts(&["."]),
            duplicate_files: vec![],
        })
    );
    let found =
        discover_capnp_sources(&[source("**/*.capnp", directory(&["./a.capnp", "./x/b.capnp"]))]);
    assert_eq!(found.unwrap().files, texts(&["./a.capnp", "./x/b.capnp"]));
}

#[test]
fn only_patterns_without_a_base_pass_over_the_current_directory() {
    let selects = |pattern: &str, file: &str| glob_selects(&chars(pattern), &chars(file));
    assert!(selects("*.capnp", "./user.capnp"));
    assert!(selects("*/a.capnp", "./x/a.capnp"));
    assert!(!selects("*/a.capnp", "./a.capnp"));
    assert!(selects("**/a.capnp", "./a.capnp"));
    assert!(selects("./*.capnp", "./user.capnp"));
    assert!(selects("x/*.capnp", "x/a.capnp"));
    assert!(!selects("x/*.capnp", "./x/a.capnp"));
    assert!(!selects("*.capnp", "../user.capnp"));
}

#[test]
fn the_order_of_sources_does_not_matter() {
    let a = || source("x", directory(&["x/b.capnp", "x/a.capnp"]));
    let b = || source("x/*.capnp", directory(&["x/a.capnp", "x/b.capnp"]));
    let c = || source("y/c.capnp", Walk::File);
    let expected = DiscoveredSources {
        files: texts(&["x/a.capnp", "x/b.capnp", "y/c.capnp"]),
        import_roots: texts(&["x", "y"]),
        duplicate_files: texts(&["x/a.capnp", "x/b.capnp"]),
    };
    assert_eq!(discover_capnp_sources(&[a(), b(), c()]).unwrap(), expected);
    assert_eq!(discover_capnp_sources(&[c(), b(), a()]).unwrap(), expected);
    assert_eq!(discover_capnp_sources(&[b(), c(), a()]).unwrap(), expected);
}
