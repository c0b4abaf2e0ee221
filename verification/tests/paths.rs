//! Paths as texts against the paths of the standard library.

use captain::listing::sort_paths;
use captain::path::{
    common_file_root, components_of, is_schema_file, join_path, parent_of, path_to_slash,
    relative_schema_path, with_extension,
};
use std::path::{Path, PathBuf};

const SAMPLES: [&str; 32] = [
    "", "/", "//", ".", "..", "./", "/.", "/..", "a", "a/", "a/b", "a//b", "a/./b", "./a", "/a",
    "/a/b/", "../a", "a/..", "a/../b", "././a", ".//.", "a.capnp", ".capnp", "a/.capnp",
    "x/y.capnp", "x/y.capnp/", "x/y.capnp/.", "a.b.capnp", "a.CAPNP", "..capnp", "a.b", "..",
];

fn chars(text: &str) -> Vec<char> {
    text.chars().collect()
}

fn string(chars: Vec<char>) -> String {
    chars.into_iter().collect()
}

#[test]
fn components_are_those_of_the_standard_library() {
    for sample in SAMPLES {
        let expected: Vec<String> = Path::new(sample)
            .components()
            .map(|part| part.as_os_str().to_string_lossy().into_owned())
            .collect();
        let found: Vec<String> =
            components_of(&chars(sample)).into_iter().map(string).collect();
        assert_eq!(found, expected, "{sample:?}");
    }
}

#[test]
fn parents_are_those_of_the_standard_library() {
    for sample in SAMPLES {
        let expected = Path::new(sample).parent().map(|dir| dir.to_string_lossy().into_owned());
        assert_eq!(parent_of(&chars(sample)).map(string), expected, "{sample:?}");
    }
}

#[test]
fn joins_are_those_of_the_standard_library() {
    for dir in SAMPLES {
        for sample in SAMPLES {
            let expected = Path::new(dir).join(sample).to_string_lossy().into_owned();
            let found = string(join_path(&chars(dir), &chars(sample)));
            assert_eq!(found, expected, "{dir:?} {sample:?}");
        }
    }
}

#[test]
fn schema_files_are_told_by_their_extension() {
    for sample in SAMPLES {
        let expected =
            Path::new(sample).extension().is_some_and(|extension| extension == "capnp");
        assert_eq!(is_schema_file(&chars(sample)), expected, "{sample:?}");
    }
    assert!(is_schema_file(&chars("x/y.capnp")));
    assert!(!is_schema_file(&chars(".capnp")));
}

#[test]
fn relative_paths_are_those_of_the_standard_library() {
    for root in SAMPLES {
        for sample in SAMPLES {
            let file = Path::new(sample);
            let expected =
                file.strip_prefix(root).unwrap_or(file).to_string_lossy().replace('\\', "/");
            assert_eq!(relative_schema_path(sample, root), expected, "{sample:?} {root:?}");
        }
    }
    assert_eq!(relative_schema_path("r\\a\\b", "x"), "r/a/b");
}

#[test]
fn sorting_is_that_of_the_standard_library() {
    let given: Vec<String> = SAMPLES.iter().map(|sample| (*sample).to_owned()).collect();
    let mut expected: Vec<PathBuf> = SAMPLES.iter().map(PathBuf::from).collect();
    expected.sort();
    let mut repeated: Vec<String> = Vec::new();
    for i in 1..expected.len() {
        if expected[i - 1] == expected[i] {
            repeated.push(expected[i].to_string_lossy().into_owned());
        }
    }
    expected.dedup();
    let expected: Vec<String> =
        expected.iter().map(|path| path.to_string_lossy().into_owned()).collect();
    let (distinct, repeats) = sort_paths(&given);
    assert_eq!(distinct, expected);
    assert_eq!(repeats, repeated);
}

#[test]
fn sorting_keeps_the_first_writing() {
    let given = vec!["b".to_owned(), "a/./c".to_owned(), "a//c".to_owned(), "a/c".to_owned()];
    let (distinct, repeats) = sort_paths(&given);
    assert_eq!(distinct, vec!["a/./c".to_owned(), "b".to_owned()]);
    assert_eq!(repeats, vec!["a//c".to_owned(), "a/c".to_owned()]);
}

#[test]
fn nothing_is_repeated_among_distinct_paths() {
    let given = vec!["b".to_owned(), "a/c".to_owned(), "a".to_owned()];
    assert_eq!(sort_paths(&given).1, Vec::<String>::new());
}

#[test]
fn common_root_is_the_longest_shared_directory() {
    let root = |files: &[&str]| {
        let files: Vec<String> = files.iter().map(|file| (*file).to_owned()).collect();
        common_file_root(&files)
    };
    assert_eq!(root(&[]), "");
    assert_eq!(root(&["a.capnp"]), "");
    assert_eq!(root(&["x/y/a.capnp"]), "x/y");
    assert_eq!(root(&["x/y/a.capnp", "x/z/b.capnp"]), "x");
    assert_eq!(root(&["x//y/a.capnp", "x/y/b.capnp", "x/y/w/c.capnp"]), "x//y");
    assert_eq!(root(&["/x/a.capnp", "/y/b.capnp"]), "/");
    assert_eq!(root(&["/x/a.capnp", "y/b.capnp"]), "");
    assert_eq!(root(&["/", "x/a.capnp"]), "x");
    assert_eq!(root(&["xy/a.capnp", "x/a.capnp"]), "");
}

#[test]
fn backslashes_become_slashes() {
    assert_eq!(string(path_to_slash(&chars("a\\b/c"))), "a/b/c");
}

#[test]
fn files_are_their_common_root_and_the_relative_path() {
    let files: Vec<String> = ["/r/x/./a.capnp", "/r/x/y//b.capnp", "/r/x/y/z/c.capnp"]
        .iter()
        .map(|file| (*file).to_owned())
        .collect();
    let root = common_file_root(&files);
    assert_eq!(root, "/r/x");
    for file in &files {
        assert!(Path::new(file).starts_with(&root));
        let relative = relative_schema_path(file, &root);
        assert_eq!(Path::new(&root).join(relative), Path::new(file));
    }
}

#[test]
fn extensions_are_replaced_as_in_the_standard_library() {
    for sample in SAMPLES {
        let mut expected = PathBuf::from(sample);
        expected.set_extension("tar");
        assert_eq!(with_extension(sample, "tar"), expected.to_string_lossy(), "{sample:?}");
    }
    assert_eq!(with_extension("/t/x.y/after", "tar"), "/t/x.y/after.tar");
    assert_eq!(with_extension("/t/after.old", "tar"), "/t/after.tar");
}
