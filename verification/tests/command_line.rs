//! The command line and the modes of a check.

use captain::mode::{check_mode, prefix_sources, resolve, CheckMode, ResolvedCheck};
use captain::{parse_args, usage, CheckConfig, Error};

fn texts(list: &[&str]) -> Vec<String> {
    list.iter().map(|text| (*text).to_owned()).collect()
}

fn parsed(args: &[&str]) -> Result<CheckConfig, Error> {
    let mut all = texts(&["captain", "check"]);
    all.extend(texts(args));
    parse_args(all)
}

fn complaint(text: &str) -> Error {
    Error::Usage(format!("{text}\n\n{}", usage()))
}

fn mode(args: &[&str]) -> Result<CheckMode, Error> {
    check_mode(&parsed(args).unwrap())
}

fn empty() -> CheckConfig {
    CheckConfig {
        before: vec![],
        after: vec![],
        before_ref: None,
        after_ref: None,
        compare_ref: None,
        paths: vec![],
        import_paths: vec![],
    }
}

#[test]
fn usage_lists_the_three_modes() {
    assert_eq!(
        usage(),
        "usage:\n  captain check --before <path|glob>... --after <path|glob>... [-I <path>]...\n  captain check --before-ref <ref> --after-ref <ref> --path <path|glob>... [-I <path>]...\n  captain check --compare-ref <ref> --path <path|glob>... [-I <path>]..."
    );
}

#[test]
fn only_check_is_known() {
    assert_eq!(parse_args(vec![]), Err(Error::Usage(usage())));
    assert_eq!(parse_args(texts(&["captain"])), Err(Error::Usage(usage())));
    assert_eq!(parse_args(texts(&["captain", "help"])), Err(Error::Usage(usage())));
    assert_eq!(parsed(&[]), Ok(empty()));
}

#[test]
fn options_gather_their_arguments() {
    let config = parsed(&[
        "--before", "a", "b", "-I", "i", "--after", "c", "--before", "d", "-Ij", "--import-path",
        "-k", "-I", "",
    ]);
    assert_eq!(
        config,
        Ok(CheckConfig {
            before: texts(&["a", "b", "d"]),
            after: texts(&["c"]),
            import_paths: texts(&["i", "j", "-k", ""]),
            ..empty()
        })
    );
    let config = parsed(&[
        "--before-ref", "x", "--after-ref", "y", "--compare-ref", "z", "--compare-ref", "w",
        "--path", "p", "q",
    ]);
    assert_eq!(
        config,
        Ok(CheckConfig {
            before_ref: Some("x".to_owned()),
            after_ref: Some("y".to_owned()),
            compare_ref: Some("w".to_owned()),
            paths: texts(&["p", "q"]),
            ..empty()
        })
    );
}

#[test]
fn options_complain_about_missing_arguments() {
    for flag in ["--before", "--after", "--path"] {
        let expected = Err(complaint(&format!("{flag} requires a path or glob")));
        assert_eq!(parsed(&[flag]), expected);
        assert_eq!(parsed(&[flag, "-I", "x"]), expected);
    }
    for flag in ["--before-ref", "--after-ref", "--compare-ref"] {
        let expected = Err(complaint(&format!("{flag} requires a value")));
        assert_eq!(parsed(&[flag]), expected);
        assert_eq!(parsed(&[flag, "--path", "x"]), expected);
    }
    for flag in ["-I", "--import-path"] {
        assert_eq!(parsed(&[flag]), Err(complaint(&format!("{flag} requires a path"))));
    }
}

#[test]
fn unknown_arguments_are_refused() {
    assert_eq!(parsed(&["--what"]), Err(complaint("unknown argument: --what")));
    assert_eq!(parsed(&["x"]), Err(complaint("unknown argument: x")));
    assert_eq!(
        parsed(&["--before-ref", "a", "b"]),
        Err(complaint("unknown argument: b"))
    );
}

#[test]
fn file_system_mode_takes_both_sides() {
    assert_eq!(
        mode(&["--before", "a", "--after", "b", "-Ii"]),
        Ok(CheckMode::Filesystem(ResolvedCheck {
            before: texts(&["a"]),
            after: texts(&["b"]),
            before_import_paths: texts(&["i"]),
            after_import_paths: texts(&["i"]),
        }))
    );
    assert_eq!(mode(&["--after", "b"]), Err(complaint("missing --before")));
    assert_eq!(mode(&["--before", "b"]), Err(complaint("missing --after")));
    assert_eq!(mode(&[]), Err(complaint("missing --before")));
}

#[test]
fn reference_modes_take_paths() {
    assert_eq!(
        mode(&["--before-ref", "x", "--after-ref", "y", "--path", "p"]),
        Ok(CheckMode::GitRefs {
            before_ref: "x".to_owned(),
            after_ref: "y".to_owned(),
            paths: texts(&["p"]),
            import_paths: vec![],
        })
    );
    assert_eq!(
        mode(&["--compare-ref", "x", "--path", "p", "-Ii"]),
        Ok(CheckMode::CompareRef {
            compare_ref: "x".to_owned(),
            paths: texts(&["p"]),
            import_paths: texts(&["i"]),
        })
    );
    assert_eq!(mode(&["--after-ref", "y"]), Err(complaint("missing --before-ref")));
    assert_eq!(mode(&["--before-ref", "y"]), Err(complaint("missing --after-ref")));
    assert_eq!(
        mode(&["--before-ref", "x", "--after-ref", "y"]),
        Err(complaint("missing --path"))
    );
    assert_eq!(mode(&["--compare-ref", "x"]), Err(complaint("missing --path")));
    assert_eq!(
        mode(&["--path", "p"]),
        Err(complaint("--path requires --before-ref/--after-ref or --compare-ref"))
    );
}

#[test]
fn modes_do_not_mix() {
    let mixed = Err(complaint("cannot mix --before/--after with ref comparison flags"));
    assert_eq!(mode(&["--before", "a", "--before-ref", "x"]), mixed);
    assert_eq!(mode(&["--after", "a", "--compare-ref", "x"]), mixed);
    assert_eq!(mode(&["--after", "a", "--path", "x"]), mixed);
    assert_eq!(
        mode(&["--compare-ref", "x", "--after-ref", "y"]),
        Err(complaint("cannot mix --compare-ref with --before-ref/--after-ref"))
    );
}

#[test]
fn relative_sources_move_into_the_export() {
    assert_eq!(
        prefix_sources("/t/before", &texts(&["a/*.capnp", "/abs", "./b"])),
        texts(&["/t/before/a/*.capnp", "/abs", "/t/before/./b"])
    );
    assert_eq!(
        resolve("/b", "/a", &texts(&["p"]), &texts(&["i", "/j"])),
        ResolvedCheck {
            before: texts(&["/b/p"]),
            after: texts(&["/a/p"]),
            before_import_paths: texts(&["/b/i", "/j"]),
            after_import_paths: texts(&["/a/i", "/j"]),
        }
    );
}

#[test]
fn written_options_read_back() {
    let written = [
        CheckConfig {
            before: texts(&["a", "b c", ""]),
            after: texts(&["d"]),
            import_paths: texts(&["i", "-k", ""]),
            ..empty()
        },
        CheckConfig {
            before_ref: Some("x".to_owned()),
            after_ref: Some("y".to_owned()),
            paths: texts(&["p", "q/**"]),
            ..empty()
        },
        CheckConfig {
            compare_ref: Some("z".to_owned()),
            paths: texts(&["p"]),
            ..empty()
        },
    ];
    for config in written {
        let mut args: Vec<String> = vec![];
        for (flag, values) in
            [("--before", &config.before), ("--after", &config.after), ("--path", &config.paths)]
        {
            if !values.is_empty() {
                args.push(flag.to_owned());
                args.extend(values.iter().cloned());
            }
        }
        for (flag, value) in [
            ("--before-ref", &config.before_ref),
            ("--after-ref", &config.after_ref),
            ("--compare-ref", &config.compare_ref),
        ] {
            if let Some(value) = value {
                args.push(flag.to_owned());
                args.push(value.clone());
            }
        }
        for path in &config.import_paths {
            args.push("-I".to_owned());
            args.push(path.clone());
        }
        let args: Vec<&str> = args.iter().map(|arg| arg.as_str()).collect();
        assert_eq!(parsed(&args), Ok(config));
    }
}
