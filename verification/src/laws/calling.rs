//! How the program is called, and what a call asks for.

use crate::config;
use crate::config::ConfigView;
use crate::mode;
use crate::mode::ModeView;
use crate::path;
use crate::schema::ErrorView;
use crate::text;
use vstd::prelude::*;

verus! {

/// What is shown to who calls the program in a wrong way.
pub open spec fn help() -> Seq<char> {
    "usage:\n  captain check --before <path|glob>... --after <path|glob>... [-I <path>]...\n  captain check --before-ref <ref> --after-ref <ref> --path <path|glob>... [-I <path>]...\n  captain check --compare-ref <ref> --path <path|glob>... [-I <path>]..."@
}

/// A complaint about a call, with how to do it right after an empty line.
pub open spec fn complaint(what: Seq<char>) -> ErrorView {
    ErrorView::Usage(what + "\n\n"@ + help())
}

/// Whether an argument starts with a dash.
pub open spec fn dash(arg: Seq<char>) -> bool {
    arg.len() > 0 && arg[0] == '-'
}

/// Whether no argument starts with a dash.
pub open spec fn no_dash(args: Seq<Seq<char>>) -> bool {
    forall|i: int| 0 <= i < args.len() ==> !dash(#[trigger] args[i])
}

/// Whether there are no arguments, or the first starts with a dash.
pub open spec fn over(args: Seq<Seq<char>>) -> bool {
    args.len() == 0 || dash(args[0])
}

/// A configuration in which nothing is asked for.
pub open spec fn nothing_asked() -> ConfigView {
    ConfigView {
        before: Seq::empty(),
        after: Seq::empty(),
        before_ref: None,
        after_ref: None,
        compare_ref: None,
        paths: Seq::empty(),
        import_paths: Seq::empty(),
    }
}

proof fn lemma_dash(arg: Seq<char>)
    ensures
        config::dashed(arg) <==> dash(arg),
{
    reveal_strlit("-");
    if arg.len() > 0 {
        assert(arg.take(1)[0] == arg[0]);
        if arg[0] == '-' {
            assert(arg.take(1) =~= "-"@);
        }
    }
}

proof fn lemma_run(values: Seq<Seq<char>>, rest: Seq<Seq<char>>)
    requires
        no_dash(values),
        over(rest),
    ensures
        config::run(values + rest) == values,
    decreases values.len(),
{
    let all = values + rest;
    if values.len() == 0 {
        assert(all =~= rest);
        if rest.len() > 0 {
            lemma_dash(rest[0]);
        }
    } else {
        let later = values.drop_first();
        lemma_dash(values[0]);
        assert(!dash(values[0]));
        assert forall|i: int| 0 <= i < later.len() implies !dash(#[trigger] later[i]) by {
            assert(!dash(values[i + 1]));
        }
        lemma_run(later, rest);
        assert(all.drop_first() =~= later + rest);
        assert(config::run(all) =~= values);
    }
}

/// A call that is not for a check gets to see how to call.
pub proof fn law_only_checks_are_called(args: Seq<Seq<char>>)
    requires
        args.len() < 2 || args[1] != "check"@,
    ensures
        config::config_of(args) == Err::<ConfigView, ErrorView>(ErrorView::Usage(help())),
{
}

/// What a check is called with is read from the left, and starts with nothing asked for.
pub proof fn law_options_are_read_from_the_left(
    program: Seq<char>,
    rest: Seq<Seq<char>>,
    config: ConfigView,
)
    ensures
        config::config_of(seq![program].push("check"@) + rest) == config::options(
            nothing_asked(),
            rest,
        ),
        config::options(config, Seq::empty()) == Ok::<ConfigView, ErrorView>(config),
{
    let all = seq![program].push("check"@) + rest;
    assert(all[1] == "check"@);
    assert(all.skip(2) =~= rest);
}

/// The arguments behind `--before`, `--after` and `--path`, up to the next one with a dash,
/// are all taken, and in order, and join those that were given before.
pub proof fn law_sources_are_taken(
    config: ConfigView,
    values: Seq<Seq<char>>,
    rest: Seq<Seq<char>>,
)
    requires
        values.len() > 0,
        no_dash(values),
        over(rest),
    ensures
        config::options(config, seq!["--before"@] + values + rest) == config::options(
            ConfigView { before: config.before + values, ..config },
            rest,
        ),
        config::options(config, seq!["--after"@] + values + rest) == config::options(
            ConfigView { after: config.after + values, ..config },
            rest,
        ),
        config::options(config, seq!["--path"@] + values + rest) == config::options(
            ConfigView { paths: config.paths + values, ..config },
            rest,
        ),
{
    config::lemma_flags();
    lemma_run(values, rest);
    let n = 1 + values.len() as int;
    let a = seq!["--before"@] + values + rest;
    assert(a.drop_first() =~= values + rest);
    assert(a.skip(n) =~= rest);
    let b = seq!["--after"@] + values + rest;
    assert(b.drop_first() =~= values + rest);
    assert(b.skip(n) =~= rest);
    let c = seq!["--path"@] + values + rest;
    assert(c.drop_first() =~= values + rest);
    assert(c.skip(n) =~= rest);
}

/// The argument behind `--before-ref`, `--after-ref` and `--compare-ref` is taken, in place of
/// one that was given before.
pub proof fn law_references_are_taken(
    config: ConfigView,
    value: Seq<char>,
    rest: Seq<Seq<char>>,
)
    requires
        !dash(value),
    ensures
        config::options(config, seq!["--before-ref"@].push(value) + rest) == config::options(
            ConfigView { before_ref: Some(value), ..config },
            rest,
        ),
        config::options(config, seq!["--after-ref"@].push(value) + rest) == config::options(
            ConfigView { after_ref: Some(value), ..config },
            rest,
        ),
        config::options(config, seq!["--compare-ref"@].push(value) + rest) == config::options(
            ConfigView { compare_ref: Some(value), ..config },
            rest,
        ),
{
    config::lemma_flags();
    lemma_dash(value);
    let a = seq!["--before-ref"@].push(value) + rest;
    assert(a[1] == value && a.skip(2) =~= rest);
    let b = seq!["--after-ref"@].push(value) + rest;
    assert(b[1] == value && b.skip(2) =~= rest);
    let c = seq!["--compare-ref"@].push(value) + rest;
    assert(c[1] == value && c.skip(2) =~= rest);
}

/// The argument behind `-I` and `--import-path`, whatever it is, and what follows `-I` in the
/// same argument, is one more import path.
pub proof fn law_import_paths_are_taken(
    config: ConfigView,
    path: Seq<char>,
    rest: Seq<Seq<char>>,
)
    ensures
        ({
            let next = config::options(
                ConfigView { import_paths: config.import_paths.push(path), ..config },
                rest,
            );
            &&& config::options(config, seq!["-I"@].push(path) + rest) == next
            &&& config::options(config, seq!["--import-path"@].push(path) + rest) == next
            &&& path.len() > 0 ==> config::options(config, seq!["-I"@ + path] + rest) == next
        }),
{
    config::lemma_flags();
    lemma_flag_lengths();
    let a = seq!["-I"@].push(path) + rest;
    assert(a[1] == path && a.skip(2) =~= rest);
    let b = seq!["--import-path"@].push(path) + rest;
    assert(b[1] == path && b.skip(2) =~= rest);
    if path.len() > 0 {
        let flag = "-I"@ + path;
        let c = seq![flag] + rest;
        assert(c.skip(1) =~= rest);
        assert(flag[1] == 'I');
        assert(flag.take(2) =~= "-I"@);
        assert(flag.skip(2) =~= path);
    }
}

proof fn lemma_flag_lengths()
    ensures
        "-I"@.len() == 2 && "-I"@[0] == '-' && "-I"@[1] == 'I',
        "--before"@[1] == '-',
        "--after"@[1] == '-',
        "--before-ref"@[1] == '-',
        "--after-ref"@[1] == '-',
        "--compare-ref"@[1] == '-',
        "--path"@[1] == '-',
        "--import-path"@[1] == '-',
        "--import-path"@ != "--before"@,
        "--import-path"@ != "--after"@,
        "--import-path"@ != "--before-ref"@,
        "--import-path"@ != "--after-ref"@,
        "--import-path"@ != "--compare-ref"@,
        "--import-path"@ != "--path"@,
{
    reveal_strlit("-I");
    reveal_strlit("--before");
    reveal_strlit("--after");
    reveal_strlit("--before-ref");
    reveal_strlit("--after-ref");
    reveal_strlit("--compare-ref");
    reveal_strlit("--path");
    reveal_strlit("--import-path");
    assert("--import-path"@.len() == 13);
    assert("--import-path"@[2] == 'i');
    assert("--before"@.len() == 8);
    assert("--after"@.len() == 7);
    assert("--before-ref"@.len() == 12);
    assert("--after-ref"@.len() == 11);
    assert("--compare-ref"@[2] == 'c');
    assert("--path"@.len() == 6);
}

/// An option that has to be followed by something, and is not, is complained about.
pub proof fn law_missing_values_are_complained_about(config: ConfigView, rest: Seq<Seq<char>>)
    requires
        over(rest),
    ensures
        forall|flag: Seq<char>|
            #![trigger seq![flag]]
            flag == "--before"@ || flag == "--after"@ || flag == "--path"@ ==> config::options(
                config,
                seq![flag] + rest,
            ) == Err::<ConfigView, ErrorView>(complaint(flag + " requires a path or glob"@)),
        forall|flag: Seq<char>|
            #![trigger seq![flag]]
            flag == "--before-ref"@ || flag == "--after-ref"@ || flag == "--compare-ref"@
                ==> config::options(config, seq![flag] + rest) == Err::<ConfigView, ErrorView>(
                complaint(flag + " requires a value"@),
            ),
        forall|flag: Seq<char>|
            #![trigger seq![flag]]
            flag == "-I"@ || flag == "--import-path"@ ==> config::options(config, seq![flag])
                == Err::<ConfigView, ErrorView>(complaint(flag + " requires a path"@)),
{
    config::lemma_flags();
    lemma_flag_lengths();
    lemma_run(Seq::empty(), rest);
    assert(Seq::<Seq<char>>::empty() + rest =~= rest);
    if rest.len() > 0 {
        lemma_dash(rest[0]);
    }
    assert forall|flag: Seq<char>|
        #![trigger seq![flag]]
        flag == "--before"@ || flag == "--after"@ || flag == "--path"@ implies config::options(
        config,
        seq![flag] + rest,
    ) == Err::<ConfigView, ErrorView>(complaint(flag + " requires a path or glob"@)) by {
        assert((seq![flag] + rest).drop_first() =~= rest);
    }
    assert forall|flag: Seq<char>|
        #![trigger seq![flag]]
        flag == "--before-ref"@ || flag == "--after-ref"@ || flag == "--compare-ref"@ implies
        config::options(config, seq![flag] + rest) == Err::<ConfigView, ErrorView>(
        complaint(flag + " requires a value"@),
    ) by {
        if rest.len() > 0 {
            assert((seq![flag] + rest)[1] == rest[0]);
        }
    }
}

/// An argument that is no option where one has to be is complained about.
pub proof fn law_unknown_arguments_are_complained_about(
    config: ConfigView,
    arg: Seq<char>,
    rest: Seq<Seq<char>>,
)
    requires
        arg != "--before"@,
        arg != "--after"@,
        arg != "--before-ref"@,
        arg != "--after-ref"@,
        arg != "--compare-ref"@,
        arg != "--path"@,
        arg != "--import-path"@,
        !(arg.len() >= 2 && arg[0] == '-' && arg[1] == 'I'),
    ensures
        config::options(config, seq![arg] + rest) == Err::<ConfigView, ErrorView>(
            complaint("unknown argument: "@ + arg),
        ),
{
    lemma_flag_lengths();
    let all = seq![arg] + rest;
    assert(all[0] == arg);
    if text::starts_with(arg, "-I"@) {
        assert(arg.take(2)[0] == '-' && arg.take(2)[1] == 'I');
    }
    assert(arg != "-I"@);
}

/// Whether a configuration names sources of the two sides.
pub open spec fn names_sources(config: ConfigView) -> bool {
    config.before.len() > 0 || config.after.len() > 0
}

/// Whether a configuration names one of the references to compare.
pub open spec fn names_references(config: ConfigView) -> bool {
    config.before_ref is Some || config.after_ref is Some
}

/// Files are compared with files exactly if both sides are named and nothing else is.
pub proof fn law_files_are_compared(config: ConfigView)
    ensures
        mode::mode_of(config) matches Ok(ModeView::Filesystem(_)) <==> {
            &&& config.before.len() > 0
            &&& config.after.len() > 0
            &&& config.before_ref is None
            &&& config.after_ref is None
            &&& config.compare_ref is None
            &&& config.paths.len() == 0
        },
        mode::mode_of(config) matches Ok(ModeView::Filesystem(resolved)) ==> {
            &&& resolved.before == config.before
            &&& resolved.after == config.after
            &&& resolved.before_import_paths == config.import_paths
            &&& resolved.after_import_paths == config.import_paths
        },
{
}

/// References are compared exactly if both are named, and paths, and nothing else is.
pub proof fn law_references_are_compared(config: ConfigView)
    ensures
        mode::mode_of(config) is Ok && mode::mode_of(config)->Ok_0 is GitRefs <==> {
            &&& config.before.len() == 0
            &&& config.after.len() == 0
            &&& config.before_ref is Some
            &&& config.after_ref is Some
            &&& config.compare_ref is None
            &&& config.paths.len() > 0
        },
        mode::mode_of(config) matches Ok(
            ModeView::GitRefs { before_ref, after_ref, paths, import_paths },
        ) ==> {
            &&& config.before_ref == Some(before_ref)
            &&& config.after_ref == Some(after_ref)
            &&& paths == config.paths
            &&& import_paths == config.import_paths
        },
{
}

/// A reference is compared with the worktree exactly if it is named, and paths, and nothing
/// else is.
pub proof fn law_worktree_is_compared(config: ConfigView)
    ensures
        mode::mode_of(config) is Ok && mode::mode_of(config)->Ok_0 is CompareRef <==> {
            &&& config.before.len() == 0
            &&& config.after.len() == 0
            &&& config.before_ref is None
            &&& config.after_ref is None
            &&& config.compare_ref is Some
            &&& config.paths.len() > 0
        },
        mode::mode_of(config) matches Ok(
            ModeView::CompareRef { compare_ref, paths, import_paths },
        ) ==> {
            &&& config.compare_ref == Some(compare_ref)
            &&& paths == config.paths
            &&& import_paths == config.import_paths
        },
{
}

/// What is complained about where nothing can be compared: that things are mixed that exclude
/// each other or, if they are not, what is missing.
pub proof fn law_what_is_wrong_with_a_call(config: ConfigView)
    ensures
        ({
            let wrong = |what: Seq<char>|
                mode::mode_of(config) == Err::<ModeView, ErrorView>(complaint(what));
            let mixed = names_sources(config) && (names_references(config) || config.compare_ref
                is Some || config.paths.len() > 0);
            let both = names_references(config) && config.compare_ref is Some;
            &&& mixed ==> wrong("cannot mix --before/--after with ref comparison flags"@)
            &&& both && !mixed ==> wrong(
                "cannot mix --compare-ref with --before-ref/--after-ref"@,
            )
            &&& !mixed && !both && config.after_ref is Some && config.before_ref is None ==> wrong(
                "missing --before-ref"@,
            )
            &&& !mixed && !both && config.before_ref is Some && config.after_ref is None ==> wrong(
                "missing --after-ref"@,
            )
            &&& !mixed && !both && config.before_ref is Some && config.after_ref is Some
                && config.paths.len() == 0 ==> wrong("missing --path"@)
            &&& !mixed && !both && config.compare_ref is Some && config.paths.len() == 0 ==> wrong(
                "missing --path"@,
            )
            &&& !names_sources(config) && !names_references(config) && config.compare_ref is None
                && config.paths.len() > 0 ==> wrong(
                "--path requires --before-ref/--after-ref or --compare-ref"@,
            )
            &&& !names_references(config) && config.compare_ref is None && config.paths.len() == 0
                && config.before.len() == 0 ==> wrong("missing --before"@)
            &&& !names_references(config) && config.compare_ref is None && config.paths.len() == 0
                && config.before.len() > 0 && config.after.len() == 0 ==> wrong(
                "missing --after"@,
            )
        }),
{
}

/// What is taken out of a repository is looked for in the directory of its side, and each path
/// in turn.
pub proof fn law_paths_are_looked_for_on_each_side(
    before: Seq<char>,
    after: Seq<char>,
    paths: Seq<Seq<char>>,
    import_paths: Seq<Seq<char>>,
)
    ensures
        ({
            let resolved = mode::resolved_in(before, after, paths, import_paths);
            &&& resolved.before.len() == paths.len()
            &&& resolved.after.len() == paths.len()
            &&& resolved.before_import_paths.len() == import_paths.len()
            &&& resolved.after_import_paths.len() == import_paths.len()
            &&& forall|i: int|
                0 <= i < paths.len() ==> resolved.before[i] == path::within(
                    before,
                    #[trigger] paths[i],
                ) && resolved.after[i] == path::within(after, paths[i])
            &&& forall|i: int|
                0 <= i < import_paths.len() ==> resolved.before_import_paths[i] == path::within(
                    before,
                    #[trigger] import_paths[i],
                ) && resolved.after_import_paths[i] == path::within(after, import_paths[i])
        }),
{
}

} // verus!
