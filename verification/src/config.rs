//! The command line and the modes of a check.

use crate::schema;
use crate::schema::{pair_text, Error, ErrorView};
use crate::text;
use crate::text::{chars_of, has_prefix, same_text, string_of};
use vstd::prelude::*;
use vstd::slice::slice_subrange;

verus! {

/// What a command line asks for.
#[derive(Debug, Clone, PartialEq, Eq)]
pub struct CheckConfig {
    pub before: Vec<String>,
    pub after: Vec<String>,
    pub before_ref: Option<String>,
    pub after_ref: Option<String>,
    pub compare_ref: Option<String>,
    pub paths: Vec<String>,
    pub import_paths: Vec<String>,
}

/// A `CheckConfig` as texts.
#[verifier::ext_equal]
pub struct ConfigView {
    pub before: Seq<Seq<char>>,
    pub after: Seq<Seq<char>>,
    pub before_ref: Option<Seq<char>>,
    pub after_ref: Option<Seq<char>>,
    pub compare_ref: Option<Seq<char>>,
    pub paths: Seq<Seq<char>>,
    pub import_paths: Seq<Seq<char>>,
}

impl View for CheckConfig {
    type V = ConfigView;

    open spec fn view(&self) -> ConfigView {
        ConfigView {
            before: text::views(self.before@),
            after: text::views(self.after@),
            before_ref: text::view_of(self.before_ref),
            after_ref: text::view_of(self.after_ref),
            compare_ref: text::view_of(self.compare_ref),
            paths: text::views(self.paths@),
            import_paths: text::views(self.import_paths@),
        }
    }
}

/// How the program is called.
pub open spec fn usage_text() -> Seq<char> {
    "usage:\n  captain check --before <path|glob>... --after <path|glob>... [-I <path>]...\n  captain check --before-ref <ref> --after-ref <ref> --path <path|glob>... [-I <path>]...\n  captain check --compare-ref <ref> --path <path|glob>... [-I <path>]..."@
}

/// How the program is called.
pub fn usage() -> (message: String)
    ensures
        message@ == usage_text(),
{
    "usage:\n  captain check --before <path|glob>... --after <path|glob>... [-I <path>]...\n  captain check --before-ref <ref> --after-ref <ref> --path <path|glob>... [-I <path>]...\n  captain check --compare-ref <ref> --path <path|glob>... [-I <path>]...".to_owned()
}

/// A complaint, followed by how the program is called.
pub open spec fn usage_error_of(complaint: Seq<char>) -> ErrorView {
    ErrorView::Usage(complaint + "\n\n"@ + usage_text())
}

/// A complaint, followed by how the program is called.
pub fn usage_error(complaint: &str) -> (error: Error)
    ensures
        error@ == usage_error_of(complaint@),
{
    Error::Usage(pair_text(complaint, "\n\n", usage().as_str()))
}

/// A complaint about an argument, followed by how the program is called.
fn complain(start: &str, end: &str) -> (error: Error)
    ensures
        error@ == usage_error_of(start@ + end@),
{
    let mut complaint = start.to_owned();
    complaint.append(end);
    usage_error(complaint.as_str())
}

/// Nothing asked for yet.
pub open spec fn empty_config() -> ConfigView {
    ConfigView {
        before: Seq::empty(),
        after: Seq::empty(),
        before_ref: None,
        after_ref: None,
        compare_ref: None,
        paths: Seq::empty(),
        import_paths: Seq::empty(),
    }
}

/// Whether an argument starts as an option does.
pub open spec fn dashed(arg: Seq<char>) -> bool {
    text::starts_with(arg, "-"@)
}

/// The arguments in front that are no options.
pub open spec fn run(args: Seq<Seq<char>>) -> Seq<Seq<char>>
    decreases args.len(),
{
    if args.len() == 0 || dashed(args[0]) {
        Seq::empty()
    } else {
        seq![args[0]] + run(args.drop_first())
    }
}

/// The sources that follow an option. There has to be one.
pub open spec fn sources_after(args: Seq<Seq<char>>) -> Result<Seq<Seq<char>>, ErrorView> {
    let sources = run(args.drop_first());
    if sources.len() == 0 {
        Err(usage_error_of(args[0] + " requires a path or glob"@))
    } else {
        Ok(sources)
    }
}

/// The value that follows an option. It must not look like an option.
pub open spec fn value_after(args: Seq<Seq<char>>) -> Result<Seq<char>, ErrorView> {
    if args.len() < 2 || dashed(args[1]) {
        Err(usage_error_of(args[0] + " requires a value"@))
    } else {
        Ok(args[1])
    }
}

/// The path that follows an option.
pub open spec fn path_after(args: Seq<Seq<char>>) -> Result<Seq<char>, ErrorView> {
    if args.len() < 2 {
        Err(usage_error_of(args[0] + " requires a path"@))
    } else {
        Ok(args[1])
    }
}

/// What the option in front asks for, and how many arguments it takes.
pub open spec fn option_of(config: ConfigView, args: Seq<Seq<char>>) -> Result<
    (ConfigView, nat),
    ErrorView,
> {
    let flag = args[0];
    if flag == "--before"@ {
        match sources_after(args) {
            Ok(more) => Ok(
                (
                    ConfigView { before: config.before + more, ..config },
                    1 + more.len(),
                ),
            ),
            Err(error) => Err(error),
        }
    } else if flag == "--after"@ {
        match sources_after(args) {
            Ok(more) => Ok((ConfigView { after: config.after + more, ..config }, 1 + more.len())),
            Err(error) => Err(error),
        }
    } else if flag == "--before-ref"@ {
        match value_after(args) {
            Ok(value) => Ok((ConfigView { before_ref: Some(value), ..config }, 2)),
            Err(error) => Err(error),
        }
    } else if flag == "--after-ref"@ {
        match value_after(args) {
            Ok(value) => Ok((ConfigView { after_ref: Some(value), ..config }, 2)),
            Err(error) => Err(error),
        }
    } else if flag == "--compare-ref"@ {
        match value_after(args) {
            Ok(value) => Ok((ConfigView { compare_ref: Some(value), ..config }, 2)),
            Err(error) => Err(error),
        }
    } else if flag == "--path"@ {
        match sources_after(args) {
            Ok(more) => Ok((ConfigView { paths: config.paths + more, ..config }, 1 + more.len())),
            Err(error) => Err(error),
        }
    } else if flag == "-I"@ || flag == "--import-path"@ {
        match path_after(args) {
            Ok(path) => Ok(
                (ConfigView { import_paths: config.import_paths.push(path), ..config }, 2),
            ),
            Err(error) => Err(error),
        }
    } else if text::starts_with(flag, "-I"@) {
        Ok(
            (
                ConfigView { import_paths: config.import_paths.push(flag.skip(2)), ..config },
                1,
            ),
        )
    } else {
        Err(usage_error_of("unknown argument: "@ + flag))
    }
}

/// What options ask for on top of a configuration.
pub open spec fn options(config: ConfigView, args: Seq<Seq<char>>) -> Result<ConfigView, ErrorView>
    decreases args.len(),
    via options_shrink
{
    if args.len() == 0 {
        Ok(config)
    } else {
        match option_of(config, args) {
            Err(error) => Err(error),
            Ok((more, taken)) => options(more, args.skip(taken as int)),
        }
    }
}

proof fn lemma_run(args: Seq<Seq<char>>)
    ensures
        run(args).is_prefix_of(args),
        forall|i: int| 0 <= i < run(args).len() ==> !dashed(#[trigger] run(args)[i]),
        run(args).len() < args.len() ==> dashed(args[run(args).len() as int]),
    decreases args.len(),
{
    if args.len() > 0 && !dashed(args[0]) {
        let rest = args.drop_first();
        lemma_run(rest);
        assert(run(args) =~= args.take(run(args).len() as int));
        assert forall|i: int| 0 <= i < run(args).len() implies !dashed(#[trigger] run(args)[i]) by {
            if i > 0 {
                assert(run(args)[i] == run(rest)[i - 1]);
            }
        }
    }
}

#[via_fn]
proof fn options_shrink(config: ConfigView, args: Seq<Seq<char>>) {
    if args.len() > 0 {
        lemma_run(args.drop_first());
    }
}

/// What a command line asks for. Its first argument is the name of the program.
pub open spec fn config_of(args: Seq<Seq<char>>) -> Result<ConfigView, ErrorView> {
    if args.len() < 2 || args[1] != "check"@ {
        Err(ErrorView::Usage(usage_text()))
    } else {
        options(empty_config(), args.skip(2))
    }
}

fn is_dashed(arg: &str) -> (yes: bool)
    ensures
        yes == dashed(arg@),
{
    has_prefix(chars_of(arg).as_slice(), "-")
}

/// The value that follows the option at place `at`.
fn take_value(args: &[String], at: usize) -> (value: Result<String, Error>)
    requires
        at < args@.len(),
    ensures
        schema::outcome(value) == value_after(text::views(args@).skip(at as int)),
{
    let n: usize = args.len();
    let ghost rest = text::views(args@).skip(at as int);
    assert(rest[0] == args@[at as int]@);
    if n - at >= 2 {
        assert(rest[1] == args@[at + 1]@);
        if !is_dashed(args[at + 1].as_str()) {
            return Ok(args[at + 1].clone());
        }
    }
    Err(complain(args[at].as_str(), " requires a value"))
}

/// Appends the sources that follow the option at place `at`, and gives the place
/// behind them.
fn push_sources(target: &mut Vec<String>, args: &[String], at: usize) -> (next: Result<
    usize,
    Error,
>)
    requires
        at < args@.len(),
    ensures
        match (next, sources_after(text::views(args@).skip(at as int))) {
            (Ok(next), Ok(more)) => text::views(final(target)@) == text::views(old(target)@) + more
                && next == at + 1 + more.len() && next <= args@.len(),
            (Err(error), Err(expected)) => error@ == expected && *final(target) == *old(target),
            _ => false,
        },
{
    let ghost all = text::views(args@);
    let ghost more = run(all.skip(at as int).drop_first());
    let ghost before = text::views(target@);
    let n: usize = args.len();
    let mut next: usize = at + 1;
    proof {
        assert(all.skip(at as int).drop_first() =~= all.skip(at + 1));
        assert(all.subrange(at + 1, at + 1) =~= Seq::empty());
        assert(before + Seq::<Seq<char>>::empty() =~= before);
        assert(Seq::<Seq<char>>::empty() + more =~= more);
    }
    while next < n && !is_dashed(args[next].as_str())
        invariant
            at < next <= n == args@.len(),
            all == text::views(args@),
            more == all.subrange(at + 1, next as int) + run(all.skip(next as int)),
            text::views(target@) == before + all.subrange(at + 1, next as int),
            next == at + 1 ==> *target == *old(target),
        decreases n - next,
    {
        let source = args[next].clone();
        proof {
            schema::lemma_views_push(target@, source);
            let rest = all.skip(next as int);
            assert(rest[0] == source@);
            assert(rest.drop_first() =~= all.skip(next + 1));
            assert(all.subrange(at + 1, next + 1) =~= all.subrange(at + 1, next as int).push(
                source@,
            ));
            assert(more =~= all.subrange(at + 1, next + 1) + run(all.skip(next + 1)));
        }
        target.push(source);
        assert(text::views(target@) =~= before + all.subrange(at + 1, next + 1));
        next = next + 1;
    }
    proof {
        if next < n {
            assert(all.skip(next as int)[0] == args@[next as int]@);
        }
        assert(more =~= all.subrange(at + 1, next as int));
        assert(all.skip(at as int)[0] == args@[at as int]@);
    }
    if next == at + 1 {
        Err(complain(args[at].as_str(), " requires a path or glob"))
    } else {
        Ok(next)
    }
}

/// Takes the option at place `at`, and gives the place behind it.
fn take_option(config: &mut CheckConfig, args: &[String], at: usize) -> (next: Result<
    usize,
    Error,
>)
    requires
        at < args@.len(),
    ensures
        match (next, option_of(old(config)@, text::views(args@).skip(at as int))) {
            (Ok(next), Ok((more, taken))) => final(config)@ == more && next == at + taken && at
                < next <= args@.len(),
            (Err(error), Err(expected)) => error@ == expected,
            _ => false,
        },
{
    let ghost before = config@;
    let ghost rest = text::views(args@).skip(at as int);
    let n: usize = args.len();
    let flag = args[at].as_str();
    proof {
        assert(rest[0] == flag@);
        assert(rest.len() == n - at);
        reveal_strlit("-I");
        if rest.len() > 1 {
            assert(rest[1] == args@[at + 1]@);
        }
    }
    if same_text(flag, "--before") {
        let next = push_sources(&mut config.before, args, at);
        assert(config@ =~= (ConfigView { before: config@.before, ..before }));
        next
    } else if same_text(flag, "--after") {
        let next = push_sources(&mut config.after, args, at);
        assert(config@ =~= (ConfigView { after: config@.after, ..before }));
        next
    } else if same_text(flag, "--before-ref") {
        match take_value(args, at) {
            Ok(value) => {
                config.before_ref = Some(value);
                assert(config@ =~= (ConfigView { before_ref: Some(value@), ..before }));
                Ok(at + 2)
            },
            Err(error) => Err(error),
        }
    } else if same_text(flag, "--after-ref") {
        match take_value(args, at) {
            Ok(value) => {
                config.after_ref = Some(value);
                assert(config@ =~= (ConfigView { after_ref: Some(value@), ..before }));
                Ok(at + 2)
            },
            Err(error) => Err(error),
        }
    } else if same_text(flag, "--compare-ref") {
        match take_value(args, at) {
            Ok(value) => {
                config.compare_ref = Some(value);
                assert(config@ =~= (ConfigView { compare_ref: Some(value@), ..before }));
                Ok(at + 2)
            },
            Err(error) => Err(error),
        }
    } else if same_text(flag, "--path") {
        let next = push_sources(&mut config.paths, args, at);
        assert(config@ =~= (ConfigView { paths: config@.paths, ..before }));
        next
    } else if same_text(flag, "-I") || same_text(flag, "--import-path") {
        if n - at < 2 {
            return Err(complain(flag, " requires a path"));
        }
        let path = args[at + 1].clone();
        proof {
            schema::lemma_views_push(config.import_paths@, path);
        }
        config.import_paths.push(path);
        assert(config@ =~= (ConfigView {
            import_paths: before.import_paths.push(path@),
            ..before
        }));
        Ok(at + 2)
    } else {
        let chars = chars_of(flag);
        if has_prefix(chars.as_slice(), "-I") {
            let m: usize = chars.len();
            let path = string_of(slice_subrange(chars.as_slice(), 2, m));
            proof {
                schema::lemma_views_push(config.import_paths@, path);
                assert(path@ =~= flag@.skip(2));
            }
            config.import_paths.push(path);
            assert(config@ =~= (ConfigView {
                import_paths: before.import_paths.push(path@),
                ..before
            }));
            Ok(at + 1)
        } else {
            Err(complain("unknown argument: ", flag))
        }
    }
}

/// What a command line asks for. Its first argument is the name of the program.
pub fn parse_args(args: Vec<String>) -> (config: Result<CheckConfig, Error>)
    ensures
        schema::outcome(config) == config_of(text::views(args@)),
{
    let ghost all = text::views(args@);
    let n: usize = args.len();
    if n < 2 || !same_text(args[1].as_str(), "check") {
        return Err(Error::Usage(usage()));
    }
    let mut config = CheckConfig {
        before: Vec::new(),
        after: Vec::new(),
        before_ref: None,
        after_ref: None,
        compare_ref: None,
        paths: Vec::new(),
        import_paths: Vec::new(),
    };
    assert(config@ =~= empty_config());
    let mut at: usize = 2;
    while at < n
        invariant
            2 <= at <= n == args@.len(),
            all == text::views(args@),
            options(config@, all.skip(at as int)) == config_of(all),
        decreases n - at,
    {
        match take_option(&mut config, args.as_slice(), at) {
            Ok(next) => {
                assert(all.skip(at as int).skip(next - at) =~= all.skip(next as int));
                at = next;
            },
            Err(error) => return Err(error),
        }
    }
    Ok(config)
}

/// An option with the sources that follow it; nothing without sources.
pub open spec fn source_args(flag: Seq<char>, sources: Seq<Seq<char>>) -> Seq<Seq<char>> {
    if sources.len() == 0 {
        Seq::empty()
    } else {
        seq![flag] + sources
    }
}

/// An option with its value; nothing without a value.
pub open spec fn value_args(flag: Seq<char>, value: Option<Seq<char>>) -> Seq<Seq<char>> {
    match value {
        Some(value) => seq![flag].push(value),
        None => Seq::empty(),
    }
}

/// An option for each import path.
pub open spec fn import_args(paths: Seq<Seq<char>>) -> Seq<Seq<char>>
    decreases paths.len(),
{
    if paths.len() == 0 {
        Seq::empty()
    } else {
        seq!["-I"@].push(paths[0]) + import_args(paths.drop_first())
    }
}

/// The options that ask for a configuration.
pub open spec fn option_args(config: ConfigView) -> Seq<Seq<char>> {
    source_args("--before"@, config.before) + (source_args("--after"@, config.after) + (value_args(
        "--before-ref"@,
        config.before_ref,
    ) + (value_args("--after-ref"@, config.after_ref) + (value_args(
        "--compare-ref"@,
        config.compare_ref,
    ) + (source_args("--path"@, config.paths) + import_args(config.import_paths))))))
}

/// The command line that asks for a configuration.
pub open spec fn args_of(program: Seq<char>, config: ConfigView) -> Seq<Seq<char>> {
    seq![program].push("check"@) + option_args(config)
}

/// Whether none of the texts looks like an option.
pub open spec fn none_dashed(items: Seq<Seq<char>>) -> bool {
    forall|i: int| 0 <= i < items.len() ==> !dashed(#[trigger] items[i])
}

/// Whether nothing but import paths looks like an option.
pub open spec fn writable(config: ConfigView) -> bool {
    &&& none_dashed(config.before)
    &&& none_dashed(config.after)
    &&& none_dashed(config.paths)
    &&& config.before_ref matches Some(value) ==> !dashed(value)
    &&& config.after_ref matches Some(value) ==> !dashed(value)
    &&& config.compare_ref matches Some(value) ==> !dashed(value)
}

/// Whether arguments are over or go on with an option.
spec fn at_option(args: Seq<Seq<char>>) -> bool {
    args.len() == 0 || dashed(args[0])
}

/// What the options are called, and that no two of them are called the same.
pub proof fn lemma_flags()
    ensures
        dashed("--before"@),
        dashed("--after"@),
        dashed("--before-ref"@),
        dashed("--after-ref"@),
        dashed("--compare-ref"@),
        dashed("--path"@),
        dashed("-I"@),
        "--after"@ != "--before"@,
        "--before-ref"@ != "--before"@,
        "--before-ref"@ != "--after"@,
        "--after-ref"@ != "--before"@,
        "--after-ref"@ != "--after"@,
        "--after-ref"@ != "--before-ref"@,
        "--compare-ref"@ != "--before"@,
        "--compare-ref"@ != "--after"@,
        "--compare-ref"@ != "--before-ref"@,
        "--compare-ref"@ != "--after-ref"@,
        "--path"@ != "--before"@,
        "--path"@ != "--after"@,
        "--path"@ != "--before-ref"@,
        "--path"@ != "--after-ref"@,
        "--path"@ != "--compare-ref"@,
        "-I"@ != "--before"@,
        "-I"@ != "--after"@,
        "-I"@ != "--before-ref"@,
        "-I"@ != "--after-ref"@,
        "-I"@ != "--compare-ref"@,
        "-I"@ != "--path"@,
{
    reveal_strlit("-");
    reveal_strlit("--before");
    reveal_strlit("--after");
    reveal_strlit("--before-ref");
    reveal_strlit("--after-ref");
    reveal_strlit("--compare-ref");
    reveal_strlit("--path");
    reveal_strlit("-I");
    assert("--before"@.take(1) =~= "-"@);
    assert("--after"@.take(1) =~= "-"@);
    assert("--before-ref"@.take(1) =~= "-"@);
    assert("--after-ref"@.take(1) =~= "-"@);
    assert("--compare-ref"@.take(1) =~= "-"@);
    assert("--path"@.take(1) =~= "-"@);
    assert("-I"@.take(1) =~= "-"@);
    assert("--before"@.len() == 8);
    assert("--after"@.len() == 7);
    assert("--before-ref"@.len() == 12);
    assert("--after-ref"@.len() == 11);
    assert("--compare-ref"@.len() == 13);
    assert("--path"@.len() == 6);
    assert("-I"@.len() == 2);
}

proof fn lemma_run_is(items: Seq<Seq<char>>, rest: Seq<Seq<char>>)
    requires
        none_dashed(items),
        at_option(rest),
    ensures
        run(items + rest) == items,
    decreases items.len(),
{
    let all = items + rest;
    if items.len() == 0 {
        assert(all =~= rest);
    } else {
        let later = items.drop_first();
        assert(!dashed(items[0]));
        assert forall|i: int| 0 <= i < later.len() implies !dashed(#[trigger] later[i]) by {
            assert(!dashed(items[i + 1]));
        }
        lemma_run_is(later, rest);
        assert(all.drop_first() =~= later + rest);
        assert(run(all) =~= items);
    }
}

/// An option with its sources is read as these sources.
proof fn lemma_read_sources(
    config: ConfigView,
    flag: Seq<char>,
    sources: Seq<Seq<char>>,
    rest: Seq<Seq<char>>,
)
    requires
        flag == "--before"@ || flag == "--after"@ || flag == "--path"@,
        none_dashed(sources),
        at_option(rest),
    ensures
        options(config, source_args(flag, sources) + rest) == options(
            if flag == "--before"@ {
                ConfigView { before: config.before + sources, ..config }
            } else if flag == "--after"@ {
                ConfigView { after: config.after + sources, ..config }
            } else {
                ConfigView { paths: config.paths + sources, ..config }
            },
            rest,
        ),
{
    lemma_flags();
    let all = source_args(flag, sources) + rest;
    if sources.len() == 0 {
        assert(all =~= rest);
        assert(config.before + sources =~= config.before);
        assert(config.after + sources =~= config.after);
        assert(config.paths + sources =~= config.paths);
    } else {
        assert(all[0] == flag);
        assert(all.drop_first() =~= sources + rest);
        lemma_run_is(sources, rest);
        assert(all.skip(1 + sources.len() as int) =~= rest);
    }
}

/// An option with its value is read as this value.
proof fn lemma_read_value(
    config: ConfigView,
    flag: Seq<char>,
    value: Option<Seq<char>>,
    rest: Seq<Seq<char>>,
)
    requires
        flag == "--before-ref"@ || flag == "--after-ref"@ || flag == "--compare-ref"@,
        value matches Some(v) ==> !dashed(v),
    ensures
        value is None ==> options(config, value_args(flag, value) + rest) == options(config, rest),
        value is Some ==> options(config, value_args(flag, value) + rest) == options(
            if flag == "--before-ref"@ {
                ConfigView { before_ref: value, ..config }
            } else if flag == "--after-ref"@ {
                ConfigView { after_ref: value, ..config }
            } else {
                ConfigView { compare_ref: value, ..config }
            },
            rest,
        ),
{
    lemma_flags();
    let all = value_args(flag, value) + rest;
    match value {
        None => {
            assert(all =~= rest);
        },
        Some(v) => {
            assert(all[0] == flag);
            assert(all[1] == v);
            assert(all.skip(2) =~= rest);
        },
    }
}

/// Import paths are read as they are written.
proof fn lemma_read_imports(config: ConfigView, paths: Seq<Seq<char>>)
    ensures
        options(config, import_args(paths)) == Ok::<ConfigView, ErrorView>(
            ConfigView { import_paths: config.import_paths + paths, ..config },
        ),
    decreases paths.len(),
{
    lemma_flags();
    let all = import_args(paths);
    if paths.len() == 0 {
        assert(config.import_paths + paths =~= config.import_paths);
    } else {
        let rest = paths.drop_first();
        let more = ConfigView { import_paths: config.import_paths.push(paths[0]), ..config };
        lemma_read_imports(more, rest);
        assert(all[0] == "-I"@);
        assert(all[1] == paths[0]);
        assert(all.skip(2) =~= import_args(rest));
        assert(config.import_paths.push(paths[0]) + rest =~= config.import_paths + paths);
    }
}

proof fn lemma_at_option(flag: Seq<char>, rest: Seq<Seq<char>>)
    requires
        dashed(flag),
        at_option(rest),
    ensures
        forall|sources: Seq<Seq<char>>|
            at_option(#[trigger] source_args(flag, sources) + rest),
        forall|value: Option<Seq<char>>| at_option(#[trigger] value_args(flag, value) + rest),
{
    assert forall|sources: Seq<Seq<char>>| at_option(
        #[trigger] source_args(flag, sources) + rest,
    ) by {
        if sources.len() == 0 {
            assert(source_args(flag, sources) + rest =~= rest);
        } else {
            assert((source_args(flag, sources) + rest)[0] == flag);
        }
    }
    assert forall|value: Option<Seq<char>>| at_option(#[trigger] value_args(flag, value) + rest) by {
        if value is None {
            assert(value_args(flag, value) + rest =~= rest);
        } else {
            assert((value_args(flag, value) + rest)[0] == flag);
        }
    }
}

/// A configuration that is written as a command line is read back from it: nothing is
/// lost, reordered or moved to another option.
pub proof fn law_written_configuration_reads_back(program: Seq<char>, config: ConfigView)
    requires
        writable(config),
    ensures
        config_of(args_of(program, config)) == Ok::<ConfigView, ErrorView>(config),
{
    lemma_flags();
    let imports = import_args(config.import_paths);
    let from_path = source_args("--path"@, config.paths) + imports;
    let from_compare = value_args("--compare-ref"@, config.compare_ref) + from_path;
    let from_after_ref = value_args("--after-ref"@, config.after_ref) + from_compare;
    let from_before_ref = value_args("--before-ref"@, config.before_ref) + from_after_ref;
    let from_after = source_args("--after"@, config.after) + from_before_ref;
    assert(at_option(imports)) by {
        if config.import_paths.len() > 0 {
            assert(imports[0] == "-I"@);
        }
    }
    lemma_at_option("--path"@, imports);
    lemma_at_option("--compare-ref"@, from_path);
    lemma_at_option("--after-ref"@, from_compare);
    lemma_at_option("--before-ref"@, from_after_ref);
    lemma_at_option("--after"@, from_before_ref);
    let c0 = empty_config();
    let c1 = ConfigView { before: config.before, ..c0 };
    let c2 = ConfigView { after: config.after, ..c1 };
    let c3 = ConfigView { before_ref: config.before_ref, ..c2 };
    let c4 = ConfigView { after_ref: config.after_ref, ..c3 };
    let c5 = ConfigView { compare_ref: config.compare_ref, ..c4 };
    let c6 = ConfigView { paths: config.paths, ..c5 };
    assert(c0.before + config.before =~= config.before);
    assert(c1.after + config.after =~= config.after);
    assert(c5.paths + config.paths =~= config.paths);
    assert(c6.import_paths + config.import_paths =~= config.import_paths);
    lemma_read_sources(c0, "--before"@, config.before, from_after);
    lemma_read_sources(c1, "--after"@, config.after, from_before_ref);
    lemma_read_value(c2, "--before-ref"@, config.before_ref, from_after_ref);
    lemma_read_value(c3, "--after-ref"@, config.after_ref, from_compare);
    lemma_read_value(c4, "--compare-ref"@, config.compare_ref, from_path);
    lemma_read_sources(c5, "--path"@, config.paths, imports);
    lemma_read_imports(c6, config.import_paths);
    let args = args_of(program, config);
    assert(args[1] == "check"@);
    assert(args.skip(2) =~= option_args(config));
}

} // verus!
