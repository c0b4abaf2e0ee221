//! Commands to run, and what their outcomes mean.

use crate::schema;
use crate::schema::{Error, ErrorView};
use crate::text;
use vstd::prelude::*;

verus! {

/// A program with its arguments.
#[derive(Debug, Clone, PartialEq, Eq)]
pub struct CommandLine {
    pub program: String,
    pub args: Vec<String>,
}

/// A `CommandLine` as texts.
#[verifier::ext_equal]
pub struct CommandView {
    pub program: Seq<char>,
    pub args: Seq<Seq<char>>,
}

impl View for CommandLine {
    type V = CommandView;

    open spec fn view(&self) -> CommandView {
        CommandView { program: self.program@, args: text::views(self.args@) }
    }
}

impl CommandLine {
    /// A program without arguments.
    pub fn new(program: &str) -> (command: CommandLine)
        ensures
            command@ == (CommandView { program: program@, args: Seq::empty() }),
    {
        let command = CommandLine { program: program.to_owned(), args: Vec::new() };
        assert(command@.args =~= Seq::empty());
        command
    }

    /// Adds an argument.
    pub fn arg(&mut self, arg: &str)
        ensures
            final(self)@ == (CommandView {
                program: old(self)@.program,
                args: old(self)@.args.push(arg@),
            }),
    {
        let arg = arg.to_owned();
        proof {
            schema::lemma_views_push(self.args@, arg);
        }
        self.args.push(arg);
    }

    /// Adds arguments with something in front of each.
    pub fn prefixed_args(&mut self, prefix: &str, args: &[String])
        ensures
            final(self)@ == (CommandView {
                program: old(self)@.program,
                args: old(self)@.args + all_prefixed(prefix@, text::views(args@)),
            }),
    {
        let ghost before = self@;
        let ghost more = all_prefixed(prefix@, text::views(args@));
        let mut i: usize = 0;
        assert(before.args + more.take(0) =~= before.args);
        while i < args.len()
            invariant
                i <= args@.len(),
                more == all_prefixed(prefix@, text::views(args@)),
                self@.program == before.program,
                self@.args == before.args + more.take(i as int),
            decreases args@.len() - i,
        {
            let mut arg = prefix.to_owned();
            arg.append(args[i].as_str());
            self.arg(arg.as_str());
            assert(more.take(i + 1) =~= more.take(i as int).push(arg@));
            assert(self@.args =~= before.args + more.take(i + 1));
            i = i + 1;
        }
        assert(more.take(i as int) =~= more);
    }

    /// Adds arguments.
    pub fn args(&mut self, args: &[String])
        ensures
            final(self)@ == (CommandView {
                program: old(self)@.program,
                args: old(self)@.args + text::views(args@),
            }),
    {
        self.prefixed_args("", args);
        proof {
            reveal_strlit("");
            let plain = text::views(args@);
            assert forall|i: int|
                0 <= i < plain.len() implies #[trigger] all_prefixed(""@, plain)[i] == plain[i] by {
                assert(""@ + plain[i] =~= plain[i]);
            }
            assert(all_prefixed(""@, plain) =~= plain);
        }
    }
}

/// Texts with something in front of each.
pub open spec fn all_prefixed(prefix: Seq<char>, args: Seq<Seq<char>>) -> Seq<Seq<char>> {
    args.map_values(|arg: Seq<char>| prefix + arg)
}

/// What became of a command.
#[derive(Debug, Clone, PartialEq, Eq)]
pub enum CommandOutcome {
    /// It ran and succeeded.
    Success { stdout: String },
    /// It ran and failed; `command` is how to show it.
    Failed { command: String, stderr: String },
    /// It could not be run.
    Unstarted { message: String },
}

/// A `CommandOutcome` as texts.
pub enum CommandOutcomeView {
    Success { stdout: Seq<char> },
    Failed { command: Seq<char>, stderr: Seq<char> },
    Unstarted { message: Seq<char> },
}

impl View for CommandOutcome {
    type V = CommandOutcomeView;

    open spec fn view(&self) -> CommandOutcomeView {
        match *self {
            CommandOutcome::Success { stdout } => CommandOutcomeView::Success { stdout: stdout@ },
            CommandOutcome::Failed { command, stderr } => CommandOutcomeView::Failed {
                command: command@,
                stderr: stderr@,
            },
            CommandOutcome::Unstarted { message } => CommandOutcomeView::Unstarted {
                message: message@,
            },
        }
    }
}

/// What the outcome of a command means where the command has to succeed.
pub open spec fn success_of(program: Seq<char>, outcome: CommandOutcomeView) -> Result<
    Seq<char>,
    ErrorView,
> {
    match outcome {
        CommandOutcomeView::Success { stdout } => Ok(stdout),
        CommandOutcomeView::Failed { command, stderr } => Err(
            ErrorView::CommandFailed { command, stderr },
        ),
        CommandOutcomeView::Unstarted { message } => Err(
            ErrorView::Io { path: program, source: message },
        ),
    }
}

/// The output of a command that has to succeed.
pub fn run_command(program: &str, outcome: CommandOutcome) -> (stdout: Result<String, Error>)
    ensures
        schema::outcome(stdout) == success_of(program@, outcome@),
{
    match outcome {
        CommandOutcome::Success { stdout } => Ok(stdout),
        CommandOutcome::Failed { command, stderr } => Err(Error::CommandFailed { command, stderr }),
        CommandOutcome::Unstarted { message } => Err(
            Error::Io { path: program.to_owned(), source: message },
        ),
    }
}

/// How schemas are compiled: with the directories to import from, those of the sources
/// first, and without output.
pub open spec fn compile_of(
    files: Seq<Seq<char>>,
    source_import_roots: Seq<Seq<char>>,
    import_paths: Seq<Seq<char>>,
) -> CommandView {
    CommandView {
        program: "capnp"@,
        args: seq!["compile"@, "-o-"@] + all_prefixed("-I"@, source_import_roots) + all_prefixed(
            "-I"@,
            import_paths,
        ) + files,
    }
}

/// How schemas are compiled.
pub fn compile_command(
    files: &[String],
    source_import_roots: &[String],
    import_paths: &[String],
) -> (command: CommandLine)
    ensures
        command@ == compile_of(
            text::views(files@),
            text::views(source_import_roots@),
            text::views(import_paths@),
        ),
{
    let mut command = CommandLine::new("capnp");
    command.arg("compile");
    command.arg("-o-");
    assert(command@.args =~= seq!["compile"@, "-o-"@]);
    command.prefixed_args("-I", source_import_roots);
    command.prefixed_args("-I", import_paths);
    command.args(files);
    command
}

/// What the outcome of the schema compiler means.
pub open spec fn compiled_of(outcome: CommandOutcomeView) -> Result<(), ErrorView> {
    match outcome {
        CommandOutcomeView::Success { stdout } => Ok(()),
        CommandOutcomeView::Failed { command, stderr } => Err(
            ErrorView::CapnpFailed { command, stderr },
        ),
        CommandOutcomeView::Unstarted { message } => Err(
            ErrorView::Io { path: "capnp"@, source: message },
        ),
    }
}

/// What the outcome of the schema compiler means.
pub fn compile_outcome(outcome: CommandOutcome) -> (compiled: Result<(), Error>)
    ensures
        match compiled {
            Ok(()) => compiled_of(outcome@) is Ok,
            Err(error) => compiled_of(outcome@) == Err::<(), ErrorView>(error@),
        },
{
    match outcome {
        CommandOutcome::Success { stdout } => Ok(()),
        CommandOutcome::Failed { command, stderr } => Err(Error::CapnpFailed { command, stderr }),
        CommandOutcome::Unstarted { message } => Err(
            Error::Io { path: "capnp".to_owned(), source: message },
        ),
    }
}

} // verus!
