//! Taking the schemas of a git reference or of the worktree out into a directory.
//!
//! The commands are run elsewhere. What to run next, given what became of the last
//! command, is decided here.

use crate::command;
use crate::command::{run_command, CommandLine, CommandOutcome, CommandOutcomeView, CommandView};
use crate::git;
use crate::git::git_relative_path;
use crate::path;
use crate::path::{join_path, path_to_slash, with_extension};
use crate::schema;
use crate::schema::{pair_text, Error, ErrorView};
use crate::text;
use crate::text::{chars_of, same_text, string_of, trimmed};
use vstd::prelude::*;

verus! {

/// How far the export of a reference has come.
#[derive(Debug, PartialEq, Eq)]
pub enum ExportStep {
    /// The reference is to be looked up; `names` are the paths to ask for then.
    Verify { names: Vec<String> },
    /// It is to be asked whether the reference has `name`, and `rest` is left to ask
    /// for; it does have `existing`.
    Query { existing: Vec<String>, name: String, rest: Vec<String> },
    /// An archive of `existing` is to be made, or of everything if there is no path.
    Archive { existing: Vec<String> },
    /// The archive is to be unpacked.
    Unpack,
    /// Nothing is left to do.
    Done,
    /// The export failed.
    Failed(Error),
}

/// An `ExportStep` as texts.
#[verifier::ext_equal]
pub enum ExportStepView {
    Verify { names: Seq<Seq<char>> },
    Query { existing: Seq<Seq<char>>, name: Seq<char>, rest: Seq<Seq<char>> },
    Archive { existing: Seq<Seq<char>> },
    Unpack,
    Done,
    Failed(ErrorView),
}

impl View for ExportStep {
    type V = ExportStepView;

    open spec fn view(&self) -> ExportStepView {
        match *self {
            ExportStep::Verify { names } => ExportStepView::Verify { names: text::views(names@) },
            ExportStep::Query { existing, name, rest } => ExportStepView::Query {
                existing: text::views(existing@),
                name: name@,
                rest: text::views(rest@),
            },
            ExportStep::Archive { existing } => ExportStepView::Archive {
                existing: text::views(existing@),
            },
            ExportStep::Unpack => ExportStepView::Unpack,
            ExportStep::Done => ExportStepView::Done,
            ExportStep::Failed(error) => ExportStepView::Failed(error@),
        }
    }
}

/// The step after some paths are known to be there and `rest` is left to ask for. The
/// repository itself is always there. Nothing is left to do if nothing is there.
pub open spec fn ask_for(existing: Seq<Seq<char>>, rest: Seq<Seq<char>>) -> ExportStepView
    decreases rest.len(),
{
    if rest.len() == 0 {
        if existing.len() == 0 {
            ExportStepView::Done
        } else {
            ExportStepView::Archive { existing }
        }
    } else if rest[0] == "."@ {
        ask_for(existing.push("."@), rest.drop_first())
    } else {
        ExportStepView::Query { existing, name: rest[0], rest: rest.drop_first() }
    }
}

/// The first step of an export of some paths.
pub open spec fn first_step(paths: Seq<Seq<char>>) -> ExportStepView {
    if paths.len() == 0 {
        ExportStepView::Archive { existing: Seq::empty() }
    } else {
        ExportStepView::Verify { names: git::relative_all(paths) }
    }
}

/// The step after a command that has to succeed.
pub open spec fn step_if_run(
    program: Seq<char>,
    outcome: CommandOutcomeView,
    next: ExportStepView,
) -> ExportStepView {
    match command::success_of(program, outcome) {
        Ok(stdout) => next,
        Err(error) => ExportStepView::Failed(error),
    }
}

/// The step after a command has come to its outcome.
pub open spec fn step_after(step: ExportStepView, outcome: CommandOutcomeView) -> ExportStepView {
    match step {
        ExportStepView::Verify { names } => step_if_run(
            "git"@,
            outcome,
            ask_for(Seq::empty(), names),
        ),
        ExportStepView::Query { existing, name, rest } => match outcome {
            CommandOutcomeView::Success { stdout } => ask_for(existing.push(name), rest),
            CommandOutcomeView::Failed { command, stderr } => ask_for(existing, rest),
            CommandOutcomeView::Unstarted { message } => ExportStepView::Failed(
                ErrorView::Io { path: "git"@, source: message },
            ),
        },
        ExportStepView::Archive { existing } => step_if_run(
            "git"@,
            outcome,
            ExportStepView::Unpack,
        ),
        ExportStepView::Unpack => step_if_run("tar"@, outcome, ExportStepView::Done),
        ExportStepView::Done => step,
        ExportStepView::Failed(error) => step,
    }
}

/// The archive that stands beside a directory while it is filled.
pub open spec fn archive_of(destination: Seq<char>) -> Seq<char> {
    path::extended(destination, "tar"@)
}

/// The command that a step needs.
pub open spec fn command_of(
    reference: Seq<char>,
    destination: Seq<char>,
    step: ExportStepView,
) -> Option<CommandView> {
    match step {
        ExportStepView::Verify { names } => Some(
            CommandView {
                program: "git"@,
                args: seq![
                    "rev-parse"@,
                    "--verify"@,
                    "--quiet"@,
                    reference + "^{tree}"@,
                ],
            },
        ),
        ExportStepView::Query { existing, name, rest } => Some(
            CommandView {
                program: "git"@,
                args: seq![
                    "cat-file"@,
                    "-e"@,
                    reference + ":"@ + path::with_slashes(name),
                ],
            },
        ),
        ExportStepView::Archive { existing } => Some(
            CommandView {
                program: "git"@,
                args: seq![
                    "archive"@,
                    "--format=tar"@,
                    "--output="@ + archive_of(destination),
                    reference,
                ] + if existing.len() == 0 {
                    Seq::empty()
                } else {
                    seq!["--"@] + existing
                },
            },
        ),
        ExportStepView::Unpack => Some(
            CommandView {
                program: "tar"@,
                args: seq!["-xf"@, archive_of(destination), "-C"@, destination],
            },
        ),
        ExportStepView::Done => None,
        ExportStepView::Failed(error) => None,
    }
}

/// An export of paths of a reference into a directory.
#[derive(Debug, PartialEq, Eq)]
pub struct RefExport {
    pub reference: String,
    pub destination: String,
    pub step: ExportStep,
}

/// Appends a text to a list.
fn push_text(list: &mut Vec<String>, item: String)
    ensures
        text::views(final(list)@) == text::views(old(list)@).push(item@),
{
    proof {
        schema::lemma_views_push(list@, item);
    }
    list.push(item);
}

/// The step after some paths are known to be there and `rest` is left to ask for.
fn ask(existing: Vec<String>, rest: Vec<String>) -> (step: ExportStep)
    ensures
        step@ == ask_for(text::views(existing@), text::views(rest@)),
{
    let mut known = existing;
    let mut left = rest;
    while left.len() > 0
        invariant
            ask_for(text::views(known@), text::views(left@)) == ask_for(
                text::views(existing@),
                text::views(rest@),
            ),
        decreases left@.len(),
    {
        let ghost before = text::views(left@);
        let name = left.remove(0);
        proof {
            assert(before[0] == name@);
            assert(text::views(left@) =~= before.drop_first());
        }
        if same_text(name.as_str(), ".") {
            push_text(&mut known, name);
        } else {
            return ExportStep::Query { existing: known, name, rest: left };
        }
    }
    if known.len() == 0 {
        ExportStep::Done
    } else {
        ExportStep::Archive { existing: known }
    }
}

/// The step after a command that has to succeed.
fn if_run(program: &str, outcome: CommandOutcome, next: ExportStep) -> (step: ExportStep)
    ensures
        step@ == step_if_run(program@, outcome@, next@),
{
    match run_command(program, outcome) {
        Ok(_) => next,
        Err(error) => ExportStep::Failed(error),
    }
}

/// The names that git has for paths.
fn names_in_git(paths: &[String]) -> (names: Vec<String>)
    ensures
        text::views(names@) == git::relative_all(text::views(paths@)),
{
    let ghost all = text::views(paths@);
    let mut names: Vec<String> = Vec::new();
    let mut i: usize = 0;
    assert(text::views(names@) =~= git::relative_all(all.take(0)));
    while i < paths.len()
        invariant
            i <= paths@.len(),
            all == text::views(paths@),
            text::views(names@) == git::relative_all(all.take(i as int)),
        decreases paths@.len() - i,
    {
        assert(all.take(i + 1).drop_last() =~= all.take(i as int));
        if let Some(name) = git_relative_path(chars_of(paths[i].as_str()).as_slice()) {
            push_text(&mut names, string_of(name.as_slice()));
        }
        i = i + 1;
    }
    assert(all.take(i as int) =~= all);
    names
}

impl RefExport {
    /// An export that has not begun.
    pub fn new(reference: &str, destination: &str, paths: &[String]) -> (export: RefExport)
        ensures
            export.reference@ == reference@,
            export.destination@ == destination@,
            export.step@ == first_step(text::views(paths@)),
    {
        let step = if paths.len() == 0 {
            let existing: Vec<String> = Vec::new();
            assert(text::views(existing@) =~= Seq::empty());
            ExportStep::Archive { existing }
        } else {
            ExportStep::Verify { names: names_in_git(paths) }
        };
        RefExport { reference: reference.to_owned(), destination: destination.to_owned(), step }
    }

    /// The command to run next, if something is left to do.
    pub fn command(&self) -> (command: Option<CommandLine>)
        ensures
            text::view_of(command) == command_of(
                self.reference@,
                self.destination@,
                self.step@,
            ),
    {
        let reference = self.reference.as_str();
        let destination = self.destination.as_str();
        match &self.step {
            ExportStep::Verify { names } => {
                let mut command = CommandLine::new("git");
                command.arg("rev-parse");
                command.arg("--verify");
                command.arg("--quiet");
                let mut tree = reference.to_owned();
                tree.append("^{tree}");
                command.arg(tree.as_str());
                assert(command@.args =~= seq![
                    "rev-parse"@,
                    "--verify"@,
                    "--quiet"@,
                    reference@ + "^{tree}"@,
                ]);
                Some(command)
            },
            ExportStep::Query { existing, name, rest } => {
                let mut command = CommandLine::new("git");
                command.arg("cat-file");
                command.arg("-e");
                let slashes = string_of(
                    path_to_slash(chars_of(name.as_str()).as_slice()).as_slice(),
                );
                command.arg(pair_text(reference, ":", slashes.as_str()).as_str());
                assert(command@.args =~= seq![
                    "cat-file"@,
                    "-e"@,
                    reference@ + ":"@ + path::with_slashes(name@),
                ]);
                Some(command)
            },
            ExportStep::Archive { existing } => {
                let mut command = CommandLine::new("git");
                command.arg("archive");
                command.arg("--format=tar");
                let mut output = "--output=".to_owned();
                output.append(archive_path(destination).as_str());
                command.arg(output.as_str());
                command.arg(reference);
                let ghost front = seq![
                    "archive"@,
                    "--format=tar"@,
                    "--output="@ + archive_of(destination@),
                    reference@,
                ];
                assert(command@.args =~= front);
                assert(existing@.len() == text::views(existing@).len());
                if existing.len() > 0 {
                    command.arg("--");
                    command.args(existing.as_slice());
                    assert(command@.args =~= front + (seq!["--"@] + text::views(existing@)));
                } else {
                    assert(command@.args =~= front + Seq::empty());
                }
                Some(command)
            },
            ExportStep::Unpack => {
                let mut command = CommandLine::new("tar");
                command.arg("-xf");
                command.arg(archive_path(destination).as_str());
                command.arg("-C");
                command.arg(destination);
                assert(command@.args =~= seq![
                    "-xf"@,
                    archive_of(destination@),
                    "-C"@,
                    destination@,
                ]);
                Some(command)
            },
            ExportStep::Done => None,
            ExportStep::Failed(error) => None,
        }
    }

    /// Takes what became of the command.
    pub fn advance(self, outcome: CommandOutcome) -> (next: RefExport)
        ensures
            next.reference == self.reference,
            next.destination == self.destination,
            next.step@ == step_after(self.step@, outcome@),
    {
        let step = match self.step {
            ExportStep::Verify { names } => {
                let none: Vec<String> = Vec::new();
                assert(text::views(none@) =~= Seq::empty());
                if_run("git", outcome, ask(none, names))
            },
            ExportStep::Query { existing, name, rest } => match outcome {
                CommandOutcome::Success { stdout } => {
                    let mut existing = existing;
                    push_text(&mut existing, name);
                    ask(existing, rest)
                },
                CommandOutcome::Failed { command, stderr } => ask(existing, rest),
                CommandOutcome::Unstarted { message } => ExportStep::Failed(
                    Error::Io { path: "git".to_owned(), source: message },
                ),
            },
            ExportStep::Archive { existing } => if_run("git", outcome, ExportStep::Unpack),
            ExportStep::Unpack => if_run("tar", outcome, ExportStep::Done),
            ExportStep::Done => ExportStep::Done,
            ExportStep::Failed(error) => ExportStep::Failed(error),
        };
        RefExport { reference: self.reference, destination: self.destination, step }
    }
}

/// The archive that stands beside a directory while it is filled.
pub fn archive_path(destination: &str) -> (archive: String)
    ensures
        archive@ == archive_of(destination@),
{
    with_extension(destination, "tar")
}

/// The directories of the two sides inside an export.
#[derive(Debug, Clone, PartialEq, Eq)]
pub struct ExportDirs {
    pub before: String,
    pub after: String,
}

/// The directories of the two sides inside an export.
pub fn export_dirs(root: &str) -> (dirs: ExportDirs)
    ensures
        dirs.before@ == path::within(root@, "before"@),
        dirs.after@ == path::within(root@, "after"@),
{
    let chars = chars_of(root);
    ExportDirs {
        before: string_of(join_path(chars.as_slice(), chars_of("before").as_slice()).as_slice()),
        after: string_of(join_path(chars.as_slice(), chars_of("after").as_slice()).as_slice()),
    }
}

/// How the directory of the repository is found.
pub fn repo_root_command() -> (command: CommandLine)
    ensures
        command@ == (CommandView {
            program: "git"@,
            args: seq!["rev-parse"@, "--show-toplevel"@],
        }),
{
    let mut command = CommandLine::new("git");
    command.arg("rev-parse");
    command.arg("--show-toplevel");
    assert(command@.args =~= seq!["rev-parse"@, "--show-toplevel"@]);
    command
}

/// The directory of the repository, as git prints it.
pub fn git_repo_root(outcome: CommandOutcome) -> (root: Result<String, Error>)
    ensures
        schema::outcome(root) == match command::success_of("git"@, outcome@) {
            Ok(stdout) => Ok::<Seq<char>, ErrorView>(text::trim(stdout)),
            Err(error) => Err(error),
        },
{
    match run_command("git", outcome) {
        Ok(stdout) => Ok(string_of(trimmed(chars_of(stdout.as_str()).as_slice()))),
        Err(error) => Err(error),
    }
}

/// What to copy, and where to.
#[derive(Debug, Clone, PartialEq, Eq)]
pub struct CopyTask {
    pub source: String,
    pub destination: String,
}

/// A `CopyTask` as texts.
#[verifier::ext_equal]
pub struct CopyTaskView {
    pub source: Seq<char>,
    pub destination: Seq<char>,
}

impl View for CopyTask {
    type V = CopyTaskView;

    open spec fn view(&self) -> CopyTaskView {
        CopyTaskView { source: self.source@, destination: self.destination@ }
    }
}

/// Which parts of a worktree go where.
pub open spec fn copies_of(
    source: Seq<char>,
    destination: Seq<char>,
    paths: Seq<Seq<char>>,
) -> Seq<CopyTaskView> {
    git::relative_all(paths).map_values(
        |name: Seq<char>|
            CopyTaskView {
                source: path::within(source, name),
                destination: path::within(destination, name),
            },
    )
}

/// Which parts of a worktree go where. Without paths the whole of it is wanted, and
/// there is no list.
pub fn copy_worktree_paths(source: &str, destination: &str, paths: &[String]) -> (copies: Option<
    Vec<CopyTask>,
>)
    ensures
        match copies {
            Some(copies) => paths@.len() > 0 && text::views(copies@) == copies_of(
                source@,
                destination@,
                text::views(paths@),
            ),
            None => paths@.len() == 0,
        },
{
    if paths.len() == 0 {
        return None;
    }
    let names = names_in_git(paths);
    let from = chars_of(source);
    let to = chars_of(destination);
    let ghost all = copies_of(source@, destination@, text::views(paths@));
    let mut copies: Vec<CopyTask> = Vec::new();
    let mut i: usize = 0;
    assert(text::views(copies@) =~= all.take(0));
    assert(names@.len() == all.len());
    while i < names.len()
        invariant
            i <= names@.len() == all.len(),
            from@ == source@,
            to@ == destination@,
            text::views(names@) == git::relative_all(text::views(paths@)),
            all == copies_of(source@, destination@, text::views(paths@)),
            text::views(copies@) == all.take(i as int),
        decreases names@.len() - i,
    {
        let name = chars_of(names[i].as_str());
        let copy = CopyTask {
            source: string_of(join_path(from.as_slice(), name.as_slice()).as_slice()),
            destination: string_of(join_path(to.as_slice(), name.as_slice()).as_slice()),
        };
        proof {
            schema::lemma_views_push(copies@, copy);
            assert(text::views(names@)[i as int] == name@);
            assert(all[i as int] =~= copy@);
            assert(all.take(i + 1) =~= all.take(i as int).push(copy@));
        }
        copies.push(copy);
        i = i + 1;
    }
    assert(all.take(i as int) =~= all);
    Some(copies)
}

/// Whether an entry of a worktree is left out of the copy.
pub fn should_skip_worktree_entry(name: &str) -> (skip: bool)
    ensures
        skip == (name@ == ".git"@ || name@ == "target"@),
{
    same_text(name, ".git") || same_text(name, "target")
}

/// What an entry of a worktree is.
#[derive(Debug, Clone, Copy, PartialEq, Eq, Structural)]
pub enum EntryKind {
    Directory,
    File,
    /// Neither a directory nor a file.
    Other,
}

/// What becomes of an entry of a worktree in the copy.
#[derive(Debug, Clone, Copy, PartialEq, Eq, Structural)]
pub enum EntryAction {
    /// A directory is made, and what lies in it is copied.
    Descend,
    /// The file is copied.
    Copy,
    /// The entry is passed over.
    Pass,
}

/// What becomes of an entry of a worktree that is not left out of the copy.
pub open spec fn action_for(kind: EntryKind) -> EntryAction {
    match kind {
        EntryKind::Directory => EntryAction::Descend,
        EntryKind::File => EntryAction::Copy,
        EntryKind::Other => EntryAction::Pass,
    }
}

/// What becomes of an entry of a worktree that is not left out of the copy.
pub fn worktree_entry_action(kind: EntryKind) -> (action: EntryAction)
    ensures
        action == action_for(kind),
{
    match kind {
        EntryKind::Directory => EntryAction::Descend,
        EntryKind::File => EntryAction::Copy,
        EntryKind::Other => EntryAction::Pass,
    }
}

/// The most commands that are still to be run.
pub open spec fn commands_left(step: ExportStepView) -> nat {
    match step {
        ExportStepView::Verify { names } => names.len() + 3,
        ExportStepView::Query { existing, name, rest } => rest.len() + 3,
        ExportStepView::Archive { existing } => 2,
        ExportStepView::Unpack => 1,
        ExportStepView::Done => 0,
        ExportStepView::Failed(error) => 0,
    }
}

proof fn lemma_ask_bounded(existing: Seq<Seq<char>>, rest: Seq<Seq<char>>)
    ensures
        commands_left(ask_for(existing, rest)) <= rest.len() + 2,
    decreases rest.len(),
{
    if rest.len() > 0 {
        lemma_ask_bounded(existing.push("."@), rest.drop_first());
    }
}

/// An export ends: as long as there is a command to run, its outcome leaves fewer.
pub proof fn law_export_ends(
    reference: Seq<char>,
    destination: Seq<char>,
    step: ExportStepView,
    outcome: CommandOutcomeView,
)
    ensures
        command_of(reference, destination, step) is None <==> commands_left(step) == 0,
        commands_left(step) > 0 ==> commands_left(step_after(step, outcome)) < commands_left(step),
{
    match step {
        ExportStepView::Verify { names } => lemma_ask_bounded(Seq::empty(), names),
        ExportStepView::Query { existing, name, rest } => {
            lemma_ask_bounded(existing.push(name), rest);
            lemma_ask_bounded(existing, rest);
        },
        _ => {},
    }
}

/// The step after a row of outcomes.
pub open spec fn steps_after(
    step: ExportStepView,
    outcomes: Seq<CommandOutcomeView>,
) -> ExportStepView
    decreases outcomes.len(),
{
    if outcomes.len() == 0 {
        step
    } else {
        steps_after(step_after(step, outcomes[0]), outcomes.drop_first())
    }
}

/// The names for which the answer was yes.
pub open spec fn present(names: Seq<Seq<char>>, answers: Seq<CommandOutcomeView>) -> Seq<Seq<char>>
    decreases names.len(),
{
    if names.len() == 0 {
        Seq::empty()
    } else if answers[0] is Success {
        seq![names[0]] + present(names.drop_first(), answers.drop_first())
    } else {
        present(names.drop_first(), answers.drop_first())
    }
}

/// What is archived is what the reference has: after each of the names has got its
/// answer, the archive is made of those with a yes, in order; with none of them there,
/// nothing is left to do.
pub proof fn law_export_takes_what_is_there(
    existing: Seq<Seq<char>>,
    names: Seq<Seq<char>>,
    answers: Seq<CommandOutcomeView>,
)
    requires
        answers.len() == names.len(),
        !names.contains("."@),
        forall|i: int| 0 <= i < answers.len() ==> (#[trigger] answers[i]) !is Unstarted,
    ensures
        steps_after(ask_for(existing, names), answers) == if (existing + present(
            names,
            answers,
        )).len() == 0 {
            ExportStepView::Done
        } else {
            ExportStepView::Archive { existing: existing + present(names, answers) }
        },
    decreases names.len(),
{
    if names.len() == 0 {
        assert(existing + present(names, answers) =~= existing);
    } else {
        let rest = names.drop_first();
        let later = answers.drop_first();
        assert(names.contains(names[0]));
        if rest.contains("."@) {
            let i = choose|i: int| 0 <= i < rest.len() && rest[i] == "."@;
            assert(names[i + 1] == "."@);
        }
        assert forall|i: int| 0 <= i < later.len() implies (#[trigger] later[i]) !is Unstarted by {
            assert(later[i] == answers[i + 1]);
        }
        assert(answers[0] !is Unstarted);
        if answers[0] is Success {
            law_export_takes_what_is_there(existing.push(names[0]), rest, later);
            assert(existing.push(names[0]) + present(rest, later) =~= existing + present(
                names,
                answers,
            ));
        } else {
            law_export_takes_what_is_there(existing, rest, later);
        }
    }
}

} // verus!
