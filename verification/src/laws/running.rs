//! What is run, and what becomes of it.

use crate::check;
use crate::check::{CheckActionView, CheckEventView, CheckStepView, ExportPlanView};
use crate::command;
use crate::command::{CommandOutcomeView, CommandView};
use crate::compare;
use crate::config::ConfigView;
use crate::discover;
use crate::discover::{DiscoveredView, SourceView};
use crate::export;
use crate::export::{CopyTaskView, EntryAction, EntryKind, ExportStepView};
use crate::git;
use crate::mode;
use crate::mode::{ModeView, ResolvedView};
use crate::path;
use crate::schema::{ErrorView, LintSeverity, ReportView, SchemaSetView};
use crate::snapshot;
use crate::snapshot::FileTextView;
use vstd::prelude::*;

verus! {

/// Whether a command compiles the files with the import paths: all of them, each once and in
/// order, behind everything else.
pub open spec fn compiles(
    command: CommandView,
    files: Seq<Seq<char>>,
    imports: Seq<Seq<char>>,
) -> bool {
    let n = imports.len();
    &&& command.program == "capnp"@
    &&& command.args.len() == 2 + n + files.len()
    &&& command.args[0] == "compile"@
    &&& command.args[1] == "-o-"@
    &&& forall|i: int| 0 <= i < n ==> command.args[2 + i] == "-I"@ + #[trigger] imports[i]
    &&& forall|i: int| 0 <= i < files.len() ==> command.args[2 + n + i] == #[trigger] files[i]
}

/// The schema compiler gets every file and every import path, those of the sources first.
pub proof fn law_all_files_are_compiled(
    files: Seq<Seq<char>>,
    roots: Seq<Seq<char>>,
    imports: Seq<Seq<char>>,
)
    ensures
        compiles(command::compile_of(files, roots, imports), files, roots + imports),
{
    let c = command::compile_of(files, roots, imports);
    assert forall|i: int| 0 <= i < (roots + imports).len() implies c.args[2 + i] == "-I"@ + (
    #[trigger] (roots + imports)[i]) by {
        if i < roots.len() {
            assert(c.args[2 + i] == command::all_prefixed("-I"@, roots)[i]);
        } else {
            assert(c.args[2 + i] == command::all_prefixed("-I"@, imports)[i - roots.len()]);
        }
    }
}

/// Each side is compiled with the files that were found on it, and with its import paths.
pub proof fn law_each_side_is_compiled(
    resolved: ResolvedView,
    before: DiscoveredView,
    after: DiscoveredView,
    report: ReportView,
)
    ensures
        check::action_of(
            CheckStepView::CompileBefore { resolved, before, after, report },
        ) matches CheckActionView::Run(command) && compiles(
            command,
            before.files,
            before.import_roots + resolved.before_import_paths,
        ),
        check::action_of(
            CheckStepView::CompileAfter { resolved, after, report },
        ) matches CheckActionView::Run(command) && compiles(
            command,
            after.files,
            after.import_roots + resolved.after_import_paths,
        ),
{
    law_all_files_are_compiled(before.files, before.import_roots, resolved.before_import_paths);
    law_all_files_are_compiled(after.files, after.import_roots, resolved.after_import_paths);
}

/// What it means that a program ran, that it failed and that it could not be run.
pub proof fn law_outcomes(program: Seq<char>, shown: Seq<char>, said: Seq<char>)
    ensures
        command::success_of(program, CommandOutcomeView::Success { stdout: said }) == Ok::<
            Seq<char>,
            ErrorView,
        >(said),
        command::success_of(
            program,
            CommandOutcomeView::Failed { command: shown, stderr: said },
        ) == Err::<Seq<char>, ErrorView>(
            ErrorView::CommandFailed { command: shown, stderr: said },
        ),
        command::success_of(program, CommandOutcomeView::Unstarted { message: said }) == Err::<
            Seq<char>,
            ErrorView,
        >(ErrorView::Io { path: program, source: said }),
        command::compiled_of(CommandOutcomeView::Success { stdout: said }) is Ok,
        command::compiled_of(CommandOutcomeView::Failed { command: shown, stderr: said }) == Err::<
            (),
            ErrorView,
        >(ErrorView::CapnpFailed { command: shown, stderr: said }),
        command::compiled_of(CommandOutcomeView::Unstarted { message: said }) == Err::<
            (),
            ErrorView,
        >(ErrorView::Io { path: "capnp"@, source: said }),
{
}

/// A check of files looks at the sources that were asked for, a check of references takes out
/// what it needs of them, and a check that was asked for in a wrong way fails with what is
/// wrong.
pub proof fn law_check_starts_as_asked(config: ConfigView)
    ensures
        match mode::mode_of(config) {
            Err(error) => check::start_of(config) == CheckStepView::Failed(error),
            Ok(ModeView::Filesystem(resolved)) => {
                &&& check::start_of(config) == (CheckStepView::WalkBefore { resolved })
                &&& check::action_of(check::start_of(config)) == CheckActionView::Walk(
                    config.before,
                )
            },
            Ok(ModeView::GitRefs { before_ref, after_ref, paths, import_paths }) => {
                &&& check::start_of(config) matches CheckStepView::Export {
                    plan,
                    paths: p,
                    import_paths: i,
                } && p == paths && i == import_paths
                &&& check::action_of(check::start_of(config)) == CheckActionView::Export(
                    ExportPlanView::Refs {
                        before_ref,
                        after_ref,
                        roots: git::archived(config.paths, config.import_paths),
                    },
                )
            },
            Ok(ModeView::CompareRef { compare_ref, paths, import_paths }) => {
                &&& check::start_of(config) matches CheckStepView::Export {
                    plan,
                    paths: p,
                    import_paths: i,
                } && p == paths && i == import_paths
                &&& check::action_of(check::start_of(config)) == CheckActionView::Export(
                    ExportPlanView::Worktree {
                        compare_ref,
                        roots: git::archived(config.paths, config.import_paths),
                    },
                )
            },
        },
{
}

/// After an export the sources of the two sides are looked for in their directories; where it
/// failed, the check fails with what went wrong.
pub proof fn law_exported_sides_are_checked(
    plan: ExportPlanView,
    paths: Seq<Seq<char>>,
    import_paths: Seq<Seq<char>>,
    before: Seq<char>,
    after: Seq<char>,
    error: ErrorView,
)
    ensures
        ({
            let step = CheckStepView::Export { plan, paths, import_paths };
            &&& check::step_after(step, CheckEventView::Exported { before, after })
                matches CheckStepView::WalkBefore { resolved } && resolved == mode::resolved_in(
                before,
                after,
                paths,
                import_paths,
            )
            &&& check::step_after(step, CheckEventView::ExportFailed(error))
                == CheckStepView::Failed(error)
        }),
{
}

/// Both sides are looked at, the earlier one first, and then what was found on each is read.
/// The check goes on with what was found, and fails where nothing can be found.
pub proof fn law_both_sides_are_looked_at(
    resolved: ResolvedView,
    sources: Seq<SourceView>,
    before: DiscoveredView,
    after: DiscoveredView,
    set: SchemaSetView,
)
    ensures
        ({
            let first = CheckStepView::WalkBefore { resolved };
            let second = CheckStepView::WalkAfter { resolved, before };
            let event = CheckEventView::Walked(sources);
            &&& check::action_of(first) == CheckActionView::Walk(resolved.before)
            &&& check::action_of(second) == CheckActionView::Walk(resolved.after)
            &&& match discover::discovered(sources) {
                Ok(found) => {
                    &&& check::step_after(first, event) == CheckStepView::WalkAfter {
                        resolved,
                        before: found,
                    }
                    &&& check::step_after(second, event) == CheckStepView::ReadBefore {
                        resolved,
                        before,
                        after: found,
                    }
                },
                Err(error) => {
                    &&& check::step_after(first, event) == CheckStepView::Failed(error)
                    &&& check::step_after(second, event) == CheckStepView::Failed(error)
                },
            }
            &&& check::action_of(CheckStepView::ReadBefore { resolved, before, after })
                == CheckActionView::Read(before.files)
            &&& check::action_of(
                CheckStepView::ReadAfter { resolved, before, after, before_set: set },
            ) == CheckActionView::Read(after.files)
        }),
{
}

/// What was read of the two sides is compared, the earlier side with the later one. Where a
/// remark is an error that is the end, else both sides are compiled, and the report stays as
/// it is.
pub proof fn law_what_was_read_is_compared(
    resolved: ResolvedView,
    before: DiscoveredView,
    after: DiscoveredView,
    before_set: SchemaSetView,
    files: Seq<FileTextView>,
)
    ensures
        ({
            let first = CheckStepView::ReadBefore { resolved, before, after };
            let second = CheckStepView::ReadAfter { resolved, before, after, before_set };
            let event = CheckEventView::Read(files);
            &&& match snapshot::sources_of(files, before.duplicate_files) {
                Ok(set) => check::step_after(first, event) == (CheckStepView::ReadAfter {
                    resolved,
                    before,
                    after,
                    before_set: set,
                }),
                Err(error) => check::step_after(first, event) == CheckStepView::Failed(error),
            }
            &&& match snapshot::sources_of(files, after.duplicate_files) {
                Ok(set) => {
                    let report = compare::comparison(before_set, set);
                    let wrong = exists|i: int|
                        0 <= i < report.lints.len() && (#[trigger] report.lints[i]).severity
                            == LintSeverity::Error;
                    &&& wrong ==> check::step_after(second, event) == CheckStepView::Finished(
                        report,
                    )
                    &&& !wrong ==> check::step_after(second, event)
                        == (CheckStepView::CompileBefore { resolved, before, after, report })
                },
                Err(error) => check::step_after(second, event) == CheckStepView::Failed(error),
            }
        }),
{
}

/// A check comes to its report if both sides compile, and fails with what went wrong if one
/// does not.
pub proof fn law_both_sides_have_to_compile(
    resolved: ResolvedView,
    before: DiscoveredView,
    after: DiscoveredView,
    report: ReportView,
    outcome: CommandOutcomeView,
)
    ensures
        ({
            let first = CheckStepView::CompileBefore { resolved, before, after, report };
            let second = CheckStepView::CompileAfter { resolved, after, report };
            let event = CheckEventView::Ran(outcome);
            &&& outcome is Success ==> check::step_after(first, event) == second
                && check::step_after(second, event) == CheckStepView::Finished(report)
            &&& outcome !is Success ==> check::step_after(first, event)
                == CheckStepView::Failed(command::compiled_of(outcome)->Err_0)
                && check::step_after(second, event) == CheckStepView::Failed(
                command::compiled_of(outcome)->Err_0,
            )
        }),
{
}

/// A check that is over stays as it is, and nothing is left to do.
pub proof fn law_ended_checks_stay(report: ReportView, error: ErrorView, event: CheckEventView)
    ensures
        check::action_of(CheckStepView::Finished(report)) == CheckActionView::Stop,
        check::action_of(CheckStepView::Failed(error)) == CheckActionView::Stop,
        check::step_after(CheckStepView::Finished(report), event) == CheckStepView::Finished(
            report,
        ),
        check::step_after(CheckStepView::Failed(error), event) == CheckStepView::Failed(error),
{
}

/// Of all paths everything is archived; where paths are given, the reference is looked up
/// first.
pub proof fn law_references_are_looked_up_first(
    reference: Seq<char>,
    destination: Seq<char>,
    paths: Seq<Seq<char>>,
)
    ensures
        paths.len() == 0 ==> export::first_step(paths) == (ExportStepView::Archive {
            existing: Seq::empty(),
        }),
        paths.len() > 0 ==> {
            &&& export::first_step(paths) == (ExportStepView::Verify {
                names: git::relative_all(paths),
            })
            &&& export::command_of(reference, destination, export::first_step(paths)) matches Some(
                command,
            ) && calls(
                command,
                "git"@,
                seq!["rev-parse"@].push("--verify"@).push("--quiet"@).push(
                    reference + "^{tree}"@,
                ),
            )
        },
{
}

/// Whether a command is a program with these arguments.
pub open spec fn calls(command: CommandView, program: Seq<char>, args: Seq<Seq<char>>) -> bool {
    command.program == program && command.args =~= args
}

/// How a reference is asked for a path, how an archive is made of the paths that it has, and
/// how the archive is unpacked.
pub proof fn law_export_commands(
    reference: Seq<char>,
    destination: Seq<char>,
    existing: Seq<Seq<char>>,
    name: Seq<char>,
    rest: Seq<Seq<char>>,
)
    ensures
        export::command_of(
            reference,
            destination,
            ExportStepView::Query { existing, name, rest },
        ) matches Some(command) && calls(
            command,
            "git"@,
            seq!["cat-file"@].push("-e"@).push(reference + ":"@ + path::with_slashes(name)),
        ),
        export::command_of(
            reference,
            destination,
            ExportStepView::Archive { existing },
        ) matches Some(command) && calls(
            command,
            "git"@,
            seq!["archive"@].push("--format=tar"@).push(
                "--output="@ + path::extended(destination, "tar"@),
            ).push(reference) + if existing.len() > 0 {
                seq!["--"@] + existing
            } else {
                Seq::empty()
            },
        ),
        export::command_of(reference, destination, ExportStepView::Unpack) matches Some(command)
            && calls(
            command,
            "tar"@,
            seq!["-xf"@].push(path::extended(destination, "tar"@)).push("-C"@).push(destination),
        ),
        export::command_of(reference, destination, ExportStepView::Done) is None,
{
}

/// A path that the reference has is kept, one that it has not is left out, and the next one
/// is asked for. The whole repository need not be asked for.
pub proof fn law_paths_are_asked_for_in_turn(
    existing: Seq<Seq<char>>,
    name: Seq<char>,
    rest: Seq<Seq<char>>,
    outcome: CommandOutcomeView,
)
    ensures
        name != "."@ ==> export::ask_for(existing, seq![name] + rest) == (ExportStepView::Query {
            existing,
            name,
            rest,
        }),
        export::ask_for(existing, seq!["."@] + rest) == export::ask_for(
            existing.push("."@),
            rest,
        ),
        existing.len() > 0 ==> export::ask_for(existing, Seq::empty()) == (
        ExportStepView::Archive { existing }),
        export::ask_for(Seq::empty(), Seq::empty()) == ExportStepView::Done,
        match outcome {
            CommandOutcomeView::Success { stdout } => {
                &&& export::step_after(ExportStepView::Query { existing, name, rest }, outcome)
                    == export::ask_for(existing.push(name), rest)
                &&& export::step_after(ExportStepView::Verify { names: rest }, outcome)
                    == export::ask_for(Seq::empty(), rest)
                &&& export::step_after(ExportStepView::Archive { existing }, outcome)
                    == ExportStepView::Unpack
                &&& export::step_after(ExportStepView::Unpack, outcome) == ExportStepView::Done
            },
            CommandOutcomeView::Failed { command, stderr } => {
                let failed = ExportStepView::Failed(ErrorView::CommandFailed { command, stderr });
                &&& export::step_after(ExportStepView::Query { existing, name, rest }, outcome)
                    == export::ask_for(existing, rest)
                &&& export::step_after(ExportStepView::Verify { names: rest }, outcome) == failed
                &&& export::step_after(ExportStepView::Archive { existing }, outcome) == failed
                &&& export::step_after(ExportStepView::Unpack, outcome) == failed
            },
            CommandOutcomeView::Unstarted { message } => {
                let git = ExportStepView::Failed(ErrorView::Io { path: "git"@, source: message });
                &&& export::step_after(ExportStepView::Query { existing, name, rest }, outcome)
                    == git
                &&& export::step_after(ExportStepView::Verify { names: rest }, outcome) == git
                &&& export::step_after(ExportStepView::Archive { existing }, outcome) == git
                &&& export::step_after(ExportStepView::Unpack, outcome) == (
                ExportStepView::Failed(ErrorView::Io { path: "tar"@, source: message }))
            },
        },
{
    assert((seq![name] + rest).drop_first() =~= rest);
    assert((seq!["."@] + rest).drop_first() =~= rest);
}

/// An export that is over stays as it is.
pub proof fn law_ended_exports_stay(
    reference: Seq<char>,
    destination: Seq<char>,
    error: ErrorView,
    outcome: CommandOutcomeView,
)
    ensures
        export::step_after(ExportStepView::Done, outcome) == ExportStepView::Done,
        export::step_after(ExportStepView::Failed(error), outcome) == ExportStepView::Failed(
            error,
        ),
        export::command_of(reference, destination, ExportStepView::Failed(error)) is None,
{
}

/// Every path of the worktree that lies in the repository is copied, in turn, to the same
/// place under the destination.
pub proof fn law_worktree_paths_are_copied(
    source: Seq<char>,
    destination: Seq<char>,
    paths: Seq<Seq<char>>,
)
    ensures
        export::copies_of(source, destination, paths).len() == git::relative_all(paths).len(),
        forall|i: int|
            0 <= i < git::relative_all(paths).len() ==> export::copies_of(
                source,
                destination,
                paths,
            )[i] == (CopyTaskView {
                source: path::within(source, #[trigger] git::relative_all(paths)[i]),
                destination: path::within(destination, git::relative_all(paths)[i]),
            }),
{
}

/// Directories are gone into, files are copied, and nothing else is touched.
pub proof fn law_files_and_directories_are_copied(kind: EntryKind)
    ensures
        export::action_for(kind) == EntryAction::Descend <==> kind == EntryKind::Directory,
        export::action_for(kind) == EntryAction::Copy <==> kind == EntryKind::File,
        export::action_for(kind) == EntryAction::Pass <==> kind == EntryKind::Other,
{
}

} // verus!
