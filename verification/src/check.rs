//! A whole check, from the configuration to the report.
//!
//! Looking at the file system, reading files and running programs happen elsewhere.
//! What has to be done next, and what it comes to in the end, is decided here.

use crate::command;
use crate::command::{
    compile_command, compile_outcome, CommandLine, CommandOutcome, CommandOutcomeView, CommandView,
};
use crate::compare;
use crate::config::{CheckConfig, ConfigView};
use crate::discover;
use crate::discover::{
    discover_capnp_sources, DiscoveredSources, DiscoveredView, Source, SourceView,
};
use crate::export::ExportDirs;
use crate::git;
use crate::git::archive_roots;
use crate::mode;
use crate::mode::{check_mode, copied, resolve, CheckMode, ModeView, ResolvedCheck, ResolvedView};
use crate::path;
use crate::schema::{Error, ErrorView, Report, ReportView, SchemaSet, SchemaSetView};
use crate::snapshot;
use crate::snapshot::{snapshot_sources, FileText, FileTextView};
use crate::text;
use vstd::prelude::*;

verus! {

/// What is to be taken out of a repository into the directories of the two sides.
#[derive(Debug, Clone, PartialEq, Eq)]
pub enum ExportPlan {
    /// The paths at two references.
    Refs { before_ref: String, after_ref: String, roots: Vec<String> },
    /// The paths at a reference and in the worktree.
    Worktree { compare_ref: String, roots: Vec<String> },
}

/// An `ExportPlan` as texts.
#[verifier::ext_equal]
pub enum ExportPlanView {
    Refs { before_ref: Seq<char>, after_ref: Seq<char>, roots: Seq<Seq<char>> },
    Worktree { compare_ref: Seq<char>, roots: Seq<Seq<char>> },
}

impl View for ExportPlan {
    type V = ExportPlanView;

    open spec fn view(&self) -> ExportPlanView {
        match *self {
            ExportPlan::Refs { before_ref, after_ref, roots } => ExportPlanView::Refs {
                before_ref: before_ref@,
                after_ref: after_ref@,
                roots: text::views(roots@),
            },
            ExportPlan::Worktree { compare_ref, roots } => ExportPlanView::Worktree {
                compare_ref: compare_ref@,
                roots: text::views(roots@),
            },
        }
    }
}

/// How far a check has come.
#[derive(Debug, PartialEq, Eq)]
pub enum CheckStep {
    /// The two sides are to be taken out of a repository.
    Export { plan: ExportPlan, paths: Vec<String>, import_paths: Vec<String> },
    /// The sources of the earlier side are to be looked at.
    WalkBefore { resolved: ResolvedCheck },
    /// The sources of the later side are to be looked at.
    WalkAfter { resolved: ResolvedCheck, before: DiscoveredSources },
    /// The files of the earlier side are to be read.
    ReadBefore { resolved: ResolvedCheck, before: DiscoveredSources, after: DiscoveredSources },
    /// The files of the later side are to be read.
    ReadAfter {
        resolved: ResolvedCheck,
        before: DiscoveredSources,
        after: DiscoveredSources,
        before_set: SchemaSet,
    },
    /// The earlier side is to be compiled.
    CompileBefore {
        resolved: ResolvedCheck,
        before: DiscoveredSources,
        after: DiscoveredSources,
        report: Report,
    },
    /// The later side is to be compiled.
    CompileAfter { resolved: ResolvedCheck, after: DiscoveredSources, report: Report },
    /// The check came to a report.
    Finished(Report),
    /// The check could not be carried out.
    Failed(Error),
}

/// A `CheckStep` as texts.
#[verifier::ext_equal]
pub enum CheckStepView {
    Export { plan: ExportPlanView, paths: Seq<Seq<char>>, import_paths: Seq<Seq<char>> },
    WalkBefore { resolved: ResolvedView },
    WalkAfter { resolved: ResolvedView, before: DiscoveredView },
    ReadBefore { resolved: ResolvedView, before: DiscoveredView, after: DiscoveredView },
    ReadAfter {
        resolved: ResolvedView,
        before: DiscoveredView,
        after: DiscoveredView,
        before_set: SchemaSetView,
    },
    CompileBefore {
        resolved: ResolvedView,
        before: DiscoveredView,
        after: DiscoveredView,
        report: ReportView,
    },
    CompileAfter { resolved: ResolvedView, after: DiscoveredView, report: ReportView },
    Finished(ReportView),
    Failed(ErrorView),
}

impl View for CheckStep {
    type V = CheckStepView;

    open spec fn view(&self) -> CheckStepView {
        match *self {
            CheckStep::Export { plan, paths, import_paths } => CheckStepView::Export {
                plan: plan@,
                paths: text::views(paths@),
                import_paths: text::views(import_paths@),
            },
            CheckStep::WalkBefore { resolved } => CheckStepView::WalkBefore {
                resolved: resolved@,
            },
            CheckStep::WalkAfter { resolved, before } => CheckStepView::WalkAfter {
                resolved: resolved@,
                before: before@,
            },
            CheckStep::ReadBefore { resolved, before, after } => CheckStepView::ReadBefore {
                resolved: resolved@,
                before: before@,
                after: after@,
            },
            CheckStep::ReadAfter { resolved, before, after, before_set } => {
                CheckStepView::ReadAfter {
                    resolved: resolved@,
                    before: before@,
                    after: after@,
                    before_set: before_set@,
                }
            },
            CheckStep::CompileBefore { resolved, before, after, report } => {
                CheckStepView::CompileBefore {
                    resolved: resolved@,
                    before: before@,
                    after: after@,
                    report: report@,
                }
            },
            CheckStep::CompileAfter { resolved, after, report } => CheckStepView::CompileAfter {
                resolved: resolved@,
                after: after@,
                report: report@,
            },
            CheckStep::Finished(report) => CheckStepView::Finished(report@),
            CheckStep::Failed(error) => CheckStepView::Failed(error@),
        }
    }
}

/// What a step needs from outside.
#[derive(Debug, PartialEq, Eq)]
pub enum CheckAction {
    /// Take the two sides out of a repository.
    Export(ExportPlan),
    /// Look at these sources.
    Walk(Vec<String>),
    /// Read these files.
    Read(Vec<String>),
    /// Run this command.
    Run(CommandLine),
    /// Nothing: the check is over.
    Stop,
}

/// A `CheckAction` as texts.
#[verifier::ext_equal]
pub enum CheckActionView {
    Export(ExportPlanView),
    Walk(Seq<Seq<char>>),
    Read(Seq<Seq<char>>),
    Run(CommandView),
    Stop,
}

impl View for CheckAction {
    type V = CheckActionView;

    open spec fn view(&self) -> CheckActionView {
        match *self {
            CheckAction::Export(plan) => CheckActionView::Export(plan@),
            CheckAction::Walk(sources) => CheckActionView::Walk(text::views(sources@)),
            CheckAction::Read(files) => CheckActionView::Read(text::views(files@)),
            CheckAction::Run(command) => CheckActionView::Run(command@),
            CheckAction::Stop => CheckActionView::Stop,
        }
    }
}

/// What came of an action.
#[derive(Debug, PartialEq, Eq)]
pub enum CheckEvent {
    /// The two sides lie in these directories.
    Exported(ExportDirs),
    /// The two sides could not be taken out of the repository.
    ExportFailed(Error),
    /// What lies where the sources are looked for.
    Walked(Vec<Source>),
    /// The texts of the files.
    Read(Vec<FileText>),
    /// What became of the command.
    Ran(CommandOutcome),
}

/// A `CheckEvent` as texts.
pub enum CheckEventView {
    Exported { before: Seq<char>, after: Seq<char> },
    ExportFailed(ErrorView),
    Walked(Seq<SourceView>),
    Read(Seq<FileTextView>),
    Ran(CommandOutcomeView),
}

impl View for CheckEvent {
    type V = CheckEventView;

    open spec fn view(&self) -> CheckEventView {
        match *self {
            CheckEvent::Exported(dirs) => CheckEventView::Exported {
                before: dirs.before@,
                after: dirs.after@,
            },
            CheckEvent::ExportFailed(error) => CheckEventView::ExportFailed(error@),
            CheckEvent::Walked(sources) => CheckEventView::Walked(text::views(sources@)),
            CheckEvent::Read(files) => CheckEventView::Read(text::views(files@)),
            CheckEvent::Ran(outcome) => CheckEventView::Ran(outcome@),
        }
    }
}

/// The first step of a check.
pub open spec fn start_of(config: ConfigView) -> CheckStepView {
    match mode::mode_of(config) {
        Err(error) => CheckStepView::Failed(error),
        Ok(ModeView::Filesystem(resolved)) => CheckStepView::WalkBefore { resolved },
        Ok(ModeView::GitRefs { before_ref, after_ref, paths, import_paths }) => {
            CheckStepView::Export {
                plan: ExportPlanView::Refs {
                    before_ref,
                    after_ref,
                    roots: git::archived(paths, import_paths),
                },
                paths,
                import_paths,
            }
        },
        Ok(ModeView::CompareRef { compare_ref, paths, import_paths }) => CheckStepView::Export {
            plan: ExportPlanView::Worktree {
                compare_ref,
                roots: git::archived(paths, import_paths),
            },
            paths,
            import_paths,
        },
    }
}

/// What a step needs from outside.
pub open spec fn action_of(step: CheckStepView) -> CheckActionView {
    match step {
        CheckStepView::Export { plan, paths, import_paths } => CheckActionView::Export(plan),
        CheckStepView::WalkBefore { resolved } => CheckActionView::Walk(resolved.before),
        CheckStepView::WalkAfter { resolved, before } => CheckActionView::Walk(resolved.after),
        CheckStepView::ReadBefore { resolved, before, after } => CheckActionView::Read(
            before.files,
        ),
        CheckStepView::ReadAfter { resolved, before, after, before_set } => CheckActionView::Read(
            after.files,
        ),
        CheckStepView::CompileBefore { resolved, before, after, report } => CheckActionView::Run(
            command::compile_of(before.files, before.import_roots, resolved.before_import_paths),
        ),
        CheckStepView::CompileAfter { resolved, after, report } => CheckActionView::Run(
            command::compile_of(after.files, after.import_roots, resolved.after_import_paths),
        ),
        CheckStepView::Finished(report) => CheckActionView::Stop,
        CheckStepView::Failed(error) => CheckActionView::Stop,
    }
}

/// The step after a comparison: it is the report, and the schemas are compiled only if it
/// has no error lints.
pub open spec fn reported(
    resolved: ResolvedView,
    before: DiscoveredView,
    after: DiscoveredView,
    report: ReportView,
) -> CheckStepView {
    if report.has_error_lints() {
        CheckStepView::Finished(report)
    } else {
        CheckStepView::CompileBefore { resolved, before, after, report }
    }
}

/// The step after an event. An event that the step does not wait for changes nothing.
pub open spec fn step_after(step: CheckStepView, event: CheckEventView) -> CheckStepView {
    match (step, event) {
        (
            CheckStepView::Export { plan, paths, import_paths },
            CheckEventView::Exported { before, after },
        ) => CheckStepView::WalkBefore {
            resolved: mode::resolved_in(before, after, paths, import_paths),
        },
        (
            CheckStepView::Export { plan, paths, import_paths },
            CheckEventView::ExportFailed(error),
        ) => CheckStepView::Failed(error),
        (CheckStepView::WalkBefore { resolved }, CheckEventView::Walked(sources)) => {
            match discover::discovered(sources) {
                Ok(before) => CheckStepView::WalkAfter { resolved, before },
                Err(error) => CheckStepView::Failed(error),
            }
        },
        (CheckStepView::WalkAfter { resolved, before }, CheckEventView::Walked(sources)) => {
            match discover::discovered(sources) {
                Ok(after) => CheckStepView::ReadBefore { resolved, before, after },
                Err(error) => CheckStepView::Failed(error),
            }
        },
        (CheckStepView::ReadBefore { resolved, before, after }, CheckEventView::Read(files)) => {
            match snapshot::sources_of(files, before.duplicate_files) {
                Ok(before_set) => CheckStepView::ReadAfter { resolved, before, after, before_set },
                Err(error) => CheckStepView::Failed(error),
            }
        },
        (
            CheckStepView::ReadAfter { resolved, before, after, before_set },
            CheckEventView::Read(files),
        ) => match snapshot::sources_of(files, after.duplicate_files) {
            Ok(after_set) => reported(
                resolved,
                before,
                after,
                compare::comparison(before_set, after_set),
            ),
            Err(error) => CheckStepView::Failed(error),
        },
        (
            CheckStepView::CompileBefore { resolved, before, after, report },
            CheckEventView::Ran(outcome),
        ) => match command::compiled_of(outcome) {
            Ok(_) => CheckStepView::CompileAfter { resolved, after, report },
            Err(error) => CheckStepView::Failed(error),
        },
        (
            CheckStepView::CompileAfter { resolved, after, report },
            CheckEventView::Ran(outcome),
        ) => match command::compiled_of(outcome) {
            Ok(_) => CheckStepView::Finished(report),
            Err(error) => CheckStepView::Failed(error),
        },
        _ => step,
    }
}

/// Begins a check.
pub fn check(config: &CheckConfig) -> (step: CheckStep)
    ensures
        step@ == start_of(config@),
{
    match check_mode(config) {
        Err(error) => CheckStep::Failed(error),
        Ok(CheckMode::Filesystem(resolved)) => CheckStep::WalkBefore { resolved },
        Ok(CheckMode::GitRefs { before_ref, after_ref, paths, import_paths }) => {
            let roots = archive_roots(paths.as_slice(), import_paths.as_slice());
            CheckStep::Export {
                plan: ExportPlan::Refs { before_ref, after_ref, roots },
                paths,
                import_paths,
            }
        },
        Ok(CheckMode::CompareRef { compare_ref, paths, import_paths }) => {
            let roots = archive_roots(paths.as_slice(), import_paths.as_slice());
            CheckStep::Export {
                plan: ExportPlan::Worktree { compare_ref, roots },
                paths,
                import_paths,
            }
        },
    }
}

fn copied_plan(plan: &ExportPlan) -> (copy: ExportPlan)
    ensures
        copy@ == plan@,
{
    match plan {
        ExportPlan::Refs { before_ref, after_ref, roots } => ExportPlan::Refs {
            before_ref: before_ref.clone(),
            after_ref: after_ref.clone(),
            roots: copied(roots),
        },
        ExportPlan::Worktree { compare_ref, roots } => ExportPlan::Worktree {
            compare_ref: compare_ref.clone(),
            roots: copied(roots),
        },
    }
}

impl CheckStep {
    /// What the step needs from outside.
    pub fn action(&self) -> (action: CheckAction)
        ensures
            action@ == action_of(self@),
    {
        match self {
            CheckStep::Export { plan, paths, import_paths } => CheckAction::Export(
                copied_plan(plan),
            ),
            CheckStep::WalkBefore { resolved } => CheckAction::Walk(copied(&resolved.before)),
            CheckStep::WalkAfter { resolved, before } => CheckAction::Walk(copied(&resolved.after)),
            CheckStep::ReadBefore { resolved, before, after } => CheckAction::Read(
                copied(&before.files),
            ),
            CheckStep::ReadAfter { resolved, before, after, before_set } => CheckAction::Read(
                copied(&after.files),
            ),
            CheckStep::CompileBefore { resolved, before, after, report } => CheckAction::Run(
                compile_command(
                    before.files.as_slice(),
                    before.import_roots.as_slice(),
                    resolved.before_import_paths.as_slice(),
                ),
            ),
            CheckStep::CompileAfter { resolved, after, report } => CheckAction::Run(
                compile_command(
                    after.files.as_slice(),
                    after.import_roots.as_slice(),
                    resolved.after_import_paths.as_slice(),
                ),
            ),
            CheckStep::Finished(report) => CheckAction::Stop,
            CheckStep::Failed(error) => CheckAction::Stop,
        }
    }

    /// Takes what came of the action.
    pub fn advance(self, event: CheckEvent) -> (next: CheckStep)
        ensures
            next@ == step_after(self@, event@),
    {
        match (self, event) {
            (CheckStep::Export { plan, paths, import_paths }, CheckEvent::Exported(dirs)) => {
                CheckStep::WalkBefore {
                    resolved: resolve(
                        dirs.before.as_str(),
                        dirs.after.as_str(),
                        paths.as_slice(),
                        import_paths.as_slice(),
                    ),
                }
            },
            (CheckStep::Export { plan, paths, import_paths }, CheckEvent::ExportFailed(error)) => {
                CheckStep::Failed(error)
            },
            (CheckStep::WalkBefore { resolved }, CheckEvent::Walked(sources)) => {
                match discover_capnp_sources(sources.as_slice()) {
                    Ok(before) => CheckStep::WalkAfter { resolved, before },
                    Err(error) => CheckStep::Failed(error),
                }
            },
            (CheckStep::WalkAfter { resolved, before }, CheckEvent::Walked(sources)) => {
                match discover_capnp_sources(sources.as_slice()) {
                    Ok(after) => CheckStep::ReadBefore { resolved, before, after },
                    Err(error) => CheckStep::Failed(error),
                }
            },
            (CheckStep::ReadBefore { resolved, before, after }, CheckEvent::Read(files)) => {
                match snapshot_sources(files.as_slice(), before.duplicate_files.as_slice()) {
                    Ok(before_set) => CheckStep::ReadAfter { resolved, before, after, before_set },
                    Err(error) => CheckStep::Failed(error),
                }
            },
            (
                CheckStep::ReadAfter { resolved, before, after, before_set },
                CheckEvent::Read(files),
            ) => match snapshot_sources(files.as_slice(), after.duplicate_files.as_slice()) {
                Ok(after_set) => {
                    let report = compare(&before_set, &after_set);
                    if report.has_error_lints() {
                        CheckStep::Finished(report)
                    } else {
                        CheckStep::CompileBefore { resolved, before, after, report }
                    }
                },
                Err(error) => CheckStep::Failed(error),
            },
            (
                CheckStep::CompileBefore { resolved, before, after, report },
                CheckEvent::Ran(outcome),
            ) => match compile_outcome(outcome) {
                Ok(_) => CheckStep::CompileAfter { resolved, after, report },
                Err(error) => CheckStep::Failed(error),
            },
            (CheckStep::CompileAfter { resolved, after, report }, CheckEvent::Ran(outcome)) => {
                match compile_outcome(outcome) {
                    Ok(_) => CheckStep::Finished(report),
                    Err(error) => CheckStep::Failed(error),
                }
            },
            (step, _) => step,
        }
    }
}

/// How many events a step waits for at most.
pub open spec fn events_left(step: CheckStepView) -> nat {
    match step {
        CheckStepView::Export { plan, paths, import_paths } => 7,
        CheckStepView::WalkBefore { resolved } => 6,
        CheckStepView::WalkAfter { resolved, before } => 5,
        CheckStepView::ReadBefore { resolved, before, after } => 4,
        CheckStepView::ReadAfter { resolved, before, after, before_set } => 3,
        CheckStepView::CompileBefore { resolved, before, after, report } => 2,
        CheckStepView::CompileAfter { resolved, after, report } => 1,
        CheckStepView::Finished(report) => 0,
        CheckStepView::Failed(error) => 0,
    }
}

/// Whether an event answers an action.
pub open spec fn answers(action: CheckActionView, event: CheckEventView) -> bool {
    match action {
        CheckActionView::Export(plan) => event is Exported || event is ExportFailed,
        CheckActionView::Walk(sources) => event is Walked,
        CheckActionView::Read(files) => event is Read,
        CheckActionView::Run(command) => event is Ran,
        CheckActionView::Stop => false,
    }
}

/// A check ends: every answer to the action of a step brings it on, and it stops exactly
/// with a report or an error.
#[verifier::rlimit(40)]
pub proof fn law_check_ends(step: CheckStepView, event: CheckEventView)
    ensures
        answers(action_of(step), event) ==> events_left(step_after(step, event)) < events_left(
            step,
        ),
        !answers(action_of(step), event) ==> step_after(step, event) == step,
        action_of(step) is Stop <==> step is Finished || step is Failed,
{
}

/// The step after a row of events.
pub open spec fn steps_after(step: CheckStepView, events: Seq<CheckEventView>) -> CheckStepView
    decreases events.len(),
{
    if events.len() == 0 {
        step
    } else {
        step_after(steps_after(step, events.drop_last()), events.last())
    }
}

proof fn lemma_one_event_more(
    step: CheckStepView,
    events: Seq<CheckEventView>,
    event: CheckEventView,
)
    ensures
        steps_after(step, events.push(event)) == step_after(steps_after(step, events), event),
{
    assert(events.push(event).drop_last() =~= events);
}

/// What finding the sources of the earlier side comes to.
proof fn lemma_walked_before(
    resolved: ResolvedView,
    sources: Seq<SourceView>,
    before: DiscoveredView,
)
    requires
        discover::discovered(sources) == Ok::<DiscoveredView, ErrorView>(before),
    ensures
        step_after(CheckStepView::WalkBefore { resolved }, CheckEventView::Walked(sources)) == (
        CheckStepView::WalkAfter { resolved, before }),
{
}

/// What finding the sources of the later side comes to.
proof fn lemma_walked_after(
    resolved: ResolvedView,
    sources: Seq<SourceView>,
    before: DiscoveredView,
    after: DiscoveredView,
)
    requires
        discover::discovered(sources) == Ok::<DiscoveredView, ErrorView>(after),
    ensures
        step_after(CheckStepView::WalkAfter { resolved, before }, CheckEventView::Walked(sources))
            == (CheckStepView::ReadBefore { resolved, before, after }),
{
}

/// What reading the earlier side comes to.
proof fn lemma_read_before(
    resolved: ResolvedView,
    files: Seq<FileTextView>,
    before: DiscoveredView,
    after: DiscoveredView,
    before_set: SchemaSetView,
)
    requires
        snapshot::sources_of(files, before.duplicate_files) == Ok::<SchemaSetView, ErrorView>(
            before_set,
        ),
    ensures
        step_after(
            CheckStepView::ReadBefore { resolved, before, after },
            CheckEventView::Read(files),
        ) == (CheckStepView::ReadAfter { resolved, before, after, before_set }),
{
}

/// What reading the later side comes to.
proof fn lemma_read_after(
    resolved: ResolvedView,
    files: Seq<FileTextView>,
    before: DiscoveredView,
    after: DiscoveredView,
    before_set: SchemaSetView,
    after_set: SchemaSetView,
)
    requires
        snapshot::sources_of(files, after.duplicate_files) == Ok::<SchemaSetView, ErrorView>(
            after_set,
        ),
    ensures
        step_after(
            CheckStepView::ReadAfter { resolved, before, after, before_set },
            CheckEventView::Read(files),
        ) == reported(resolved, before, after, compare::comparison(before_set, after_set)),
{
}

/// The events of finding and reading both sides.
pub open spec fn reading(
    before_sources: Seq<SourceView>,
    after_sources: Seq<SourceView>,
    before_files: Seq<FileTextView>,
    after_files: Seq<FileTextView>,
) -> Seq<CheckEventView> {
    seq![
        CheckEventView::Walked(before_sources),
        CheckEventView::Walked(after_sources),
        CheckEventView::Read(before_files),
        CheckEventView::Read(after_files),
    ]
}

/// The step after finding and reading both sides.
proof fn lemma_reading(
    start: CheckStepView,
    before_sources: Seq<SourceView>,
    after_sources: Seq<SourceView>,
    before_files: Seq<FileTextView>,
    after_files: Seq<FileTextView>,
)
    ensures
        steps_after(start, reading(before_sources, after_sources, before_files, after_files))
            == step_after(
            step_after(
                step_after(
                    step_after(start, CheckEventView::Walked(before_sources)),
                    CheckEventView::Walked(after_sources),
                ),
                CheckEventView::Read(before_files),
            ),
            CheckEventView::Read(after_files),
        ),
{
    let a = CheckEventView::Walked(before_sources);
    let b = CheckEventView::Walked(after_sources);
    let c = CheckEventView::Read(before_files);
    let d = CheckEventView::Read(after_files);
    lemma_one_event_more(start, Seq::empty(), a);
    lemma_one_event_more(start, seq![a], b);
    lemma_one_event_more(start, seq![a].push(b), c);
    lemma_one_event_more(start, seq![a].push(b).push(c), d);
    assert(steps_after(start, Seq::empty()) == start);
    assert(Seq::<CheckEventView>::empty().push(a) =~= seq![a]);
    assert(reading(before_sources, after_sources, before_files, after_files) =~= seq![a].push(
        b,
    ).push(c).push(d));
}

/// What finding and reading both sides comes to.
proof fn lemma_both_sides_read(
    resolved: ResolvedView,
    before_sources: Seq<SourceView>,
    after_sources: Seq<SourceView>,
    before_files: Seq<FileTextView>,
    after_files: Seq<FileTextView>,
    before: DiscoveredView,
    after: DiscoveredView,
    before_set: SchemaSetView,
    after_set: SchemaSetView,
)
    requires
        discover::discovered(before_sources) == Ok::<DiscoveredView, ErrorView>(before),
        discover::discovered(after_sources) == Ok::<DiscoveredView, ErrorView>(after),
        snapshot::sources_of(before_files, before.duplicate_files) == Ok::<
            SchemaSetView,
            ErrorView,
        >(before_set),
        snapshot::sources_of(after_files, after.duplicate_files) == Ok::<SchemaSetView, ErrorView>(
            after_set,
        ),
    ensures
        steps_after(
            CheckStepView::WalkBefore { resolved },
            reading(before_sources, after_sources, before_files, after_files),
        ) == reported(resolved, before, after, compare::comparison(before_set, after_set)),
{
    let start = CheckStepView::WalkBefore { resolved };
    lemma_reading(start, before_sources, after_sources, before_files, after_files);
    lemma_walked_before(resolved, before_sources, before);
    lemma_walked_after(resolved, after_sources, before, after);
    lemma_read_before(resolved, before_files, before, after, before_set);
    lemma_read_after(resolved, after_files, before, after, before_set, after_set);
}

/// What compiling both sides comes to.
proof fn lemma_compiled(
    start: CheckStepView,
    events: Seq<CheckEventView>,
    report: ReportView,
    before_outcome: CommandOutcomeView,
    after_outcome: CommandOutcomeView,
)
    requires
        steps_after(start, events) is CompileBefore,
        steps_after(start, events)->CompileBefore_report == report,
    ensures
        ({
            let end = steps_after(
                start,
                events.push(CheckEventView::Ran(before_outcome)).push(
                    CheckEventView::Ran(after_outcome),
                ),
            );
            if before_outcome is Success && after_outcome is Success {
                end == CheckStepView::Finished(report)
            } else {
                end is Failed
            }
        }),
{
    let e = CheckEventView::Ran(before_outcome);
    lemma_one_event_more(start, events, e);
    lemma_one_event_more(start, events.push(e), CheckEventView::Ran(after_outcome));
}

/// What a check comes to whose sides are found and read: if the comparison of the two sides
/// has error lints, it is the report, and no program is run; otherwise it is the report if
/// both sides compile, and an error if not.
pub open spec fn comes_to(
    start: CheckStepView,
    read: Seq<CheckEventView>,
    report: ReportView,
    before_outcome: CommandOutcomeView,
    after_outcome: CommandOutcomeView,
) -> bool {
    let end = steps_after(
        start,
        read.push(CheckEventView::Ran(before_outcome)).push(CheckEventView::Ran(after_outcome)),
    );
    if report.has_error_lints() {
        steps_after(start, read) == CheckStepView::Finished(report)
    } else if before_outcome is Success && after_outcome is Success {
        end == CheckStepView::Finished(report)
    } else {
        end is Failed
    }
}

proof fn lemma_comes_to(
    start: CheckStepView,
    read: Seq<CheckEventView>,
    resolved: ResolvedView,
    before: DiscoveredView,
    after: DiscoveredView,
    report: ReportView,
    before_outcome: CommandOutcomeView,
    after_outcome: CommandOutcomeView,
)
    requires
        steps_after(start, read) == reported(resolved, before, after, report),
    ensures
        comes_to(start, read, report, before_outcome, after_outcome),
{
    if !report.has_error_lints() {
        lemma_compiled(start, read, report, before_outcome, after_outcome);
    }
}

/// A check whose sources are found and whose files can be read comes to the comparison of
/// its two sides.
pub proof fn law_check_reports_the_comparison(
    resolved: ResolvedView,
    before_sources: Seq<SourceView>,
    after_sources: Seq<SourceView>,
    before_files: Seq<FileTextView>,
    after_files: Seq<FileTextView>,
    before: DiscoveredView,
    after: DiscoveredView,
    before_set: SchemaSetView,
    after_set: SchemaSetView,
    before_outcome: CommandOutcomeView,
    after_outcome: CommandOutcomeView,
)
    requires
        discover::discovered(before_sources) == Ok::<DiscoveredView, ErrorView>(before),
        discover::discovered(after_sources) == Ok::<DiscoveredView, ErrorView>(after),
        snapshot::sources_of(before_files, before.duplicate_files) == Ok::<
            SchemaSetView,
            ErrorView,
        >(before_set),
        snapshot::sources_of(after_files, after.duplicate_files) == Ok::<SchemaSetView, ErrorView>(
            after_set,
        ),
    ensures
        comes_to(
            CheckStepView::WalkBefore { resolved },
            reading(before_sources, after_sources, before_files, after_files),
            compare::comparison(before_set, after_set),
            before_outcome,
            after_outcome,
        ),
{
    lemma_both_sides_read(
        resolved,
        before_sources,
        after_sources,
        before_files,
        after_files,
        before,
        after,
        before_set,
        after_set,
    );
    lemma_comes_to(
        CheckStepView::WalkBefore { resolved },
        reading(before_sources, after_sources, before_files, after_files),
        resolved,
        before,
        after,
        compare::comparison(before_set, after_set),
        before_outcome,
        after_outcome,
    );
}

/// Where the sides of a check lie, once that is known.
pub open spec fn resolved_of(step: CheckStepView) -> Option<ResolvedView> {
    match step {
        CheckStepView::WalkBefore { resolved } => Some(resolved),
        CheckStepView::WalkAfter { resolved, before } => Some(resolved),
        CheckStepView::ReadBefore { resolved, before, after } => Some(resolved),
        CheckStepView::ReadAfter { resolved, before, after, before_set } => Some(resolved),
        CheckStepView::CompileBefore { resolved, before, after, report } => Some(resolved),
        CheckStepView::CompileAfter { resolved, after, report } => Some(resolved),
        _ => None,
    }
}

/// Whether paths lie in a directory, one by one. Absolute ones stay as they are.
pub open spec fn lie_in(dir: Seq<char>, asked: Seq<Seq<char>>, paths: Seq<Seq<char>>) -> bool {
    &&& asked.len() == paths.len()
    &&& forall|i: int|
        0 <= i < paths.len() ==> if path::absolute(#[trigger] paths[i]) {
            asked[i] == paths[i]
        } else {
            path::components(dir).is_prefix_of(path::components(asked[i]))
        }
}

/// Whether the two sides lie in their directories.
pub open spec fn sides_lie_in(
    resolved: ResolvedView,
    before: Seq<char>,
    after: Seq<char>,
    config: ConfigView,
) -> bool {
    &&& lie_in(before, resolved.before, config.paths)
    &&& lie_in(after, resolved.after, config.paths)
    &&& lie_in(before, resolved.before_import_paths, config.import_paths)
    &&& lie_in(after, resolved.after_import_paths, config.import_paths)
}

proof fn lemma_moved_lie_in(dir: Seq<char>, paths: Seq<Seq<char>>)
    requires
        dir.len() > 0,
    ensures
        lie_in(dir, mode::all_within(dir, paths), paths),
{
    let asked = mode::all_within(dir, paths);
    assert forall|i: int| 0 <= i < paths.len() implies if path::absolute(#[trigger] paths[i]) {
        asked[i] == paths[i]
    } else {
        path::components(dir).is_prefix_of(path::components(asked[i]))
    } by {
        path::law_moved_path_lies_within(dir, paths[i]);
    }
}

/// Where the sides lie does not change on the way.
#[verifier::rlimit(40)]
proof fn lemma_resolved_stays(step: CheckStepView, event: CheckEventView)
    requires
        step !is Export,
    ensures
        step_after(step, event) !is Export,
        resolved_of(step_after(step, event)) is Some ==> resolved_of(step_after(step, event))
            == resolved_of(step),
{
}

proof fn lemma_resolved_stays_on(step: CheckStepView, events: Seq<CheckEventView>)
    requires
        step !is Export,
    ensures
        steps_after(step, events) !is Export,
        resolved_of(steps_after(step, events)) is Some ==> resolved_of(steps_after(step, events))
            == resolved_of(step),
    decreases events.len(),
{
    if events.len() > 0 {
        lemma_resolved_stays_on(step, events.drop_last());
        lemma_resolved_stays(steps_after(step, events.drop_last()), events.last());
    }
}

/// A check with git references stays inside the export: whatever comes of its actions, every
/// relative source that it looks at and every relative import path that it compiles with lies
/// in the directory of its side.
pub proof fn law_check_stays_inside_the_export(
    config: ConfigView,
    before: Seq<char>,
    after: Seq<char>,
    events: Seq<CheckEventView>,
)
    requires
        start_of(config) is Export,
        before.len() > 0,
        after.len() > 0,
    ensures
        ({
            let exported = step_after(start_of(config), CheckEventView::Exported { before, after });
            let step = steps_after(exported, events);
            &&& resolved_of(step) matches Some(resolved) ==> sides_lie_in(
                resolved,
                before,
                after,
                config,
            )
            &&& action_of(step) matches CheckActionView::Walk(sources) ==> lie_in(
                before,
                sources,
                config.paths,
            ) || lie_in(after, sources, config.paths)
            &&& action_of(step) matches CheckActionView::Run(command) ==> exists|
                files: Seq<Seq<char>>,
                roots: Seq<Seq<char>>,
                imports: Seq<Seq<char>>,
            |
                command == #[trigger] command::compile_of(files, roots, imports) && (lie_in(
                    before,
                    imports,
                    config.import_paths,
                ) || lie_in(after, imports, config.import_paths))
            &&& action_of(step) !is Export
        }),
{
    let exported = step_after(start_of(config), CheckEventView::Exported { before, after });
    lemma_moved_lie_in(before, config.paths);
    lemma_moved_lie_in(after, config.paths);
    lemma_moved_lie_in(before, config.import_paths);
    lemma_moved_lie_in(after, config.import_paths);
    assert(exported == CheckStepView::WalkBefore {
        resolved: mode::resolved_in(before, after, config.paths, config.import_paths),
    });
    lemma_resolved_stays_on(exported, events);
}

/// Between two references the worktree has no part: what is to be taken out of the
/// repository are the wanted paths at these two references, and nothing else is exported.
pub proof fn law_references_leave_the_worktree_alone(config: ConfigView)
    requires
        mode::mode_of(config) is Ok,
        config.before_ref is Some || config.after_ref is Some,
    ensures
        config.before_ref is Some,
        config.after_ref is Some,
        start_of(config) == (CheckStepView::Export {
            plan: ExportPlanView::Refs {
                before_ref: config.before_ref->0,
                after_ref: config.after_ref->0,
                roots: git::archived(config.paths, config.import_paths),
            },
            paths: config.paths,
            import_paths: config.import_paths,
        }),
{
}

} // verus!
