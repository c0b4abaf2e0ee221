//! What a report says, and how it is printed.

use crate::names::NameMap;
use crate::order;
use crate::schema;
use crate::schema::{
    pair_text, Error, ErrorView, Lint, LintSeverity, LintView, Report, ReportView, Violation,
    ViolationView,
};
use crate::text;
use crate::text::{chars_of, string_of, trimmed, trimmed_end};
use vstd::prelude::*;

verus! {

impl Report {
    /// Whether the later schemas can take the place of the earlier ones: nothing
    /// breaks, and no lint is an error.
    pub fn is_compatible(&self) -> (yes: bool)
        ensures
            yes == self@.compatible(),
    {
        self.violations.is_empty() && !self.has_error_lints()
    }

    /// Whether some lint is an error.
    pub fn has_error_lints(&self) -> (yes: bool)
        ensures
            yes == self@.has_error_lints(),
    {
        let mut i: usize = 0;
        while i < self.lints.len()
            invariant
                i <= self.lints@.len(),
                forall|j: int|
                    0 <= j < i ==> (#[trigger] self@.lints[j]).severity != LintSeverity::Error,
            decreases self.lints@.len() - i,
        {
            assert(self@.lints[i as int] == self.lints@[i as int]@);
            if self.lints[i].severity == LintSeverity::Error {
                return true;
            }
            i = i + 1;
        }
        false
    }
}

impl LintSeverity {
    /// The word for a severity.
    pub open spec fn word(self) -> Seq<char> {
        match self {
            LintSeverity::Error => "error"@,
            LintSeverity::Warning => "warning"@,
        }
    }

    /// The word for a severity.
    pub fn as_str(self) -> (word: &'static str)
        ensures
            word@ == self.word(),
    {
        match self {
            LintSeverity::Error => "error",
            LintSeverity::Warning => "warning",
        }
    }
}

/// A line of a report: a label and a text.
pub open spec fn line_of(label: Seq<char>, content: Seq<char>) -> Seq<char> {
    label + content + "\n"@
}

/// A line of a report that is there only if there is a text for it.
pub open spec fn optional_line(label: Seq<char>, content: Option<Seq<char>>) -> Seq<char> {
    match content {
        Some(content) => line_of(label, content),
        None => Seq::empty(),
    }
}

/// The lines on a violation.
pub open spec fn violation_lines(v: ViolationView) -> Seq<char> {
    line_of("incompatible: "@, v.path) + line_of("  reason: "@, v.reason) + optional_line(
        "  before: "@,
        v.before,
    ) + optional_line("  after: "@, v.after)
}

/// The lines on a lint.
pub open spec fn lint_lines(l: LintView) -> Seq<char> {
    line_of("lint: "@, l.path) + line_of("  severity: "@, l.severity.word()) + line_of(
        "  reason: "@,
        l.reason,
    ) + optional_line("  detail: "@, l.detail)
}

/// A report in print.
pub open spec fn report_text(report: ReportView) -> Seq<char> {
    if report.violations.len() == 0 && report.lints.len() == 0 {
        "compatible: no backwards-incompatible schema changes found"@
    } else {
        text::trim_end(
            order::gather(report.violations, |v: ViolationView| violation_lines(v)) + order::gather(
                report.lints,
                |l: LintView| lint_lines(l),
            ),
        )
    }
}

fn push_line(output: &mut String, label: &str, content: &str)
    ensures
        final(output)@ == old(output)@ + line_of(label@, content@),
{
    output.append(label);
    output.append(content);
    output.append("\n");
    assert(output@ =~= old(output)@ + line_of(label@, content@));
}

fn push_optional(output: &mut String, label: &str, content: &Option<String>)
    ensures
        final(output)@ == old(output)@ + optional_line(label@, text::view_of(*content)),
{
    match content {
        Some(content) => push_line(output, label, content.as_str()),
        None => {
            assert(output@ =~= old(output)@ + Seq::empty());
        },
    }
}

fn push_violation_lines(output: &mut String, v: &Violation)
    ensures
        final(output)@ == old(output)@ + violation_lines(v@),
{
    push_line(output, "incompatible: ", v.path.as_str());
    push_line(output, "  reason: ", v.reason.as_str());
    push_optional(output, "  before: ", &v.before);
    push_optional(output, "  after: ", &v.after);
    assert(output@ =~= old(output)@ + violation_lines(v@));
}

fn push_lint_lines(output: &mut String, l: &Lint)
    ensures
        final(output)@ == old(output)@ + lint_lines(l@),
{
    push_line(output, "lint: ", l.path.as_str());
    push_line(output, "  severity: ", l.severity.as_str());
    push_line(output, "  reason: ", l.reason.as_str());
    push_optional(output, "  detail: ", &l.detail);
    assert(output@ =~= old(output)@ + lint_lines(l@));
}

/// A report in print.
pub fn format_report(report: &Report) -> (output: String)
    ensures
        output@ == report_text(report@),
{
    if report.violations.is_empty() && report.lints.is_empty() {
        return "compatible: no backwards-incompatible schema changes found".to_owned();
    }
    let ghost f = |v: ViolationView| violation_lines(v);
    let ghost g = |l: LintView| lint_lines(l);
    let mut output = String::new();
    let mut i: usize = 0;
    while i < report.violations.len()
        invariant
            i <= report.violations@.len(),
            f == (|v: ViolationView| violation_lines(v)),
            output@ == order::gather(report@.violations.take(i as int), f),
        decreases report.violations@.len() - i,
    {
        push_violation_lines(&mut output, &report.violations[i]);
        proof {
            order::lemma_gather_step(report@.violations, i as int, f);
            assert(report@.violations[i as int] == report.violations@[i as int]@);
        }
        i = i + 1;
    }
    assert(report@.violations.take(i as int) =~= report@.violations);
    let ghost middle = output@;
    let mut k: usize = 0;
    while k < report.lints.len()
        invariant
            k <= report.lints@.len(),
            g == (|l: LintView| lint_lines(l)),
            output@ == middle + order::gather(report@.lints.take(k as int), g),
        decreases report.lints@.len() - k,
    {
        let ghost before = output@;
        push_lint_lines(&mut output, &report.lints[k]);
        proof {
            order::lemma_gather_step(report@.lints, k as int, g);
            assert(report@.lints[k as int] == report.lints@[k as int]@);
            assert(output@ =~= middle + order::gather(report@.lints.take(k + 1), g));
        }
        k = k + 1;
    }
    assert(report@.lints.take(k as int) =~= report@.lints);
    string_of(trimmed_end(chars_of(output.as_str()).as_slice()))
}

/// The paths of a report's violations, each once.
pub open spec fn violated(report: ReportView) -> Set<Seq<char>> {
    report.violations.map_values(|v: ViolationView| v.path).to_set()
}

/// The paths of a report's violations, each once and in order.
pub fn violation_paths(report: &Report) -> (paths: Vec<String>)
    ensures
        text::views(paths@) == order::names(violated(report@)),
{
    let mut seen: NameMap<usize> = NameMap::new();
    let ghost all = report@.violations.map_values(|v: ViolationView| v.path);
    let mut i: usize = 0;
    assert(seen@.dom() =~= all.take(0).to_set());
    while i < report.violations.len()
        invariant
            i <= report.violations@.len(),
            all == report@.violations.map_values(|v: ViolationView| v.path),
            seen@.dom() == all.take(i as int).to_set(),
        decreases report.violations@.len() - i,
    {
        let path = report.violations[i].path.clone();
        proof {
            assert(report@.violations[i as int] == report.violations@[i as int]@);
            assert(all.take(i + 1) =~= all.take(i as int).push(path@));
            order::lemma_set_push(all.take(i as int), path@);
        }
        seen.insert(path, i);
        assert(seen@.dom() =~= all.take(i + 1).to_set());
        i = i + 1;
    }
    assert(all.take(i as int) =~= all);
    let ghost keys = order::names(seen@.dom());
    let n: usize = seen.len();
    let mut paths: Vec<String> = Vec::new();
    let mut k: usize = 0;
    assert(text::views(paths@) =~= keys.take(0));
    while k < n
        invariant
            k <= n == keys.len(),
            keys == order::names(seen@.dom()),
            text::views(paths@) == keys.take(k as int),
        decreases n - k,
    {
        let (path, _) = seen.entry(k);
        let copy = path.clone();
        proof {
            schema::lemma_views_push(paths@, copy);
            assert(keys.take(k + 1) =~= keys.take(k as int).push(path@));
        }
        paths.push(copy);
        k = k + 1;
    }
    assert(keys.take(k as int) =~= keys);
    paths
}

/// What is said of a program that failed.
pub open spec fn failure_text(command: Seq<char>, stderr: Seq<char>) -> Seq<char> {
    "`"@ + command + "` failed"@ + if text::trim(stderr).len() == 0 {
        Seq::empty()
    } else {
        "\n"@ + text::trim(stderr)
    }
}

/// An error in print.
pub open spec fn error_text(error: ErrorView) -> Seq<char> {
    match error {
        ErrorView::Io { path, source } => path + ": "@ + source,
        ErrorView::CapnpFailed { command, stderr } => failure_text(command, stderr),
        ErrorView::CommandFailed { command, stderr } => failure_text(command, stderr),
        ErrorView::NoSchemas(path) => "no .capnp files found under "@ + path,
        ErrorView::Usage(message) => message,
    }
}

fn failure(command: &str, stderr: &str) -> (message: String)
    ensures
        message@ == failure_text(command@, stderr@),
{
    let mut message = pair_text("`", command, "` failed");
    let chars = chars_of(stderr);
    let detail = trimmed(chars.as_slice());
    let ghost start = message@;
    if detail.len() > 0 {
        message.append("\n");
        message.append(string_of(detail).as_str());
    }
    assert(message@ =~= failure_text(command@, stderr@));
    message
}

impl Error {
    /// The error in print.
    pub fn message(&self) -> (message: String)
        ensures
            message@ == error_text(self@),
    {
        match self {
            Error::Io { path, source } => pair_text(path.as_str(), ": ", source.as_str()),
            Error::CapnpFailed { command, stderr } => failure(command.as_str(), stderr.as_str()),
            Error::CommandFailed { command, stderr } => failure(command.as_str(), stderr.as_str()),
            Error::NoSchemas(path) => {
                let mut message = "no .capnp files found under ".to_owned();
                message.append(path.as_str());
                message
            },
            Error::Usage(message) => message.clone(),
        }
    }
}

/// What a check ends with: the exit status, and what is printed. The print goes to the
/// standard output, or to the standard error if the status is 2.
#[derive(Debug, Clone, PartialEq, Eq)]
pub struct Conclusion {
    pub status: u8,
    pub message: String,
}

/// What a check ends with that came to a report.
pub fn conclude_report(report: &Report) -> (conclusion: Conclusion)
    ensures
        conclusion.status == if report@.compatible() {
            0u8
        } else {
            1u8
        },
        conclusion.message@ == report_text(report@),
{
    let status: u8 = if report.is_compatible() {
        0
    } else {
        1
    };
    Conclusion { status, message: format_report(report) }
}

/// What a check ends with that could not be carried out.
pub fn conclude_error(error: &Error) -> (conclusion: Conclusion)
    ensures
        conclusion.status == 2,
        conclusion.message@ == match error@ {
            ErrorView::Usage(message) => message,
            other => "error: "@ + error_text(other),
        },
{
    match error {
        Error::Usage(message) => Conclusion { status: 2, message: message.clone() },
        _ => {
            let mut message = "error: ".to_owned();
            message.append(error.message().as_str());
            Conclusion { status: 2, message }
        },
    }
}

proof fn lemma_gather_first<K>(items: Seq<K>, f: spec_fn(K) -> Seq<char>, c: char)
    requires
        items.len() > 0,
        forall|i: int|
            0 <= i < items.len() ==> f(#[trigger] items[i]).len() > 0 && f(items[i])[0] == c,
    ensures
        order::gather(items, f).len() > 0,
        order::gather(items, f)[0] == c,
    decreases items.len(),
{
    let shorter = items.drop_last();
    assert(items[items.len() - 1] == items.last());
    if shorter.len() > 0 {
        assert forall|i: int| 0 <= i < shorter.len() implies f(#[trigger] shorter[i]).len() > 0 && f(
            shorter[i],
        )[0] == c by {
            assert(shorter[i] == items[i]);
        }
        lemma_gather_first(shorter, f, c);
    } else {
        assert(order::gather(shorter, f) =~= Seq::empty());
    }
}

proof fn lemma_trim_keeps_first(s: Seq<char>)
    requires
        s.len() > 0,
        !text::is_white_space(s[0]),
    ensures
        text::trim_end(s).len() > 0,
        text::trim_end(s)[0] == s[0],
    decreases s.len(),
{
    if text::is_white_space(s.last()) {
        lemma_trim_keeps_first(s.drop_last());
    }
}

/// The print of a report tells the three cases apart by its first character: something
/// breaks, there are only remarks, or there is nothing at all.
pub proof fn law_report_text_tells_apart(report: ReportView)
    ensures
        report_text(report).len() > 0,
        report_text(report)[0] == if report.violations.len() > 0 {
            'i'
        } else if report.lints.len() > 0 {
            'l'
        } else {
            'c'
        },
{
    let f = |v: ViolationView| violation_lines(v);
    let g = |l: LintView| lint_lines(l);
    let a = order::gather(report.violations, f);
    let b = order::gather(report.lints, g);
    if report.violations.len() > 0 {
        reveal_strlit("incompatible: ");
        assert forall|i: int| 0 <= i < report.violations.len() implies f(
            #[trigger] report.violations[i],
        ).len() > 0 && f(report.violations[i])[0] == 'i' by {}
        lemma_gather_first(report.violations, f, 'i');
        lemma_trim_keeps_first(a + b);
    } else if report.lints.len() > 0 {
        reveal_strlit("lint: ");
        assert forall|i: int| 0 <= i < report.lints.len() implies g(
            #[trigger] report.lints[i],
        ).len() > 0 && g(report.lints[i])[0] == 'l' by {}
        lemma_gather_first(report.lints, g, 'l');
        assert(a =~= Seq::empty());
        assert(a + b =~= b);
        lemma_trim_keeps_first(a + b);
    } else {
        reveal_strlit("compatible: no backwards-incompatible schema changes found");
    }
}

/// Remarks that are only worth knowing do not make schemas incompatible.
pub proof fn law_warnings_do_not_break(report: ReportView)
    requires
        report.violations.len() == 0,
        forall|i: int|
            0 <= i < report.lints.len() ==> (#[trigger] report.lints[i]).severity
                == LintSeverity::Warning,
    ensures
        report.compatible(),
{
}

} // verus!
