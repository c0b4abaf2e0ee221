//! What is printed, and what it says of the schemas.

use crate::laws::orders;
use crate::laws::words;
use crate::order;
use crate::report;
use crate::schema::{ErrorView, LintSeverity, LintView, ReportView, ViolationView};
use crate::text;
use vstd::prelude::*;

verus! {

/// A line: what it is about, what it says, and the end of the line.
pub open spec fn said(label: Seq<char>, content: Seq<char>) -> Seq<char> {
    label + content + seq!['\n']
}

/// A line, if there is something to say.
pub open spec fn said_if(label: Seq<char>, content: Option<Seq<char>>) -> Seq<char> {
    if content is Some {
        said(label, content->0)
    } else {
        Seq::empty()
    }
}

/// What is said of a violation.
pub open spec fn said_of_violation(v: ViolationView) -> Seq<char> {
    said("incompatible: "@, v.path) + said("  reason: "@, v.reason) + said_if(
        "  before: "@,
        v.before,
    ) + said_if("  after: "@, v.after)
}

/// What is said of a lint.
pub open spec fn said_of_lint(l: LintView) -> Seq<char> {
    said("lint: "@, l.path) + said(
        "  severity: "@,
        if l.severity == LintSeverity::Error {
            "error"@
        } else {
            "warning"@
        },
    ) + said("  reason: "@, l.reason) + said_if("  detail: "@, l.detail)
}

/// Everything there is to say of a report: first of the violations, one after the other, and
/// then of the lints.
pub open spec fn all_said(report: ReportView) -> Seq<char> {
    report.violations.map_values(|v: ViolationView| said_of_violation(v)).flatten()
        + report.lints.map_values(|l: LintView| said_of_lint(l)).flatten()
}

proof fn lemma_trimmed_end(s: Seq<char>)
    ensures
        text::trim_end(s).is_prefix_of(s),
        words::all_blank(s.skip(text::trim_end(s).len() as int)),
        text::trim_end(s).len() > 0 ==> !words::blank(text::trim_end(s).last()),
    decreases s.len(),
{
    if s.len() > 0 {
        words::law_white_space(s.last());
        if words::blank(s.last()) {
            let shorter = s.drop_last();
            lemma_trimmed_end(shorter);
            let n = text::trim_end(shorter).len() as int;
            assert(s.skip(n) =~= shorter.skip(n).push(s.last()));
            assert(text::trim_end(s) == text::trim_end(shorter));
        } else {
            assert(s.skip(s.len() as int) =~= Seq::empty());
        }
    }
}

/// The print of a report says everything there is to say, in order, up to the white space at
/// its end. Of nothing at all it says so.
pub proof fn law_report_says_everything(report: ReportView)
    ensures
        report.violations.len() > 0 || report.lints.len() > 0 ==> {
            let shown = report::report_text(report);
            &&& shown.is_prefix_of(all_said(report))
            &&& words::all_blank(all_said(report).skip(shown.len() as int))
            &&& shown.len() > 0 ==> !words::blank(shown.last())
        },
        report.violations.len() == 0 && report.lints.len() == 0 ==> report::report_text(report)
            == "compatible: no backwards-incompatible schema changes found"@,
{
    reveal_strlit("\n");
    assert("\n"@ =~= seq!['\n']);
    let f = |v: ViolationView| report::violation_lines(v);
    let g = |l: LintView| report::lint_lines(l);
    orders::lemma_gather_flattens(report.violations, f);
    orders::lemma_gather_flattens(report.lints, g);
    assert forall|v: ViolationView| #[trigger] f(v) == said_of_violation(v) by {}
    assert forall|l: LintView| #[trigger] g(l) == said_of_lint(l) by {}
    assert(report.violations.map_values(f) =~= report.violations.map_values(
        |v: ViolationView| said_of_violation(v),
    ));
    assert(report.lints.map_values(g) =~= report.lints.map_values(|l: LintView| said_of_lint(l)));
    lemma_trimmed_end(all_said(report));
}

/// Schemas are compatible exactly if there is no violation and no lint is more than a
/// warning.
pub proof fn law_compatible(report: ReportView)
    ensures
        report.compatible() <==> report.violations.len() == 0 && forall|i: int|
            0 <= i < report.lints.len() ==> (#[trigger] report.lints[i]).severity
                == LintSeverity::Warning,
        report.has_error_lints() <==> exists|i: int|
            0 <= i < report.lints.len() && (#[trigger] report.lints[i]).severity
                == LintSeverity::Error,
{
    assert forall|i: int| 0 <= i < report.lints.len() implies (
    #[trigger] report.lints[i]).severity == LintSeverity::Error || report.lints[i].severity
        == LintSeverity::Warning by {
        match report.lints[i].severity {
            LintSeverity::Error => {},
            LintSeverity::Warning => {},
        }
    }
}

/// The paths of the violations are listed once each, all of them and no others.
pub proof fn law_violation_paths(report: ReportView, path: Seq<char>)
    ensures
        order::names(report::violated(report)).contains(path) <==> exists|i: int|
            0 <= i < report.violations.len() && (#[trigger] report.violations[i]).path == path,
        order::names(report::violated(report)).no_duplicates(),
{
    let all = report.violations.map_values(|v: ViolationView| v.path);
    let set = report::violated(report);
    let names = order::names(set);
    order::lemma_orders_total();
    vstd::seq_lib::seq_to_set_is_finite(all);
    order::lemma_ascending(set, order::text_order());
    order::lemma_in_order_distinct(names, order::text_order());
    assert(names.contains(path) <==> names.to_set().contains(path));
    if set.contains(path) {
        let i = choose|i: int| 0 <= i < all.len() && all[i] == path;
        assert(report.violations[i].path == path);
    }
    if exists|i: int|
        0 <= i < report.violations.len() && (#[trigger] report.violations[i]).path == path {
        let i = choose|i: int|
            0 <= i < report.violations.len() && (#[trigger] report.violations[i]).path == path;
        assert(all[i] == path);
    }
}

/// What an error says, where it is about a file, about nothing found, or about the call.
pub proof fn law_errors_say_where(path: Seq<char>, message: Seq<char>)
    ensures
        report::error_text(ErrorView::Io { path, source: message }) == path + ": "@ + message,
        report::error_text(ErrorView::NoSchemas(path)) == "no .capnp files found under "@ + path,
        report::error_text(ErrorView::Usage(message)) == message,
{
}

/// What an error says of a program that failed: how it was called and, on lines of their own,
/// what it complained about, if it did.
pub proof fn law_errors_say_what_failed(
    command: Seq<char>,
    a: Seq<char>,
    complaint: Seq<char>,
    b: Seq<char>,
)
    requires
        words::all_blank(a),
        words::all_blank(b),
        words::bounded(complaint),
    ensures
        ({
            let stderr = a + complaint + b;
            let shown = "`"@ + command + "` failed"@ + if complaint.len() > 0 {
                seq!['\n'] + complaint
            } else {
                Seq::empty()
            };
            &&& report::error_text(ErrorView::CommandFailed { command, stderr }) == shown
            &&& report::error_text(ErrorView::CapnpFailed { command, stderr }) == shown
        }),
{
    reveal_strlit("\n");
    assert("\n"@ =~= seq!['\n']);
    words::law_trim(a, complaint, b);
}

} // verus!
