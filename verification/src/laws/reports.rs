//! What a run prints and whether it fails.

use crate::baseline::Partitioned;
use crate::checks::source_findings;
use crate::files::{sort_files, text_file_views, TextFileView};
use crate::findings::{finding_views, CheckConfig, FindingView, Severity};
use crate::references::{known_functions, stale_findings, stale_references, DocTree};
use crate::report::{
    contract_findings, count, finding_line, is_report, reported, stale_line, summary_line,
    tree_findings, Report,
};
use crate::text::{decimal, views};
use vstd::prelude::*;

verus! {

/// Every contract is looked at: the findings on one more come last.
pub proof fn law_every_contract_is_looked_at(
    files: Seq<TextFileView>,
    file: TextFileView,
    config: CheckConfig,
)
    ensures
        contract_findings(Seq::empty(), config) == Seq::<FindingView>::empty(),
        contract_findings(files.push(file), config) == contract_findings(files, config)
            + source_findings(file.text, file.path, config),
{
    assert(files.push(file).drop_last() =~= files);
}

/// Stale references are reported where there is a tree of documents and
/// contracts, and nothing where there is none.
pub proof fn law_stale_references_need_a_tree(
    repo_root: Seq<char>,
    tree: DocTree,
    config: CheckConfig,
)
    ensures
        tree_findings(repo_root, None, config) == Seq::<FindingView>::empty(),
        tree_findings(repo_root, Some(&tree), config) == stale_findings(
            repo_root,
            stale_references(
                sort_files(text_file_views(tree.docs@)),
                known_functions(views(tree.sources@)),
            ),
            config,
        ),
{
}

/// Every finding counts once, with its severity.
pub proof fn law_every_finding_counts_once(
    a: Seq<FindingView>,
    finding: FindingView,
    b: Seq<FindingView>,
    severity: Severity,
)
    ensures
        count(Seq::empty(), severity) == 0,
        finding.severity == severity ==> count(a + seq![finding] + b, severity) == count(a, severity)
            + 1 + count(b, severity),
        finding.severity != severity ==> count(a + seq![finding] + b, severity) == count(a, severity)
            + count(b, severity),
    decreases b.len(),
{
    let all = a + seq![finding] + b;
    if b.len() == 0 {
        assert(all.drop_last() =~= a);
        assert(all.last() == finding);
    } else {
        law_every_finding_counts_once(a, finding, b.drop_last(), severity);
        assert(all.drop_last() =~= a + seq![finding] + b.drop_last());
        assert(all.last() == b.last());
    }
}

/// A report has a line for every finding, baselined ones first, and for every
/// stale entry, in order. It counts the findings that fail, and those that
/// warn together with the stale entries.
pub proof fn law_everything_is_reported(
    report: Report,
    parts: Partitioned,
    stale_entries: Seq<Seq<char>>,
)
    requires
        is_report(report, reported(parts), stale_entries),
    ensures
        ({
            let first = finding_views(parts.baselined@);
            let second = finding_views(parts.unmatched@);
            let lines = views(report.lines@);
            &&& lines.len() == first.len() + second.len() + stale_entries.len()
            &&& forall|i: int|
                0 <= i < first.len() ==> #[trigger] lines[i] == line_on(first[i])
            &&& forall|i: int|
                0 <= i < second.len() ==> lines[first.len() + i] == line_on(#[trigger] second[i])
            &&& forall|i: int|
                0 <= i < stale_entries.len() ==> lines[first.len() + second.len() + i]
                    == "warning: stale baseline entry (violation appears fixed): "@
                    + #[trigger] stale_entries[i]
            &&& report.failures == count(first + second, Severity::Fail)
            &&& report.warnings == count(first + second, Severity::Warn) + stale_entries.len()
        }),
{
    let first = finding_views(parts.baselined@);
    let second = finding_views(parts.unmatched@);
    let lines = views(report.lines@);
    reveal_strlit("warning");
    reveal_strlit("error");
    reveal_strlit(": ");
    reveal_strlit("warning: ");
    reveal_strlit("error: ");
    assert("warning"@ + ": "@ =~= "warning: "@);
    assert("error"@ + ": "@ =~= "error: "@);
    assert forall|i: int| 0 <= i < first.len() implies #[trigger] lines[i] == line_on(
        first[i],
    ) by {
        assert(lines[i] == finding_line(first[i]));
    }
    assert forall|i: int| 0 <= i < second.len() implies lines[first.len() + i] == line_on(
        #[trigger] second[i],
    ) by {
        assert(lines[first.len() + i] == finding_line(second[i]));
    }
    assert forall|i: int| 0 <= i < stale_entries.len() implies lines[first.len() + second.len() + i]
        == "warning: stale baseline entry (violation appears fixed): "@
        + #[trigger] stale_entries[i] by {
        assert(lines[first.len() + second.len() + i] == stale_line(stale_entries[i]));
    }
}

/// The line on a finding.
pub open spec fn line_on(finding: FindingView) -> Seq<char> {
    if finding.severity == Severity::Fail {
        "error: "@ + finding.message
    } else {
        "warning: "@ + finding.message
    }
}

/// The last line says both numbers.
pub proof fn law_the_last_line_sums_up(failures: nat, warnings: nat)
    ensures
        summary_line(failures, warnings) == "Documentation findings: "@ + decimal(failures)
            + " error(s), "@ + decimal(warnings) + " warning(s)"@,
{
}

} // verus!
